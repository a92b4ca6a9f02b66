//! Character-level reading of the protocol's header and row lines.
use vstd::prelude::*;
use vstd::string::*;

use crate::grid::{is_rect, Size};

verus! {

/// The characters that Unicode gives the White_Space property.
pub open spec fn is_ws(c: char) -> bool {
    let u = c as u32;
    (9 <= u <= 13) || u == 32 || u == 0x85 || u == 0xa0 || u == 0x1680 || (0x2000 <= u <= 0x200a)
        || u == 0x2028 || u == 0x2029 || u == 0x202f || u == 0x205f || u == 0x3000
}

pub fn is_whitespace(c: char) -> (r: bool)
    ensures
        r == is_ws(c),
{
    let u = c as u32;
    (9 <= u && u <= 13) || u == 32 || u == 0x85 || u == 0xa0 || u == 0x1680 || (0x2000 <= u && u
        <= 0x200a) || u == 0x2028 || u == 0x2029 || u == 0x202f || u == 0x205f || u == 0x3000
}

/// The views of a sequence of character vectors.
pub open spec fn views(v: Seq<Vec<char>>) -> Seq<Seq<char>> {
    v.map_values(|r: Vec<char>| r@)
}

/// The characters of a string slice, in order.
pub fn chars_of(s: &str) -> (r: Vec<char>)
    ensures
        r@ == s@,
{
    let n = s.unicode_len();
    let mut v: Vec<char> = Vec::new();
    let mut i: usize = 0;
    while i < n
        invariant
            n == s@.len(),
            i <= n,
            v@ == s@.subrange(0, i as int),
        decreases n - i,
    {
        v.push(s.get_char(i));
        i = i + 1;
    }
    assert(v@ =~= s@);
    v
}

/// Whether `s` begins with `prefix`.
pub open spec fn has_prefix(s: Seq<char>, prefix: Seq<char>) -> bool {
    prefix.len() <= s.len() && s.subrange(0, prefix.len() as int) == prefix
}

pub fn starts_with(s: &Vec<char>, prefix: &str) -> (r: bool)
    ensures
        r == has_prefix(s@, prefix@),
{
    let p = chars_of(prefix);
    if p.len() > s.len() {
        return false;
    }
    let mut i: usize = 0;
    while i < p.len()
        invariant
            p@ == prefix@,
            p.len() <= s.len(),
            i <= p.len(),
            s@.subrange(0, i as int) == p@.subrange(0, i as int),
        decreases p.len() - i,
    {
        if s[i] != p[i] {
            assert(s@.subrange(0, p.len() as int)[i as int] != p@[i as int]);
            return false;
        }
        assert(s@.subrange(0, i + 1) =~= p@.subrange(0, i + 1));
        i = i + 1;
    }
    assert(p@.subrange(0, p.len() as int) =~= p@);
    true
}

/// `s` without the characters `c` at its end.
pub open spec fn strip_end(s: Seq<char>, c: char) -> Seq<char>
    decreases s.len(),
{
    if s.len() > 0 && s.last() == c {
        strip_end(s.drop_last(), c)
    } else {
        s
    }
}

/// Length of `s` without the white space at its end.
pub open spec fn trimmed_len(s: Seq<char>) -> nat
    decreases s.len(),
{
    if s.len() > 0 && is_ws(s.last()) {
        trimmed_len(s.drop_last())
    } else {
        s.len()
    }
}

pub proof fn lemma_trimmed_len_bound(s: Seq<char>)
    ensures
        trimmed_len(s) <= s.len(),
    decreases s.len(),
{
    if s.len() > 0 && is_ws(s.last()) {
        lemma_trimmed_len_bound(s.drop_last());
    }
}

pub fn trimmed_length(s: &Vec<char>) -> (r: usize)
    ensures
        r == trimmed_len(s@),
{
    let mut n = s.len();
    assert(s@.subrange(0, n as int) =~= s@);
    while n > 0 && is_whitespace(s[n - 1])
        invariant
            n <= s.len(),
            trimmed_len(s@.subrange(0, n as int)) == trimmed_len(s@),
        decreases n,
    {
        assert(s@.subrange(0, n as int).drop_last() =~= s@.subrange(0, n - 1));
        n = n - 1;
    }
    n
}

/// The words of `s[i..]`, the first of them extended by `cur`: the maximal
/// runs of characters that are not white space.
pub open spec fn words_from(s: Seq<char>, i: int, cur: Seq<char>) -> Seq<Seq<char>>
    decreases s.len() - i,
{
    if i >= s.len() {
        if cur.len() > 0 {
            seq![cur]
        } else {
            Seq::empty()
        }
    } else if is_ws(s[i]) {
        (if cur.len() > 0 {
            seq![cur]
        } else {
            Seq::empty()
        }) + words_from(s, i + 1, Seq::empty())
    } else {
        words_from(s, i + 1, cur.push(s[i]))
    }
}

/// The white-space separated words of `s`.
pub open spec fn words(s: Seq<char>) -> Seq<Seq<char>> {
    words_from(s, 0, Seq::empty())
}

pub fn split_words(s: &Vec<char>, end: usize) -> (r: Vec<Vec<char>>)
    requires
        end <= s.len(),
    ensures
        views(r@) == words(s@.subrange(0, end as int)),
{
    let ghost t = s@.subrange(0, end as int);
    let mut done: Vec<Vec<char>> = Vec::new();
    let mut cur: Vec<char> = Vec::new();
    let mut i: usize = 0;
    while i < end
        invariant
            end <= s.len(),
            t == s@.subrange(0, end as int),
            i <= end,
            views(done@) + words_from(t, i as int, cur@) == words(t),
        decreases end - i,
    {
        let c = s[i];
        assert(t[i as int] == c);
        if is_whitespace(c) {
            if cur.len() > 0 {
                let ghost before = done@;
                done.push(cur);
                assert(views(done@) =~= views(before).push(cur@));
                assert(views(done@) + words_from(t, i + 1, Seq::empty()) =~= views(before) + (seq![
                    cur@,
                ] + words_from(t, i + 1, Seq::empty())));
            } else {
                assert(Seq::<Seq<char>>::empty() + words_from(t, i + 1, Seq::empty()) =~= words_from(t, i + 1, Seq::empty()));
            }
            cur = Vec::new();
            assert(cur@ =~= Seq::<char>::empty());
        } else {
            cur.push(c);
        }
        i = i + 1;
    }
    if cur.len() > 0 {
        let ghost before = done@;
        done.push(cur);
        assert(views(done@) =~= views(before).push(cur@));
        assert(views(done@) =~= views(before) + seq![cur@]);
    } else {
        assert(views(done@) + Seq::<Seq<char>>::empty() =~= views(done@));
    }
    done
}

pub open spec fn is_digit(c: char) -> bool {
    '0' <= c <= '9'
}

pub open spec fn digit_value(c: char) -> int {
    c as int - '0' as int
}

/// The number that a run of decimal digits writes.
pub open spec fn decimal_value(s: Seq<char>) -> int
    decreases s.len(),
{
    if s.len() == 0 {
        0
    } else {
        decimal_value(s.drop_last()) * 10 + digit_value(s.last())
    }
}

/// The digits of a number as `usize`'s `FromStr` reads them: an optional
/// leading plus sign is dropped.
pub open spec fn unsigned_digits(s: Seq<char>) -> Seq<char> {
    if s.len() > 0 && s[0] == '+' {
        s.drop_first()
    } else {
        s
    }
}

/// The `usize` that `s` writes, if it writes one.
pub open spec fn parse_usize(s: Seq<char>) -> Option<usize> {
    let d = unsigned_digits(s);
    if d.len() > 0 && (forall|i: int| 0 <= i < d.len() ==> is_digit(#[trigger] d[i]))
        && decimal_value(d) <= usize::MAX {
        Some(decimal_value(d) as usize)
    } else {
        None
    }
}

proof fn lemma_decimal_prefix(s: Seq<char>, k: int)
    requires
        0 <= k <= s.len(),
        forall|i: int| 0 <= i < s.len() ==> is_digit(#[trigger] s[i]),
    ensures
        decimal_value(s.subrange(0, k)) <= decimal_value(s),
        decimal_value(s) >= 0,
    decreases s.len(),
{
    if s.len() > 0 {
        lemma_decimal_prefix(s.drop_last(), if k == s.len() { k - 1 } else { k });
        if k < s.len() {
            assert(s.drop_last().subrange(0, k) =~= s.subrange(0, k));
        } else {
            assert(s.subrange(0, k) =~= s);
        }
    } else {
        assert(s.subrange(0, k) =~= s);
    }
}

pub fn parse_number(s: &Vec<char>) -> (r: Option<usize>)
    ensures
        r == parse_usize(s@),
{
    let ghost d = unsigned_digits(s@);
    let start: usize = if s.len() > 0 && s[0] == '+' {
        1
    } else {
        0
    };
    assert(d =~= s@.subrange(start as int, s.len() as int));
    if start >= s.len() {
        return None;
    }
    let mut v: usize = 0;
    let mut i: usize = start;
    while i < s.len()
        invariant
            start <= i <= s.len(),
            d == unsigned_digits(s@),
            d == s@.subrange(start as int, s.len() as int),
            forall|j: int| 0 <= j < i - start ==> is_digit(#[trigger] d[j]),
            v == decimal_value(d.subrange(0, i - start)),
        decreases s.len() - i,
    {
        let c = s[i];
        assert(d[i - start] == c);
        if c < '0' || c > '9' {
            assert(!is_digit(d[i - start]));
            return None;
        }
        let dv = (c as u32 - '0' as u32) as usize;
        assert(d.subrange(0, i + 1 - start).drop_last() =~= d.subrange(0, i - start));
        match v.checked_mul(10) {
            None => {
                proof {
                    assert(is_digit(d[i - start]));
                    lemma_overflow_beyond(d, i + 1 - start);
                }
                return None;
            },
            Some(t) => match t.checked_add(dv) {
                None => {
                    proof {
                        assert(is_digit(d[i - start]));
                        lemma_overflow_beyond(d, i + 1 - start);
                    }
                    return None;
                },
                Some(w) => {
                    v = w;
                },
            },
        }
        i = i + 1;
    }
    assert(d.subrange(0, d.len() as int) =~= d);
    Some(v)
}

/// A prefix of digits whose value passes `usize::MAX` leaves no number
/// that `parse_usize` accepts.
proof fn lemma_overflow_beyond(d: Seq<char>, k: int)
    requires
        0 < k <= d.len(),
        forall|j: int| 0 <= j < k ==> is_digit(#[trigger] d[j]),
        decimal_value(d.subrange(0, k)) > usize::MAX,
    ensures
        !((forall|i: int| 0 <= i < d.len() ==> is_digit(#[trigger] d[i])) && decimal_value(d)
            <= usize::MAX),
{
    if forall|i: int| 0 <= i < d.len() ==> is_digit(#[trigger] d[i]) {
        lemma_decimal_prefix(d, k);
    }
}

/// The width and height that a header line `"<Name> <width> <height>:"`
/// announces.
pub open spec fn header_size(line: Seq<char>) -> Option<Size> {
    let w = words(strip_end(line, ':'));
    if w.len() >= 3 && parse_usize(w[1]) is Some && parse_usize(w[2]) is Some {
        Some(Size { width: parse_usize(w[1])->0, height: parse_usize(w[2])->0 })
    } else {
        None
    }
}

/// Reads the dimensions out of a header line.
pub fn parse_header(header: &str) -> (r: Option<Size>)
    ensures
        r == header_size(header@),
{
    let s = chars_of(header);
    let mut end = s.len();
    assert(s@.subrange(0, end as int) =~= s@);
    while end > 0 && s[end - 1] == ':'
        invariant
            end <= s.len(),
            strip_end(s@.subrange(0, end as int), ':') == strip_end(s@, ':'),
        decreases end,
    {
        assert(s@.subrange(0, end as int).drop_last() =~= s@.subrange(0, end - 1));
        end = end - 1;
    }
    let ghost t = s@.subrange(0, end as int);
    assert(strip_end(t, ':') == t);
    let w = split_words(&s, end);
    if w.len() < 3 {
        return None;
    }
    assert(views(w@)[1] == w@[1]@);
    assert(views(w@)[2] == w@[2]@);
    let width = parse_number(&w[1]);
    let height = parse_number(&w[2]);
    match (width, height) {
        (Some(width), Some(height)) => Some(Size { width, height }),
        _ => None,
    }
}

/// What is wrong with the lines that describe a board or a piece.
#[derive(Debug, Clone, Copy, PartialEq, Eq)]
pub enum ParseError {
    /// The header line names no width and height, or a shape too large to hold.
    InvalidHeader,
    /// The input ended before this row.
    MissingRow { row: usize },
    /// This row holds fewer characters than the shape's width.
    ShortRow { row: usize },
    /// A piece of a game record is not followed by the line that answers it.
    MissingAnswer,
    /// A game record lacks one of the two lines that name its players.
    MissingPlayer,
}

/// Row `row` of a shape stands in line `first + row`, where it holds
/// `width` characters after the first `skip` ones.
pub open spec fn row_fits(lines: Seq<String>, first: int, skip: int, width: int, row: int) -> bool {
    &&& first + row < lines.len()
    &&& trimmed_len(lines[first + row]@) >= skip + width
}

/// The error that reading row `row` ends with.
pub open spec fn row_error(lines: Seq<String>, first: int, row: int) -> ParseError {
    if first + row < lines.len() {
        ParseError::ShortRow { row: row as usize }
    } else {
        ParseError::MissingRow { row: row as usize }
    }
}

/// The rows of a `width` by `height` shape that `lines` hold from line
/// `first` on, if all of them are there.
pub open spec fn rows_read(
    lines: Seq<String>,
    first: int,
    skip: int,
    width: int,
    height: int,
    rows: Seq<Vec<char>>,
) -> bool {
    &&& is_rect(rows, width, height)
    &&& forall|r: int|
        0 <= r < height ==> (#[trigger] rows[r])@ == lines[first + r]@.subrange(
            skip,
            skip + width,
        )
}

/// Every row of a `width` by `height` shape stands in `lines`.
pub open spec fn all_rows_fit(lines: Seq<String>, first: int, skip: int, width: int, height: int) -> bool {
    forall|row: int| 0 <= row < height ==> #[trigger] row_fits(lines, first, skip, width, row)
}

/// `e` is the error met at the first row of a `width` by `height` shape
/// that does not stand in `lines`.
pub open spec fn read_failure(
    lines: Seq<String>,
    first: int,
    skip: int,
    width: int,
    height: int,
    e: ParseError,
) -> bool {
    exists|bad: int|
        0 <= bad < height && !row_fits(lines, first, skip, width, bad) && (forall|row: int|
            0 <= row < bad ==> #[trigger] row_fits(lines, first, skip, width, row)) && e
            == row_error(lines, first, bad)
}

/// Reads the rows of a `width` by `height` shape from `lines`, row `r`
/// from line `first + r` after its first `skip` characters. Fails at the
/// first row that is missing or too short.
pub fn read_rows(lines: &Vec<String>, first: usize, skip: usize, width: usize, height: usize) -> (r:
    Result<Vec<Vec<char>>, ParseError>)
    ensures
        r is Ok <==> all_rows_fit(lines@, first as int, skip as int, width as int, height as int),
        r matches Ok(rows) ==> rows_read(lines@, first as int, skip as int, width as int, height as int, rows@),
        r matches Err(e) ==> read_failure(lines@, first as int, skip as int, width as int, height as int, e),
{
    let mut rows: Vec<Vec<char>> = Vec::new();
    let mut r: usize = 0;
    while r < height
        invariant
            r <= height,
            forall|row: int| 0 <= row < r ==> #[trigger] row_fits(lines@, first as int, skip as int, width as int, row),
            rows_read(lines@, first as int, skip as int, width as int, r as int, rows@),
        decreases height - r,
    {
        if first >= lines.len() || r >= lines.len() - first {
            assert(!row_fits(lines@, first as int, skip as int, width as int, r as int));
            assert(row_error(lines@, first as int, r as int) == ParseError::MissingRow { row: r });
            assert(0 <= r < height && !row_fits(lines@, first as int, skip as int, width as int, r as int) && (
            forall|row: int| 0 <= row < r ==> #[trigger] row_fits(lines@, first as int, skip as int, width as int, row))
                && ParseError::MissingRow { row: r } == row_error(lines@, first as int, r as int));
            return Err(ParseError::MissingRow { row: r });
        }
        let line = chars_of(lines[first + r].as_str());
        let n = trimmed_length(&line);
        if n < skip || n - skip < width {
            assert(!row_fits(lines@, first as int, skip as int, width as int, r as int));
            assert(row_error(lines@, first as int, r as int) == ParseError::ShortRow { row: r });
            assert(0 <= r < height && !row_fits(lines@, first as int, skip as int, width as int, r as int) && (
            forall|row: int| 0 <= row < r ==> #[trigger] row_fits(lines@, first as int, skip as int, width as int, row))
                && ParseError::ShortRow { row: r } == row_error(lines@, first as int, r as int));
            return Err(ParseError::ShortRow { row: r });
        }
        let mut row: Vec<char> = Vec::new();
        let mut j: usize = 0;
        proof {
            lemma_trimmed_len_bound(line@);
        }
        assert(row@ =~= line@.subrange(skip as int, skip as int));
        while j < width
            invariant
                j <= width,
                skip + width <= n <= line@.len(),
                row@ == line@.subrange(skip as int, skip + j),
            decreases width - j,
        {
            row.push(line[skip + j]);
            j = j + 1;
        }
        rows.push(row);
        assert(row_fits(lines@, first as int, skip as int, width as int, r as int));
        r = r + 1;
        assert forall|k: int| 0 <= k < r implies (#[trigger] rows@[k])@ == lines@[first + k]@.subrange(
            skip as int,
            skip + width,
        ) by {}
    }
    Ok(rows)
}

} // verus!
