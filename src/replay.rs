//! The model of a recorded game that the replay viewer walks through.
use vstd::prelude::*;
use vstd::string::*;

use crate::field::{Field, ROW_LABEL};
use crate::grid::Size;
use crate::piece::{grid_filled, Piece};
use crate::player::first_player_mark;
use crate::scoring::{board_sum, row_sum};
use crate::text::{
    all_rows_fit, chars_of, has_prefix, header_size, is_whitespace, is_ws, rows_read, starts_with, trimmed_len,
    trimmed_length, ParseError,
};

verus! {

/// A player of a recorded game: its number, its board symbols, and the
/// path of the program that played it.
#[derive(Debug)]
pub struct Player {
    pub _num: usize,
    pub _symbol: (char, char),
    pub path: String,
    pub _score: usize,
}

/// Index of the first `':'` of `s` from `i` on, or -1.
pub open spec fn colon_from(s: Seq<char>, i: int) -> int
    decreases s.len() - i,
{
    if i >= s.len() {
        -1
    } else if s[i] == ':' {
        i
    } else {
        colon_from(s, i + 1)
    }
}

/// Index of the first character of `s[i..end]` that is not white space,
/// or `end`.
pub open spec fn lead_ws(s: Seq<char>, i: int, end: int) -> int
    decreases end - i,
{
    if i < end && is_ws(s[i]) {
        lead_ws(s, i + 1, end)
    } else {
        i
    }
}

/// What follows the first `':'` of a player line, without white space at
/// either end; empty where the line has no `':'`.
pub open spec fn path_of(s: Seq<char>) -> Seq<char> {
    let c = colon_from(s, 0);
    if c < 0 {
        Seq::empty()
    } else {
        let rest = s.subrange(c + 1, s.len() as int);
        let e = trimmed_len(rest) as int;
        rest.subrange(lead_ws(rest, 0, e), e)
    }
}

impl Player {
    /// The player that a line of the record's header names.
    pub fn new(input: &str) -> (r: Player)
        ensures
            r.path@ == path_of(input@),
            r._score == 0,
            has_prefix(input@, first_player_mark()) ==> r._num == 1 && r._symbol == ('a', '@'),
            !has_prefix(input@, first_player_mark()) ==> r._num == 2 && r._symbol == ('s', '$'),
    {
        let s = chars_of(input);
        let mut c: usize = 0;
        while c < s.len() && s[c] != ':'
            invariant
                c <= s.len(),
                colon_from(s@, c as int) == colon_from(s@, 0),
            decreases s.len() - c,
        {
            c = c + 1;
        }
        let path = if c >= s.len() {
            String::new()
        } else {
            let mut rest: Vec<char> = Vec::new();
            let mut k: usize = c + 1;
            while k < s.len()
                invariant
                    c < k <= s.len(),
                    rest@ == s@.subrange(c + 1, k as int),
                decreases s.len() - k,
            {
                rest.push(s[k]);
                k = k + 1;
            }
            let e = trimmed_length(&rest);
            proof {
                crate::text::lemma_trimmed_len_bound(rest@);
            }
            let mut b: usize = 0;
            while b < e && is_whitespace(rest[b])
                invariant
                    b <= e <= rest@.len(),
                    lead_ws(rest@, b as int, e as int) == lead_ws(rest@, 0, e as int),
                decreases e - b,
            {
                b = b + 1;
            }
            assert(s@ == input@);
            let sub = input.substring_char(c + 1 + b, c + 1 + e);
            assert(sub@ =~= rest@.subrange(b as int, e as int));
            sub.to_owned()
        };
        if starts_with(&s, "$$$ exec p1") {
            Player { _num: 1, _symbol: ('a', '@'), path, _score: 0 }
        } else {
            Player { _num: 2, _symbol: ('s', '$'), path, _score: 0 }
        }
    }

    /// Whether the board character `c` belongs to this player.
    pub fn _is_mine(&self, c: &char) -> (r: bool)
        ensures
            r == (self._symbol.0 == *c || self._symbol.1 == *c),
    {
        self._symbol.0 == *c || self._symbol.1 == *c
    }
}

/// The player that the answer line of a recorded turn names by the
/// symbol it shows: 1, 2, or 0 when it shows neither.
pub open spec fn answer_player(c: char) -> usize {
    if c == '@' {
        1
    } else if c == '$' {
        2
    } else {
        0
    }
}

/// Where the symbol of the player stands in an answer line.
pub const ANSWER_SYMBOL_AT: usize = 11;

/// A recorded game: its players, the board of each turn, the piece of
/// each turn with the player it was offered to, and the turn on show.
#[derive(Debug)]
pub struct Visualizer {
    pub players: [Player; 2],
    pub fields: Vec<Field>,
    pub pieces: Vec<(usize, Piece)>,
    pub turn: usize,
}

/// A header line that announces a shape small enough to hold.
pub open spec fn shape_of(line: Seq<char>) -> Option<Size> {
    match header_size(line) {
        Some(sz) => if sz.width * sz.height <= usize::MAX {
            Some(sz)
        } else {
            None
        },
        None => None,
    }
}

/// The player that the answer line `s` names: by its character at
/// `ANSWER_SYMBOL_AT`, 0 where it is shorter.
pub open spec fn answer_of(s: Seq<char>) -> usize {
    if ANSWER_SYMBOL_AT < s.len() {
        answer_player(s[ANSWER_SYMBOL_AT as int])
    } else {
        0
    }
}

/// The lines, from line `i` on, where the boards and the turns of a game
/// record start: a board is an `Anfield` header, a ruler and its rows; a
/// turn is a `Piece` header, its rows and an answer line; other lines are
/// passed over. `None` where some board or turn is malformed.
pub open spec fn walk(lines: Seq<String>, i: int) -> Option<(Seq<int>, Seq<int>)>
    decreases (if i < lines.len() { lines.len() - i } else { 0 }) as nat,
{
    if i < 0 || i >= lines.len() {
        Some((Seq::empty(), Seq::empty()))
    } else if has_prefix(lines[i]@, "Anfield"@) {
        match shape_of(lines[i]@) {
            None => None,
            Some(sz) => if all_rows_fit(lines, i + 2, ROW_LABEL as int, sz.width as int, sz.height as int) {
                match walk(lines, i + 2 + sz.height) {
                    Some(w) => Some((seq![i] + w.0, w.1)),
                    None => None,
                }
            } else {
                None
            },
        }
    } else if has_prefix(lines[i]@, "Piece"@) {
        match shape_of(lines[i]@) {
            None => None,
            Some(sz) => if all_rows_fit(lines, i + 1, 0, sz.width as int, sz.height as int) && i + 1
                + sz.height < lines.len() {
                match walk(lines, i + 2 + sz.height) {
                    Some(w) => Some((w.0, seq![i] + w.1)),
                    None => None,
                }
            } else {
                None
            },
        }
    } else {
        walk(lines, i + 1)
    }
}

/// `f` is the board whose header stands in line `j`.
pub open spec fn board_at(lines: Seq<String>, j: int, f: Field) -> bool {
    &&& shape_of(lines[j]@) == Some(f.size)
    &&& f.wf()
    &&& rows_read(lines, j + 2, ROW_LABEL as int, f.size.width as int, f.size.height as int, f.cells@)
}

/// `e` is the player and the piece of the turn whose header stands in
/// line `j`.
pub open spec fn turn_at(lines: Seq<String>, j: int, e: (usize, Piece)) -> bool {
    let p = e.1;
    &&& shape_of(lines[j]@) == Some(p.size)
    &&& p.wf()
    &&& rows_read(lines, j + 1, 0, p.size.width as int, p.size.height as int, p.cells@)
    &&& p.symbol_count == grid_filled(p.cells@)
    &&& p.is_trimmed()
    &&& p.trimmed_wf()
    &&& e.0 == answer_of(lines[j + 1 + p.size.height]@)
}

pub open spec fn after_walked(
    boards: Seq<int>,
    turns: Seq<int>,
    rest: Option<(Seq<int>, Seq<int>)>,
) -> Option<(Seq<int>, Seq<int>)> {
    match rest {
        Some(w) => Some((boards + w.0, turns + w.1)),
        None => None,
    }
}

impl Visualizer {
    /// Reads a game record: two player lines, then the boards and turns
    /// that `walk` finds.
    pub fn new(lines: &Vec<String>) -> (r: Result<Visualizer, ParseError>)
        requires
            lines@.len() < usize::MAX,
        ensures
            lines@.len() < 2 ==> r == Err::<Visualizer, ParseError>(ParseError::MissingPlayer),
            r is Ok <==> lines@.len() >= 2 && walk(lines@, 2) is Some,
            r matches Ok(v) ==> {
                let w = walk(lines@, 2)->0;
                &&& v.turn == 0
                &&& v.players[0].path@ == path_of(lines@[0]@)
                &&& v.players[1].path@ == path_of(lines@[1]@)
                &&& (has_prefix(lines@[0]@, first_player_mark()) <==> v.players[0]._num == 1)
                &&& (has_prefix(lines@[1]@, first_player_mark()) <==> v.players[1]._num == 1)
                &&& v.fields@.len() == w.0.len()
                &&& forall|k: int| 0 <= k < w.0.len() ==> board_at(lines@, w.0[k], #[trigger] v.fields@[k])
                &&& v.pieces@.len() == w.1.len()
                &&& forall|k: int| 0 <= k < w.1.len() ==> turn_at(lines@, w.1[k], #[trigger] v.pieces@[k])
            },
    {
        if lines.len() < 2 {
            return Err(ParseError::MissingPlayer);
        }
        let player1 = Player::new(lines[0].as_str());
        let player2 = Player::new(lines[1].as_str());
        let mut fields: Vec<Field> = Vec::new();
        let mut pieces: Vec<(usize, Piece)> = Vec::new();
        let ghost mut boards: Seq<int> = Seq::empty();
        let ghost mut turns: Seq<int> = Seq::empty();
        let mut i: usize = 2;
        while i < lines.len()
            invariant
                2 <= i,
                lines@.len() < usize::MAX,
                walk(lines@, 2) == after_walked(boards, turns, walk(lines@, i as int)),
                fields@.len() == boards.len(),
                pieces@.len() == turns.len(),
                forall|k: int| 0 <= k < boards.len() ==> board_at(lines@, boards[k], #[trigger] fields@[k]),
                forall|k: int| 0 <= k < turns.len() ==> turn_at(lines@, turns[k], #[trigger] pieces@[k]),
            decreases lines.len() - i,
        {
            let line = chars_of(lines[i].as_str());
            if starts_with(&line, "Anfield") {
                let mut field = Field::new(lines[i].as_str())?;
                field.update_at(lines, i + 1)?;
                let h = field.size.height;
                proof {
                    if h > 0 {
                        assert(crate::text::row_fits(lines@, i + 2, 4, field.size.width as int, h - 1));
                    }
                    let rest = walk(lines@, i + 2 + h);
                    assert(after_walked(boards, turns, walk(lines@, i as int)) == after_walked(
                        boards.push(i as int),
                        turns,
                        rest,
                    )) by {
                        if let Some(w) = rest {
                            assert(boards + (seq![i as int] + w.0) =~= boards.push(i as int) + w.0);
                        }
                    }
                    boards = boards.push(i as int);
                }
                fields.push(field);
                if lines.len() - i <= 1 + h {
                    i = lines.len();
                } else {
                    i = i + 2 + h;
                }
            } else if starts_with(&line, "Piece") {
                let mut piece = Piece::new(lines[i].as_str())?;
                piece.update_at(lines, i + 1)?;
                let h = piece.size.height;
                if h >= lines.len() - i - 1 {
                    return Err(ParseError::MissingAnswer);
                }
                let answer = lines[i + 1 + h].as_str();
                let symbol = if ANSWER_SYMBOL_AT < answer.unicode_len() {
                    answer.get_char(ANSWER_SYMBOL_AT)
                } else {
                    ' '
                };
                let player: usize = if symbol == '@' {
                    1
                } else if symbol == '$' {
                    2
                } else {
                    0
                };
                proof {
                    let rest = walk(lines@, i + 2 + h);
                    assert(after_walked(boards, turns, walk(lines@, i as int)) == after_walked(
                        boards,
                        turns.push(i as int),
                        rest,
                    )) by {
                        if let Some(w) = rest {
                            assert(turns + (seq![i as int] + w.1) =~= turns.push(i as int) + w.1);
                        }
                    }
                    turns = turns.push(i as int);
                }
                pieces.push((player, piece));
                i = i + 2 + h;
            } else {
                i = i + 1;
            }
        }
        proof {
            assert(boards + Seq::<int>::empty() =~= boards);
            assert(turns + Seq::<int>::empty() =~= turns);
        }
        Ok(Visualizer { players: [player1, player2], fields, pieces, turn: 0 })
    }

    /// Shows the next turn, if there is one.
    pub fn next_turn(&mut self)
        ensures
            final(self).fields == old(self).fields,
            final(self).pieces == old(self).pieces,
            final(self).players == old(self).players,
            final(self).turn == if old(self).turn + 1 < old(self).fields@.len() {
                old(self).turn + 1
            } else {
                old(self).turn as int
            },
    {
        if self.turn < self.fields.len() && self.fields.len() - self.turn > 1 {
            self.turn = self.turn + 1;
        }
    }

    /// Shows the previous turn, if there is one.
    pub fn prev_turn(&mut self)
        ensures
            final(self).fields == old(self).fields,
            final(self).pieces == old(self).pieces,
            final(self).players == old(self).players,
            final(self).turn == if old(self).turn > 0 {
                old(self).turn - 1
            } else {
                0
            },
    {
        if self.turn > 0 {
            self.turn = self.turn - 1;
        }
    }

    /// Shows the first turn.
    pub fn first_turn(&mut self)
        ensures
            final(self).fields == old(self).fields,
            final(self).pieces == old(self).pieces,
            final(self).players == old(self).players,
            final(self).turn == 0,
    {
        self.turn = 0;
    }

    /// Shows the last turn.
    pub fn last_turn(&mut self)
        requires
            old(self).fields@.len() > 0,
        ensures
            final(self).fields == old(self).fields,
            final(self).pieces == old(self).pieces,
            final(self).players == old(self).players,
            final(self).turn == old(self).fields@.len() - 1,
    {
        self.turn = self.fields.len() - 1;
    }
}

/// The colour that the viewer gives a board character.
pub open spec fn cell_rgb(c: char) -> (u8, u8, u8) {
    if c == '@' {
        (150, 60, 60)
    } else if c == 'a' {
        (255, 100, 100)
    } else if c == '$' {
        (60, 60, 150)
    } else if c == 's' {
        (100, 100, 255)
    } else if c == '.' {
        (40, 40, 40)
    } else {
        (80, 80, 80)
    }
}

pub fn cell_color(c: char) -> (r: (u8, u8, u8))
    ensures
        r == cell_rgb(c),
{
    if c == '@' {
        (150, 60, 60)
    } else if c == 'a' {
        (255, 100, 100)
    } else if c == '$' {
        (60, 60, 150)
    } else if c == 's' {
        (100, 100, 255)
    } else if c == '.' {
        (40, 40, 40)
    } else {
        (80, 80, 80)
    }
}

/// Side of a square cell so that a `width` by `height` grid fits in a
/// `limit` by `limit` square.
pub fn grid_cell_size(limit: usize, width: usize, height: usize) -> (r: usize)
    ensures
        r == vstd::math::min(
            (limit / vstd::math::max(width as int, 1) as usize) as int,
            (limit / vstd::math::max(height as int, 1) as usize) as int,
        ),
{
    let w = if width > 1 {
        width
    } else {
        1
    };
    let h = if height > 1 {
        height
    } else {
        1
    };
    let a = limit / w;
    let b = limit / h;
    if a < b {
        a
    } else {
        b
    }
}

/// 1 on the cells of the first player (`first`) or of the second.
pub open spec fn territory_weight(field: Field, first: bool) -> spec_fn(int, int) -> int {
    |x: int, y: int|
        if (first && (field.at(x, y) == '@' || field.at(x, y) == 'a')) || (!first && (field.at(x, y)
            == '$' || field.at(x, y) == 's')) {
            1int
        } else {
            0int
        }
}

/// How many cells of the board each player holds.
pub fn territory_counts(field: &Field) -> (r: (usize, usize))
    requires
        field.wf(),
    ensures
        r.0 == board_sum(territory_weight(*field, true), field.size.width as int, field.size.height as int),
        r.1 == board_sum(territory_weight(*field, false), field.size.width as int, field.size.height as int),
{
    let ghost f1 = territory_weight(*field, true);
    let ghost f2 = territory_weight(*field, false);
    let w = field.size.width;
    let h = field.size.height;
    let mut a: usize = 0;
    let mut b: usize = 0;
    let mut y: usize = 0;
    while y < h
        invariant
            field.wf(),
            f1 == territory_weight(*field, true),
            f2 == territory_weight(*field, false),
            w == field.size.width,
            h == field.size.height,
            y <= h,
            a == board_sum(f1, w as int, y as int),
            b == board_sum(f2, w as int, y as int),
            a + b <= y * w,
        decreases h - y,
    {
        let mut x: usize = 0;
        while x < w
            invariant
                field.wf(),
                f1 == territory_weight(*field, true),
                f2 == territory_weight(*field, false),
                w == field.size.width,
                h == field.size.height,
                y < h,
                x <= w,
                a == board_sum(f1, w as int, y as int) + row_sum(f1, y as int, x as int),
                b == board_sum(f2, w as int, y as int) + row_sum(f2, y as int, x as int),
                a + b <= y * w + x,
            decreases w - x,
        {
            proof {
                assert(y * w + x < w * h) by (nonlinear_arith)
                    requires
                        y < h,
                        x < w,
                ;
            }
            let c = field.cells[y][x];
            if c == '@' || c == 'a' {
                a = a + 1;
            } else if c == '$' || c == 's' {
                b = b + 1;
            }
            x = x + 1;
        }
        proof {
            assert((y + 1) * w == y * w + w) by (nonlinear_arith);
        }
        y = y + 1;
    }
    (a, b)
}

} // verus!
