use vstd::prelude::*;

use crate::cell::{filled, EMPTY};
use crate::grid::{blank_grid, is_rect, Grid, Size};
use crate::text::{
    all_rows_fit, header_size, parse_header, read_failure, read_rows, rows_read, views, ParseError,
};

verus! {

/// A row with no filled cell.
pub open spec fn row_blank(row: Seq<char>) -> bool {
    forall|j: int| 0 <= j < row.len() ==> row[j] == EMPTY
}

/// Column `c` holds no filled cell in the rows `top..bottom`.
pub open spec fn col_blank(rows: Seq<Vec<char>>, c: int, top: int, bottom: int) -> bool {
    forall|i: int| top <= i < bottom ==> (#[trigger] rows[i])@[c] == EMPTY
}

/// The first row from `t` on, before `bottom`, that is not blank.
pub open spec fn top_edge(rows: Seq<Vec<char>>, t: int, bottom: int) -> int
    decreases bottom - t,
{
    if t < bottom && row_blank(rows[t]@) {
        top_edge(rows, t + 1, bottom)
    } else {
        t
    }
}

/// One past the last row before `b`, after `top`, that is not blank.
pub open spec fn bottom_edge(rows: Seq<Vec<char>>, top: int, b: int) -> int
    decreases b - top,
{
    if b > top && row_blank(rows[b - 1]@) {
        bottom_edge(rows, top, b - 1)
    } else {
        b
    }
}

/// The first column from `l` on, before `right`, that is not blank in
/// the rows `top..bottom`.
pub open spec fn left_edge(rows: Seq<Vec<char>>, top: int, bottom: int, l: int, right: int) -> int
    decreases right - l,
{
    if l < right && col_blank(rows, l, top, bottom) {
        left_edge(rows, top, bottom, l + 1, right)
    } else {
        l
    }
}

/// One past the last column before `r`, after `left`, that is not blank in
/// the rows `top..bottom`.
pub open spec fn right_edge(rows: Seq<Vec<char>>, top: int, bottom: int, left: int, r: int) -> int
    decreases r - left,
{
    if r > left && col_blank(rows, r - 1, top, bottom) {
        right_edge(rows, top, bottom, left, r - 1)
    } else {
        r
    }
}

/// The content box `(top, bottom, left, right)` of a `width` by `height`
/// matrix: blank rows are stripped from the top, then from the bottom, and
/// blank columns of the rows left from the left, then from the right.
pub open spec fn trim_box(rows: Seq<Vec<char>>, width: int, height: int) -> (int, int, int, int) {
    let top = top_edge(rows, 0, height);
    let bottom = bottom_edge(rows, top, height);
    let left = left_edge(rows, top, bottom, 0, width);
    let right = right_edge(rows, top, bottom, left, width);
    (top, bottom, left, right)
}

/// Number of filled cells of a row.
pub open spec fn row_filled(row: Seq<char>) -> nat
    decreases row.len(),
{
    if row.len() == 0 {
        0
    } else {
        row_filled(row.drop_last()) + if filled(row.last()) {
            1nat
        } else {
            0nat
        }
    }
}

/// Number of filled cells of a matrix.
pub open spec fn grid_filled(rows: Seq<Vec<char>>) -> nat
    decreases rows.len(),
{
    if rows.len() == 0 {
        0
    } else {
        grid_filled(rows.drop_last()) + row_filled(rows.last()@)
    }
}

proof fn lemma_row_filled_bound(row: Seq<char>)
    ensures
        row_filled(row) <= row.len(),
    decreases row.len(),
{
    if row.len() > 0 {
        lemma_row_filled_bound(row.drop_last());
    }
}

proof fn lemma_grid_filled_bound(rows: Seq<Vec<char>>, width: int)
    requires
        width >= 0,
        forall|r: int| 0 <= r < rows.len() ==> (#[trigger] rows[r])@.len() == width,
    ensures
        grid_filled(rows) <= rows.len() * width,
    decreases rows.len(),
{
    if rows.len() > 0 {
        lemma_grid_filled_bound(rows.drop_last(), width);
        lemma_row_filled_bound(rows.last()@);
        assert((rows.len() - 1) * width + width == rows.len() * width) by (nonlinear_arith);
    }
}

/// The tile offered each turn: its matrix as read, the content box of it
/// (`trimmed_*`), and the rows and columns stripped above and to the left
/// of that box (`offset`).
#[derive(Debug)]
pub struct Piece {
    pub size: Size,
    pub cells: Vec<Vec<char>>,
    pub trimmed_size: Size,
    pub trimmed_cells: Vec<Vec<char>>,
    pub symbol_count: usize,
    pub offset: (usize, usize),
}

/// What a piece holds, with its matrices as sequences of rows.
pub struct PieceModel {
    pub size: Size,
    pub cells: Seq<Seq<char>>,
    pub trimmed_size: Size,
    pub trimmed: Seq<Seq<char>>,
    pub symbol_count: usize,
    pub offset: (usize, usize),
}

impl View for Piece {
    type V = PieceModel;

    open spec fn view(&self) -> PieceModel {
        PieceModel {
            size: self.size,
            cells: views(self.cells@),
            trimmed_size: self.trimmed_size,
            trimmed: views(self.trimmed_cells@),
            symbol_count: self.symbol_count,
            offset: self.offset,
        }
    }
}

/// A copy of a matrix of characters.
pub fn copy_rows(rows: &Vec<Vec<char>>) -> (r: Vec<Vec<char>>)
    ensures
        views(r@) == views(rows@),
        r@.len() == rows@.len(),
        forall|i: int| 0 <= i < rows@.len() ==> (#[trigger] r@[i])@ == rows@[i]@,
{
    let mut out: Vec<Vec<char>> = Vec::new();
    let mut i: usize = 0;
    while i < rows.len()
        invariant
            i <= rows.len(),
            out@.len() == i,
            forall|k: int| 0 <= k < i ==> (#[trigger] out@[k])@ == rows@[k]@,
        decreases rows.len() - i,
    {
        let mut row: Vec<char> = Vec::new();
        let mut j: usize = 0;
        while j < rows[i].len()
            invariant
                i < rows.len(),
                j <= rows@[i as int]@.len(),
                row@ == rows@[i as int]@.subrange(0, j as int),
            decreases rows@[i as int]@.len() - j,
        {
            row.push(rows[i][j]);
            j = j + 1;
        }
        assert(row@ =~= rows@[i as int]@);
        out.push(row);
        i = i + 1;
    }
    assert(views(out@) =~= views(rows@));
    out
}

impl Piece {
    /// A piece equal to this one.
    pub fn duplicate(&self) -> (r: Piece)
        ensures
            r@ == self@,
            r.size == self.size,
            r.trimmed_size == self.trimmed_size,
            r.offset == self.offset,
            r.cells@.len() == self.cells@.len(),
            r.trimmed_cells@.len() == self.trimmed_cells@.len(),
            forall|i: int| 0 <= i < self.cells@.len() ==> (#[trigger] r.cells@[i])@ == self.cells@[i]@,
            forall|i: int|
                0 <= i < self.trimmed_cells@.len() ==> (#[trigger] r.trimmed_cells@[i])@
                    == self.trimmed_cells@[i]@,
    {
        Piece {
            size: self.size,
            cells: copy_rows(&self.cells),
            trimmed_size: self.trimmed_size,
            trimmed_cells: copy_rows(&self.trimmed_cells),
            symbol_count: self.symbol_count,
            offset: self.offset,
        }
    }

    pub open spec fn wf(&self) -> bool {
        &&& is_rect(self.cells@, self.size.width as int, self.size.height as int)
        &&& self.size.width * self.size.height <= usize::MAX
    }

    /// The content box is a well-formed `trimmed_size` matrix.
    pub open spec fn trimmed_wf(&self) -> bool {
        is_rect(
            self.trimmed_cells@,
            self.trimmed_size.width as int,
            self.trimmed_size.height as int,
        )
    }

    /// A filled cell in column `x` of row `y` of the content box.
    pub open spec fn solid(&self, x: int, y: int) -> bool {
        filled(self.trimmed_cells@[y]@[x])
    }

    /// The content box and offset are those of `cells`.
    pub open spec fn is_trimmed(&self) -> bool {
        let (t, b, l, r) = trim_box(
            self.cells@,
            self.size.width as int,
            self.size.height as int,
        );
        &&& self.offset == (t as usize, l as usize)
        &&& self.trimmed_size == Size { width: (r - l) as usize, height: (b - t) as usize }
        &&& is_rect(self.trimmed_cells@, r - l, b - t)
        &&& forall|i: int|
            0 <= i < b - t ==> (#[trigger] self.trimmed_cells@[i])@ == self.cells@[t + i]@.subrange(
                l,
                r,
            )
    }

    /// A blank piece of the size that the header line announces.
    pub fn new(header: &str) -> (r: Result<Piece, ParseError>)
        ensures
            match header_size(header@) {
                Some(sz) => if sz.width * sz.height <= usize::MAX {
                    r matches Ok(p) && p.wf() && p.size == sz && p.trimmed_size == (Size {
                        width: 0,
                        height: 0,
                    }) && p.trimmed_cells@.len() == 0 && p.symbol_count == 0 && p.offset == (0usize, 0usize)
                        && forall|x: int, y: int|
                        0 <= x < sz.width && 0 <= y < sz.height ==> #[trigger] p.cells@[y]@[x]
                            == EMPTY
                } else {
                    r == Err::<Piece, ParseError>(ParseError::InvalidHeader)
                },
                None => r == Err::<Piece, ParseError>(ParseError::InvalidHeader),
            },
    {
        match parse_header(header) {
            None => Err(ParseError::InvalidHeader),
            Some(size) => match size.width.checked_mul(size.height) {
                None => Err(ParseError::InvalidHeader),
                Some(_) => Ok(
                    Piece {
                        size,
                        cells: blank_grid(size.width, size.height),
                        trimmed_size: Size { width: 0, height: 0 },
                        trimmed_cells: Vec::new(),
                        symbol_count: 0,
                        offset: (0, 0),
                    },
                ),
            },
        }
    }

    /// Sets the content box and offset from `cells`.
    pub fn trim_cells(&mut self)
        requires
            old(self).wf(),
        ensures
            final(self).size == old(self).size,
            final(self).cells == old(self).cells,
            final(self).symbol_count == old(self).symbol_count,
            final(self).wf(),
            final(self).is_trimmed(),
            final(self).trimmed_wf(),
    {
        let ghost rows = self.cells@;
        let h = self.size.height;
        let w = self.size.width;
        let mut top: usize = 0;
        while top < h && row_is_blank(&self.cells[top])
            invariant
                rows == self.cells@,
                is_rect(rows, w as int, h as int),
                top <= h,
                top_edge(rows, top as int, h as int) == top_edge(rows, 0, h as int),
            decreases h - top,
        {
            top = top + 1;
        }
        let mut bottom: usize = h;
        while bottom > top && row_is_blank(&self.cells[bottom - 1])
            invariant
                rows == self.cells@,
                is_rect(rows, w as int, h as int),
                top <= bottom <= h,
                top == top_edge(rows, 0, h as int),
                bottom_edge(rows, top as int, bottom as int) == bottom_edge(rows, top as int, h as int),
            decreases bottom - top,
        {
            bottom = bottom - 1;
        }
        let mut left: usize = 0;
        while left < w && col_is_blank(&self.cells, left, top, bottom)
            invariant
                rows == self.cells@,
                is_rect(rows, w as int, h as int),
                top <= bottom <= h,
                left <= w,
                left_edge(rows, top as int, bottom as int, left as int, w as int) == left_edge(
                    rows,
                    top as int,
                    bottom as int,
                    0,
                    w as int,
                ),
            decreases w - left,
        {
            left = left + 1;
        }
        let mut right: usize = w;
        while right > left && col_is_blank(&self.cells, right - 1, top, bottom)
            invariant
                rows == self.cells@,
                is_rect(rows, w as int, h as int),
                top <= bottom <= h,
                left <= right <= w,
                right_edge(rows, top as int, bottom as int, left as int, right as int)
                    == right_edge(rows, top as int, bottom as int, left as int, w as int),
            decreases right - left,
        {
            right = right - 1;
        }
        let mut trimmed: Vec<Vec<char>> = Vec::new();
        let mut i: usize = top;
        while i < bottom
            invariant
                rows == self.cells@,
                is_rect(rows, w as int, h as int),
                top <= i <= bottom <= h,
                left <= right <= w,
                is_rect(trimmed@, right - left, i - top),
                forall|k: int|
                    0 <= k < i - top ==> (#[trigger] trimmed@[k])@ == rows[top + k]@.subrange(
                        left as int,
                        right as int,
                    ),
            decreases bottom - i,
        {
            let mut row: Vec<char> = Vec::new();
            let mut j: usize = left;
            while j < right
                invariant
                    rows == self.cells@,
                    is_rect(rows, w as int, h as int),
                    top <= i < bottom <= h,
                    left <= j <= right <= w,
                    row@ == rows[i as int]@.subrange(left as int, j as int),
                decreases right - j,
            {
                row.push(self.cells[i][j]);
                j = j + 1;
            }
            trimmed.push(row);
            i = i + 1;
        }
        self.trimmed_cells = trimmed;
        self.trimmed_size = Size { width: right - left, height: bottom - top };
        self.offset = (top, left);
    }

    /// Replaces the cells with the rows that follow a piece header, counts
    /// the filled ones and trims the piece. Leaves the piece as it was
    /// when a row is missing or too short.
    pub fn update(&mut self, lines: &Vec<String>) -> (r: Result<(), ParseError>)
        requires
            old(self).wf(),
        ensures
            final(self).wf(),
            final(self).size == old(self).size,
            r is Ok <==> all_rows_fit(
                lines@,
                0,
                0,
                old(self).size.width as int,
                old(self).size.height as int,
            ),
            r is Ok ==> rows_read(
                lines@,
                0,
                0,
                old(self).size.width as int,
                old(self).size.height as int,
                final(self).cells@,
            ) && final(self).symbol_count == grid_filled(final(self).cells@)
                && final(self).is_trimmed() && final(self).trimmed_wf(),
            r matches Err(e) ==> *final(self) == *old(self) && read_failure(
                lines@,
                0,
                0,
                old(self).size.width as int,
                old(self).size.height as int,
                e,
            ),
    {
        self.update_at(lines, 0)
    }

    /// As `update`, on the lines from index `first` on.
    pub fn update_at(&mut self, lines: &Vec<String>, first: usize) -> (r: Result<(), ParseError>)
        requires
            old(self).wf(),
        ensures
            final(self).wf(),
            final(self).size == old(self).size,
            r is Ok <==> all_rows_fit(
                lines@,
                first as int,
                0,
                old(self).size.width as int,
                old(self).size.height as int,
            ),
            r is Ok ==> rows_read(
                lines@,
                first as int,
                0,
                old(self).size.width as int,
                old(self).size.height as int,
                final(self).cells@,
            ) && final(self).symbol_count == grid_filled(final(self).cells@)
                && final(self).is_trimmed() && final(self).trimmed_wf(),
            r matches Err(e) ==> *final(self) == *old(self) && read_failure(
                lines@,
                first as int,
                0,
                old(self).size.width as int,
                old(self).size.height as int,
                e,
            ),
    {
        match read_rows(lines, first, 0, self.size.width, self.size.height) {
            Ok(rows) => {
                let count = count_filled(&rows, self.size.width, self.size.height);
                self.cells = rows;
                self.symbol_count = count;
                self.trim_cells();
                Ok(())
            },
            Err(e) => Err(e),
        }
    }
}

fn row_is_blank(row: &Vec<char>) -> (r: bool)
    ensures
        r == row_blank(row@),
{
    let mut j: usize = 0;
    while j < row.len()
        invariant
            j <= row.len(),
            forall|k: int| 0 <= k < j ==> row@[k] == EMPTY,
        decreases row.len() - j,
    {
        if row[j] != EMPTY {
            return false;
        }
        j = j + 1;
    }
    true
}

fn col_is_blank(rows: &Vec<Vec<char>>, c: usize, top: usize, bottom: usize) -> (r: bool)
    requires
        top <= bottom <= rows.len(),
        forall|i: int| 0 <= i < rows.len() ==> c < (#[trigger] rows@[i])@.len(),
    ensures
        r == col_blank(rows@, c as int, top as int, bottom as int),
{
    let mut i: usize = top;
    while i < bottom
        invariant
            top <= i <= bottom <= rows.len(),
            forall|i: int| 0 <= i < rows.len() ==> c < (#[trigger] rows@[i])@.len(),
            forall|k: int| top <= k < i ==> (#[trigger] rows@[k])@[c as int] == EMPTY,
        decreases bottom - i,
    {
        if rows[i][c] != EMPTY {
            return false;
        }
        i = i + 1;
    }
    true
}

fn count_filled(rows: &Vec<Vec<char>>, width: usize, height: usize) -> (r: usize)
    requires
        is_rect(rows@, width as int, height as int),
        width * height <= usize::MAX,
    ensures
        r == grid_filled(rows@),
{
    let mut total: usize = 0;
    let mut i: usize = 0;
    while i < height
        invariant
            is_rect(rows@, width as int, height as int),
            width * height <= usize::MAX,
            i <= height,
            total == grid_filled(rows@.subrange(0, i as int)),
        decreases height - i,
    {
        proof {
            let pre = rows@.subrange(0, i as int);
            lemma_grid_filled_bound(pre, width as int);
            assert(i * width + width <= width * height) by (nonlinear_arith)
                requires
                    i < height,
            ;
        }
        let mut j: usize = 0;
        let ghost base = total;
        while j < width
            invariant
                is_rect(rows@, width as int, height as int),
                i < height,
                j <= width,
                base + width <= usize::MAX,
                total == base + row_filled(rows@[i as int]@.subrange(0, j as int)),
            decreases width - j,
        {
            proof {
                lemma_row_filled_bound(rows@[i as int]@.subrange(0, j as int));
                assert(rows@[i as int]@.subrange(0, j + 1).drop_last() =~= rows@[i as int]@.subrange(0, j as int));
            }
            if rows[i][j] != EMPTY {
                total = total + 1;
            }
            j = j + 1;
        }
        assert(rows@[i as int]@.subrange(0, width as int) =~= rows@[i as int]@);
        assert(rows@.subrange(0, i + 1).drop_last() =~= rows@.subrange(0, i as int));
        i = i + 1;
    }
    assert(rows@.subrange(0, height as int) =~= rows@);
    total
}

impl Grid for Piece {
    open spec fn rows(&self) -> Seq<Vec<char>> {
        self.cells@
    }

    open spec fn dims(&self) -> Size {
        self.size
    }

    fn height(&self) -> (r: usize) {
        self.size.height
    }

    fn width(&self) -> (r: usize) {
        self.size.width
    }

    fn cells(&self) -> (r: &Vec<Vec<char>>) {
        &self.cells
    }
}

} // verus!
