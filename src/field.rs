use vstd::prelude::*;

use crate::cell::EMPTY;
use crate::grid::{blank_grid, is_rect, Grid, Size};
use crate::text::{
    all_rows_fit, header_size, parse_header, read_failure, read_rows, rows_read, ParseError,
};

verus! {

/// Characters that prefix each board row with its index.
pub const ROW_LABEL: usize = 4;

/// The board: `size.height` rows of `size.width` cells.
#[derive(Debug)]
pub struct Field {
    pub size: Size,
    pub cells: Vec<Vec<char>>,
}

impl Field {
    pub open spec fn wf(&self) -> bool {
        &&& is_rect(self.cells@, self.size.width as int, self.size.height as int)
        &&& self.size.width * self.size.height <= usize::MAX
    }

    /// The cell in column `x` of row `y`.
    pub open spec fn at(&self, x: int, y: int) -> char {
        self.cells@[y]@[x]
    }

    pub open spec fn in_bounds(&self, x: int, y: int) -> bool {
        0 <= x < self.size.width && 0 <= y < self.size.height
    }

    /// A free board of the size that the header line announces.
    pub fn new(header: &str) -> (r: Result<Field, ParseError>)
        ensures
            match header_size(header@) {
                Some(sz) => if sz.width * sz.height <= usize::MAX {
                    r matches Ok(f) && f.wf() && f.size == sz && forall|x: int, y: int|
                        f.in_bounds(x, y) ==> #[trigger] f.at(x, y) == EMPTY
                } else {
                    r == Err::<Field, ParseError>(ParseError::InvalidHeader)
                },
                None => r == Err::<Field, ParseError>(ParseError::InvalidHeader),
            },
    {
        match parse_header(header) {
            None => Err(ParseError::InvalidHeader),
            Some(size) => match size.width.checked_mul(size.height) {
                None => Err(ParseError::InvalidHeader),
                Some(_) => Ok(Field { size, cells: blank_grid(size.width, size.height) }),
            },
        }
    }

    /// Replaces the cells with the rows that follow a board header: a
    /// column ruler line, then one line per row, which holds the row's
    /// cells after its index label. Leaves the board as it was when a row
    /// is missing or too short.
    pub fn update(&mut self, lines: &Vec<String>) -> (r: Result<(), ParseError>)
        requires
            old(self).wf(),
        ensures
            final(self).wf(),
            final(self).size == old(self).size,
            r is Ok <==> all_rows_fit(
                lines@,
                1,
                ROW_LABEL as int,
                old(self).size.width as int,
                old(self).size.height as int,
            ),
            r is Ok ==> rows_read(
                lines@,
                1,
                ROW_LABEL as int,
                old(self).size.width as int,
                old(self).size.height as int,
                final(self).cells@,
            ),
            r matches Err(e) ==> *final(self) == *old(self) && read_failure(
                lines@,
                1,
                ROW_LABEL as int,
                old(self).size.width as int,
                old(self).size.height as int,
                e,
            ),
    {
        self.update_at(lines, 0)
    }

    /// As `update`, on the lines from index `first` on.
    pub fn update_at(&mut self, lines: &Vec<String>, first: usize) -> (r: Result<(), ParseError>)
        requires
            old(self).wf(),
            first < usize::MAX,
        ensures
            final(self).wf(),
            final(self).size == old(self).size,
            r is Ok <==> all_rows_fit(
                lines@,
                first + 1,
                ROW_LABEL as int,
                old(self).size.width as int,
                old(self).size.height as int,
            ),
            r is Ok ==> rows_read(
                lines@,
                first + 1,
                ROW_LABEL as int,
                old(self).size.width as int,
                old(self).size.height as int,
                final(self).cells@,
            ),
            r matches Err(e) ==> *final(self) == *old(self) && read_failure(
                lines@,
                first + 1,
                ROW_LABEL as int,
                old(self).size.width as int,
                old(self).size.height as int,
                e,
            ),
    {
        match read_rows(lines, first + 1, ROW_LABEL, self.size.width, self.size.height) {
            Ok(rows) => {
                self.cells = rows;
                Ok(())
            },
            Err(e) => Err(e),
        }
    }

    pub fn row_count(&self) -> (r: usize)
        ensures
            r == self.size.height,
    {
        self.size.height
    }

    pub fn col_count(&self) -> (r: usize)
        ensures
            r == self.size.width,
    {
        self.size.width
    }
}

impl Grid for Field {
    open spec fn rows(&self) -> Seq<Vec<char>> {
        self.cells@
    }

    open spec fn dims(&self) -> Size {
        self.size
    }

    fn height(&self) -> (r: usize) {
        self.size.height
    }

    fn width(&self) -> (r: usize) {
        self.size.width
    }

    fn cells(&self) -> (r: &Vec<Vec<char>>) {
        &self.cells
    }
}

} // verus!
