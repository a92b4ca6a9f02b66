use vstd::prelude::*;

use crate::cell::EMPTY;

verus! {

/// Width and height of a rectangular shape.
#[derive(Debug, Clone, Copy, PartialEq, Eq)]
pub struct Size {
    pub width: usize,
    pub height: usize,
}

impl Size {
    pub fn new(width: usize, height: usize) -> (r: Size)
        ensures
            r.width == width,
            r.height == height,
    {
        Size { width, height }
    }

    /// A shape with no cells.
    pub fn is_empty(&self) -> (r: bool)
        ensures
            r == (self.width == 0 || self.height == 0),
    {
        self.width == 0 || self.height == 0
    }

    /// Number of cells of the shape.
    pub fn area(&self) -> (r: usize)
        requires
            self.width * self.height <= usize::MAX,
        ensures
            r == self.width * self.height,
    {
        self.width * self.height
    }
}

/// True when `rows` holds `height` rows of `width` characters each.
pub open spec fn is_rect(rows: Seq<Vec<char>>, width: int, height: int) -> bool {
    &&& rows.len() == height
    &&& forall|r: int| 0 <= r < rows.len() ==> (#[trigger] rows[r])@.len() == width
}

/// Read access to a rectangular matrix of characters, shared by the board
/// and the pieces.
pub trait Grid {
    /// The rows of the matrix.
    spec fn rows(&self) -> Seq<Vec<char>>;

    /// The declared dimensions of the matrix.
    spec fn dims(&self) -> Size;

    fn height(&self) -> (r: usize)
        ensures
            r == self.dims().height,
    ;

    fn width(&self) -> (r: usize)
        ensures
            r == self.dims().width,
    ;

    fn cells(&self) -> (r: &Vec<Vec<char>>)
        ensures
            r@ == self.rows(),
    ;
}

/// A `width` by `height` matrix of free cells.
pub fn blank_grid(width: usize, height: usize) -> (r: Vec<Vec<char>>)
    ensures
        is_rect(r@, width as int, height as int),
        forall|y: int, x: int| 0 <= y < height && 0 <= x < width ==> #[trigger] r@[y]@[x] == EMPTY,
{
    let mut rows: Vec<Vec<char>> = Vec::new();
    let mut y: usize = 0;
    while y < height
        invariant
            y <= height,
            is_rect(rows@, width as int, y as int),
            forall|i: int, x: int| 0 <= i < y && 0 <= x < width ==> #[trigger] rows@[i]@[x] == EMPTY,
        decreases height - y,
    {
        let mut row: Vec<char> = Vec::new();
        let mut x: usize = 0;
        while x < width
            invariant
                x <= width,
                row@.len() == x,
                forall|j: int| 0 <= j < x ==> #[trigger] row@[j] == EMPTY,
            decreases width - x,
        {
            row.push(EMPTY);
            x = x + 1;
        }
        rows.push(row);
        y = y + 1;
    }
    rows
}

} // verus!
