use vstd::prelude::*;

verus! {

/// A (row, column) pair. It serves both as a grid address and, in pattern
/// and transform contexts, as the record of one live cell.
#[derive(Copy, Clone, Debug, PartialEq, Eq, Structural)]
pub struct Cell {
    pub row: u32,
    pub col: u32,
}

impl Cell {
    pub fn new(row: u32, col: u32) -> (c: Cell)
        ensures
            c == (Cell { row, col }),
    {
        Cell { row, col }
    }

    pub fn row(&self) -> (r: u32)
        ensures
            r == self.row,
    {
        self.row
    }

    pub fn col(&self) -> (c: u32)
        ensures
            c == self.col,
    {
        self.col
    }
}

} // verus!
