use vstd::prelude::*;

verus! {


/// A cell of the board, given by its row and its column, both in `0..9`.
#[derive(Clone, Copy, Debug, PartialEq, Eq, Structural)]
pub struct BoardPos {
    pub row: usize,
    pub col: usize,
}

impl BoardPos {
    /// Both coordinates lie on the board.
    pub open spec fn wf(self) -> bool {
        self.row < 9 && self.col < 9
    }

    /// Place of the cell in row-major order, in `0..81`.
    pub open spec fn index(self) -> int {
        self.row * 9 + self.col
    }

    /// The last cell in row-major order.
    pub open spec fn is_last(self) -> bool {
        self.row == 8 && self.col == 8
    }

    /// The position at `(row, col)`; a position off the board is not allowed.
    pub fn new(row: usize, col: usize) -> (r: BoardPos)
        requires
            row < 9,
            col < 9,
        ensures
            r.row == row,
            r.col == col,
            r.wf(),
    {
        BoardPos { row, col }
    }

    /// Whether this is the bottom-right cell, the last in row-major order.
    pub fn is_at_end(&self) -> (r: bool)
        ensures
            r == self.is_last(),
    {
        self.col == 8 && self.row == 8
    }

    /// The next cell in row-major order; there is none after the last cell.
    pub fn next_pos(&self) -> (r: BoardPos)
        requires
            self.wf(),
            !self.is_last(),
        ensures
            r.wf(),
            r.index() == self.index() + 1,
            self.col == 8 ==> r.row == self.row + 1 && r.col == 0,
            self.col != 8 ==> r.row == self.row && r.col == self.col + 1,
    {
        let new_col: usize;
        let new_row: usize;
        if self.col == 8 {
            new_col = 0;
            new_row = self.row + 1;
        } else {
            new_col = self.col + 1;
            new_row = self.row;
        }
        BoardPos { row: new_row, col: new_col }
    }
}

} // verus!
