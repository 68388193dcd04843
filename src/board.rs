use vstd::prelude::*;
use vstd::arithmetic::div_mod::lemma_fundamental_div_mod_converse;
use crate::position::BoardPos;
use crate::rules::{
    column_of, columns_ok, digits_in_range, is_grid, no_repeat, region_of, regions_ok, rows_ok,
    valid, Grid,
};
use crate::tracker::DigitTracker;

verus! {

/// Every pair `(a, b)` with `a` from `l1` and `b` from `l2`, ordered by the
/// place of `a` first and of `b` second.
pub fn combinator<T: Copy, U: Copy>(l1: Vec<T>, l2: Vec<U>) -> (r: Vec<(T, U)>)
    ensures
        r.len() == l1.len() * l2.len(),
        forall|k: int|
            0 <= k < r.len() ==> #[trigger] r[k] == (l1[k / l2.len() as int], l2[k % l2.len() as int]),
{
    let n = l1.len();
    let m = l2.len();
    let mut r: Vec<(T, U)> = Vec::new();
    let mut i: usize = 0;
    while i < n
        invariant
            i <= n,
            n == l1.len(),
            m == l2.len(),
            r.len() == i * m,
            forall|k: int| 0 <= k < r.len() ==> #[trigger] r[k] == (l1[k / m as int], l2[k % m as int]),
        decreases n - i,
    {
        let x = l1[i];
        let mut j: usize = 0;
        while j < m
            invariant
                i < n,
                j <= m,
                n == l1.len(),
                m == l2.len(),
                x == l1[i as int],
                r.len() == i * m + j,
                forall|k: int| 0 <= k < r.len() ==> #[trigger] r[k] == (l1[k / m as int], l2[k % m as int]),
            decreases m - j,
        {
            proof {
                lemma_fundamental_div_mod_converse(i * m + j, m as int, i as int, j as int);
            }
            r.push((x, l2[j]));
            j += 1;
        }
        proof {
            assert((i + 1) * m == i * m + m) by (nonlinear_arith);
        }
        i += 1;
    }
    r
}

/// A 9x9 Sudoku grid; 0 marks an empty cell.
#[derive(Debug)]
pub struct SudokuBoard {
    pub rows: [[u32; 9]; 9],
}

impl View for SudokuBoard {
    type V = Grid;

    open spec fn view(&self) -> Grid {
        Seq::new(9, |r: int| self.rows[r]@)
    }
}

impl SudokuBoard {
    /// Every cell holds 0 or a digit from 1 to 9.
    pub open spec fn wf(&self) -> bool {
        digits_in_range(self@)
    }

    /// The board's view has the shape of a grid.
    pub proof fn lemma_is_grid(&self)
        ensures
            is_grid(self@),
    {
        assert forall|r: int| 0 <= r < 9 implies #[trigger] self@[r].len() == 9 by {
            assert(self@[r] == self.rows[r]@);
        }
    }

    /// A board holding the given rows; each value must be 0 or a digit.
    pub fn new(rows: [[u32; 9]; 9]) -> (r: SudokuBoard)
        requires
            forall|i: int, j: int| 0 <= i < 9 && 0 <= j < 9 ==> #[trigger] rows[i][j] <= 9,
        ensures
            r.rows == rows,
            r.wf(),
    {
        SudokuBoard { rows }
    }

    /// Whether no row, column or 3x3 region holds a non-zero digit twice.
    pub fn check_board(&self) -> (r: bool)
        requires
            self.wf(),
        ensures
            r == valid(self@),
    {
        self.check_rows() && self.check_columns() && self.check_regions()
    }

    /// Whether no row holds a non-zero digit twice.
    pub fn check_rows(&self) -> (r: bool)
        requires
            self.wf(),
        ensures
            r == rows_ok(self@),
    {
        let mut row_nbr: usize = 0;
        while row_nbr < 9
            invariant
                row_nbr <= 9,
                self.wf(),
                forall|i: int| 0 <= i < row_nbr ==> no_repeat(#[trigger] self@[i]),
            decreases 9 - row_nbr,
        {
            if !self.check_row(row_nbr) {
                return false;
            }
            row_nbr += 1;
        }
        true
    }

    /// Whether no column holds a non-zero digit twice.
    pub fn check_columns(&self) -> (r: bool)
        requires
            self.wf(),
        ensures
            r == columns_ok(self@),
    {
        let mut col_nbr: usize = 0;
        while col_nbr < 9
            invariant
                col_nbr <= 9,
                self.wf(),
                forall|i: int| 0 <= i < col_nbr ==> no_repeat(#[trigger] column_of(self@, i)),
            decreases 9 - col_nbr,
        {
            if !self.check_column(col_nbr) {
                return false;
            }
            col_nbr += 1;
        }
        true
    }

    /// Whether row `row_nbr` holds no non-zero digit twice.
    pub fn check_row(&self, row_nbr: usize) -> (r: bool)
        requires
            self.wf(),
            row_nbr < 9,
        ensures
            r == no_repeat(self@[row_nbr as int]),
    {
        let row = self.rows[row_nbr];
        let mut tracker = DigitTracker::new();
        let mut i: usize = 0;
        while i < 9
            invariant
                i <= 9,
                self.wf(),
                row_nbr < 9,
                row@ == self@[row_nbr as int],
                tracker.tracks(row@.take(i as int)),
            decreases 9 - i,
        {
            assert(row@.take(i + 1) =~= row@.take(i as int).push(row[i as int]));
            tracker.found_digit(row[i]);
            i += 1;
        }
        assert(row@.take(9) =~= row@);
        tracker.okay
    }

    /// Whether column `col_nbr` holds no non-zero digit twice.
    pub fn check_column(&self, col_nbr: usize) -> (r: bool)
        requires
            self.wf(),
            col_nbr < 9,
        ensures
            r == no_repeat(column_of(self@, col_nbr as int)),
    {
        let mut col: Vec<u32> = Vec::new();
        let mut row_nbr: usize = 0;
        while row_nbr < 9
            invariant
                row_nbr <= 9,
                col_nbr < 9,
                col@ == column_of(self@, col_nbr as int).take(row_nbr as int),
            decreases 9 - row_nbr,
        {
            col.push(self.rows[row_nbr][col_nbr]);
            assert(col@ =~= column_of(self@, col_nbr as int).take(row_nbr + 1));
            row_nbr += 1;
        }
        assert(col@ =~= column_of(self@, col_nbr as int));
        let mut tracker = DigitTracker::new();
        let mut i: usize = 0;
        while i < col.len()
            invariant
                i <= col.len(),
                col.len() == 9,
                col_nbr < 9,
                self.wf(),
                col@ == column_of(self@, col_nbr as int),
                tracker.tracks(col@.take(i as int)),
            decreases col.len() - i,
        {
            assert(col@.take(i + 1) =~= col@.take(i as int).push(col[i as int]));
            tracker.found_digit(col[i]);
            i += 1;
        }
        assert(col@.take(9) =~= col@);
        tracker.okay
    }

    /// Whether the 3x3 region in region column `reg_x` and region row `reg_y`
    /// holds no non-zero digit twice.
    pub fn check_region(&self, reg_x: usize, reg_y: usize) -> (r: bool)
        requires
            self.wf(),
            reg_x < 3,
            reg_y < 3,
        ensures
            r == no_repeat(region_of(self@, reg_x as int, reg_y as int)),
    {
        let ghost reg = region_of(self@, reg_x as int, reg_y as int);
        let mut tracker = DigitTracker::new();
        let mut row_nbr: usize = reg_y * 3;
        while row_nbr < (reg_y + 1) * 3
            invariant
                reg_x < 3,
                reg_y < 3,
                self.wf(),
                reg_y * 3 <= row_nbr <= (reg_y + 1) * 3,
                reg == region_of(self@, reg_x as int, reg_y as int),
                tracker.tracks(reg.take((row_nbr - reg_y * 3) * 3)),
            decreases (reg_y + 1) * 3 - row_nbr,
        {
            let mut col_nbr: usize = reg_x * 3;
            while col_nbr < (reg_x + 1) * 3
                invariant
                    reg_x < 3,
                    reg_y < 3,
                    self.wf(),
                    reg_y * 3 <= row_nbr < (reg_y + 1) * 3,
                    reg_x * 3 <= col_nbr <= (reg_x + 1) * 3,
                    reg == region_of(self@, reg_x as int, reg_y as int),
                    tracker.tracks(reg.take((row_nbr - reg_y * 3) * 3 + (col_nbr - reg_x * 3))),
                decreases (reg_x + 1) * 3 - col_nbr,
            {
                let ghost k: int = (row_nbr - reg_y * 3) * 3 + (col_nbr - reg_x * 3);
                proof {
                    lemma_fundamental_div_mod_converse(
                        k,
                        3,
                        row_nbr - reg_y * 3,
                        col_nbr - reg_x * 3,
                    );
                    assert(reg[k] == self@[row_nbr as int][col_nbr as int]);
                    assert(reg.take(k + 1) =~= reg.take(k).push(reg[k]));
                }
                let digit = self.rows[row_nbr][col_nbr];
                tracker.found_digit(digit);
                col_nbr += 1;
            }
            row_nbr += 1;
        }
        assert(reg.take(9) =~= reg);
        tracker.okay
    }

    /// Whether none of the nine 3x3 regions holds a non-zero digit twice.
    pub fn check_regions(&self) -> (r: bool)
        requires
            self.wf(),
        ensures
            r == regions_ok(self@),
    {
        let xs: Vec<usize> = vec![0, 1, 2];
        let ys: Vec<usize> = vec![0, 1, 2];
        assert(xs@ == seq![0usize, 1, 2] && ys@ == seq![0usize, 1, 2]);
        assert(xs.len() == 3 && ys.len() == 3);
        let regions = combinator(xs, ys);
        assert(regions.len() == 9);
        assert forall|k: int| 0 <= k < 9 implies #[trigger] regions[k].0 == k / 3 && regions[k].1 == k
            % 3 by {
            assert(regions[k] == (xs[k / 3], ys[k % 3]));
        }
        let mut i: usize = 0;
        while i < regions.len()
            invariant
                self.wf(),
                i <= regions.len(),
                regions.len() == 9,
                forall|k: int| 0 <= k < 9 ==> #[trigger] regions[k].0 == k / 3 && regions[k].1 == k % 3,
                forall|k: int| 0 <= k < i ==> no_repeat(
                    #[trigger] region_of(self@, regions[k].0 as int, regions[k].1 as int),
                ),
            decreases regions.len() - i,
        {
            let (col_nbr, row_nbr) = regions[i];
            if !self.check_region(col_nbr, row_nbr) {
                return false;
            }
            i += 1;
        }
        assert forall|x: int, y: int| 0 <= x < 3 && 0 <= y < 3 implies no_repeat(
            #[trigger] region_of(self@, x, y),
        ) by {
            assert(regions[x * 3 + y].0 == x && regions[x * 3 + y].1 == y);
        }
        true
    }

    /// Writes `digit` into the cell at `position`; no rule is checked.
    pub fn set_digit(&mut self, position: BoardPos, digit: u32)
        requires
            old(self).wf(),
            position.wf(),
            digit <= 9,
        ensures
            final(self).wf(),
            final(self)@ == old(self)@.update(
                position.row as int,
                old(self)@[position.row as int].update(position.col as int, digit),
            ),
    {
        self.rows[position.row][position.col] = digit;
        assert(self@ =~= old(self)@.update(
            position.row as int,
            old(self)@[position.row as int].update(position.col as int, digit),
        ));
    }

    /// Empties the cell at `position`.
    pub fn remove_digit(&mut self, position: BoardPos)
        requires
            old(self).wf(),
            position.wf(),
        ensures
            final(self).wf(),
            final(self)@ == old(self)@.update(
                position.row as int,
                old(self)@[position.row as int].update(position.col as int, 0),
            ),
    {
        self.set_digit(position, 0);
    }

    /// The value of the cell at `position`, 0 when it is empty.
    pub fn get_digit(&mut self, position: BoardPos) -> (r: u32)
        requires
            position.wf(),
        ensures
            *final(self) == *old(self),
            r == old(self)@[position.row as int][position.col as int],
    {
        self.rows[position.row][position.col]
    }
}

} // verus!
