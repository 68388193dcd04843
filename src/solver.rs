use vstd::prelude::*;
use crate::board::SudokuBoard;
use crate::position::BoardPos;
use crate::rules::{
    completes, digits_in_range, first_solution, grid_thins, is_grid, lemma_valid_thins,
    precedes, same_cells, solvable_from, valid, with_cell, Grid,
};

verus! {

/// Two cells on the board are the same exactly when their row-major places are.
proof fn lemma_index_unique(r1: int, c1: int, r2: int, c2: int)
    requires
        0 <= r1 < 9,
        0 <= c1 < 9,
        0 <= r2 < 9,
        0 <= c2 < 9,
    ensures
        (r1 * 9 + c1 == r2 * 9 + c2) == (r1 == r2 && c1 == c2),
{
}

/// Two grids that agree before cell `(r0, c0)` and differ there upward are
/// ordered.
proof fn lemma_precedes_at(f: Grid, s: Grid, r0: int, c0: int)
    requires
        0 <= r0 < 9,
        0 <= c0 < 9,
        f[r0][c0] < s[r0][c0],
        forall|r: int, c: int|
            0 <= r < 9 && 0 <= c < 9 && r * 9 + c < r0 * 9 + c0 ==> #[trigger] f[r][c] == s[r][c],
    ensures
        precedes(f, s),
{
}

/// Two solutions of the same grid from `pos` on that agree at `pos` agree up
/// to it and there, and are ordered by their value at `pos` otherwise.
proof fn lemma_order_at(f: Grid, s: Grid, g: Grid, pos: BoardPos)
    requires
        pos.wf(),
        completes(f, g, pos.index()),
        completes(s, g, pos.index()),
        f[pos.row as int][pos.col as int] < s[pos.row as int][pos.col as int],
    ensures
        precedes(f, s),
{
    lemma_precedes_at(f, s, pos.row as int, pos.col as int);
}

/// A solution that puts `t` into the empty cell at `pos` solves the grid with
/// `t` placed there, from the next cell on, and contains that grid.
proof fn lemma_place_solution(g: Grid, pos: BoardPos, t: u32, s: Grid)
    requires
        is_grid(g),
        pos.wf(),
        g[pos.row as int][pos.col as int] == 0,
        completes(s, g, pos.index()),
        s[pos.row as int][pos.col as int] == t,
    ensures
        is_grid(with_cell(g, pos.row as int, pos.col as int, t)),
        grid_thins(with_cell(g, pos.row as int, pos.col as int, t), s),
        completes(s, with_cell(g, pos.row as int, pos.col as int, t), pos.index() + 1),
{
    let h = with_cell(g, pos.row as int, pos.col as int, t);
    assert forall|r: int| 0 <= r < 9 implies #[trigger] h[r].len() == 9 by {}
    assert forall|r: int, c: int|
        0 <= r < 9 && 0 <= c < 9 && (h[r][c] != 0 || r * 9 + c < pos.index() + 1) implies #[trigger] s[r][c]
        == h[r][c] by {
        lemma_index_unique(r, c, pos.row as int, pos.col as int);
    }
    assert forall|r: int, c: int| 0 <= r < 9 && 0 <= c < 9 implies #[trigger] h[r][c] == s[r][c]
        || h[r][c] == 0 by {
        lemma_index_unique(r, c, pos.row as int, pos.col as int);
    }
}

/// A solution of the grid with digit `t` placed into the empty cell at `pos`,
/// from the next cell on, solves the grid itself from `pos` on.
proof fn lemma_extend_solution(g: Grid, pos: BoardPos, t: u32, f: Grid)
    requires
        is_grid(g),
        pos.wf(),
        1 <= t <= 9,
        g[pos.row as int][pos.col as int] == 0,
        completes(f, with_cell(g, pos.row as int, pos.col as int, t), pos.index() + 1),
    ensures
        completes(f, g, pos.index()),
{
    let h = with_cell(g, pos.row as int, pos.col as int, t);
    assert(h[pos.row as int][pos.col as int] == t);
    assert(f[pos.row as int][pos.col as int] == t);
    assert forall|r: int, c: int| 0 <= r < 9 && 0 <= c < 9 && r * 9 + c >= pos.index() implies #[trigger] f[r][c]
        != 0 by {
        lemma_index_unique(r, c, pos.row as int, pos.col as int);
    }
    assert forall|r: int, c: int|
        0 <= r < 9 && 0 <= c < 9 && (g[r][c] != 0 || r * 9 + c < pos.index()) implies #[trigger] f[r][c]
        == g[r][c] by {
        lemma_index_unique(r, c, pos.row as int, pos.col as int);
        assert(h[r][c] == g[r][c]);
    }
}

/// Passing over a cell that already holds a digit changes nothing about which
/// grids solve the board.
proof fn lemma_clue_step(g: Grid, pos: BoardPos, s: Grid)
    requires
        is_grid(g),
        pos.wf(),
        g[pos.row as int][pos.col as int] != 0,
    ensures
        completes(s, g, pos.index()) == completes(s, g, pos.index() + 1),
{
    if completes(s, g, pos.index() + 1) {
        assert(s[pos.row as int][pos.col as int] == g[pos.row as int][pos.col as int]);
        assert forall|r: int, c: int| 0 <= r < 9 && 0 <= c < 9 && r * 9 + c >= pos.index() implies #[trigger] s[r][c]
            != 0 by {
            lemma_index_unique(r, c, pos.row as int, pos.col as int);
        }
    }
    if completes(s, g, pos.index()) {
        assert forall|r: int, c: int|
            0 <= r < 9 && 0 <= c < 9 && (g[r][c] != 0 || r * 9 + c < pos.index() + 1) implies #[trigger] s[r][c]
            == g[r][c] by {
            lemma_index_unique(r, c, pos.row as int, pos.col as int);
        }
    }
}

/// A valid grid of digits solves itself from the place after the last cell.
proof fn lemma_self_solution(g: Grid)
    requires
        is_grid(g),
        digits_in_range(g),
        valid(g),
    ensures
        completes(g, g, 81),
{
}

/// A grid that some grid solves is itself valid.
proof fn lemma_solvable_valid(g: Grid, from: int, s: Grid)
    requires
        is_grid(g),
        completes(s, g, from),
    ensures
        valid(g),
{
    assert forall|r: int, c: int| 0 <= r < 9 && 0 <= c < 9 implies #[trigger] g[r][c] == s[r][c]
        || g[r][c] == 0 by {
        if g[r][c] != 0 {
            assert(s[r][c] == g[r][c]);
        }
    }
    lemma_valid_thins(g, s);
}

/// What `Solver::solve` leaves on the board after success keeps every digit the
/// board held before the call.
pub proof fn lemma_solution_keeps_clues(s: Grid, g: Grid, from: int)
    requires
        completes(s, g, from),
    ensures
        forall|r: int, c: int| 0 <= r < 9 && 0 <= c < 9 && g[r][c] != 0 ==> #[trigger] s[r][c] == g[r][c],
{
}

/// After `Solver::solve` succeeds from the first cell, the board is valid and
/// has no empty cell.
pub proof fn lemma_solution_complete(s: Grid, g: Grid)
    requires
        completes(s, g, 0),
    ensures
        valid(s),
        forall|r: int, c: int| 0 <= r < 9 && 0 <= c < 9 ==> #[trigger] s[r][c] != 0,
{
    assert forall|r: int, c: int| 0 <= r < 9 && 0 <= c < 9 implies #[trigger] s[r][c] != 0 by {
        assert(r * 9 + c >= 0);
    }
}

/// Fills the empty cells of a board by depth-first search in row-major order.
pub struct Solver<'a> {
    pub board: &'a mut SudokuBoard,
}

impl<'a> Solver<'a> {
    /// A solver that works on `board` in place.
    pub fn new(board: &'a mut SudokuBoard) -> (r: Solver<'a>)
        ensures
            *r.board == *old(board),
            *final(r.board) == *final(board),
    {
        Solver { board }
    }

    /// Tries to fill every empty cell from `curr_pos` on, in row-major order,
    /// with digits 1 to 9 tried in ascending order, so that no row, column or
    /// region holds a digit twice.
    ///
    /// Succeeds exactly when such a filling exists; the board then holds the
    /// first one in row-major order of its cells, with every digit it had and
    /// every cell before `curr_pos` kept. On failure the board is left as it
    /// was.
    pub fn solve(&mut self, curr_pos: BoardPos) -> (r: bool)
        requires
            old(self).board.wf(),
            curr_pos.wf(),
        ensures
            final(self).board.wf(),
            r == solvable_from(old(self).board@, curr_pos.index()),
            r ==> first_solution(final(self).board@, old(self).board@, curr_pos.index()),
            !r ==> final(self).board@ == old(self).board@,
        decreases 81 - curr_pos.index(),
    {
        let ghost g = self.board@;
        let ghost row = curr_pos.row as int;
        let ghost col = curr_pos.col as int;
        proof {
            self.board.lemma_is_grid();
        }
        let digit = self.board.get_digit(curr_pos);
        if digit == 0 {
            let mut digit_to_try: u32 = 1;
            while digit_to_try <= 9
                invariant
                    1 <= digit_to_try <= 10,
                    curr_pos.wf(),
                    row == curr_pos.row,
                    col == curr_pos.col,
                    g == old(self).board@,
                    is_grid(g),
                    digits_in_range(g),
                    g[row][col] == 0,
                    self.board.wf(),
                    is_grid(self.board@),
                    forall|r: int, c: int|
                        0 <= r < 9 && 0 <= c < 9 && !(r == row && c == col) ==> #[trigger] self.board@[r][c]
                            == g[r][c],
                    forall|s: Grid| #[trigger]
                        completes(s, g, curr_pos.index()) ==> s[row][col] >= digit_to_try,
                decreases 10 - digit_to_try,
            {
                self.board.set_digit(curr_pos, digit_to_try);
                let ghost h = self.board@;
                proof {
                    self.board.lemma_is_grid();
                    assert(h =~~= with_cell(g, row, col, digit_to_try));
                }
                if self.board.check_board() {
                    if !curr_pos.is_at_end() {
                        if self.solve(curr_pos.next_pos()) {
                            proof {
                                let f = self.board@;
                                lemma_extend_solution(g, curr_pos, digit_to_try, f);
                                assert(completes(f, g, curr_pos.index()));
                                assert forall|t: Grid| #[trigger]
                                    completes(t, g, curr_pos.index()) implies same_cells(f, t)
                                    || precedes(f, t) by {
                                    if t[row][col] == digit_to_try {
                                        lemma_place_solution(g, curr_pos, digit_to_try, t);
                                    } else {
                                        assert(f[row][col] == h[row][col]);
                                        lemma_order_at(f, t, g, curr_pos);
                                    }
                                }
                            }
                            return true;
                        }
                    } else {
                        proof {
                            lemma_self_solution(h);
                            lemma_extend_solution(g, curr_pos, digit_to_try, h);
                            assert(completes(h, g, curr_pos.index()));
                            assert forall|t: Grid| #[trigger]
                                completes(t, g, curr_pos.index()) implies same_cells(h, t)
                                || precedes(h, t) by {
                                if t[row][col] == digit_to_try {
                                    assert forall|r: int, c: int| 0 <= r < 9 && 0 <= c < 9 implies #[trigger] h[r][c]
                                        == t[r][c] by {
                                        lemma_index_unique(r, c, row, col);
                                    }
                                } else {
                                    lemma_order_at(h, t, g, curr_pos);
                                }
                            }
                        }
                        return true;
                    }
                }
                proof {
                    assert forall|s: Grid| #[trigger]
                        completes(s, g, curr_pos.index()) implies s[row][col] >= digit_to_try + 1 by {
                        if s[row][col] == digit_to_try {
                            lemma_place_solution(g, curr_pos, digit_to_try, s);
                            lemma_valid_thins(h, s);
                        }
                    }
                }
                digit_to_try += 1;
            }
            self.board.remove_digit(curr_pos);
            proof {
                assert(self.board@ =~~= g);
                if solvable_from(g, curr_pos.index()) {
                    let s = choose|s: Grid| completes(s, g, curr_pos.index());
                    assert(s[row][col] <= 9);
                }
            }
            return false;
        }
        if curr_pos.is_at_end() {
            proof {
                if valid(g) {
                    lemma_self_solution(g);
                    lemma_clue_step(g, curr_pos, g);
                    assert(completes(g, g, curr_pos.index()));
                    assert forall|t: Grid| #[trigger]
                        completes(t, g, curr_pos.index()) implies same_cells(g, t) by {
                        assert forall|r: int, c: int| 0 <= r < 9 && 0 <= c < 9 implies #[trigger] g[r][c]
                            == t[r][c] by {
                            lemma_index_unique(r, c, row, col);
                        }
                    }
                }
                if solvable_from(g, curr_pos.index()) {
                    let s = choose|s: Grid| completes(s, g, curr_pos.index());
                    lemma_solvable_valid(g, curr_pos.index(), s);
                }
            }
            self.board.check_board()
        } else {
            let next = curr_pos.next_pos();
            let r = self.solve(next);
            proof {
                assert forall|s: Grid| completes(s, g, curr_pos.index()) == #[trigger] completes(
                    s,
                    g,
                    next.index(),
                ) by {
                    lemma_clue_step(g, curr_pos, s);
                }
                if solvable_from(g, next.index()) {
                    let s = choose|s: Grid| completes(s, g, next.index());
                    assert(completes(s, g, curr_pos.index()));
                }
                assert forall|t: Grid| #[trigger] completes(t, g, curr_pos.index()) implies completes(
                    t,
                    g,
                    next.index(),
                ) by {
                    lemma_clue_step(g, curr_pos, t);
                }
                if solvable_from(g, curr_pos.index()) {
                    let s = choose|s: Grid| completes(s, g, curr_pos.index());
                    assert(completes(s, g, next.index()));
                }
            }
            r
        }
    }
}

} // verus!
