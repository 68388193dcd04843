use sudoku::{BoardPos, Solver, SudokuBoard};

fn assert_solution_of(solved: &[[u32; 9]; 9], start: &[[u32; 9]; 9]) {
    for r in 0..9 {
        for c in 0..9 {
            assert_ne!(solved[r][c], 0);
            if start[r][c] != 0 {
                assert_eq!(solved[r][c], start[r][c]);
            }
        }
    }
    assert!(SudokuBoard::new(*solved).check_board());
}

#[test]
fn solvable_board_is_solvable() {
    let mut b = SudokuBoard::new([
        [1, 0, 2, 0, 0, 0, 0, 0, 0],
        [0, 4, 9, 0, 0, 0, 0, 0, 0],
        [0, 8, 6, 0, 0, 0, 0, 0, 0],
        [9, 1, 3, 0, 0, 0, 2, 0, 0],
        [2, 5, 4, 0, 0, 0, 0, 0, 0],
        [8, 6, 7, 0, 0, 0, 0, 0, 0],
        [0, 0, 0, 0, 0, 0, 0, 0, 0],
        [0, 0, 0, 0, 0, 0, 0, 0, 0],
        [0, 0, 0, 0, 0, 0, 0, 0, 0],
    ]);

    let mut s = Solver::new(&mut b);

    assert!(s.solve(BoardPos::new(0, 0)));
}

#[test]
fn unsolvable_board_is_not_solvable() {
    let mut b = SudokuBoard::new([
        [1, 0, 2, 0, 0, 0, 0, 0, 0],
        [0, 4, 9, 0, 0, 0, 0, 0, 0],
        [0, 8, 6, 0, 0, 0, 0, 0, 0],
        [9, 1, 3, 0, 0, 0, 2, 0, 0],
        [2, 4, 4, 0, 0, 0, 0, 0, 0],
        [8, 6, 7, 0, 0, 0, 0, 0, 0],
        [0, 0, 0, 0, 0, 0, 0, 0, 0],
        [0, 0, 0, 0, 0, 0, 0, 0, 0],
        [0, 0, 0, 0, 0, 0, 0, 0, 0],
    ]);

    let mut s = Solver::new(&mut b);

    assert!(!s.solve(BoardPos::new(0, 0)));
}

#[test]
fn solved_board_keeps_clues_and_is_complete() {
    let start = [
        [1, 0, 2, 0, 0, 0, 0, 0, 0],
        [0, 4, 9, 0, 0, 0, 0, 0, 0],
        [0, 8, 6, 0, 0, 0, 0, 0, 0],
        [9, 1, 3, 0, 0, 0, 2, 0, 0],
        [2, 5, 4, 0, 0, 0, 0, 0, 0],
        [8, 6, 7, 0, 0, 0, 0, 0, 0],
        [0, 0, 0, 0, 0, 0, 0, 0, 0],
        [0, 0, 0, 0, 0, 0, 0, 0, 0],
        [0, 0, 0, 0, 0, 0, 0, 0, 0],
    ];
    let mut b = SudokuBoard::new(start);
    let solved = Solver::new(&mut b).solve(BoardPos::new(0, 0));
    assert!(solved);
    assert_solution_of(&b.rows, &start);
}

#[test]
fn empty_board_gets_first_solution() {
    let mut b = SudokuBoard::new([[0; 9]; 9]);
    assert!(Solver::new(&mut b).solve(BoardPos::new(0, 0)));
    assert_eq!(b.rows[0], [1, 2, 3, 4, 5, 6, 7, 8, 9]);
    assert_eq!(b.rows[1], [4, 5, 6, 7, 8, 9, 1, 2, 3]);
    assert_solution_of(&b.rows, &[[0; 9]; 9]);
}

#[test]
fn failed_solve_restores_board() {
    let start = [
        [1, 0, 2, 0, 0, 0, 0, 0, 0],
        [0, 4, 9, 0, 0, 0, 0, 0, 0],
        [0, 8, 6, 0, 0, 0, 0, 0, 0],
        [9, 1, 3, 0, 0, 0, 2, 0, 0],
        [2, 4, 4, 0, 0, 0, 0, 0, 0],
        [8, 6, 7, 0, 0, 0, 0, 0, 0],
        [0, 0, 0, 0, 0, 0, 0, 0, 0],
        [0, 0, 0, 0, 0, 0, 0, 0, 0],
        [0, 0, 0, 0, 0, 0, 0, 0, 0],
    ];
    let mut b = SudokuBoard::new(start);
    assert!(!Solver::new(&mut b).solve(BoardPos::new(0, 0)));
    assert_eq!(b.rows, start);
}

#[test]
fn failed_solve_with_valid_clues_restores_board() {
    // Valid as given, but the top-left cell can take no digit: 1 to 8 sit in
    // its row and 9 in its column.
    let mut start = [[0u32; 9]; 9];
    start[0] = [0, 1, 2, 3, 4, 5, 6, 7, 8];
    start[5][0] = 9;
    let mut b = SudokuBoard::new(start);
    assert!(b.check_board());
    assert!(!Solver::new(&mut b).solve(BoardPos::new(0, 0)));
    assert_eq!(b.rows, start);
}

#[test]
fn full_valid_board_is_solved_as_is() {
    let full = [
        [1, 3, 2, 4, 5, 6, 7, 8, 9],
        [5, 4, 9, 1, 7, 8, 2, 3, 6],
        [7, 8, 6, 2, 3, 9, 4, 5, 1],
        [2, 1, 7, 9, 4, 3, 8, 6, 5],
        [6, 5, 8, 7, 2, 1, 9, 4, 3],
        [3, 9, 4, 6, 8, 5, 1, 2, 7],
        [9, 2, 1, 3, 6, 4, 5, 7, 8],
        [8, 7, 3, 5, 1, 2, 6, 9, 4],
        [4, 6, 5, 8, 9, 7, 3, 1, 2],
    ];
    let mut b = SudokuBoard::new(full);
    assert!(Solver::new(&mut b).solve(BoardPos::new(0, 0)));
    assert_eq!(b.rows, full);

    let mut bad = full;
    bad[8][8] = 1;
    let mut c = SudokuBoard::new(bad);
    assert!(!Solver::new(&mut c).solve(BoardPos::new(0, 0)));
    assert_eq!(c.rows, bad);
}

#[test]
fn solve_from_later_cell_leaves_earlier_cells() {
    let mut start = [[0u32; 9]; 9];
    let mut b = SudokuBoard::new(start);
    assert!(Solver::new(&mut b).solve(BoardPos::new(8, 0)));
    assert_eq!(b.rows[8], [1, 2, 3, 4, 5, 6, 7, 8, 9]);
    for r in 0..8 {
        assert_eq!(b.rows[r], [0; 9]);
    }
}

#[test]
fn last_cell_alone() {
    let mut start = [[0u32; 9]; 9];
    start[8] = [1, 2, 3, 4, 5, 6, 7, 8, 0];
    let mut b = SudokuBoard::new(start);
    assert!(Solver::new(&mut b).solve(BoardPos::new(8, 8)));
    assert_eq!(b.rows[8][8], 9);
}
