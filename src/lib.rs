//! A 9x9 Sudoku grid with a constraint checker and a backtracking solver.
//!
//! `rules` states in spec functions what a valid grid and a solution are;
//! `board` holds the grid and checks it; `solver` fills its empty cells.
pub mod board;
pub mod position;
pub mod rules;
pub mod solver;
pub mod tracker;

pub use board::{combinator, SudokuBoard};
pub use position::BoardPos;
pub use solver::Solver;
pub use tracker::DigitTracker;
