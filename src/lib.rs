//! A generalized Sudoku board with a row/column/box checker, an undoable game
//! layer and a steppable backtracking solver.
pub mod checker;
pub mod completeness;
pub mod game;
pub mod grid;
pub mod solver;
pub mod text;
