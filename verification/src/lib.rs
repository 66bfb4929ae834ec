//! A sudoku core with machine-checked contracts: a constraint checker, a
//! backtracking solver and a puzzle generator over a 9×9 grid of digits.

pub mod board;
pub mod checker;
pub mod context;
pub mod generator;
pub mod grid;
pub mod score;
pub mod solution;
pub mod solver;
pub mod tictactoe;
