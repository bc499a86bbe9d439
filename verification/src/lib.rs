//! A 9×9 Sudoku solver: digit sets for rows, columns and boxes, a grid that
//! keeps them in step with its cells, and a backtracking search over both.

pub mod board;
pub mod cell_group;
pub mod grid;
pub mod laws;
pub mod search;
pub mod text;
