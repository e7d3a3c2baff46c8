//! A 9x9 Sudoku solver whose search engine is verified with Verus.
pub mod model;
pub mod board;
pub mod laws;
pub mod render;
pub mod sudoku;
pub mod uniqueness;
