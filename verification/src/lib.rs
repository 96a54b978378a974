#![verifier::loop_isolation(false)]
//! A Sudoku puzzle engine: a randomized backtracking generator that fills a
//! 9x9 grid under the row/column/box uniqueness constraints, and a carving
//! policy that clears cells from the solved grid to produce a puzzle of a
//! requested difficulty.

pub mod board_generator;
pub mod events;
pub mod game;
pub mod grid;
