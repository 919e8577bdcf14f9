//! A verified generator of fully solved Sudoku grids.
//!
//! The board is an N x N grid of cells holding values in `{0, 1..N}`, where
//! `0` marks an empty cell. A randomized backtracking search fills an empty
//! board so that every row, every column and every subgrid contains each
//! value in `1..=N` exactly once.

pub mod board;
pub mod laws;
pub mod model;
pub mod rng;
