//! A solver for generalized Sudoku grids: constraint propagation over rows,
//! columns and boxes, layered under a backtracking search.

pub mod board;
pub mod boolean_operation;
pub mod cell;
pub mod checks;
pub mod completions;
pub mod counting;
pub mod digit_iterator;
pub mod digit_set;
pub mod fast;
pub mod geometry;
pub mod index_iterator;
pub mod laws;
pub mod location;
pub mod model;
pub mod passes;
pub mod pattern;
pub mod propagation;
pub mod puzzle_generator;
pub mod puzzles;
pub mod reduction;
pub mod render;
pub mod search;
pub mod solve;
