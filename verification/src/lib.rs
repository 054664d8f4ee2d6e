//! A verified 9x9 Sudoku solver.
//!
//! The `board` module holds the grid representation with its containment
//! predicates; the `solver` module holds the backtracking search, proved
//! complete: it returns a solution exactly when one exists.

pub mod board;
pub mod solver;
