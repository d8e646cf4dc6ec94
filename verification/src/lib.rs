//! A solver for 9×9 Sudoku puzzles, seen as a graph colouring problem: each
//! cell is a node, cells of one column, row or block are joined, and a
//! solution gives every node one of nine colours so that joined nodes differ.
//!
//! `solver::algorithm` solves a puzzle by constraint propagation and
//! backtracking; `z3s::start` hands it to an SMT solver instead.

pub mod board;
pub mod coord;
pub mod grid;
pub mod propagate;
pub mod rules;
pub mod solver;
pub mod text;
pub mod z3s;

pub use crate::coord::CellCoord;
pub use crate::grid::{Cell, Graph};
