//! A verified engine that enumerates every valid completion of a partially
//! filled square puzzle grid (generalized Sudoku).
//!
//! A puzzle of box dimension `N` is an `N * N` by `N * N` grid of cells, each
//! either empty (`0`) or holding a value in `1..=N * N`. The engine computes
//! all full assignments in which every placed value is distinct from every
//! other value in its row, its column, and its `N` by `N` box.

pub mod candidates;
pub mod grid;
pub mod laws;
pub mod solver;

pub use grid::Grid;
