//! A 9x9 Sudoku solver: constraint propagation over per-cell candidate sets,
//! with depth-first search for whatever propagation leaves open.
//!
//! * [`topology`]: the cells, the units and the neighbours of the board.
//! * [`digits`]: the candidate set of one cell.
//! * [`rules`]: what the two rules of propagation ask of a board, and what
//!   it means for a board to be consistent or solved.
//! * [`solver`]: the grid, with `eliminate`, `assign` and `search`.
//! * [`propagation`] and [`branching`]: the steps of propagation and of the
//!   search, and what they add up to on a consistent board.
//! * [`model`]: the run of propagation and of the search on any board.
//! * [`parser`] and [`paint`]: a grid from text, and a grid as text.
//! * [`laws`]: what holds of every board and every outcome.

pub mod branching;
pub mod digits;
pub mod laws;
pub mod model;
pub mod paint;
pub mod parser;
pub mod propagation;
pub mod rules;
pub mod solver;
pub mod text;
pub mod topology;

pub use digits::DigitOptions;
pub use parser::parse_grid;
pub use solver::Grid;
pub use topology::{Cell, GridConstants};
