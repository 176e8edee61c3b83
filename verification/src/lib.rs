//! A 9x9 constraint-propagation puzzle generator.
//!
//! A board of 81 cells is filled by repeatedly committing a value to an open
//! cell and propagating the consequences to every cell sharing a row, column,
//! or 3x3 box; a cell forced down to a single remaining candidate is committed
//! in turn. Generation restarts from the caller's seed on a dead end, up to a
//! fixed attempt budget.

pub mod tile;
pub mod candidates;
pub mod board;
pub mod util;
pub mod solver;
pub mod generate;
pub mod value;
