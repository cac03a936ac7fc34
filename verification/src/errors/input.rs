//! Failures raised while turning tabular input into a graph.  They are
//! collected per row rather than aborting a whole load.

use vstd::prelude::*;

verus! {

/// A cell position `(x, y)` lies outside the row it was read from.
#[derive(Debug)]
pub struct CellNotFoundError {
    pub cell_pos: (usize, usize),
}

/// The cell at `cell_pos` holds `cell_val`, which is not numeric.
#[derive(Debug)]
pub struct CellNotNumericError {
    pub cell_pos: (usize, usize),
    pub cell_val: String,
}

/// A failure at one cell, collected while a matrix is processed.
#[derive(Debug)]
pub enum CellError {
    NotFound(CellNotFoundError),
    NotNumeric(CellNotNumericError),
}

/// A task over some input failed; carries the task's description, the
/// collected per-cell failures, and the offending input.
#[derive(Debug)]
pub struct CreateError<T> {
    pub task: String,
    pub errors: Vec<CellError>,
    pub input: T,
}

} // verus!
