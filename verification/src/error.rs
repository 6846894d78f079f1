//! The ways in which building or narrowing a board can fail.

use vstd::prelude::*;

verus! {

/// Why an operation on a board failed.
#[derive(Clone, Copy, Debug, PartialEq, Eq, Structural)]
pub enum SudokuError {
    /// The text holds fewer than eighty-one cells.
    ParseError,
    /// A digit was ruled out of a cell fixed to it, or a unit has no place
    /// left for some digit.
    Unsolvable,
    /// The cell is already fixed to another digit.
    Overwrite,
    /// The digit is not among the cell's candidates.
    InvalidAssignment,
}

} // verus!
