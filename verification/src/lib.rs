//! A solver for 9x9 sudoku puzzles, verified with Verus.
//!
//! A board is built from text, its given digits are propagated, and units
//! are narrowed until nothing more follows; where cells stay undetermined, a
//! search guesses a digit on a copy of the board and rules it out when the
//! copy cannot be solved.
//!
//! - [`digits`]: sets of digits.
//! - [`cell`]: a cell, fixed or with candidates, and elimination.
//! - [`geometry`]: coordinates, adjacent cells and units.
//! - [`grid`]: the model of a board, narrowings, closures and solutions.
//! - [`board`]: the board and its construction from text.
//! - [`propagate`]: the initial check and assignments.
//! - [`narrow`]: narrowing passes over the units.
//! - [`pattern`]: solutions built from a pattern, as witnesses.
//! - [`guess`]: the choice of the next guess.
//! - [`solve`]: the search.
//! - [`render`]: the board as text.

pub mod board;
pub mod cell;
pub mod digits;
pub mod error;
pub mod geometry;
pub mod grid;
pub mod guess;
pub mod narrow;
pub mod pattern;
pub mod propagate;
pub mod render;
pub mod solve;

pub use crate::board::SudokuBoard;
pub use crate::cell::{CellValue, Elimination};
pub use crate::digits::DigitSet;
pub use crate::error::SudokuError;
pub use crate::geometry::Point;
