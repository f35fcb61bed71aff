//! A verified 9x9 sudoku solver.
//!
//! A board holds 81 cells, each empty or solved with one digit, plus one
//! 9-bit candidate mask per row, column and 3x3 block ([`board`]). The solver
//! ([`solver`]) eliminates forced moves to a fixed point, then guesses at a
//! cell with the fewest candidates and backtracks. Its contract states the
//! full story: it succeeds exactly when a completion of the input exists, a
//! success leaves a valid completed grid that keeps every given digit, and a
//! failure restores the board bit for bit.
//!
//! [`masks`] models candidate masks, [`groups`] the grid geometry, and
//! [`laws`] states the properties that span several functions.

pub mod board;
pub mod groups;
pub mod laws;
pub mod masks;
pub mod solver;
