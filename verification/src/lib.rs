//! A small library of grid-based puzzle solvers.
//!
//! The heart of the crate is [`grid_2d`]: a fixed-size, row-major,
//! bounds-checked 2D container with a companion signed coordinate type.
//! The remaining modules hold the pure logic of the individual solvers
//! that build on it; reading input files and printing answers is left to
//! the binary that wraps this library.

pub mod antennas;
pub mod calibration;
pub mod counting;
pub mod grid_2d;
pub mod lists;
pub mod ordering;
pub mod parsing;
pub mod patrol;
pub mod reports;
pub mod tokens;
pub mod word_search;

use vstd::prelude::*;

verus! {

/// A catch-all error for the solvers: a human-readable message.
#[derive(Debug)]
pub enum GenericError {
    BasicError(String),
}

impl GenericError {
    /// The message carried by the error.
    pub fn message(&self) -> (r: &String)
        ensures
            self matches GenericError::BasicError(m) && r == m,
    {
        match self {
            GenericError::BasicError(m) => m,
        }
    }
}

pub type GenericResult<T> = Result<T, GenericError>;

} // verus!
