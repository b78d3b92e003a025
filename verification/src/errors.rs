//! The three fatal input errors and their process exit codes.

use vstd::prelude::*;

verus! {

/// Everything that can go wrong with the command-line input: a wrong number
/// of arguments, a unit outside the recognized set, or a magnitude that is
/// not a non-negative decimal number.
#[derive(Clone, Copy, Debug, PartialEq, Eq, Structural)]
pub enum SizeError {
    UsageError,
    InvalidUnitError,
    InvalidMagnitudeError,
}

/// The process exit code documented for each error.
pub open spec fn spec_exit_code(e: SizeError) -> i32 {
    match e {
        SizeError::UsageError => 2,
        SizeError::InvalidUnitError => 2,
        SizeError::InvalidMagnitudeError => 4,
    }
}

impl SizeError {
    /// Usage and unit errors exit with 2, magnitude errors with 4.
    pub fn exit_code(&self) -> (c: i32)
        ensures
            c == spec_exit_code(*self),
    {
        match self {
            SizeError::UsageError => 2,
            SizeError::InvalidUnitError => 2,
            SizeError::InvalidMagnitudeError => 4,
        }
    }
}

} // verus!
