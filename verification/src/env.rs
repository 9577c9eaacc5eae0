//! What the environments share: the verdict on a submitted output and the
//! error of an input that a program cannot run on.
use vstd::prelude::*;

use crate::command::ParseError;

verus! {

/// The verdict on an output.
#[derive(Debug, Clone, PartialEq, Eq)]
pub enum ValidationResult {
    Correct,
    Mismatch { reason: String },
}

/// An input that the program cannot run on: a message, and the error
/// underneath it.
#[derive(Debug, Clone)]
pub enum EnvError {
    InvalidInputForProgram { message: String, source: ParseError },
}

impl EnvError {
    /// The error `message` caused by `source`.
    pub fn invalid_input_for_program(message: &str, source: ParseError) -> (r: EnvError)
        ensures
            r matches EnvError::InvalidInputForProgram { message: m, source: s } && m@ == message@
                && s@ == source@,
    {
        EnvError::InvalidInputForProgram { message: String::from_str(message), source }
    }
}

} // verus!
