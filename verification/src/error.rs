//! The one failure that is reported to the caller.

use vstd::prelude::*;

verus! {

/// Why a request to the demultiplexer was refused.
#[derive(Clone, Copy, Debug, PartialEq, Eq, Structural)]
pub enum Error {
    /// No program with the given number is known from the association table.
    InvalidProgramNumber,
}

impl Error {
    /// The message that describes the error.
    pub fn message(&self) -> (s: &'static str)
        ensures
            s@ == "Invalid program number"@,
    {
        match self {
            Error::InvalidProgramNumber => "Invalid program number",
        }
    }
}

} // verus!
