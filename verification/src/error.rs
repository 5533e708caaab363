//! The single error type of the library.

use vstd::prelude::*;

verus! {

/// Error type for parsing and validation failures; the message is a
/// human-readable description of what was rejected.
#[derive(Debug, Clone, PartialEq)]
pub struct ParseError {
    pub message: String,
}

impl ParseError {
    /// The error's message text.
    pub fn message(&self) -> (r: &str)
        ensures
            r@ == self.message@,
    {
        self.message.as_str()
    }
}

} // verus!
