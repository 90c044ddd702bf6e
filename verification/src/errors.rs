//! Error types of the library.

use vstd::prelude::*;

verus! {

/// Failure to parse a symbol or a collateral pair from a string.
#[derive(Debug, Clone, Copy, PartialEq, Eq, Structural)]
pub enum ParseError {
    /// The string does not split into exactly two pieces around the
    /// delimiter.
    InvalidFormat,
    /// A piece of the string is not a known currency code.
    UnknownSymbol,
}

impl ParseError {
    /// A short description of the error.
    pub fn describe(self) -> &'static str {
        match self {
            ParseError::InvalidFormat => "string does not split into exactly two symbols",
            ParseError::UnknownSymbol => "not a known currency code",
        }
    }
}

} // verus!
