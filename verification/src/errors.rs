//! The error values that index construction, query registration and query
//! evaluation report.

use vstd::prelude::*;

verus! {

/// Everything that can go wrong while registering a query or parsing a
/// record.
#[derive(Clone, Copy, Debug, PartialEq, Eq, Structural)]
pub enum Error {
    /// A query path failed the syntactic check at registration.
    InvalidQuery,
    /// The record is malformed: mismatched delimiters, a missing field name,
    /// a level deeper than the index was built for, or a value that does not
    /// lex.
    InvalidRecord,
    /// Speculative evaluation produced a partial match and falling back to
    /// the basic scan was disabled.
    FailedSpeculativeParse,
}

impl Error {
    /// A short description, in place of a `Display` implementation.
    pub fn message(&self) -> &'static str {
        match self {
            Error::InvalidQuery => "invalid query",
            Error::InvalidRecord => "invalid record",
            Error::FailedSpeculativeParse => "failed to parse in speculative parsing mode",
        }
    }
}

} // verus!
