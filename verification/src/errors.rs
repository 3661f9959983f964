//! What can go wrong.
use vstd::prelude::*;

verus! {

/// The failures that the library reports.
#[derive(Clone, Copy, Debug, PartialEq, Eq, Structural)]
pub enum PirError {
    /// A set of query parameters was used for a second query.
    QueryParamsReused,
    /// Adding the query indicator overflowed the masked value of the row.
    OverflownAdd,
    /// A value does not have the size that it must have.
    UnexpectedInputSize,
    /// A database element is not base64 text.
    InvalidBase64,
    /// A database file is not a JSON list of strings.
    InvalidJson,
    /// A response could not be serialized.
    Serialization,
}

impl PirError {
    /// A message for the user.
    pub fn message(&self) -> (text: &'static str)
        ensures
            text@ == match *self {
                PirError::QueryParamsReused => "query parameters have already been used"@,
                PirError::OverflownAdd => "overflow while adding the query indicator"@,
                PirError::UnexpectedInputSize => "unexpected input size"@,
                PirError::InvalidBase64 => "invalid base64 text"@,
                PirError::InvalidJson => "invalid JSON list of strings"@,
                PirError::Serialization => "serialization failed"@,
            },
    {
        match self {
            PirError::QueryParamsReused => "query parameters have already been used",
            PirError::OverflownAdd => "overflow while adding the query indicator",
            PirError::UnexpectedInputSize => "unexpected input size",
            PirError::InvalidBase64 => "invalid base64 text",
            PirError::InvalidJson => "invalid JSON list of strings",
            PirError::Serialization => "serialization failed",
        }
    }
}

} // verus!
