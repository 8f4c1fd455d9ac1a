//! Error type shared by the library.

use vstd::prelude::*;

verus! {

/// Errors reported by the library.
#[derive(Debug, Clone, PartialEq, Eq)]
pub enum OwlError {
    /// A text could not be parsed.
    ParseError(String),
    /// A text was not acceptable as an IRI.
    IriParseError { iri: String, context: String },
    /// Reasoning could not be completed.
    ReasoningError(String),
    /// Storage or file access failed.
    StorageError(String),
    /// Encoding or decoding of a binary payload failed.
    SerializationError(String),
}

/// Result type of the library.
pub type OwlResult<T> = Result<T, OwlError>;

} // verus!
