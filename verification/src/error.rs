//! Error taxonomy of the chunking library.
//!
//! The algorithms themselves degrade instead of failing: empty input or a
//! zero maximum size yields an empty output sequence. Only the registry
//! reports `AlgorithmNotFound`; the other kinds are reserved for a binding
//! layer wrapping this library.

use vstd::prelude::*;

verus! {

/// Errors that can occur around chunking operations.
#[derive(Debug)]
pub enum ChunkError {
    /// Invalid configuration, reserved for parameter validation in a
    /// binding layer; never raised by the algorithms.
    InvalidConfig(String),
    /// Unexpected processing failure, reserved for a binding layer; the
    /// core operations are total.
    ProcessingError(String),
    /// A registry lookup named an algorithm that was never registered.
    AlgorithmNotFound(String),
}

impl ChunkError {
    /// The human-readable message for this error.
    pub fn message(&self) -> (r: String)
        ensures
            r@ == match self {
                ChunkError::InvalidConfig(m) => "Invalid configuration: "@ + m@,
                ChunkError::ProcessingError(m) => "Text processing error: "@ + m@,
                ChunkError::AlgorithmNotFound(m) => "Algorithm not found: "@ + m@,
            },
    {
        match self {
            ChunkError::InvalidConfig(m) => {
                let mut s = String::from_str("Invalid configuration: ");
                s.append(m.as_str());
                s
            },
            ChunkError::ProcessingError(m) => {
                let mut s = String::from_str("Text processing error: ");
                s.append(m.as_str());
                s
            },
            ChunkError::AlgorithmNotFound(m) => {
                let mut s = String::from_str("Algorithm not found: ");
                s.append(m.as_str());
                s
            },
        }
    }
}

} // verus!
