//! The failures that the retrieval core reports.

use vstd::prelude::*;
use vstd::string::StringExecFns;

verus! {

/// What can go wrong between ingestion and the assembled context.
#[derive(Debug, Clone, Copy, PartialEq, Eq)]
pub enum RetrievalError {
    /// A store could not be reached or answered out of turn; `inserted`
    /// records had been written by then.
    BackendUnavailable { inserted: usize },
    /// A vector has `found` components where the collection holds vectors
    /// of `expected`.
    DimensionMismatch { expected: usize, found: usize },
    /// The largest distance allowed for a vector hit is not positive.
    InvalidThreshold,
    /// Two different texts of one batch have the same digest.
    HashCollision,
    /// A hit was handed over as the hit of an index that it does not
    /// come from.
    OriginMismatch,
}

impl RetrievalError {
    /// The name of the kind of failure.
    pub open spec fn label(self) -> Seq<char> {
        match self {
            RetrievalError::BackendUnavailable { .. } => "backend unavailable"@,
            RetrievalError::DimensionMismatch { .. } => "dimension mismatch"@,
            RetrievalError::InvalidThreshold => "invalid threshold"@,
            RetrievalError::HashCollision => "hash collision"@,
            RetrievalError::OriginMismatch => "origin mismatch"@,
        }
    }

    /// A short description of the kind of failure.
    pub fn message(&self) -> (text: String)
        ensures
            text@ == self.label(),
    {
        match self {
            RetrievalError::BackendUnavailable { .. } => String::from_str("backend unavailable"),
            RetrievalError::DimensionMismatch { .. } => String::from_str("dimension mismatch"),
            RetrievalError::InvalidThreshold => String::from_str("invalid threshold"),
            RetrievalError::HashCollision => String::from_str("hash collision"),
            RetrievalError::OriginMismatch => String::from_str("origin mismatch"),
        }
    }
}

} // verus!
