//! Errors of the index layer.

use crate::text::{decimal, join2, join3, u64_text, usize_text};
use vstd::prelude::*;

verus! {

/// Errors that can occur in the index layer.
#[derive(Debug, PartialEq)]
pub enum IndexError {
    DimensionMismatch { expected: usize, got: usize },
    InvalidVector(String),
    VectorIndexDisabled,
    VectorSpaceMismatch(String),
    IndexUnavailableAfterCommit { generation: u64, cause: String },
    Storage(String),
}

#[verifier::ext_equal]
pub enum IndexErrorModel {
    DimensionMismatch { expected: usize, got: usize },
    InvalidVector(Seq<char>),
    VectorIndexDisabled,
    VectorSpaceMismatch(Seq<char>),
    IndexUnavailableAfterCommit { generation: u64, cause: Seq<char> },
    Storage(Seq<char>),
}

impl DeepView for IndexError {
    type V = IndexErrorModel;

    open spec fn deep_view(&self) -> IndexErrorModel {
        match self {
            IndexError::DimensionMismatch { expected, got } => IndexErrorModel::DimensionMismatch {
                expected: *expected,
                got: *got,
            },
            IndexError::InvalidVector(text) => IndexErrorModel::InvalidVector(text@),
            IndexError::VectorIndexDisabled => IndexErrorModel::VectorIndexDisabled,
            IndexError::VectorSpaceMismatch(text) => IndexErrorModel::VectorSpaceMismatch(text@),
            IndexError::IndexUnavailableAfterCommit { generation, cause } => {
                IndexErrorModel::IndexUnavailableAfterCommit {
                    generation: *generation,
                    cause: cause@,
                }
            },
            IndexError::Storage(text) => IndexErrorModel::Storage(text@),
        }
    }
}

impl IndexErrorModel {
    /// The message for the reader.
    pub open spec fn message(self) -> Seq<char> {
        match self {
            IndexErrorModel::DimensionMismatch { expected, got } => {
                "INVALID_VECTOR: dimension mismatch: expected "@ + decimal(expected as nat)
                    + ", got "@ + decimal(got as nat)
            },
            IndexErrorModel::InvalidVector(text) => "INVALID_VECTOR: "@ + text,
            IndexErrorModel::VectorIndexDisabled => {
                "INVALID_VECTOR: open the database with an explicit vector configuration"@
            },
            IndexErrorModel::VectorSpaceMismatch(text) => "VECTOR_SPACE_MISMATCH: "@ + text,
            IndexErrorModel::IndexUnavailableAfterCommit { generation, cause } => {
                "INDEX_DEGRADED: generation "@ + decimal(generation as nat)
                    + " was committed but indexes could not be rebuilt: "@ + cause
            },
            IndexErrorModel::Storage(text) => "semantic storage error: "@ + text,
        }
    }
}

impl IndexError {
    /// The message for the reader.
    pub fn to_string(&self) -> (r: String)
        ensures
            r@ == self.deep_view().message(),
    {
        match self {
            IndexError::DimensionMismatch { expected, got } => {
                let head = join3(
                    "INVALID_VECTOR: dimension mismatch: expected ",
                    usize_text(*expected).as_str(),
                    ", got ",
                );
                join2(head.as_str(), usize_text(*got).as_str())
            },
            IndexError::InvalidVector(text) => join2("INVALID_VECTOR: ", text.as_str()),
            IndexError::VectorIndexDisabled => {
                "INVALID_VECTOR: open the database with an explicit vector configuration".to_owned()
            },
            IndexError::VectorSpaceMismatch(text) => join2(
                "VECTOR_SPACE_MISMATCH: ",
                text.as_str(),
            ),
            IndexError::IndexUnavailableAfterCommit { generation, cause } => {
                let head = join3(
                    "INDEX_DEGRADED: generation ",
                    u64_text(*generation).as_str(),
                    " was committed but indexes could not be rebuilt: ",
                );
                join2(head.as_str(), cause.as_str())
            },
            IndexError::Storage(text) => join2("semantic storage error: ", text.as_str()),
        }
    }
}

} // verus!
