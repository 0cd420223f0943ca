//! Errors of the engine.

use crate::text::join2;
use vstd::prelude::*;

verus! {

/// Result type used across the engine.
pub type HiveResult<T> = std::result::Result<T, HiveError>;

/// Errors that the engine itself decides on.
#[derive(Debug)]
pub enum HiveError {
    /// JSON text that cannot be read.
    Json(String),
    /// Requested event or projection not found.
    NotFound(String),
    /// Invalid input from the caller.
    InvalidInput(String),
}

#[verifier::ext_equal]
pub enum ErrorModel {
    Json(Seq<char>),
    NotFound(Seq<char>),
    InvalidInput(Seq<char>),
}

impl DeepView for HiveError {
    type V = ErrorModel;

    open spec fn deep_view(&self) -> ErrorModel {
        match self {
            HiveError::Json(why) => ErrorModel::Json(why@),
            HiveError::NotFound(what) => ErrorModel::NotFound(what@),
            HiveError::InvalidInput(why) => ErrorModel::InvalidInput(why@),
        }
    }
}

impl ErrorModel {
    /// The message shown for an error.
    pub open spec fn message(self) -> Seq<char> {
        match self {
            ErrorModel::Json(why) => "json error: "@ + why,
            ErrorModel::NotFound(what) => "not found: "@ + what,
            ErrorModel::InvalidInput(why) => "invalid input: "@ + why,
        }
    }
}

impl HiveError {
    /// The message shown for an error.
    pub fn to_string(&self) -> (r: String)
        ensures
            r@ == self.deep_view().message(),
    {
        match self {
            HiveError::Json(why) => join2("json error: ", why.as_str()),
            HiveError::NotFound(what) => join2("not found: ", what.as_str()),
            HiveError::InvalidInput(why) => join2("invalid input: ", why.as_str()),
        }
    }
}

} // verus!
