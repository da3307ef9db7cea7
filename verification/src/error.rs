//! Errors of the orchestration layer.

use vstd::prelude::*;
use crate::parse::ParseError;

verus! {

/// `std::io::Error`, carried through unread.
#[verifier::external_type_specification]
#[verifier::external_body]
pub struct ExIoError(std::io::Error);

/// `serde_json::Error`, carried through unread.
#[verifier::external_type_specification]
#[verifier::external_body]
pub struct ExJsonError(serde_json::Error);

/// An error of the orchestration layer.
#[derive(Debug)]
pub enum CoreError {
    Parse(ParseError),
    Io(std::io::Error),
    Serde(serde_json::Error),
    InvalidOptions(String),
}

impl From<ParseError> for CoreError {
    fn from(e: ParseError) -> (r: Self) {
        CoreError::Parse(e)
    }
}

impl vstd::std_specs::convert::FromSpecImpl<ParseError> for CoreError {
    open spec fn obeys_from_spec() -> bool {
        true
    }

    open spec fn from_spec(e: ParseError) -> Self {
        CoreError::Parse(e)
    }
}

} // verus!
