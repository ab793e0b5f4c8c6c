//! What can go wrong while a multipart stream is read.

use vstd::prelude::*;

use crate::text::Utf8Failure;

verus! {

/// `std::io::Error`.
#[verifier::external_type_specification]
#[verifier::external_body]
pub struct ExIoError(std::io::Error);

/// What `serde_json` reports of text that is not the JSON asked for.
#[derive(Debug, Clone, PartialEq, Eq)]
pub struct JsonFailure {
    /// The line, counted from 1, or 0 where no place is known.
    pub line: usize,
    /// The column, counted from 1, or 0 where no place is known.
    pub column: usize,
    /// The report in words.
    pub message: String,
}

/// Error returned by `MultipartReader`
#[derive(Debug)]
pub enum Error {
    /// An underlying IO error
    Io(std::io::Error),
    /// A header was not utf8 encoded
    Encoding(Utf8Failure),
    /// An error from `serde_json`
    Json(JsonFailure),
    /// The content-type of a multipart stream did not specify a boundary
    BoundaryNotSpecified,
}

impl From<std::io::Error> for Error {
    fn from(e: std::io::Error) -> (error: Error) {
        Error::Io(e)
    }
}

impl vstd::std_specs::convert::FromSpecImpl<std::io::Error> for Error {
    open spec fn obeys_from_spec() -> bool {
        true
    }

    open spec fn from_spec(e: std::io::Error) -> Error {
        Error::Io(e)
    }
}

impl From<Utf8Failure> for Error {
    fn from(e: Utf8Failure) -> (error: Error) {
        Error::Encoding(e)
    }
}

impl vstd::std_specs::convert::FromSpecImpl<Utf8Failure> for Error {
    open spec fn obeys_from_spec() -> bool {
        true
    }

    open spec fn from_spec(e: Utf8Failure) -> Error {
        Error::Encoding(e)
    }
}

impl From<JsonFailure> for Error {
    fn from(e: JsonFailure) -> (error: Error) {
        Error::Json(e)
    }
}

impl vstd::std_specs::convert::FromSpecImpl<JsonFailure> for Error {
    open spec fn obeys_from_spec() -> bool {
        true
    }

    open spec fn from_spec(e: JsonFailure) -> Error {
        Error::Json(e)
    }
}

} // verus!
