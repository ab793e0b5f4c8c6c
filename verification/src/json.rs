//! JSON documents, as `serde_json` reads and writes them.

use serde_json::Value;
use vstd::prelude::*;

use crate::error::JsonFailure;

verus! {

/// `serde_json::Value`, a JSON document.
#[verifier::external_type_specification]
#[verifier::external_body]
pub struct ExValue(serde_json::Value);

/// The compact text of a JSON document, in bytes.
pub uninterp spec fn json_text(value: Value) -> Seq<u8>;

/// What `serde_json` reads from bytes: the compact text of the document that
/// they hold, or else the line, the column and the words of its report.
pub uninterp spec fn parsed_json(bytes: Seq<u8>) -> Result<Seq<u8>, (usize, usize, Seq<char>)>;

/// `serde_json::from_slice` reads a JSON document, always the same one from the
/// same bytes, and reports the same failure on the same bytes.
#[verifier::external_body]
pub(crate) fn read_json(bytes: &[u8]) -> (value: Result<Value, JsonFailure>)
    ensures
        match value {
            Ok(v) => parsed_json(bytes@) == Ok::<Seq<u8>, (usize, usize, Seq<char>)>(json_text(v)),
            Err(e) => parsed_json(bytes@) == Err::<Seq<u8>, (usize, usize, Seq<char>)>(
                (e.line, e.column, e.message@),
            ),
        },
{
    serde_json::from_slice(bytes).map_err(
        |e| JsonFailure { line: e.line(), column: e.column(), message: e.to_string() },
    )
}

/// `serde_json::to_vec` writes a JSON document as compact text. It fails only
/// where a map has a key that is not a string, or where the type of the value
/// decides to fail; a document does neither.
#[verifier::external_body]
pub(crate) fn write_json(value: &Value) -> (text: Result<Vec<u8>, JsonFailure>)
    ensures
        text is Ok,
        text->Ok_0@ == json_text(*value),
{
    serde_json::to_vec(value).map_err(
        |e| JsonFailure { line: e.line(), column: e.column(), message: e.to_string() },
    )
}

} // verus!
