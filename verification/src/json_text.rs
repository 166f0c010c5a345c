//! The text of JSON documents on disk.

use serde::Serialize;
use vstd::prelude::*;

use crate::error::StorageError;

verus! {

/// A document of `serde_json`, which is handed on as it is.
#[verifier::external_type_specification]
#[verifier::external_body]
pub struct ExValue(serde_json::Value);

/// An error of `serde_json`, of which only the text is used.
#[verifier::external_type_specification]
#[verifier::external_body]
pub struct ExError(serde_json::Error);

/// How much a level of nesting is indented.
pub const INDENT: &'static str = "  ";

/// What `serde_json` writes for a document with its pretty formatter and the
/// given indentation, or the text of its error where it cannot write it.
pub uninterp spec fn pretty_text(value: serde_json::Value, indent: Seq<char>) -> Result<
    Seq<char>,
    Seq<char>,
>;

/// What an error of `serde_json` is shown as.
pub uninterp spec fn json_error_text(e: serde_json::Error) -> Seq<char>;

/// `serde_json::Serializer::with_formatter` on a `PrettyFormatter` with the given
/// indentation: the text of a document, over several lines, or an error. It is a
/// function of both arguments; what it looks like is named, not spelled out.
#[verifier::external_body]
fn write_pretty(value: &serde_json::Value, indent: &str) -> (r: Result<String, serde_json::Error>)
    ensures
        match (r, pretty_text(*value, indent@)) {
            (Ok(text), Ok(named)) => text@ == named,
            (Err(e), Err(named)) => json_error_text(e) == named,
            _ => false,
        },
{
    let mut buf = Vec::new();
    let formatter = serde_json::ser::PrettyFormatter::with_indent(indent.as_bytes());
    let mut serializer = serde_json::Serializer::with_formatter(&mut buf, formatter);
    value.serialize(&mut serializer)?;
    Ok(String::from_utf8(buf).expect("JSON text is UTF-8"))
}

/// The `Display` of `serde_json::Error`: the text of an error, which is named, not
/// spelled out.
#[verifier::external_body]
fn error_text_of(e: &serde_json::Error) -> (r: String)
    ensures
        r@ == json_error_text(*e),
{
    e.to_string()
}

/// What the outcome of writing a document means to a caller.
pub fn written(outcome: Result<String, String>) -> (r: Result<String, StorageError>)
    ensures
        match outcome {
            Ok(text) => r == Ok::<String, StorageError>(text),
            Err(text) => r == Err::<String, StorageError>(StorageError::Json(text)),
        },
{
    match outcome {
        Ok(text) => Ok(text),
        Err(text) => Err(StorageError::Json(text)),
    }
}

/// The text of a document, two spaces deeper with each level.
pub fn json_dumps(value: &serde_json::Value) -> (r: Result<String, StorageError>)
    ensures
        match (r, pretty_text(*value, INDENT@)) {
            (Ok(text), Ok(named)) => text@ == named,
            (Err(StorageError::Json(text)), Err(named)) => text@ == named,
            _ => false,
        },
{
    match write_pretty(value, INDENT) {
        Ok(text) => written(Ok(text)),
        Err(e) => written(Err(error_text_of(&e))),
    }
}

} // verus!
