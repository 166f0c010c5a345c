//! The error type shared by all storages.

use vstd::prelude::*;

use crate::text::{concat2, join, joined, texts};

verus! {

/// Why a storage operation failed.
#[derive(Debug)]
pub enum StorageError {
    /// Reading or writing the filesystem failed.
    Io(String),
    /// A document could not be encoded or decoded as JSON.
    Json(String),
    /// The caller's arguments contradict each other or are out of bounds.
    InvalidArgs(String),
    /// The requested storage does not exist.
    NotFound(String),
    /// The cursor of a key listing names a key that is not in the listing.
    ExclusiveStartKeyNotFound(String),
    /// More than one file could stand for the same key.
    AmbiguousInput {
        /// The key that was to be adopted.
        key: String,
        /// The candidate files that exist.
        files: Vec<String>,
    },
}

/// The text of an error, as shown to users.
pub open spec fn error_text(e: StorageError) -> Seq<char> {
    match e {
        StorageError::Io(s) => "I/O error: "@ + s@,
        StorageError::Json(s) => "JSON error: "@ + s@,
        StorageError::InvalidArgs(s) => "Invalid arguments: "@ + s@,
        StorageError::NotFound(s) => "Storage not found: "@ + s@,
        StorageError::ExclusiveStartKeyNotFound(k) => "exclusiveStartKey \""@ + k@
            + "\" was not found in the key-value store. This is likely a bug \u{2014} the key may have been deleted between paginated listKeys calls."@,
        StorageError::AmbiguousInput { key, files } => ambiguous_text(key@, texts(files@)),
    }
}

/// The text of an ambiguity: the key and the files that compete for it.
pub open spec fn ambiguous_text(key: Seq<char>, files: Seq<Seq<char>>) -> Seq<char> {
    "Multiple files match the key \""@ + key + "\": "@ + joined(files, ", "@)
        + ". Keep only one of them."@
}

impl StorageError {
    /// The text of this error.
    pub fn message(&self) -> (r: String)
        ensures
            r@ == error_text(*self),
    {
        match self {
            StorageError::Io(s) => concat2("I/O error: ", s.as_str()),
            StorageError::Json(s) => concat2("JSON error: ", s.as_str()),
            StorageError::InvalidArgs(s) => concat2("Invalid arguments: ", s.as_str()),
            StorageError::NotFound(s) => concat2("Storage not found: ", s.as_str()),
            StorageError::ExclusiveStartKeyNotFound(k) => {
                let mut out = concat2("exclusiveStartKey \"", k.as_str());
                out.append("\" was not found in the key-value store. This is likely a bug \u{2014} the key may have been deleted between paginated listKeys calls.");
                out
            },
            StorageError::AmbiguousInput { key, files } => {
                let mut out = concat2("Multiple files match the key \"", key.as_str());
                out.append("\": ");
                let listed = join(files.as_slice(), ", ");
                out.append(listed.as_str());
                out.append(". Keep only one of them.");
                out
            },
        }
    }
}

} // verus!
