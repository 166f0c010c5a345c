//! What opening a storage means, whatever its kind.

use vstd::prelude::*;

use crate::error::StorageError;
use crate::json::{field_of, text_of, JsonValue};
use crate::path::{
    bad_subdirectory_text, is_direct_child, join_path, normal_path, path_join,
    validate_subdirectory,
};
use crate::text::{concat2, opt_text, str_eq};
use crate::utils::{
    crypto_random_object_id, given_count, is_drawn_id, object_id_charset, validate_exclusive_args,
};

verus! {

/// The directory of a storage that is opened without a name.
pub const DEFAULT_NAME: &'static str = "default";

/// How many characters the identifier of a new storage has.
pub const STORAGE_ID_LENGTH: usize = 17;

/// Where a storage is to be looked for.
#[derive(Debug)]
pub enum StorageLocation {
    /// In the directory whose metadata has this identifier.
    ById(String),
    /// In this directory.
    At(String),
}

/// What is shown where more than one way of naming a storage is used.
pub open spec fn is_exclusive_error(e: StorageError) -> bool {
    e matches StorageError::InvalidArgs(text) && text@
        == "At most one of 'id', 'name', or 'alias' may be specified"@
}

/// The directory name that a name or an alias asks for.
pub open spec fn asked_name(name: Option<String>, alias: Option<String>) -> Option<Seq<char>> {
    if name is Some {
        opt_text(name)
    } else {
        opt_text(alias)
    }
}

/// Where a storage lies whose name is used as it is.
pub open spec fn named_location(
    storage_dir: Seq<char>,
    subdir: Seq<char>,
    asked: Option<Seq<char>>,
) -> Seq<char> {
    path_join(
        path_join(storage_dir, subdir),
        match asked {
            Some(n) => n,
            None => DEFAULT_NAME@,
        },
    )
}

/// Decides where to look for a storage. The name or alias becomes the name of a
/// directory as it is.
pub fn locate(
    id: &Option<String>,
    name: &Option<String>,
    alias: &Option<String>,
    storage_dir: &str,
    subdir: &str,
) -> (r: Result<StorageLocation, StorageError>)
    ensures
        match r {
            Ok(StorageLocation::ById(found)) => {
                &&& given_count(*id, *name, *alias) <= 1
                &&& opt_text(*id) == Some(found@)
            },
            Ok(StorageLocation::At(path)) => {
                &&& given_count(*id, *name, *alias) <= 1
                &&& *id is None
                &&& path@ == named_location(storage_dir@, subdir@, asked_name(*name, *alias))
            },
            Err(e) => given_count(*id, *name, *alias) > 1 && is_exclusive_error(e),
        },
{
    match validate_exclusive_args(id, name, alias) {
        Err(e) => {
            return Err(e);
        },
        Ok(()) => {},
    }
    if let Some(wanted) = id {
        return Ok(StorageLocation::ById(wanted.clone()));
    }
    let base = join_path(storage_dir, subdir);
    let dir_name = if let Some(n) = name {
        n.as_str()
    } else if let Some(a) = alias {
        a.as_str()
    } else {
        DEFAULT_NAME
    };
    Ok(StorageLocation::At(join_path(base.as_str(), dir_name)))
}

/// Decides where to look for a storage whose name or alias must be that of a
/// directory of its own.
pub fn locate_checked(
    id: &Option<String>,
    name: &Option<String>,
    alias: &Option<String>,
    storage_dir: &str,
    subdir: &str,
) -> (r: Result<StorageLocation, StorageError>)
    ensures
        ({
            let base = path_join(storage_dir@, subdir@);
            let asked = asked_name(*name, *alias);
            match r {
                Ok(StorageLocation::ById(found)) => {
                    &&& given_count(*id, *name, *alias) <= 1
                    &&& opt_text(*id) == Some(found@)
                },
                Ok(StorageLocation::At(path)) => {
                    &&& given_count(*id, *name, *alias) <= 1
                    &&& *id is None
                    &&& match asked {
                        Some(n) => is_direct_child(base, n) && path@ == normal_path(
                            path_join(base, n),
                        ),
                        None => path@ == path_join(base, DEFAULT_NAME@),
                    }
                },
                Err(e) => if given_count(*id, *name, *alias) > 1 {
                    is_exclusive_error(e)
                } else {
                    &&& *id is None
                    &&& asked matches Some(n)
                    &&& !is_direct_child(base, n)
                    &&& e matches StorageError::InvalidArgs(text)
                    &&& text@ == bad_subdirectory_text(n)
                },
            }
        }),
{
    match validate_exclusive_args(id, name, alias) {
        Err(e) => {
            return Err(e);
        },
        Ok(()) => {},
    }
    if let Some(wanted) = id {
        return Ok(StorageLocation::ById(wanted.clone()));
    }
    let base = join_path(storage_dir, subdir);
    let checked = if let Some(n) = name {
        validate_subdirectory(base.as_str(), n.as_str())
    } else if let Some(a) = alias {
        validate_subdirectory(base.as_str(), a.as_str())
    } else {
        Ok(join_path(base.as_str(), DEFAULT_NAME))
    };
    match checked {
        Ok(path) => Ok(StorageLocation::At(path)),
        Err(e) => Err(e),
    }
}

/// The error for a storage of the given kind whose identifier is in no
/// directory.
pub fn not_found(kind: &str, id: &str) -> (r: StorageError)
    ensures
        r matches StorageError::NotFound(text) && text@ == kind@ + " with id '"@ + id@
            + "' not found"@,
{
    let mut text = concat2(kind, " with id '");
    text.append(id);
    text.append("' not found");
    StorageError::NotFound(text)
}

/// Whether the metadata of a storage carries the given identifier.
pub open spec fn has_id(metadata: JsonValue, id: Seq<char>) -> bool {
    field_of(metadata, "id"@) matches Some(v) && text_of(v) == Some(id)
}

/// Whether the metadata of a storage carries the given identifier.
pub fn metadata_has_id(metadata: &JsonValue, id: &str) -> (r: bool)
    ensures
        r == has_id(*metadata, id@),
{
    match metadata.get("id") {
        Some(v) => match v.as_str() {
            Some(found) => str_eq(found, id),
            None => false,
        },
        None => false,
    }
}

/// The position of the first directory whose metadata carries the given
/// identifier. `None` stands for metadata that is missing or cannot be read.
pub fn find_storage_by_id(found: &[Option<JsonValue>], target_id: &str) -> (r: Option<usize>)
    ensures
        match r {
            Some(k) => {
                &&& k < found@.len()
                &&& found@[k as int] matches Some(m) && has_id(m, target_id@)
                &&& forall|j: int|
                    0 <= j < k ==> !(#[trigger] found@[j] matches Some(m) && has_id(m, target_id@))
            },
            None => forall|j: int|
                0 <= j < found@.len() ==> !(#[trigger] found@[j] matches Some(m) && has_id(
                    m,
                    target_id@,
                )),
        },
{
    for i in 0..found.len()
        invariant
            forall|j: int|
                0 <= j < i ==> !(#[trigger] found@[j] matches Some(m) && has_id(m, target_id@)),
    {
        if let Some(m) = &found[i] {
            if metadata_has_id(m, target_id) {
                return Some(i);
            }
        }
    }
    None
}

/// The identifier of a storage that is created: the one it was asked for by, or
/// a random one.
pub fn storage_id(id: Option<String>) -> (r: String)
    ensures
        match id {
            Some(given) => r == given,
            None => {
                &&& is_drawn_id(r@, STORAGE_ID_LENGTH)
                &&& r@.len() == STORAGE_ID_LENGTH
                &&& forall|i: int|
                    0 <= i < r@.len() ==> object_id_charset().contains(#[trigger] r@[i])
            },
        },
{
    match id {
        Some(given) => given,
        None => crypto_random_object_id(STORAGE_ID_LENGTH),
    }
}

/// What the name of an unfinished file starts with.
pub const TEMP_PREFIX: &'static str = ".tmp.";

/// A name for an unfinished file: a fixed start and twelve random characters.
pub fn temp_file_name() -> (r: String)
    ensures
        r@.len() == TEMP_PREFIX@.len() + 12,
        r@.take(TEMP_PREFIX@.len() as int) == TEMP_PREFIX@,
        is_drawn_id(r@.skip(TEMP_PREFIX@.len() as int), 12),
        forall|i: int|
            TEMP_PREFIX@.len() <= i < r@.len() ==> object_id_charset().contains(#[trigger] r@[i]),
{
    let id = crypto_random_object_id(12);
    let name = concat2(TEMP_PREFIX, id.as_str());
    assert forall|i: int| TEMP_PREFIX@.len() <= i < name@.len() implies object_id_charset()
        .contains(#[trigger] name@[i]) by {
        assert(name@[i] == id@[i - TEMP_PREFIX@.len()]);
    }
    assert(name@.take(TEMP_PREFIX@.len() as int) == TEMP_PREFIX@);
    assert(name@.skip(TEMP_PREFIX@.len() as int) == id@);
    name
}

} // verus!
