//! What the plain values that contracts speak of have to do with the values themselves,
//! and what callers are told where something fails.

use vstd::prelude::*;

use crate::error::{error_text, StorageError};
use crate::json::{named_fields, text_of, JsonValue};
use crate::key_listing::{
    answers, answers_page, candidate_views, fallback_views, opt_str, page_of, probe_views,
    BareProbe, Candidate,
};
use crate::key_map::entry_views;
use crate::key_value_store::{
    adoptable_views, all_valid, attempt_views, extensions_of, is_bad_filename, sidecar_view,
    types_of,
};
use crate::models::{
    record_views, AdoptableFile, BareFallback, KeyValueStoreRecordMetadata, KvsKeysPage,
    ListBareFallback, RecordView,
};
use crate::path::bad_subdirectory_text;
use crate::request_queue::is_missing_key;
use crate::storage::is_exclusive_error;
use crate::store_laws::{can_hold_a_value, law_names_of_values};
use crate::stub_gen::{
    dict_views, field_views, fixed_stub, rewritten, with_entries, TypedDictField, TypedDictSpec,
};
use crate::text::{joined, lines_of, opt_text, texts};
use crate::utils::valid_value_name;

verus! {

// ---------------------------------------------------------------------------
// Plain values
// ---------------------------------------------------------------------------

/// The plain texts of strings are theirs, in order; so is that of an optional one.
pub proof fn law_plain_texts(v: Seq<String>, o: Option<String>, b: Option<&str>, i: int)
    ensures
        texts(v).len() == v.len(),
        0 <= i < v.len() ==> texts(v)[i] == v[i]@,
        o matches Some(s) ==> opt_text(o) == Some(s@),
        o is None ==> opt_text(o) is None,
        b matches Some(s) ==> opt_str(b) == Some(s@),
        b is None ==> opt_str(b) is None,
{
}

/// The plain form of a record has what its fields have, and that of a list has the plain
/// forms of its records in order.
pub proof fn law_plain_records(
    r: KeyValueStoreRecordMetadata,
    v: Seq<KeyValueStoreRecordMetadata>,
    i: int,
)
    ensures
        r@.key == r.key@,
        r@.content_type == r.content_type@,
        r@.size == r.size,
        r.filename matches Some(f) ==> r@.filename == Some(f@),
        r.filename is None ==> r@.filename is None,
        record_views(v).len() == v.len(),
        0 <= i < v.len() ==> record_views(v)[i] == v[i]@,
        sidecar_view(Some(r)) == Some(r@),
        sidecar_view(None) is None,
{
}

/// The plain forms of what callers declare have, in order, the name or the extension and
/// the type of each declaration.
pub proof fn law_plain_declarations(
    files: Seq<AdoptableFile>,
    bare: Seq<BareFallback>,
    listed: Seq<ListBareFallback>,
    i: int,
)
    ensures
        adoptable_views(files).len() == files.len(),
        0 <= i < files.len() ==> adoptable_views(files)[i] == (
            files[i].filename@,
            files[i].content_type@,
        ),
        extensions_of(bare).len() == bare.len(),
        types_of(bare).len() == bare.len(),
        0 <= i < bare.len() ==> extensions_of(bare)[i] == bare[i].extension@ && types_of(bare)[i]
            == bare[i].content_type@,
        fallback_views(listed).len() == listed.len(),
        0 <= i < listed.len() ==> fallback_views(listed)[i] == (
            listed[i].name@,
            listed[i].content_type@,
        ),
{
}

/// The plain forms of what a listing works with have, in order, what its fields have.
pub proof fn law_plain_candidates(
    probes: Seq<BareProbe>,
    candidates: Seq<Candidate>,
    attempts: Seq<(String, bool)>,
    i: int,
)
    ensures
        probe_views(probes).len() == probes.len(),
        0 <= i < probes.len() ==> probe_views(probes)[i] == (
            probes[i].name@,
            probes[i].content_type@,
        ),
        candidate_views(candidates).len() == candidates.len(),
        0 <= i < candidates.len() ==> {
            let c = candidates[i];
            let plain = candidate_views(candidates)[i];
            &&& plain.sort_key == c.sort_key@
            &&& c.encoded_key matches Some(e) ==> plain.encoded_key == Some(e@)
            &&& c.encoded_key is None ==> plain.encoded_key is None
            &&& c.meta matches Some(m) ==> plain.meta == Some(m@)
            &&& c.meta is None ==> plain.meta is None
        },
        attempt_views(attempts).len() == attempts.len(),
        0 <= i < attempts.len() ==> attempt_views(attempts)[i] == (attempts[i].0@, attempts[i].1),
{
}

/// The plain forms of the fields of a document and of the entries of a queue have, in
/// order, the name and the value of each.
pub proof fn law_plain_fields(
    fields: Seq<(String, JsonValue)>,
    entries: Seq<(String, Option<i64>)>,
    v: JsonValue,
    i: int,
)
    ensures
        named_fields(fields).len() == fields.len(),
        0 <= i < fields.len() ==> named_fields(fields)[i] == (fields[i].0@, fields[i].1),
        entry_views(entries).len() == entries.len(),
        0 <= i < entries.len() ==> entry_views(entries)[i] == (entries[i].0@, entries[i].1),
        v matches JsonValue::Str(s) ==> text_of(v) == Some(s@),
        !(v is Str) ==> text_of(v) is None,
{
}

/// The plain forms of the shapes of dictionaries have, in order, the name of each and the
/// keys and types of its fields.
pub proof fn law_plain_shapes(fields: Seq<TypedDictField>, dicts: Seq<TypedDictSpec>, i: int)
    ensures
        field_views(fields).len() == fields.len(),
        0 <= i < fields.len() ==> field_views(fields)[i] == (fields[i].key@, fields[i].py_type@),
        dict_views(dicts).len() == dicts.len(),
        0 <= i < dicts.len() ==> dict_views(dicts)[i] == (
            dicts[i].name@,
            field_views(dicts[i].fields@),
        ),
{
}

// ---------------------------------------------------------------------------
// Answers
// ---------------------------------------------------------------------------

/// A listing that has an answer succeeds with it, and one that has none fails with the
/// cursor that was not found. The same holds of a page of it.
pub proof fn law_answers_of_a_listing(
    r: Result<Vec<KeyValueStoreRecordMetadata>, StorageError>,
    p: Result<KvsKeysPage, StorageError>,
    views: Seq<RecordView>,
    start: Option<Seq<char>>,
    limit: Option<usize>,
    page_size: usize,
)
    ensures
        answers(r, Some(views), start) ==> r is Ok && record_views(r->Ok_0@) == views,
        answers(r, None, start) ==> {
            &&& r matches Err(StorageError::ExclusiveStartKeyNotFound(key))
            &&& start == Some(key@)
        },
        answers_page(p, Some(views), start, limit, page_size) ==> {
            &&& p matches Ok(page)
            &&& record_views(page.items@) == page_of(views, limit, page_size).0
            &&& page.has_more == page_of(views, limit, page_size).1
        },
        answers_page(p, None, start, limit, page_size) ==> {
            &&& p matches Err(StorageError::ExclusiveStartKeyNotFound(key))
            &&& start == Some(key@)
        },
{
}

/// Names are all accepted for values exactly where each of them can hold one.
pub proof fn law_all_names_hold_values(files: Seq<(Seq<char>, Seq<char>)>)
    ensures
        all_valid(files) <==> forall|i: int|
            0 <= i < files.len() ==> can_hold_a_value((#[trigger] files[i]).0),
{
    assert forall|i: int| 0 <= i < files.len() implies (valid_value_name(
        (#[trigger] files[i]).0,
    ) <==> can_hold_a_value(files[i].0)) by {
        law_names_of_values(files[i].0);
    }
}

/// A stub is rewritten line by line, and then completed in its list of exported names.
pub proof fn law_stub_is_rewritten_and_completed(
    content: Seq<char>,
    typed_dicts: Seq<char>,
    async_methods: Set<Seq<char>>,
)
    ensures
        fixed_stub(content, typed_dicts, async_methods) == with_entries(
            lines_of(
                rewritten(
                    lines_of(content),
                    lines_of(content).len() as int,
                    typed_dicts,
                    async_methods,
                ),
            ),
        ),
{
}

// ---------------------------------------------------------------------------
// What callers are told
// ---------------------------------------------------------------------------

/// The text of an error says what kind of error it is, and then what went wrong.
pub proof fn law_texts_of_errors(s: String, key: String, files: Vec<String>)
    ensures
        error_text(StorageError::Io(s)) == "I/O error: "@ + s@,
        error_text(StorageError::Json(s)) == "JSON error: "@ + s@,
        error_text(StorageError::InvalidArgs(s)) == "Invalid arguments: "@ + s@,
        error_text(StorageError::NotFound(s)) == "Storage not found: "@ + s@,
        error_text(StorageError::ExclusiveStartKeyNotFound(s)) == "exclusiveStartKey \""@ + s@
            + "\" was not found in the key-value store. This is likely a bug \u{2014} the key may have been deleted between paginated listKeys calls."@,
        error_text(StorageError::AmbiguousInput { key, files })
            == "Multiple files match the key \""@ + key@ + "\": "@ + joined(texts(files@), ", "@)
            + ". Keep only one of them."@,
{
}

/// A refused argument is refused with a text that names it, where there is one to name.
pub proof fn law_texts_of_refusals(e: StorageError, name: Seq<char>)
    ensures
        is_bad_filename(e, name) ==> error_text(e) == "Invalid arguments: "@ + (
        "Invalid file name \""@ + name
            + "\". It must be a plain name inside the store directory and must not be a metadata file."@),
        bad_subdirectory_text(name) == "Invalid storage name or alias \""@ + name
            + "\". It must map to a single subdirectory under the storage directory and must not contain path separators, parent directory references (\"..\") or absolute paths."@,
        is_missing_key(e) ==> error_text(e) == "Invalid arguments: "@
            + "Request must have a 'uniqueKey' field"@,
        is_exclusive_error(e) ==> error_text(e) == "Invalid arguments: "@
            + "At most one of 'id', 'name', or 'alias' may be specified"@,
{
}

} // verus!
