//! The rules of a key-value store: which files a record consists of, and what
//! reading, writing, adopting, deleting and purging do to them.
//!
//! A record is a value file and a description of it, the sidecar. The sidecar is
//! named after the key; the value file too, unless the sidecar binds the key to
//! another file.

use vstd::prelude::*;
use vstd::hash_set::StringHashSet;

use crate::error::StorageError;
use crate::key_listing::{opt_str, owned, sidecar_suffix, with_size, fill_size, OCTET_STREAM};
use crate::models::{
    AdoptableFile, AdoptionCandidate, BareFallback, KeyValueStoreRecord,
    KeyValueStoreRecordMetadata, KeyValueStoreValueFileInfo, RecordView,
};
use crate::path::{join_path, path_join};
use crate::text::{concat2, opt_text, str_eq, texts};
use crate::utils::{
    bad_filename_text, encode_key, encoded_key, is_metadata_filename, metadata_name,
    valid_value_name, validate_filename, METADATA_FILENAME,
};

verus! {

/// The directory of all key-value stores.
pub const STORAGE_SUBDIR: &'static str = "key_value_stores";

/// The kind of storage, as it is called in messages.
pub const STORAGE_KIND: &'static str = "Key-value store";

// ---------------------------------------------------------------------------
// Names
// ---------------------------------------------------------------------------

/// The name of the sidecar of an encoded key.
pub open spec fn sidecar_name_of(encoded: Seq<char>) -> Seq<char> {
    encoded + sidecar_suffix()
}

/// The name of the value file of a record, where what it is bound to can be one.
pub open spec fn value_name_of(encoded: Seq<char>, filename: Option<Seq<char>>) -> Option<
    Seq<char>,
> {
    match filename {
        Some(name) => if valid_value_name(name) {
            Some(name)
        } else {
            None
        },
        None => Some(encoded),
    }
}

/// The file that a sidecar binds its key to, where there is a sidecar that binds
/// it to a file that can hold a value; that of the key otherwise.
pub open spec fn bound_or_own(encoded: Seq<char>, sidecar: Option<RecordView>) -> Seq<char> {
    match sidecar {
        Some(r) => match value_name_of(encoded, r.filename) {
            Some(name) => name,
            None => encoded,
        },
        None => encoded,
    }
}

/// What a sidecar says, where there is one.
pub open spec fn sidecar_view(sidecar: Option<KeyValueStoreRecordMetadata>) -> Option<
    RecordView,
> {
    match sidecar {
        Some(r) => Some(r@),
        None => None,
    }
}

/// Whether `e` is the error for a file name that cannot hold a value.
pub open spec fn is_bad_filename(e: StorageError, name: Seq<char>) -> bool {
    e matches StorageError::InvalidArgs(text) && text@ == bad_filename_text(name)
}

/// The name of the sidecar of an encoded key.
pub fn sidecar_name(encoded_key: &str) -> (r: String)
    ensures
        r@ == sidecar_name_of(encoded_key@),
{
    let mut name = concat2(encoded_key, ".");
    name.append(METADATA_FILENAME);
    assert(name@ == sidecar_name_of(encoded_key@));
    name
}

/// The name of the value file of a record.
pub fn value_name(encoded_key: &str, filename: &Option<String>) -> (r: Result<
    String,
    StorageError,
>)
    ensures
        match r {
            Ok(name) => value_name_of(encoded_key@, opt_text(*filename)) == Some(name@),
            Err(e) => {
                &&& value_name_of(encoded_key@, opt_text(*filename)) is None
                &&& is_bad_filename(e, opt_text(*filename)->0)
            },
        },
{
    match filename {
        Some(name) => match validate_filename(name.as_str()) {
            Ok(valid) => Ok(valid.to_string()),
            Err(e) => Err(e),
        },
        None => Ok(encoded_key.to_string()),
    }
}

/// The file that a record of `encoded_key` lives in, falling back to the key's
/// own where the sidecar is missing or binds it to a file that cannot hold a
/// value.
fn bound_name(encoded_key: &str, sidecar: &Option<KeyValueStoreRecordMetadata>) -> (r: String)
    ensures
        r@ == bound_or_own(encoded_key@, sidecar_view(*sidecar)),
{
    match sidecar {
        Some(record) => match value_name(encoded_key, &record.filename) {
            Ok(name) => name,
            Err(_) => encoded_key.to_string(),
        },
        None => encoded_key.to_string(),
    }
}

// ---------------------------------------------------------------------------
// Adopting files
// ---------------------------------------------------------------------------

/// The file that must exist for the record of a key to be usable, if its sidecar
/// names one at all.
pub fn usable_file(key: &str, sidecar: &Option<KeyValueStoreRecordMetadata>) -> (r: Option<String>)
    ensures
        opt_text(r) == match sidecar_view(*sidecar) {
            Some(record) => value_name_of(encoded_key(key@), record.filename),
            None => None,
        },
{
    match sidecar {
        Some(record) => {
            let encoded = encode_key(key);
            match value_name(encoded.as_str(), &record.filename) {
                Ok(name) => Some(name),
                Err(_) => None,
            }
        },
        None => None,
    }
}

/// The name and the type of an adoptable file.
pub open spec fn adoptable_view(f: AdoptableFile) -> (Seq<char>, Seq<char>) {
    (f.filename@, f.content_type@)
}

/// The names and types of adoptable files.
pub open spec fn adoptable_views(v: Seq<AdoptableFile>) -> Seq<(Seq<char>, Seq<char>)> {
    v.map_values(|f: AdoptableFile| adoptable_view(f))
}

/// The declared files that are no metadata.
pub open spec fn adoptable(files: Seq<(Seq<char>, Seq<char>)>) -> Seq<(Seq<char>, Seq<char>)> {
    files.filter(|f: (Seq<char>, Seq<char>)| !metadata_name(f.0))
}

/// Whether all names can hold a value.
pub open spec fn all_valid(files: Seq<(Seq<char>, Seq<char>)>) -> bool {
    forall|i: int| 0 <= i < files.len() ==> valid_value_name((#[trigger] files[i]).0)
}

/// The files to look for, of those that a caller declares for a key. Metadata is
/// passed over; any other name that cannot hold a value is an error.
pub fn adoption_probes(candidate: &AdoptionCandidate) -> (r: Result<
    Vec<AdoptableFile>,
    StorageError,
>)
    ensures
        ({
            let files = adoptable(adoptable_views(candidate.files@));
            match r {
                Ok(probes) => all_valid(files) && adoptable_views(probes@) == files,
                Err(e) => exists|i: int|
                    {
                        &&& 0 <= i < files.len()
                        &&& !valid_value_name((#[trigger] files[i]).0)
                        &&& all_valid(files.take(i))
                        &&& is_bad_filename(e, files[i].0)
                    },
            }
        }),
{
    let ghost all = adoptable_views(candidate.files@);
    let ghost keep = |f: (Seq<char>, Seq<char>)| !metadata_name(f.0);
    let mut out: Vec<AdoptableFile> = Vec::new();
    proof {
        reveal(Seq::filter);
        assert(adoptable(all.take(0)) == Seq::<(Seq<char>, Seq<char>)>::empty());
        assert(adoptable_views(out@) == adoptable(all.take(0)));
    }
    for i in 0..candidate.files.len()
        invariant
            all == adoptable_views(candidate.files@),
            keep == (|f: (Seq<char>, Seq<char>)| !metadata_name(f.0)),
            adoptable_views(out@) == adoptable(all.take(i as int)),
            all_valid(adoptable(all.take(i as int))),
    {
        let file = &candidate.files[i];
        let ghost view = adoptable_view(*file);
        let ghost before = adoptable(all.take(i as int));
        let ghost out_before = out@;
        proof {
            assert(all.take(i + 1) == all.take(i as int).push(view));
            all.take(i as int).lemma_filter_push(view, keep);
        }
        if !is_metadata_filename(file.filename.as_str()) {
            match validate_filename(file.filename.as_str()) {
                Err(e) => {
                    proof {
                        let files = adoptable(all);
                        let tail = all.skip(i + 1);
                        assert(all == all.take(i + 1) + tail);
                        Seq::filter_distributes_over_add(all.take(i + 1), tail, keep);
                        let k = before.len() as int;
                        assert(files[k] == view);
                        assert(files.take(k) == before);
                    }
                    return Err(e);
                },
                Ok(_) => {
                    out.push(
                        AdoptableFile {
                            filename: file.filename.clone(),
                            content_type: file.content_type.clone(),
                        },
                    );
                    assert(adoptable_views(out@) == adoptable_views(out_before).push(view));
                },
            }
        }
    }
    assert(all.take(all.len() as int) == all);
    Ok(out)
}

/// The probes whose file exists, each with the length of the file.
pub open spec fn present(
    probes: Seq<(Seq<char>, Seq<char>)>,
    sizes: Seq<Option<usize>>,
) -> Seq<(Seq<char>, Seq<char>, usize)>
    decreases probes.len(),
{
    if probes.len() == 0 {
        Seq::empty()
    } else {
        let front = present(probes.drop_last(), sizes);
        match sizes[probes.len() - 1] {
            Some(size) => front.push((probes.last().0, probes.last().1, size)),
            None => front,
        }
    }
}

/// The record of a value in the file `filename`. Where that is the key's own
/// file, the record does not mention it.
pub open spec fn adopted_record(
    key: Seq<char>,
    filename: Seq<char>,
    content_type: Seq<char>,
    size: usize,
) -> RecordView {
    RecordView {
        key,
        content_type,
        size: Some(size),
        filename: if filename == encoded_key(key) {
            None
        } else {
            Some(filename)
        },
    }
}

/// Makes a record of the file that was found for a key. No file means no record;
/// several are ambiguous. `sizes` holds, for each probe, the length of the file
/// where it exists.
pub fn adopt_file(key: &str, probes: &[AdoptableFile], sizes: &[Option<usize>]) -> (r: Result<
    Option<KeyValueStoreRecordMetadata>,
    StorageError,
>)
    requires
        sizes@.len() == probes@.len(),
    ensures
        ({
            let found = present(adoptable_views(probes@), sizes@);
            match r {
                Ok(None) => found.len() == 0,
                Ok(Some(record)) => {
                    &&& found.len() == 1
                    &&& record@ == adopted_record(key@, found[0].0, found[0].1, found[0].2)
                },
                Err(e) => {
                    &&& found.len() > 1
                    &&& e matches StorageError::AmbiguousInput { key: k, files }
                    &&& k@ == key@
                    &&& texts(files@) == found.map_values(|f: (Seq<char>, Seq<char>, usize)| f.0)
                },
            }
        }),
{
    let ghost views = adoptable_views(probes@);
    let mut names: Vec<String> = Vec::new();
    let mut last: Option<(usize, usize)> = None;
    for i in 0..probes.len()
        invariant
            views == adoptable_views(probes@),
            sizes@.len() == probes@.len(),
            texts(names@) == present(views.take(i as int), sizes@).map_values(
                |f: (Seq<char>, Seq<char>, usize)| f.0,
            ),
            (last is None) == (present(views.take(i as int), sizes@).len() == 0),
            last matches Some(at) ==> at.0 < i && present(
                views.take(i as int),
                sizes@,
            ).last() == (views[at.0 as int].0, views[at.0 as int].1, at.1),
    {
        let ghost names_before = names@;
        let ghost before = present(views.take(i as int), sizes@);
        assert(views.take(i + 1).drop_last() == views.take(i as int));
        assert(views.take(i + 1).last() == views[i as int]);
        if let Some(size) = sizes[i] {
            names.push(probes[i].filename.clone());
            last = Some((i, size));
            assert(texts(names@) == texts(names_before).push(views[i as int].0));
            assert(present(views.take(i + 1), sizes@).map_values(
                |f: (Seq<char>, Seq<char>, usize)| f.0,
            ) == before.map_values(|f: (Seq<char>, Seq<char>, usize)| f.0).push(
                views[i as int].0,
            ));
        }
    }
    assert(views.take(views.len() as int) == views);
    let ghost found = present(views, sizes@);
    assert(texts(names@).len() == found.len());
    if names.len() > 1 {
        return Err(StorageError::AmbiguousInput { key: key.to_string(), files: names });
    }
    match last {
        None => Ok(None),
        Some((at, size)) => {
            let file = &probes[at];
            let encoded = encode_key(key);
            let filename = if str_eq(file.filename.as_str(), encoded.as_str()) {
                None
            } else {
                Some(file.filename.clone())
            };
            Ok(
                Some(
                    KeyValueStoreRecordMetadata {
                        key: key.to_string(),
                        content_type: file.content_type.clone(),
                        size: Some(size),
                        filename,
                    },
                ),
            )
        },
    }
}

// ---------------------------------------------------------------------------
// Purging and deleting
// ---------------------------------------------------------------------------

/// The files of a store that a purge spares.
pub struct PurgePlan {
    spared: StringHashSet,
}

impl View for PurgePlan {
    type V = Set<Seq<char>>;

    closed spec fn view(&self) -> Set<Seq<char>> {
        self.spared@
    }
}

/// The two files of the record of a key.
pub open spec fn record_files(key: Seq<char>, sidecar: Option<RecordView>) -> Set<Seq<char>> {
    set![sidecar_name_of(encoded_key(key)), bound_or_own(encoded_key(key), sidecar)]
}

impl PurgePlan {
    /// A purge that spares nothing but the description of the store.
    pub fn new() -> (r: Self)
        ensures
            r@ == set![METADATA_FILENAME@],
    {
        let mut spared = StringHashSet::new();
        let _ = spared.insert(METADATA_FILENAME.to_string());
        assert(spared@ == set![METADATA_FILENAME@]);
        PurgePlan { spared }
    }

    /// Spares the record of a key: its sidecar, and the file that its value is
    /// really in.
    pub fn keep(&mut self, key: &str, sidecar: &Option<KeyValueStoreRecordMetadata>)
        ensures
            final(self)@ == old(self)@.union(record_files(key@, sidecar_view(*sidecar))),
    {
        let encoded = encode_key(key);
        let name = bound_name(encoded.as_str(), sidecar);
        let _ = self.spared.insert(sidecar_name(encoded.as_str()));
        let _ = self.spared.insert(name);
        assert(self.spared@ == old(self)@.union(record_files(key@, sidecar_view(*sidecar))));
    }

    /// Whether a file of the store is removed.
    pub fn removes(&self, name: &str) -> (r: bool)
        ensures
            r == !self@.contains(name@),
    {
        !self.spared.contains(name)
    }
}

/// The value file and the sidecar that go away when a key is deleted. A sidecar
/// that cannot be read does not stand in the way.
pub fn delete_targets(key: &str, sidecar: &Option<KeyValueStoreRecordMetadata>) -> (r: (
    String,
    String,
))
    ensures
        r.0@ == bound_or_own(encoded_key(key@), sidecar_view(*sidecar)),
        r.1@ == sidecar_name_of(encoded_key(key@)),
{
    let encoded = encode_key(key);
    (bound_name(encoded.as_str(), sidecar), sidecar_name(encoded.as_str()))
}

// ---------------------------------------------------------------------------
// Reading
// ---------------------------------------------------------------------------

/// What reading a key comes down to.
pub enum Lookup {
    /// There is no record.
    Absent,
    /// There is one if this file exists. The sidecar is handed on where there is
    /// one.
    Probe { file: String, sidecar: Option<KeyValueStoreRecordMetadata> },
}

/// The file in which the value of a key would be, if the key has one at all.
pub open spec fn lookup_file(
    key: Seq<char>,
    sidecar: Option<RecordView>,
    require_record_metadata: bool,
) -> Option<Seq<char>> {
    match sidecar {
        Some(r) => value_name_of(encoded_key(key), r.filename),
        None => if require_record_metadata {
            None
        } else {
            Some(encoded_key(key))
        },
    }
}

/// Decides in which file the value of a key would be. Without a sidecar there is
/// a value only where the caller does not insist on one.
pub fn lookup_value(
    key: &str,
    sidecar: Option<KeyValueStoreRecordMetadata>,
    require_record_metadata: bool,
) -> (r: Result<Lookup, StorageError>)
    ensures
        ({
            let file = lookup_file(key@, sidecar_view(sidecar), require_record_metadata);
            match r {
                Ok(Lookup::Absent) => sidecar is None && file is None,
                Ok(Lookup::Probe { file: name, sidecar: passed }) => {
                    &&& file == Some(name@)
                    &&& passed == sidecar
                },
                Err(e) => {
                    &&& sidecar matches Some(record)
                    &&& file is None
                    &&& is_bad_filename(e, record@.filename->0)
                },
            }
        }),
{
    let encoded = encode_key(key);
    match sidecar {
        None => {
            if require_record_metadata {
                Ok(Lookup::Absent)
            } else {
                Ok(Lookup::Probe { file: encoded, sidecar: None })
            }
        },
        Some(record) => match value_name(encoded.as_str(), &record.filename) {
            Ok(file) => Ok(Lookup::Probe { file, sidecar: Some(record) }),
            Err(e) => Err(e),
        },
    }
}

/// What is reported of a value: what its sidecar says, with the size taken from
/// the file where it does not, or else no more than the file tells.
pub open spec fn found_record(
    key: Seq<char>,
    sidecar: Option<RecordView>,
    file_size: usize,
) -> RecordView {
    match sidecar {
        Some(r) => with_size(r, Some(file_size)),
        None => RecordView {
            key,
            content_type: OCTET_STREAM@,
            size: Some(file_size),
            filename: None,
        },
    }
}

/// Describes a value whose file was found.
pub fn describe_value(
    key: &str,
    sidecar: Option<KeyValueStoreRecordMetadata>,
    file_size: usize,
) -> (r: KeyValueStoreRecordMetadata)
    ensures
        r@ == found_record(key@, sidecar_view(sidecar), file_size),
        r.size is Some,
{
    match sidecar {
        Some(record) => fill_size(record, Some(file_size)),
        None => KeyValueStoreRecordMetadata {
            key: key.to_string(),
            content_type: OCTET_STREAM.to_string(),
            size: Some(file_size),
            filename: None,
        },
    }
}

/// A record with the bytes of its value. Its size is what the record says, or
/// the number of bytes.
pub fn read_record(meta: KeyValueStoreRecordMetadata, value: Vec<u8>) -> (r: KeyValueStoreRecord)
    ensures
        r.key == meta.key,
        r.content_type == meta.content_type,
        r.value == value,
        r.size == match meta.size {
            Some(n) => n as nat,
            None => value@.len(),
        },
{
    let size = match meta.size {
        Some(n) => n,
        None => value.len(),
    };
    KeyValueStoreRecord { key: meta.key, content_type: meta.content_type, size, value }
}

/// A record with the path of its value. Its size is what the record says, or the
/// length of the file, where that is known.
pub fn value_file_info(
    meta: KeyValueStoreRecordMetadata,
    path: String,
    file_size: Option<usize>,
) -> (r: KeyValueStoreValueFileInfo)
    ensures
        r.key == meta.key,
        r.content_type == meta.content_type,
        r.path == path,
        r.size == match with_size(meta@, file_size).size {
            Some(n) => n,
            None => 0,
        },
{
    let size = match meta.size {
        Some(n) => n,
        None => match file_size {
            Some(n) => n,
            None => 0,
        },
    };
    KeyValueStoreValueFileInfo { key: meta.key, content_type: meta.content_type, size, path }
}

/// The file whose existence decides whether a key has a record. A sidecar that
/// cannot be read counts as none.
pub fn existence_probe(
    key: &str,
    sidecar: &Option<KeyValueStoreRecordMetadata>,
    require_record_metadata: bool,
) -> (r: Option<String>)
    ensures
        opt_text(r) == lookup_file(key@, sidecar_view(*sidecar), require_record_metadata),
{
    let encoded = encode_key(key);
    match sidecar {
        Some(record) => match value_name(encoded.as_str(), &record.filename) {
            Ok(name) => Some(name),
            Err(_) => None,
        },
        None => {
            if require_record_metadata {
                None
            } else {
                Some(encoded)
            }
        },
    }
}

/// The keys to try, in order, when a value is looked for under a key and, failing
/// that, in a file without a record whose name has an extension. Only the first
/// must have a sidecar.
pub open spec fn resolution_keys(key: Seq<char>, extensions: Seq<Seq<char>>) -> Seq<
    (Seq<char>, bool),
> {
    seq![(key, true)] + extensions.map_values(|e: Seq<char>| (key + e, false))
}

/// The key and the insistence on a sidecar of one attempt.
pub open spec fn attempt_views(v: Seq<(String, bool)>) -> Seq<(Seq<char>, bool)> {
    v.map_values(|a: (String, bool)| (a.0@, a.1))
}

/// The extensions of files without a record.
pub open spec fn extensions_of(v: Seq<BareFallback>) -> Seq<Seq<char>> {
    v.map_values(|f: BareFallback| f.extension@)
}

/// The attempts at finding the value of a key, in order.
pub fn resolution_attempts(key: &str, bare_fallbacks: &[BareFallback]) -> (r: Vec<(String, bool)>)
    ensures
        attempt_views(r@) == resolution_keys(key@, extensions_of(bare_fallbacks@)),
{
    let ghost all = extensions_of(bare_fallbacks@);
    let mut out: Vec<(String, bool)> = Vec::new();
    out.push((key.to_string(), true));
    assert(attempt_views(out@) == resolution_keys(key@, all.take(0)));
    for i in 0..bare_fallbacks.len()
        invariant
            all == extensions_of(bare_fallbacks@),
            attempt_views(out@) == resolution_keys(key@, all.take(i as int)),
    {
        let ghost before = out@;
        let candidate = concat2(key, bare_fallbacks[i].extension.as_str());
        let ghost view = (candidate@, false);
        out.push((candidate, false));
        assert(attempt_views(out@) == attempt_views(before).push(view));
        assert(resolution_keys(key@, all.take(i + 1)) == resolution_keys(
            key@,
            all.take(i as int),
        ).push(view));
    }
    assert(all.take(all.len() as int) == all);
    out
}

/// What is reported of a value that was found in the attempt number `attempt`:
/// always under the key that was asked for, and with the declared type where one
/// is declared.
pub open spec fn resolved_record(
    key: Seq<char>,
    found: RecordView,
    attempt: int,
    types: Seq<Seq<char>>,
) -> RecordView {
    if attempt == 0 {
        found
    } else {
        RecordView {
            key,
            content_type: if types[attempt - 1].len() == 0 {
                found.content_type
            } else {
                types[attempt - 1]
            },
            ..found
        }
    }
}

/// The declared types of files without a record.
pub open spec fn types_of(v: Seq<BareFallback>) -> Seq<Seq<char>> {
    v.map_values(|f: BareFallback| f.content_type@)
}

/// Describes a value that was found in the attempt number `attempt`.
pub fn resolve_found(
    key: &str,
    found: KeyValueStoreRecordMetadata,
    attempt: usize,
    bare_fallbacks: &[BareFallback],
) -> (r: KeyValueStoreRecordMetadata)
    requires
        attempt <= bare_fallbacks@.len(),
    ensures
        r@ == resolved_record(key@, found@, attempt as int, types_of(bare_fallbacks@)),
{
    if attempt == 0 {
        return found;
    }
    let declared = &bare_fallbacks[attempt - 1].content_type;
    let mut out = found;
    out.key = key.to_string();
    if !declared.as_str().is_empty() {
        out.content_type = declared.clone();
    }
    out
}

/// A search for the value of a key: the attempts in order, how many of them failed
/// so far, and whether the one after those was a hit.
#[verifier::ext_equal]
pub ghost struct SearchView {
    pub attempts: Seq<(Seq<char>, bool)>,
    pub misses: nat,
    pub found: bool,
}

/// A search before its first attempt.
pub open spec fn new_search(key: Seq<char>, extensions: Seq<Seq<char>>) -> SearchView {
    SearchView { attempts: resolution_keys(key, extensions), misses: 0, found: false }
}

/// The attempt that a search makes next: none after a hit, and none after the last.
pub open spec fn next_attempt(s: SearchView) -> Option<(Seq<char>, bool)> {
    if !s.found && s.misses < s.attempts.len() {
        Some(s.attempts[s.misses as int])
    } else {
        None
    }
}

/// A search after the outcome of its next attempt.
pub open spec fn after_attempt(s: SearchView, hit: bool) -> SearchView {
    if next_attempt(s) is None {
        s
    } else if hit {
        SearchView { found: true, ..s }
    } else {
        SearchView { misses: s.misses + 1, ..s }
    }
}

/// The key that a search came to.
pub open spec fn found_key(s: SearchView) -> Option<Seq<char>> {
    if s.found {
        Some(s.attempts[s.misses as int].0)
    } else {
        None
    }
}

/// A search for the value of a key, which may lie in a file without a record.
pub struct ValueSearch<'a> {
    key: &'a str,
    bare_fallbacks: &'a [BareFallback],
    attempts: Vec<(String, bool)>,
    misses: usize,
    found: bool,
}

impl<'a> View for ValueSearch<'a> {
    type V = SearchView;

    closed spec fn view(&self) -> SearchView {
        SearchView {
            attempts: attempt_views(self.attempts@),
            misses: self.misses as nat,
            found: self.found,
        }
    }
}

impl<'a> ValueSearch<'a> {
    /// The key that is looked for.
    pub closed spec fn key(&self) -> Seq<char> {
        self.key@
    }

    /// The files without a record that are looked at.
    pub closed spec fn bare_fallbacks(&self) -> Seq<BareFallback> {
        self.bare_fallbacks@
    }

    /// Whether the attempts are those of the key, and a hit is one of them.
    pub open spec fn wf(&self) -> bool {
        &&& self@.attempts == resolution_keys(self.key(), extensions_of(self.bare_fallbacks()))
        &&& self@.misses <= self@.attempts.len()
        &&& self@.found ==> self@.misses < self@.attempts.len()
    }

    /// A search before its first attempt.
    pub fn new(key: &'a str, bare_fallbacks: &'a [BareFallback]) -> (r: Self)
        ensures
            r.wf(),
            r@ == new_search(key@, extensions_of(bare_fallbacks@)),
            r.key() == key@,
            r.bare_fallbacks() == bare_fallbacks@,
    {
        ValueSearch {
            key,
            bare_fallbacks,
            attempts: resolution_attempts(key, bare_fallbacks),
            misses: 0,
            found: false,
        }
    }

    /// The key to try next, and whether it must have a sidecar. `None` ends the
    /// search: there was a hit, or there is nothing left to try.
    pub fn attempt(&self) -> (r: Option<(String, bool)>)
        requires
            self.wf(),
        ensures
            match r {
                Some((k, require)) => next_attempt(self@) == Some((k@, require)),
                None => next_attempt(self@) is None,
            },
    {
        if self.found || self.misses >= self.attempts.len() {
            return None;
        }
        let (key, require) = &self.attempts[self.misses];
        assert(self@.attempts[self.misses as int] == (key@, *require));
        Some((key.clone(), *require))
    }

    /// Takes in whether the attempt was a hit.
    pub fn report(&mut self, hit: bool)
        requires
            old(self).wf(),
        ensures
            final(self).wf(),
            final(self)@ == after_attempt(old(self)@, hit),
            final(self).key() == old(self).key(),
            final(self).bare_fallbacks() == old(self).bare_fallbacks(),
    {
        if self.found || self.misses >= self.attempts.len() {
            return;
        }
        if hit {
            self.found = true;
        } else {
            self.misses = self.misses + 1;
        }
    }

    /// The key under which the value was found.
    pub fn found_key(&self) -> (r: Option<String>)
        requires
            self.wf(),
        ensures
            opt_text(r) == found_key(self@),
    {
        if !self.found {
            return None;
        }
        let (key, require) = &self.attempts[self.misses];
        assert(self@.attempts[self.misses as int] == (key@, *require));
        Some(key.clone())
    }

    /// Describes the value that was found, of which `meta` was read. `None` where
    /// nothing was found.
    pub fn describe(&self, meta: KeyValueStoreRecordMetadata) -> (r: Option<
        KeyValueStoreRecordMetadata,
    >)
        requires
            self.wf(),
        ensures
            sidecar_view(r) == if self@.found {
                Some(
                    resolved_record(
                        self.key(),
                        meta@,
                        self@.misses as int,
                        types_of(self.bare_fallbacks()),
                    ),
                )
            } else {
                None
            },
    {
        if !self.found {
            return None;
        }
        assert(self@.attempts.len() == self.bare_fallbacks@.len() + 1);
        Some(resolve_found(self.key, meta, self.misses, self.bare_fallbacks))
    }
}

/// A search that is carried on to its end. `hits` says of each attempt whether it
/// would be a hit.
pub open spec fn search_to_end(s: SearchView, hits: Seq<bool>) -> SearchView
    decreases
        s.attempts.len() - s.misses + if s.found {
            0int
        } else {
            1
        },
{
    if next_attempt(s) is None {
        s
    } else {
        search_to_end(after_attempt(s, hits[s.misses as int]), hits)
    }
}

/// The first hit ends a search: what it comes to is the first attempt that is a hit,
/// and where none is, it comes to nothing.
pub proof fn law_first_hit_ends_the_search(
    key: Seq<char>,
    extensions: Seq<Seq<char>>,
    hits: Seq<bool>,
)
    requires
        hits.len() == extensions.len() + 1,
    ensures
        ({
            let end = search_to_end(new_search(key, extensions), hits);
            &&& next_attempt(end) is None
            &&& end.found <==> hits.contains(true)
            &&& forall|i: int| 0 <= i < end.misses ==> !#[trigger] hits[i]
            &&& end.found ==> {
                &&& end.misses < hits.len()
                &&& hits[end.misses as int]
                &&& found_key(end) == Some(
                    if end.misses == 0 {
                        key
                    } else {
                        key + extensions[end.misses - 1]
                    },
                )
            }
        }),
{
    let start = new_search(key, extensions);
    lemma_search_to_end(start, hits);
    let end = search_to_end(start, hits);
    if end.found {
        assert(hits.contains(hits[end.misses as int]));
    }
    if hits.contains(true) {
        let i = choose|i: int| 0 <= i < hits.len() && hits[i];
        assert(hits[i]);
    }
}

proof fn lemma_search_to_end(s: SearchView, hits: Seq<bool>)
    requires
        hits.len() == s.attempts.len(),
        s.misses <= s.attempts.len(),
        s.found ==> s.misses < s.attempts.len() && hits[s.misses as int],
        forall|i: int| 0 <= i < s.misses ==> !#[trigger] hits[i],
    ensures
        ({
            let end = search_to_end(s, hits);
            &&& end.attempts == s.attempts
            &&& next_attempt(end) is None
            &&& end.misses <= s.attempts.len()
            &&& end.found ==> end.misses < s.attempts.len() && hits[end.misses as int]
            &&& !end.found ==> end.misses == s.attempts.len()
            &&& forall|i: int| 0 <= i < end.misses ==> !#[trigger] hits[i]
        }),
    decreases
        s.attempts.len() - s.misses + if s.found {
            0int
        } else {
            1
        },
{
    if next_attempt(s) is Some {
        lemma_search_to_end(after_attempt(s, hits[s.misses as int]), hits);
    }
}

/// The address of the value of a key. Whether the file exists makes no
/// difference.
pub fn public_url(store_path: &str, key: &str, sidecar: &Option<KeyValueStoreRecordMetadata>) -> (r:
    String)
    ensures
        r@ == "file://"@ + path_join(
            store_path@,
            bound_or_own(encoded_key(key@), sidecar_view(*sidecar)),
        ),
{
    let encoded = encode_key(key);
    let name = bound_name(encoded.as_str(), sidecar);
    let path = join_path(store_path, name.as_str());
    concat2("file://", path.as_str())
}

// ---------------------------------------------------------------------------
// Writing
// ---------------------------------------------------------------------------

/// Which files a write touches.
pub struct WritePlan {
    /// The file of the value.
    pub value: String,
    /// The file of its description.
    pub sidecar: String,
    /// The file that held the value before, where that was another one.
    pub stale: Option<String>,
}

/// The file that a write leaves behind, where the key was bound to another one.
pub open spec fn stale_file(
    encoded: Seq<char>,
    value: Seq<char>,
    previous: Option<RecordView>,
) -> Option<Seq<char>> {
    match previous {
        Some(r) => match value_name_of(encoded, r.filename) {
            Some(name) => if name == value {
                None
            } else {
                Some(name)
            },
            None => None,
        },
        None => None,
    }
}

/// Decides which files a write of `key` touches. `previous` is the sidecar that
/// the key has so far.
pub fn prepare_write(
    key: &str,
    filename: &Option<String>,
    previous: &Option<KeyValueStoreRecordMetadata>,
) -> (r: Result<WritePlan, StorageError>)
    ensures
        ({
            let encoded = encoded_key(key@);
            let name = value_name_of(encoded, opt_text(*filename));
            match r {
                Ok(plan) => {
                    &&& name == Some(plan.value@)
                    &&& plan.sidecar@ == sidecar_name_of(encoded)
                    &&& opt_text(plan.stale) == stale_file(
                        encoded,
                        plan.value@,
                        sidecar_view(*previous),
                    )
                    &&& opt_text(plan.stale) == match lookup_file(
                        key@,
                        sidecar_view(*previous),
                        true,
                    ) {
                        Some(file) => if file == plan.value@ {
                            None
                        } else {
                            Some(file)
                        },
                        None => None,
                    }
                },
                Err(e) => name is None && is_bad_filename(e, opt_text(*filename)->0),
            }
        }),
{
    let encoded = encode_key(key);
    match value_name(encoded.as_str(), filename) {
        Err(e) => Err(e),
        Ok(value) => {
            let stale = match previous {
                Some(record) => match value_name(encoded.as_str(), &record.filename) {
                    Ok(name) => {
                        if str_eq(name.as_str(), value.as_str()) {
                            None
                        } else {
                            Some(name)
                        }
                    },
                    Err(_) => None,
                },
                None => None,
            };
            Ok(WritePlan { value, sidecar: sidecar_name(encoded.as_str()), stale })
        },
    }
}

/// The description of a value that is written.
pub open spec fn written_record(
    key: Seq<char>,
    content_type: Seq<char>,
    size: usize,
    filename: Option<Seq<char>>,
) -> RecordView {
    RecordView { key, content_type, size: Some(size), filename }
}

/// The description of a value that is written.
pub fn record_for(
    key: &str,
    content_type: String,
    size: usize,
    filename: Option<&str>,
) -> (r: KeyValueStoreRecordMetadata)
    ensures
        r@ == written_record(key@, content_type@, size, opt_str(filename)),
{
    KeyValueStoreRecordMetadata {
        key: key.to_string(),
        content_type,
        size: Some(size),
        filename: owned(filename),
    }
}

} // verus!
