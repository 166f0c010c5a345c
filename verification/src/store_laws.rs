//! What the rules of a key-value store add up to, over a model of its directory.

use vstd::prelude::*;

use crate::key_listing::{
    is_sidecar, recorded_candidate, recorded_of, sidecar_stem, sidecar_suffix,
};
use crate::key_value_store::{
    adopted_record, bound_or_own, found_record, lookup_file, record_files, sidecar_name_of,
    stale_file, value_name_of, written_record,
};
use crate::models::RecordView;
use crate::utils::{
    encoded_key, law_decode_undoes_encode, law_encoded_keys_are_distinct_names, metadata_name,
    valid_value_name, METADATA_FILENAME,
};

verus! {

/// What a file of a store holds.
pub ghost enum Entry {
    /// The bytes of a value.
    Value(Seq<u8>),
    /// The description of a record.
    Sidecar(RecordView),
    /// The description of the store.
    Store,
}

/// The sidecar of an encoded key.
pub open spec fn sidecar_in(dir: Map<Seq<char>, Entry>, encoded: Seq<char>) -> Option<RecordView> {
    if dir.dom().contains(sidecar_name_of(encoded)) {
        match dir[sidecar_name_of(encoded)] {
            Entry::Sidecar(r) => Some(r),
            _ => None,
        }
    } else {
        None
    }
}

/// What reading a key gives: its description and its bytes.
pub open spec fn read_key(dir: Map<Seq<char>, Entry>, key: Seq<char>) -> Option<
    (RecordView, Seq<u8>),
> {
    let sidecar = sidecar_in(dir, encoded_key(key));
    match lookup_file(key, sidecar, true) {
        Some(file) => if dir.dom().contains(file) {
            match dir[file] {
                Entry::Value(bytes) => Some(
                    (found_record(key, sidecar, bytes.len() as usize), bytes),
                ),
                _ => None,
            }
        } else {
            None
        },
        None => None,
    }
}

/// The store after a value was written, where the name it is bound to can hold
/// one: the file it was in before is removed, then value, sidecar and the
/// description of the store are written.
pub open spec fn after_write(
    dir: Map<Seq<char>, Entry>,
    key: Seq<char>,
    data: Seq<u8>,
    content_type: Seq<char>,
    filename: Option<Seq<char>>,
) -> Option<Map<Seq<char>, Entry>> {
    let encoded = encoded_key(key);
    match value_name_of(encoded, filename) {
        None => None,
        Some(value) => {
            let cleared = match stale_file(encoded, value, sidecar_in(dir, encoded)) {
                Some(stale) => dir.remove(stale),
                None => dir,
            };
            Some(
                cleared.insert(value, Entry::Value(data)).insert(
                    sidecar_name_of(encoded),
                    Entry::Sidecar(written_record(key, content_type, data.len() as usize, filename)),
                ).insert(METADATA_FILENAME@, Entry::Store),
            )
        },
    }
}

/// The store after a key was deleted.
pub open spec fn after_delete(dir: Map<Seq<char>, Entry>, key: Seq<char>) -> Map<Seq<char>, Entry> {
    let encoded = encoded_key(key);
    dir.remove(bound_or_own(encoded, sidecar_in(dir, encoded))).remove(
        sidecar_name_of(encoded),
    ).insert(METADATA_FILENAME@, Entry::Store)
}

/// The files that a purge spares.
pub open spec fn spared(dir: Map<Seq<char>, Entry>, keep: Seq<Seq<char>>) -> Set<Seq<char>>
    decreases keep.len(),
{
    if keep.len() == 0 {
        set![METADATA_FILENAME@]
    } else {
        spared(dir, keep.drop_last()).union(
            record_files(keep.last(), sidecar_in(dir, encoded_key(keep.last()))),
        )
    }
}

/// The store after a purge that keeps the given keys.
pub open spec fn after_purge(dir: Map<Seq<char>, Entry>, keep: Seq<Seq<char>>) -> Map<
    Seq<char>,
    Entry,
> {
    dir.restrict(spared(dir, keep)).insert(METADATA_FILENAME@, Entry::Store)
}

/// The store after a file was adopted as the value of a key.
pub open spec fn after_adoption(
    dir: Map<Seq<char>, Entry>,
    key: Seq<char>,
    filename: Seq<char>,
    content_type: Seq<char>,
    size: usize,
) -> Map<Seq<char>, Entry> {
    dir.insert(
        sidecar_name_of(encoded_key(key)),
        Entry::Sidecar(adopted_record(key, filename, content_type, size)),
    )
}

proof fn lemma_suffix_len()
    ensures
        sidecar_suffix().len() == 18,
        METADATA_FILENAME@.len() == 17,
{
    reveal_strlit("__metadata__.json");
    reveal_strlit(".");
}

/// A sidecar is never the description of the store, nor a file that a value can
/// be bound to, nor the value file of its own key.
proof fn lemma_sidecar_apart(encoded: Seq<char>, name: Seq<char>)
    ensures
        sidecar_name_of(encoded).len() == encoded.len() + 18,
        sidecar_name_of(encoded) != METADATA_FILENAME@,
        sidecar_name_of(encoded) != encoded,
        valid_value_name(name) ==> name != sidecar_name_of(encoded) && name != METADATA_FILENAME@,
{
    lemma_suffix_len();
    let s = sidecar_name_of(encoded);
    assert(s.skip(s.len() - sidecar_suffix().len()) == sidecar_suffix());
    assert(metadata_name(s));
}

/// Different keys have different sidecars.
proof fn lemma_sidecars_distinct(a: Seq<char>, b: Seq<char>)
    requires
        sidecar_name_of(encoded_key(a)) == sidecar_name_of(encoded_key(b)),
    ensures
        a == b,
{
    let x = encoded_key(a);
    let y = encoded_key(b);
    assert(sidecar_name_of(x).len() == x.len() + sidecar_suffix().len());
    assert(sidecar_name_of(y).len() == y.len() + sidecar_suffix().len());
    assert(x == sidecar_name_of(x).take(x.len() as int));
    assert(y == sidecar_name_of(y).take(y.len() as int));
    law_encoded_keys_are_distinct_names(a, b);
}

/// Reading a key gives back what was last written to it, with its type and its
/// size. The one exception is the key whose own file is the description of the
/// store.
pub proof fn law_read_gives_back_write(
    dir: Map<Seq<char>, Entry>,
    key: Seq<char>,
    data: Seq<u8>,
    content_type: Seq<char>,
    filename: Option<Seq<char>>,
)
    requires
        value_name_of(encoded_key(key), filename) is Some,
        value_name_of(encoded_key(key), filename) != Some(METADATA_FILENAME@),
    ensures
        read_key(after_write(dir, key, data, content_type, filename)->0, key) == Some(
            (RecordView { key, content_type, size: Some(data.len() as usize), filename }, data),
        ),
{
    let encoded = encoded_key(key);
    lemma_sidecar_apart(encoded, value_name_of(encoded, filename)->0);
}

/// Writing one key leaves every other key as it was, as long as the write
/// touches none of the other key's files.
pub proof fn law_write_leaves_other_keys(
    dir: Map<Seq<char>, Entry>,
    key: Seq<char>,
    data: Seq<u8>,
    content_type: Seq<char>,
    filename: Option<Seq<char>>,
    other: Seq<char>,
)
    requires
        other != key,
        value_name_of(encoded_key(key), filename) is Some,
        ({
            let encoded = encoded_key(key);
            let value = value_name_of(encoded, filename)->0;
            let stale = stale_file(encoded, value, sidecar_in(dir, encoded));
            let theirs = lookup_file(other, sidecar_in(dir, encoded_key(other)), true);
            &&& value != sidecar_name_of(encoded_key(other))
            &&& stale != Some(sidecar_name_of(encoded_key(other)))
            &&& theirs is Some ==> {
                &&& theirs != Some(value)
                &&& theirs != stale
                &&& theirs != Some(sidecar_name_of(encoded))
                &&& theirs != Some(METADATA_FILENAME@)
            }
        }),
    ensures
        read_key(after_write(dir, key, data, content_type, filename)->0, other) == read_key(
            dir,
            other,
        ),
{
    lemma_sidecar_apart(encoded_key(other), Seq::empty());
    if sidecar_name_of(encoded_key(other)) == sidecar_name_of(encoded_key(key)) {
        lemma_sidecars_distinct(other, key);
    }
}

/// Binding a key to another file leaves nothing behind in the file that it was
/// bound to before.
pub proof fn law_rebinding_removes_the_old_file(
    dir: Map<Seq<char>, Entry>,
    key: Seq<char>,
    data: Seq<u8>,
    content_type: Seq<char>,
    filename: Option<Seq<char>>,
)
    requires
        value_name_of(encoded_key(key), filename) is Some,
        ({
            let encoded = encoded_key(key);
            let stale = stale_file(
                encoded,
                value_name_of(encoded, filename)->0,
                sidecar_in(dir, encoded),
            );
            stale is Some && stale != Some(METADATA_FILENAME@)
        }),
    ensures
        !after_write(dir, key, data, content_type, filename)->0.dom().contains(
            stale_file(
                encoded_key(key),
                value_name_of(encoded_key(key), filename)->0,
                sidecar_in(dir, encoded_key(key)),
            )->0,
        ),
{
    let encoded = encoded_key(key);
    let stale = stale_file(
        encoded,
        value_name_of(encoded, filename)->0,
        sidecar_in(dir, encoded),
    )->0;
    lemma_sidecar_apart(encoded, stale);
}

/// A key that was deleted reads as absent, and the file of its value is gone.
pub proof fn law_delete_removes(dir: Map<Seq<char>, Entry>, key: Seq<char>)
    ensures
        read_key(after_delete(dir, key), key) is None,
        ({
            let file = bound_or_own(encoded_key(key), sidecar_in(dir, encoded_key(key)));
            file != METADATA_FILENAME@ ==> !after_delete(dir, key).dom().contains(file)
        }),
{
    lemma_sidecar_apart(encoded_key(key), Seq::empty());
}

proof fn lemma_spared(dir: Map<Seq<char>, Entry>, keep: Seq<Seq<char>>, i: int)
    requires
        0 <= i < keep.len(),
    ensures
        record_files(keep[i], sidecar_in(dir, encoded_key(keep[i]))).subset_of(spared(dir, keep)),
    decreases keep.len(),
{
    if i < keep.len() - 1 {
        lemma_spared(dir, keep.drop_last(), i);
        assert(keep.drop_last()[i] == keep[i]);
    }
}

/// A purge leaves the keys that it keeps as they were. The one exception is a
/// key whose file is the description of the store.
pub proof fn law_purge_keeps_kept_keys(
    dir: Map<Seq<char>, Entry>,
    keep: Seq<Seq<char>>,
    i: int,
)
    requires
        0 <= i < keep.len(),
        lookup_file(keep[i], sidecar_in(dir, encoded_key(keep[i])), true) != Some(
            METADATA_FILENAME@,
        ),
    ensures
        read_key(after_purge(dir, keep), keep[i]) == read_key(dir, keep[i]),
{
    let key = keep[i];
    let encoded = encoded_key(key);
    lemma_spared(dir, keep, i);
    lemma_sidecar_apart(encoded, Seq::empty());
    let files = record_files(key, sidecar_in(dir, encoded));
    assert(files.contains(sidecar_name_of(encoded)));
    assert(files.contains(bound_or_own(encoded, sidecar_in(dir, encoded))));
}

/// A purge leaves no file but the description of the store and the two files of
/// each key that it keeps.
pub proof fn law_purge_removes_the_rest(
    dir: Map<Seq<char>, Entry>,
    keep: Seq<Seq<char>>,
    name: Seq<char>,
)
    requires
        after_purge(dir, keep).dom().contains(name),
    ensures
        name == METADATA_FILENAME@ || exists|i: int|
            0 <= i < keep.len() && record_files(
                #[trigger] keep[i],
                sidecar_in(dir, encoded_key(keep[i])),
            ).contains(name),
{
    if name != METADATA_FILENAME@ {
        lemma_spared_only(dir, keep, name);
    }
}

proof fn lemma_spared_only(dir: Map<Seq<char>, Entry>, keep: Seq<Seq<char>>, name: Seq<char>)
    requires
        spared(dir, keep).contains(name),
    ensures
        name == METADATA_FILENAME@ || exists|i: int|
            0 <= i < keep.len() && record_files(
                #[trigger] keep[i],
                sidecar_in(dir, encoded_key(keep[i])),
            ).contains(name),
    decreases keep.len(),
{
    if keep.len() > 0 {
        let front = keep.drop_last();
        if spared(dir, front).contains(name) {
            lemma_spared_only(dir, front, name);
            if name != METADATA_FILENAME@ {
                let i = choose|i: int|
                    0 <= i < front.len() && record_files(
                        #[trigger] front[i],
                        sidecar_in(dir, encoded_key(front[i])),
                    ).contains(name);
                assert(keep[i] == front[i]);
            }
        } else {
            assert(keep[keep.len() - 1] == keep.last());
        }
    }
}

/// A file that was adopted reads as the value of its key, with the declared type
/// and the length of the file, and its bytes are untouched.
pub proof fn law_adopted_files_are_readable(
    dir: Map<Seq<char>, Entry>,
    key: Seq<char>,
    filename: Seq<char>,
    content_type: Seq<char>,
    bytes: Seq<u8>,
)
    requires
        valid_value_name(filename),
        dir.dom().contains(filename),
        dir[filename] == Entry::Value(bytes),
    ensures
        ({
            let size = bytes.len() as usize;
            let after = after_adoption(dir, key, filename, content_type, size);
            &&& read_key(after, key) matches Some((record, read))
            &&& read == bytes
            &&& record.key == key
            &&& record.content_type == content_type
            &&& record.size == Some(size)
            &&& record.filename == if filename == encoded_key(key) {
                None
            } else {
                Some(filename)
            }
            &&& forall|name: Seq<char>|
                name != sidecar_name_of(encoded_key(key)) ==> (#[trigger] after.dom().contains(name)
                    == dir.dom().contains(name)) && after[name] == dir[name]
        }),
{
    lemma_sidecar_apart(encoded_key(key), filename);
}

// ---------------------------------------------------------------------------
// Which names and files
// ---------------------------------------------------------------------------

/// Whether a name can be that of a value: an entry of the directory itself that
/// describes neither the store nor a record.
pub open spec fn can_hold_a_value(name: Seq<char>) -> bool {
    &&& name.len() > 0
    &&& !name.contains('/')
    &&& name != "."@
    &&& name != ".."@
    &&& name != "__metadata__.json"@
    &&& forall|stem: Seq<char>| name != #[trigger] (stem + ".__metadata__.json"@)
}

proof fn lemma_metadata_suffix()
    ensures
        sidecar_suffix() == ".__metadata__.json"@,
        METADATA_FILENAME@ == "__metadata__.json"@,
{
    reveal_strlit(".");
    reveal_strlit("__metadata__.json");
    reveal_strlit(".__metadata__.json");
    assert("."@ + "__metadata__.json"@ =~= ".__metadata__.json"@);
}

/// A name is accepted for a value exactly where it can hold one.
pub proof fn law_names_of_values(name: Seq<char>)
    ensures
        valid_value_name(name) <==> can_hold_a_value(name),
{
    lemma_metadata_suffix();
    let suffix = ".__metadata__.json"@;
    if name.contains('/') {
        let i = choose|i: int| 0 <= i < name.len() && name[i] == '/';
        assert(!crate::path::no_slash(name));
    } else {
        assert forall|i: int| 0 <= i < name.len() implies name[i] != '/' by {
            assert(name.contains(name[i]));
        }
        assert(crate::path::no_slash(name));
    }
    if exists|stem: Seq<char>| name == #[trigger] (stem + suffix) {
        let stem = choose|stem: Seq<char>| name == #[trigger] (stem + suffix);
        assert(name.skip(name.len() - suffix.len()) == suffix);
        assert(metadata_name(name));
    }
    if metadata_name(name) && name != METADATA_FILENAME@ {
        let stem = name.take(name.len() - suffix.len());
        assert(name == stem + suffix);
    }
}

/// A description of a record is named after the key, with a fixed end, and belongs
/// to that key alone.
pub proof fn law_names_of_sidecars(key: Seq<char>, other: Seq<char>)
    ensures
        sidecar_name_of(encoded_key(key)) == encoded_key(key) + ".__metadata__.json"@,
        sidecar_name_of(encoded_key(key)) == sidecar_name_of(encoded_key(other)) ==> key == other,
{
    lemma_metadata_suffix();
    if sidecar_name_of(encoded_key(key)) == sidecar_name_of(encoded_key(other)) {
        lemma_sidecars_distinct(key, other);
    }
}

/// The value of a key lies in the file that its description binds it to, where that
/// can hold a value, and in the file named after the key where the description names
/// none. A key without a description has a value only for a caller who does not
/// insist on one, in the file named after the key.
pub proof fn law_where_a_value_lies(key: Seq<char>, record: RecordView, require: bool)
    ensures
        record.filename is None ==> lookup_file(key, Some(record), require) == Some(
            encoded_key(key),
        ),
        record.filename matches Some(f) ==> lookup_file(key, Some(record), require)
            == if can_hold_a_value(f) {
            Some(f)
        } else {
            None
        },
        lookup_file(key, None, true) is None,
        lookup_file(key, None, false) == Some(encoded_key(key)),
{
    if record.filename is Some {
        law_names_of_values(record.filename->0);
    }
}

/// The file in which the value of a key would be; that of the key itself where its
/// description binds it to a file that cannot hold one.
pub open spec fn home_of(dir: Map<Seq<char>, Entry>, key: Seq<char>) -> Seq<char> {
    match lookup_file(key, sidecar_in(dir, encoded_key(key)), false) {
        Some(file) => file,
        None => encoded_key(key),
    }
}

/// What is deleted, spared and linked to as the value of a key is the file where it
/// would be read.
pub proof fn law_one_file_for_all(dir: Map<Seq<char>, Entry>, key: Seq<char>)
    ensures
        bound_or_own(encoded_key(key), sidecar_in(dir, encoded_key(key))) == home_of(dir, key),
{
}

// ---------------------------------------------------------------------------
// Reading
// ---------------------------------------------------------------------------

/// What reading a key gives a caller who may not insist on a description.
pub open spec fn read_key_as(dir: Map<Seq<char>, Entry>, key: Seq<char>, require: bool) -> Option<
    (RecordView, Seq<u8>),
> {
    let sidecar = sidecar_in(dir, encoded_key(key));
    match lookup_file(key, sidecar, require) {
        Some(file) => if dir.dom().contains(file) {
            match dir[file] {
                Entry::Value(bytes) => Some(
                    (found_record(key, sidecar, bytes.len() as usize), bytes),
                ),
                _ => None,
            }
        } else {
            None
        },
        None => None,
    }
}

/// A file without a description is read only by a caller who does not insist on one,
/// under the key it is named after, as bytes of no particular type and of its own
/// length.
pub proof fn law_bare_file_is_read_on_request(
    dir: Map<Seq<char>, Entry>,
    key: Seq<char>,
    bytes: Seq<u8>,
)
    requires
        sidecar_in(dir, encoded_key(key)) is None,
        dir.dom().contains(encoded_key(key)),
        dir[encoded_key(key)] == Entry::Value(bytes),
    ensures
        read_key_as(dir, key, true) is None,
        read_key_as(dir, key, false) == Some(
            (
                RecordView {
                    key,
                    content_type: "application/octet-stream"@,
                    size: Some(bytes.len() as usize),
                    filename: None,
                },
                bytes,
            ),
        ),
{
}

/// A value with a description is read the same whether or not the caller insists on
/// one: with what the description says, and the length of the file where it does not
/// say how long the value is.
pub proof fn law_description_is_read_as_it_is(
    dir: Map<Seq<char>, Entry>,
    key: Seq<char>,
    record: RecordView,
    bytes: Seq<u8>,
    require: bool,
)
    requires
        sidecar_in(dir, encoded_key(key)) == Some(record),
        lookup_file(key, Some(record), require) matches Some(file) && dir.dom().contains(file)
            && dir[file] == Entry::Value(bytes),
    ensures
        read_key_as(dir, key, require) matches Some((found, read)) && {
            &&& read == bytes
            &&& found.key == record.key
            &&& found.content_type == record.content_type
            &&& found.filename == record.filename
            &&& found.size == match record.size {
                Some(n) => Some(n),
                None => Some(bytes.len() as usize),
            }
        },
        read_key_as(dir, key, require) == read_key(dir, key),
{
}

/// A key whose file is missing has no value, whoever asks.
pub proof fn law_missing_file_is_no_value(
    dir: Map<Seq<char>, Entry>,
    key: Seq<char>,
    require: bool,
)
    requires
        !dir.dom().contains(home_of(dir, key)),
    ensures
        read_key_as(dir, key, require) is None,
{
}

// ---------------------------------------------------------------------------
// Writing, deleting and purging
// ---------------------------------------------------------------------------

/// The file that a write is asked to put the value in.
pub open spec fn asked_file(key: Seq<char>, filename: Option<Seq<char>>) -> Seq<char> {
    match filename {
        Some(f) => f,
        None => encoded_key(key),
    }
}

/// A write is refused exactly where it is asked to use a name that cannot hold a
/// value. Otherwise the bytes are in the file that was asked for, and the description
/// of the record in its own.
pub proof fn law_write_goes_where_it_is_asked(
    dir: Map<Seq<char>, Entry>,
    key: Seq<char>,
    data: Seq<u8>,
    content_type: Seq<char>,
    filename: Option<Seq<char>>,
)
    ensures
        after_write(dir, key, data, content_type, filename) is None <==> (filename is Some
            && !can_hold_a_value(filename->0)),
        after_write(dir, key, data, content_type, filename) matches Some(a) ==> {
            let file = asked_file(key, filename);
            &&& file != "__metadata__.json"@ ==> a.dom().contains(file) && a[file] == Entry::Value(
                data,
            )
            &&& sidecar_in(a, encoded_key(key)) == Some(
                RecordView { key, content_type, size: Some(data.len() as usize), filename },
            )
        },
{
    lemma_metadata_suffix();
    if filename is Some {
        law_names_of_values(filename->0);
    }
    lemma_sidecar_apart(encoded_key(key), asked_file(key, filename));
}

/// Where the record of a key lay in one file and it is written to another, the first
/// one is gone afterwards. The one exception is the description of the store.
pub proof fn law_rewritten_value_leaves_its_old_file(
    dir: Map<Seq<char>, Entry>,
    key: Seq<char>,
    data: Seq<u8>,
    content_type: Seq<char>,
    filename: Option<Seq<char>>,
    old_file: Seq<char>,
)
    requires
        lookup_file(key, sidecar_in(dir, encoded_key(key)), true) == Some(old_file),
        old_file != asked_file(key, filename),
        old_file != "__metadata__.json"@,
    ensures
        after_write(dir, key, data, content_type, filename) matches Some(a) ==> !a.dom().contains(
            old_file,
        ),
{
    lemma_metadata_suffix();
    lemma_sidecar_apart(encoded_key(key), old_file);
}

/// A write touches the file it is asked for, the description of the record, that of
/// the store, and the file where the record lay before. Every other file stays.
pub proof fn law_write_leaves_other_files(
    dir: Map<Seq<char>, Entry>,
    key: Seq<char>,
    data: Seq<u8>,
    content_type: Seq<char>,
    filename: Option<Seq<char>>,
    name: Seq<char>,
)
    requires
        name != asked_file(key, filename),
        name != sidecar_name_of(encoded_key(key)),
        name != "__metadata__.json"@,
        lookup_file(key, sidecar_in(dir, encoded_key(key)), true) != Some(name),
    ensures
        after_write(dir, key, data, content_type, filename) matches Some(a) ==> a.dom().contains(
            name,
        ) == dir.dom().contains(name) && a[name] == dir[name],
{
    lemma_metadata_suffix();
}

/// Deleting a key removes its description and the file of its value, and no other
/// file. The one exception is the description of the store, which stays.
pub proof fn law_delete_takes_the_two_files_of_a_key(
    dir: Map<Seq<char>, Entry>,
    key: Seq<char>,
    name: Seq<char>,
)
    requires
        name != "__metadata__.json"@,
    ensures
        ({
            let a = after_delete(dir, key);
            if name == home_of(dir, key) || name == sidecar_name_of(encoded_key(key)) {
                !a.dom().contains(name)
            } else {
                a.dom().contains(name) == dir.dom().contains(name) && a[name] == dir[name]
            }
        }),
{
    lemma_metadata_suffix();
}

/// A purge leaves a file exactly where it is the description of a key that is kept,
/// or the file of such a key's value. What it leaves is unchanged. The description of
/// the store stays in any case.
pub proof fn law_purge_leaves_the_files_of_kept_keys(
    dir: Map<Seq<char>, Entry>,
    keep: Seq<Seq<char>>,
    name: Seq<char>,
)
    requires
        name != "__metadata__.json"@,
    ensures
        ({
            let a = after_purge(dir, keep);
            let kept = exists|i: int|
                0 <= i < keep.len() && (name == sidecar_name_of(encoded_key(#[trigger] keep[i]))
                    || name == home_of(dir, keep[i]));
            &&& a.dom().contains(name) <==> dir.dom().contains(name) && kept
            &&& a.dom().contains(name) ==> a[name] == dir[name]
            &&& a.dom().contains("__metadata__.json"@)
        }),
{
    lemma_metadata_suffix();
    if spared(dir, keep).contains(name) {
        lemma_spared_only(dir, keep, name);
        let i = choose|i: int|
            0 <= i < keep.len() && record_files(
                #[trigger] keep[i],
                sidecar_in(dir, encoded_key(keep[i])),
            ).contains(name);
        law_one_file_for_all(dir, keep[i]);
    }
    if exists|i: int|
        0 <= i < keep.len() && (name == sidecar_name_of(encoded_key(#[trigger] keep[i])) || name
            == home_of(dir, keep[i])) {
        let i = choose|i: int|
            0 <= i < keep.len() && (name == sidecar_name_of(encoded_key(#[trigger] keep[i]))
                || name == home_of(dir, keep[i]));
        lemma_spared(dir, keep, i);
        law_one_file_for_all(dir, keep[i]);
        assert(record_files(keep[i], sidecar_in(dir, encoded_key(keep[i]))).contains(name));
    }
}

proof fn lemma_sidecar_is_recognised(key: Seq<char>)
    ensures
        is_sidecar(sidecar_name_of(encoded_key(key))),
        sidecar_stem(sidecar_name_of(encoded_key(key))) == encoded_key(key),
{
    let encoded = encoded_key(key);
    let name = sidecar_name_of(encoded);
    lemma_sidecar_apart(encoded, Seq::empty());
    lemma_suffix_len();
    assert(name.skip(name.len() - sidecar_suffix().len()) == sidecar_suffix());
    assert(name.take(name.len() - sidecar_suffix().len()) == encoded);
}

proof fn lemma_recorded(entries: Seq<Seq<char>>, key: Seq<char>)
    ensures
        recorded_of(entries).contains(encoded_key(key)) == entries.contains(
            sidecar_name_of(encoded_key(key)),
        ),
{
    let encoded = encoded_key(key);
    let name = sidecar_name_of(encoded);
    let keep = |name: Seq<char>| is_sidecar(name);
    let kept = entries.filter(keep);
    lemma_sidecar_is_recognised(key);
    if entries.contains(name) {
        let i = choose|i: int| 0 <= i < entries.len() && entries[i] == name;
        entries.lemma_filter_contains(keep, i);
        let j = choose|j: int| 0 <= j < kept.len() && kept[j] == name;
        assert(recorded_of(entries)[j] == encoded);
    }
    if recorded_of(entries).contains(encoded) {
        let j = choose|j: int|
            0 <= j < recorded_of(entries).len() && recorded_of(entries)[j] == encoded;
        entries.lemma_filter_pred(keep, j);
        entries.lemma_filter_contains_rev(keep, kept[j]);
        lemma_suffix_len();
        assert(kept[j] == sidecar_stem(kept[j]) + sidecar_suffix());
    }
}

/// A listing of the files of a store finds a key that was written, at the place of
/// the key itself, whatever order the files come in.
pub proof fn law_written_keys_are_listed(
    dir: Map<Seq<char>, Entry>,
    key: Seq<char>,
    data: Seq<u8>,
    content_type: Seq<char>,
    filename: Option<Seq<char>>,
    entries: Seq<Seq<char>>,
)
    requires
        value_name_of(encoded_key(key), filename) is Some,
        entries.to_set() == after_write(dir, key, data, content_type, filename)->0.dom(),
    ensures
        recorded_of(entries).contains(encoded_key(key)),
        recorded_candidate(encoded_key(key)).sort_key == key,
{
    assert(entries.to_set().contains(sidecar_name_of(encoded_key(key))));
    lemma_recorded(entries, key);
    law_decode_undoes_encode(key);
}

/// A listing of the files of a store does not find a key that was deleted.
pub proof fn law_deleted_keys_are_not_listed(
    dir: Map<Seq<char>, Entry>,
    key: Seq<char>,
    entries: Seq<Seq<char>>,
)
    requires
        entries.to_set() == after_delete(dir, key).dom(),
    ensures
        !recorded_of(entries).contains(encoded_key(key)),
{
    lemma_sidecar_apart(encoded_key(key), Seq::empty());
    assert(!entries.to_set().contains(sidecar_name_of(encoded_key(key))));
    lemma_recorded(entries, key);
}

} // verus!
