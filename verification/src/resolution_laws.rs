//! Which files are taken for the value of a key: those that a caller declares, and
//! those that are looked for one after the other.

use vstd::prelude::*;

use crate::key_value_store::{
    adoptable, adopted_record, after_attempt, bound_or_own, found_key, found_record, new_search,
    next_attempt, present, resolution_keys, resolved_record, value_name_of, SearchView,
};
use crate::models::RecordView;
use crate::store_laws::{can_hold_a_value, law_names_of_values};
use crate::utils::{encoded_key, metadata_name};

verus! {

/// Whether a name is that of a description: of the store, or of a record.
pub open spec fn describes(name: Seq<char>) -> bool {
    ||| name == "__metadata__.json"@
    ||| exists|stem: Seq<char>| name == #[trigger] (stem + ".__metadata__.json"@)
}

proof fn lemma_describes(name: Seq<char>)
    ensures
        metadata_name(name) <==> describes(name),
{
    reveal_strlit(".");
    reveal_strlit("__metadata__.json");
    reveal_strlit(".__metadata__.json");
    let suffix = ".__metadata__.json"@;
    assert("."@ + "__metadata__.json"@ =~= suffix);
    if exists|stem: Seq<char>| name == #[trigger] (stem + suffix) {
        let stem = choose|stem: Seq<char>| name == #[trigger] (stem + suffix);
        assert(name.skip(name.len() - suffix.len()) == suffix);
    }
    if metadata_name(name) && name != "__metadata__.json"@ {
        let stem = name.take(name.len() - suffix.len());
        assert(name == stem + suffix);
    }
}

/// The files that a caller declares for a key are looked for in their order. Those that
/// describe the store or a record are passed over, and no others.
pub proof fn law_declared_files_but_descriptions_are_looked_for(
    a: Seq<(Seq<char>, Seq<char>)>,
    file: (Seq<char>, Seq<char>),
    b: Seq<(Seq<char>, Seq<char>)>,
)
    ensures
        adoptable(a + b) == adoptable(a) + adoptable(b),
        adoptable(seq![file]) == if describes(file.0) {
            Seq::<(Seq<char>, Seq<char>)>::empty()
        } else {
            seq![file]
        },
{
    let keep = |f: (Seq<char>, Seq<char>)| !metadata_name(f.0);
    Seq::filter_distributes_over_add(a, b, keep);
    lemma_describes(file.0);
    let none = Seq::<(Seq<char>, Seq<char>)>::empty();
    assert(none.filter(keep) == none) by {
        reveal(Seq::filter);
    }
    assert(none.push(file) == seq![file]);
    none.lemma_filter_push(file, keep);
}

proof fn lemma_present_uses_the_front(
    probes: Seq<(Seq<char>, Seq<char>)>,
    a: Seq<Option<usize>>,
    b: Seq<Option<usize>>,
)
    requires
        forall|i: int| 0 <= i < probes.len() ==> #[trigger] a[i] == b[i],
    ensures
        present(probes, a) == present(probes, b),
    decreases probes.len(),
{
    if probes.len() > 0 {
        lemma_present_uses_the_front(probes.drop_last(), a, b);
        assert(a[probes.len() - 1] == b[probes.len() - 1]);
    }
}

/// Of the files that were looked for, exactly those that exist are found, each with its
/// name, its declared type and its length, in the order in which they were looked for.
pub proof fn law_files_that_exist_are_found(
    probes: Seq<(Seq<char>, Seq<char>)>,
    sizes: Seq<Option<usize>>,
    file: (Seq<char>, Seq<char>),
    size: Option<usize>,
)
    requires
        sizes.len() == probes.len(),
    ensures
        present(Seq::empty(), Seq::empty()).len() == 0,
        present(probes.push(file), sizes.push(size)) == match size {
            Some(n) => present(probes, sizes).push((file.0, file.1, n)),
            None => present(probes, sizes),
        },
{
    assert(probes.push(file).drop_last() == probes);
    lemma_present_uses_the_front(probes, sizes.push(size), sizes);
}

/// As many files are found as exist: none where none exists, and more than one where
/// two exist.
pub proof fn law_found_files_are_counted(
    probes: Seq<(Seq<char>, Seq<char>)>,
    sizes: Seq<Option<usize>>,
    i: int,
    j: int,
)
    requires
        sizes.len() == probes.len(),
    ensures
        (forall|k: int| 0 <= k < sizes.len() ==> #[trigger] sizes[k] is None) ==> present(
            probes,
            sizes,
        ).len() == 0,
        0 <= i < sizes.len() && sizes[i] is Some ==> present(probes, sizes).contains(
            (probes[i].0, probes[i].1, sizes[i]->0),
        ),
        0 <= i < j < sizes.len() && sizes[i] is Some && sizes[j] is Some ==> present(
            probes,
            sizes,
        ).len() > 1,
    decreases probes.len(),
{
    if probes.len() > 0 {
        let front = probes.drop_last();
        let less = sizes.drop_last();
        law_found_files_are_counted(front, less, i, j);
        law_found_files_are_counted(front, less, i, i + 1);
        lemma_present_uses_the_front(front, sizes, less);
        assert(forall|k: int| 0 <= k < less.len() ==> #[trigger] less[k] == sizes[k]);
        let found = present(probes, sizes);
        let before = present(front, less);
        if 0 <= i < less.len() && sizes[i] is Some {
            let entry = (probes[i].0, probes[i].1, sizes[i]->0);
            assert(before.contains(entry));
            let at = choose|at: int| 0 <= at < before.len() && before[at] == entry;
            assert(found[at] == entry);
            assert(before.len() > 0);
        } else if i == less.len() && sizes[i] is Some {
            assert(found.last() == (probes[i].0, probes[i].1, sizes[i]->0));
            assert(found[found.len() - 1] == found.last());
        }
    }
}

/// What a record of an adopted file says leads back to that file.
pub proof fn law_adopted_record_leads_to_its_file(
    key: Seq<char>,
    filename: Seq<char>,
    content_type: Seq<char>,
    size: usize,
)
    requires
        can_hold_a_value(filename),
    ensures
        ({
            let r = adopted_record(key, filename, content_type, size);
            &&& bound_or_own(encoded_key(key), Some(r)) == filename
            &&& r.key == key
            &&& r.content_type == content_type
            &&& r.size == Some(size)
            &&& r.filename is None <==> filename == encoded_key(key)
        }),
{
    law_names_of_values(filename);
}

// ---------------------------------------------------------------------------
// Looking for a value
// ---------------------------------------------------------------------------

/// A value is looked for under its key first, where it needs a description; then under
/// the key with each of the extensions behind it, in order, where it needs none.
pub proof fn law_where_a_value_is_looked_for(key: Seq<char>, extensions: Seq<Seq<char>>, i: int)
    requires
        0 <= i < extensions.len(),
    ensures
        resolution_keys(key, extensions).len() == extensions.len() + 1,
        resolution_keys(key, extensions)[0] == (key, true),
        resolution_keys(key, extensions)[i + 1] == (key + extensions[i], false),
        new_search(key, extensions).attempts == resolution_keys(key, extensions),
        next_attempt(new_search(key, extensions)) == Some((key, true)),
{
}

/// Without extensions, a value is looked for under its key alone.
pub proof fn law_search_without_extensions(key: Seq<char>, hit: bool)
    ensures
        ({
            let s = new_search(key, Seq::empty());
            &&& next_attempt(s) == Some((key, true))
            &&& next_attempt(after_attempt(s, hit)) is None
            &&& found_key(after_attempt(s, hit)) == if hit {
                Some(key)
            } else {
                None
            }
        }),
{
}

/// A hit ends a search, at the key that was tried last; a miss leads to the next key.
pub proof fn law_outcome_of_an_attempt(s: SearchView, tried: (Seq<char>, bool))
    requires
        next_attempt(s) == Some(tried),
    ensures
        next_attempt(after_attempt(s, true)) is None,
        found_key(after_attempt(s, true)) == Some(tried.0),
        found_key(after_attempt(s, false)) is None,
        after_attempt(s, false).attempts == s.attempts,
        s.misses + 1 < s.attempts.len() ==> next_attempt(after_attempt(s, false)) == Some(
            s.attempts[s.misses + 1int],
        ),
        s.misses + 1 >= s.attempts.len() ==> next_attempt(after_attempt(s, false)) is None,
{
}

/// A value that was found is told under the key that was asked for, with the type that
/// was declared for where it was found, if one was. What else was read of it stays.
pub proof fn law_found_value_is_told_under_its_key(
    key: Seq<char>,
    found: RecordView,
    attempt: int,
    types: Seq<Seq<char>>,
)
    requires
        0 <= attempt <= types.len(),
    ensures
        ({
            let r = resolved_record(key, found, attempt, types);
            &&& attempt == 0 ==> r == found
            &&& attempt > 0 ==> {
                &&& r.key == key
                &&& types[attempt - 1] == ""@ ==> r.content_type == found.content_type
                &&& types[attempt - 1] != ""@ ==> r.content_type == types[attempt - 1]
            }
            &&& r.size == found.size
            &&& r.filename == found.filename
        }),
{
    reveal_strlit("");
    if attempt > 0 && types[attempt - 1].len() == 0 {
        assert(types[attempt - 1] == ""@);
    }
}

/// Of a value without a description, the key, the length of its file and no particular
/// type are told. With one, what it says is told, and the length of the file where it
/// says none.
pub proof fn law_what_is_told_of_a_value(key: Seq<char>, sidecar: Option<RecordView>, length: usize)
    ensures
        sidecar is None ==> found_record(key, sidecar, length) == (RecordView {
            key,
            content_type: "application/octet-stream"@,
            size: Some(length),
            filename: None,
        }),
        sidecar matches Some(r) ==> {
            let told = found_record(key, sidecar, length);
            &&& told.key == r.key
            &&& told.content_type == r.content_type
            &&& told.filename == r.filename
            &&& told.size == match r.size {
                Some(n) => Some(n),
                None => Some(length),
            }
        },
{
}

/// A record that names a file which can hold a value is bound to that file, one that
/// names none to the file of its key, and one that names any other has no file.
pub proof fn law_files_that_records_are_bound_to(encoded: Seq<char>, filename: Option<Seq<char>>)
    ensures
        filename is None ==> value_name_of(encoded, filename) == Some(encoded),
        filename matches Some(name) ==> value_name_of(encoded, filename) == if can_hold_a_value(
            name,
        ) {
            Some(name)
        } else {
            None
        },
{
    if let Some(name) = filename {
        law_names_of_values(name);
    }
}

} // verus!
