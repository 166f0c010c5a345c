//! What a listing of keys answers, said of the records and the files themselves.

use vstd::prelude::*;

use crate::key_listing::{
    ascending, bare_found, behind_cursor, cursor_after, declared, has_key, in_scope, is_sidecar,
    law_page_continues_after_cursor, list_limit, listed, next_cursor, page_of, probed,
    recorded_of, scan_step, scoped, sidecar_stem, sidecar_suffix, unsorted_candidates, with_size,
    CandidateView, ScanStep,
};
use crate::models::RecordView;
use crate::order::text_lt;
use crate::text::has_prefix;
use crate::utils::{decoded_key, encoded_key, METADATA_FILENAME};

verus! {

// ---------------------------------------------------------------------------
// The order of keys
// ---------------------------------------------------------------------------

/// Whether two texts agree on their first `n` characters.
pub open spec fn agree_up_to(a: Seq<char>, b: Seq<char>, n: int) -> bool {
    &&& 0 <= n <= a.len()
    &&& n <= b.len()
    &&& forall|i: int| 0 <= i < n ==> a[i] == b[i]
}

/// One text comes before another exactly where it ends first, or has the smaller
/// character, at the first place where they differ.
pub proof fn law_first_difference_decides(a: Seq<char>, b: Seq<char>, n: int)
    requires
        agree_up_to(a, b, n),
        n == a.len() || n == b.len() || a[n] != b[n],
    ensures
        text_lt(a, b) <==> n < b.len() && (n == a.len() || a[n] < b[n]),
    decreases n,
{
    if n > 0 {
        assert(a[0] == b[0]);
        let x = a.skip(1);
        let y = b.skip(1);
        assert forall|i: int| 0 <= i < n - 1 implies x[i] == y[i] by {
            assert(a[i + 1] == b[i + 1]);
        }
        law_first_difference_decides(x, y, n - 1);
    }
}

/// Whether a text begins with another.
pub open spec fn begins_with(s: Seq<char>, prefix: Seq<char>) -> bool {
    exists|rest: Seq<char>| s == #[trigger] (prefix + rest)
}

proof fn lemma_begins_with(s: Seq<char>, prefix: Seq<char>)
    ensures
        has_prefix(s, prefix) == begins_with(s, prefix),
{
    if has_prefix(s, prefix) {
        let rest = s.skip(prefix.len() as int);
        assert(s == prefix + rest);
    }
    if begins_with(s, prefix) {
        let rest = choose|rest: Seq<char>| s == #[trigger] (prefix + rest);
        assert(s.take(prefix.len() as int) == prefix);
    }
}

// ---------------------------------------------------------------------------
// The answer to a listing
// ---------------------------------------------------------------------------

/// Whether a record is asked for: its key begins with the prefix and comes behind
/// the cursor, where these are given.
pub open spec fn is_asked_for(
    r: RecordView,
    start: Option<Seq<char>>,
    prefix: Option<Seq<char>>,
) -> bool {
    &&& prefix matches Some(p) ==> begins_with(r.key, p)
    &&& start matches Some(s) ==> text_lt(s, r.key)
}

/// A listing is refused exactly where its cursor is not the key of a record that
/// begins with the prefix.
pub proof fn law_listing_is_refused_without_its_cursor(
    records: Seq<RecordView>,
    start: Option<Seq<char>>,
    limit: Option<usize>,
    prefix: Option<Seq<char>>,
)
    ensures
        listed(records, start, limit, prefix) is Some <==> (start matches Some(s) ==> exists|i: int|
            {
                &&& 0 <= i < records.len()
                &&& (#[trigger] records[i]).key == s
                &&& prefix matches Some(p) ==> begins_with(s, p)
            }),
{
    let known = scoped(records, prefix);
    let scope = |r: RecordView| in_scope(r, prefix);
    if start is Some {
        let s = start->0;
        if prefix is Some {
            lemma_begins_with(s, prefix->0);
        }
        if has_key(known, s) {
            let j = choose|j: int| 0 <= j < known.len() && (#[trigger] known[j]).key == s;
            records.lemma_filter_contains_rev(scope, known[j]);
            records.lemma_filter_pred(scope, j);
            let i = choose|i: int| 0 <= i < records.len() && records[i] == known[j];
            assert(records[i].key == s);
        }
        if exists|i: int|
            {
                &&& 0 <= i < records.len()
                &&& (#[trigger] records[i]).key == s
                &&& prefix matches Some(p) ==> begins_with(s, p)
            } {
            let i = choose|i: int|
                {
                    &&& 0 <= i < records.len()
                    &&& (#[trigger] records[i]).key == s
                    &&& prefix matches Some(p) ==> begins_with(s, p)
                };
            records.lemma_filter_contains(scope, i);
            let j = choose|j: int| 0 <= j < known.len() && known[j] == records[i];
            assert(known[j].key == s);
        }
    }
}

/// A listing holds records that are asked for, and all of them unless a limit cuts it
/// off; then it holds the first of them, no more than the limit.
pub proof fn law_listing_holds_what_is_asked_for(
    records: Seq<RecordView>,
    start: Option<Seq<char>>,
    limit: Option<usize>,
    prefix: Option<Seq<char>>,
)
    ensures
        listed(records, start, limit, prefix) matches Some(found) ==> {
            &&& forall|i: int|
                0 <= i < found.len() ==> records.contains(#[trigger] found[i]) && is_asked_for(
                    found[i],
                    start,
                    prefix,
                )
            &&& limit is None ==> forall|j: int|
                0 <= j < records.len() && is_asked_for(#[trigger] records[j], start, prefix)
                    ==> found.contains(records[j])
            &&& limit matches Some(n) ==> {
                let full = listed(records, start, None, prefix)->0;
                &&& listed(records, start, None, prefix) is Some
                &&& found == full.take(
                    if n < full.len() {
                        n as int
                    } else {
                        full.len() as int
                    },
                )
            }
        },
{
    let known = scoped(records, prefix);
    let scope = |r: RecordView| in_scope(r, prefix);
    let behind = |r: RecordView| behind_cursor(r, start);
    let full = known.filter(behind);
    if listed(records, start, limit, prefix) is Some {
        let found = listed(records, start, limit, prefix)->0;
        assert(full.take(full.len() as int) == full);
        assert forall|i: int| 0 <= i < found.len() implies records.contains(#[trigger] found[i])
            && is_asked_for(found[i], start, prefix) by {
            assert(found[i] == full[i]);
            known.lemma_filter_pred(behind, i);
            known.lemma_filter_contains_rev(behind, full[i]);
            let j = choose|j: int| 0 <= j < known.len() && known[j] == full[i];
            records.lemma_filter_pred(scope, j);
            records.lemma_filter_contains_rev(scope, known[j]);
            if prefix is Some {
                lemma_begins_with(found[i].key, prefix->0);
            }
        }
        if limit is None {
            assert forall|j: int|
                0 <= j < records.len() && is_asked_for(#[trigger] records[j], start, prefix) implies
                found.contains(records[j]) by {
                if prefix is Some {
                    lemma_begins_with(records[j].key, prefix->0);
                }
                records.lemma_filter_contains(scope, j);
                let k = choose|k: int| 0 <= k < known.len() && known[k] == records[j];
                known.lemma_filter_contains(behind, k);
            }
        }
    }
}

proof fn lemma_filter_ascending(records: Seq<RecordView>, keep: spec_fn(RecordView) -> bool)
    requires
        ascending(records),
    ensures
        ascending(records.filter(keep)),
    decreases records.len(),
{
    reveal(Seq::filter);
    if records.len() > 0 {
        let front = records.drop_last();
        lemma_filter_ascending(front, keep);
        let kept = front.filter(keep);
        assert forall|i: int| 0 <= i < kept.len() implies text_lt(
            (#[trigger] kept[i]).key,
            records.last().key,
        ) by {
            front.lemma_filter_contains_rev(keep, kept[i]);
            let j = choose|j: int| 0 <= j < front.len() && front[j] == kept[i];
            assert(records[j] == kept[i]);
            assert(records[records.len() - 1] == records.last());
        }
    }
}

/// A listing of records whose keys ascend ascends too.
pub proof fn law_listing_keeps_the_order(
    records: Seq<RecordView>,
    start: Option<Seq<char>>,
    limit: Option<usize>,
    prefix: Option<Seq<char>>,
)
    requires
        ascending(records),
    ensures
        listed(records, start, limit, prefix) matches Some(found) ==> ascending(found),
{
    let known = scoped(records, prefix);
    lemma_filter_ascending(records, |r: RecordView| in_scope(r, prefix));
    lemma_filter_ascending(known, |r: RecordView| behind_cursor(r, start));
}

// ---------------------------------------------------------------------------
// Walking
// ---------------------------------------------------------------------------

/// What a caller collects who wants `remaining` keys and asks for page after page,
/// each time with the last key as the cursor and for what is still wanted, until no
/// more is promised.
pub open spec fn walk_limited(
    records: Seq<RecordView>,
    prefix: Option<Seq<char>>,
    page_size: usize,
    remaining: usize,
    start: Option<Seq<char>>,
    fuel: nat,
) -> Option<Seq<RecordView>>
    decreases fuel,
{
    match listed(records, start, None, prefix) {
        None => None,
        Some(all) => {
            let (items, more) = page_of(all, Some(remaining), page_size);
            if !more {
                Some(items)
            } else if fuel == 0 || items.len() == 0 || items.len() > remaining {
                None
            } else {
                match walk_limited(
                    records,
                    prefix,
                    page_size,
                    (remaining - items.len()) as usize,
                    Some(items.last().key),
                    (fuel - 1) as nat,
                ) {
                    None => None,
                    Some(rest) => Some(items + rest),
                }
            }
        },
    }
}

/// The first `n` of some items, or all where there are fewer.
pub open spec fn first_of<T>(items: Seq<T>, n: int) -> Seq<T> {
    items.take(
        if n < items.len() {
            n
        } else {
            items.len() as int
        },
    )
}

/// Where keys ascend strictly, walking through the pages for `wanted` keys gives the
/// first that many keys in scope, in order and each once, whatever the size of a page.
pub proof fn law_limited_walk_visits_the_first_keys(
    records: Seq<RecordView>,
    prefix: Option<Seq<char>>,
    page_size: usize,
    wanted: usize,
)
    requires
        ascending(records),
        page_size > 0,
    ensures
        walk_limited(records, prefix, page_size, wanted, None, records.len()) == Some(
            first_of(scoped(records, prefix), wanted as int),
        ),
{
    let known = scoped(records, prefix);
    records.lemma_filter_len(|r: RecordView| in_scope(r, prefix));
    lemma_limited_walk_from(records, prefix, page_size, wanted, 0, records.len());
    assert(known.skip(0) == known);
}

proof fn lemma_limited_walk_from(
    records: Seq<RecordView>,
    prefix: Option<Seq<char>>,
    page_size: usize,
    remaining: usize,
    n: int,
    fuel: nat,
)
    requires
        ascending(records),
        page_size > 0,
        0 <= n <= scoped(records, prefix).len(),
        fuel >= scoped(records, prefix).len() - n,
    ensures
        walk_limited(
            records,
            prefix,
            page_size,
            remaining,
            cursor_after(scoped(records, prefix), n),
            fuel,
        ) == Some(first_of(scoped(records, prefix).skip(n), remaining as int)),
    decreases fuel,
{
    let known = scoped(records, prefix);
    let rest = known.skip(n);
    law_page_continues_after_cursor(records, prefix, n, page_size);
    let (items, more) = page_of(rest, Some(remaining), page_size);
    if rest.len() > page_size && page_size < remaining {
        let next = n + page_size;
        assert(items == rest.take(page_size as int));
        assert(items.last() == known[next - 1]);
        lemma_limited_walk_from(
            records,
            prefix,
            page_size,
            (remaining - page_size) as usize,
            next,
            (fuel - 1) as nat,
        );
        assert(known.skip(next) == rest.skip(page_size as int));
        assert(items + first_of(known.skip(next), remaining - page_size) == first_of(
            rest,
            remaining as int,
        ));
    } else {
        assert(items == first_of(rest, remaining as int));
    }
}

/// What a caller collects who lists `limit` keys at a time and goes on with the
/// cursor that each answer names, until one names none.
pub open spec fn walk_by_next_cursor(
    records: Seq<RecordView>,
    prefix: Option<Seq<char>>,
    limit: Option<usize>,
    start: Option<Seq<char>>,
    fuel: nat,
) -> Option<Seq<RecordView>>
    decreases fuel,
{
    match listed(records, start, None, prefix) {
        None => None,
        Some(all) => {
            let (items, more) = page_of(all, None, list_limit(limit));
            match next_cursor(items, more) {
                None => Some(items),
                Some(next) => if fuel == 0 {
                    None
                } else {
                    match walk_by_next_cursor(
                        records,
                        prefix,
                        limit,
                        Some(next),
                        (fuel - 1) as nat,
                    ) {
                        None => None,
                        Some(rest) => Some(items + rest),
                    }
                },
            }
        },
    }
}

/// Where keys ascend strictly, going on with the cursor that each listing names gives
/// every key in scope, in order and each once.
pub proof fn law_next_cursor_leads_through_all_keys(
    records: Seq<RecordView>,
    prefix: Option<Seq<char>>,
    limit: Option<usize>,
)
    requires
        ascending(records),
        limit != Some(0usize),
    ensures
        walk_by_next_cursor(records, prefix, limit, None, records.len()) == Some(
            scoped(records, prefix),
        ),
{
    let known = scoped(records, prefix);
    records.lemma_filter_len(|r: RecordView| in_scope(r, prefix));
    lemma_next_cursor_from(records, prefix, limit, 0, records.len());
    assert(known.skip(0) == known);
}

proof fn lemma_next_cursor_from(
    records: Seq<RecordView>,
    prefix: Option<Seq<char>>,
    limit: Option<usize>,
    n: int,
    fuel: nat,
)
    requires
        ascending(records),
        limit != Some(0usize),
        0 <= n <= scoped(records, prefix).len(),
        fuel >= scoped(records, prefix).len() - n,
    ensures
        walk_by_next_cursor(
            records,
            prefix,
            limit,
            cursor_after(scoped(records, prefix), n),
            fuel,
        ) == Some(scoped(records, prefix).skip(n)),
    decreases fuel,
{
    let known = scoped(records, prefix);
    let size = list_limit(limit);
    law_page_continues_after_cursor(records, prefix, n, size);
    if n + size < known.len() {
        let next = n + size;
        let items = known.subrange(n, next);
        assert(items.last() == known[next - 1]);
        lemma_next_cursor_from(records, prefix, limit, next, (fuel - 1) as nat);
        assert(items + known.skip(next) == known.skip(n));
    } else {
        assert(known.subrange(n, known.len() as int) == known.skip(n));
    }
}

/// A page holds as many keys as it has room for and as are wanted, if there are that
/// many, and says that more follow exactly where it is full, more are wanted and more
/// are there.
pub proof fn law_page_is_as_full_as_can_be<T>(
    all: Seq<T>,
    limit: Option<usize>,
    page_size: usize,
)
    ensures
        ({
            let (items, more) = page_of(all, limit, page_size);
            &&& items == first_of(all, items.len() as int)
            &&& items.len() <= page_size
            &&& limit matches Some(n) ==> items.len() <= n
            &&& items.len() < page_size && (limit matches Some(n) ==> items.len() < n)
                ==> items.len() == all.len()
            &&& more <==> items.len() < all.len() && (limit matches Some(n) ==> items.len() < n)
        }),
{
    assert(all.take(all.len() as int) == all);
}

/// A listing for which the caller names no limit asks for a thousand keys.
pub proof fn law_default_limit(limit: Option<usize>)
    ensures
        list_limit(limit) == match limit {
            Some(n) => n,
            None => 1000,
        },
{
}

// ---------------------------------------------------------------------------
// Files
// ---------------------------------------------------------------------------

/// The records of a directory are those whose description lies in it, whatever else
/// does; the description of the store is none.
pub proof fn law_descriptions_make_the_records(entries: Seq<Seq<char>>, encoded: Seq<char>)
    ensures
        recorded_of(entries).contains(encoded) <==> entries.contains(
            encoded + ".__metadata__.json"@,
        ),
        recorded_of(entries).len() <= entries.len(),
        entries.no_duplicates() ==> recorded_of(entries).no_duplicates(),
{
    reveal_strlit(".");
    reveal_strlit("__metadata__.json");
    reveal_strlit(".__metadata__.json");
    let suffix = ".__metadata__.json"@;
    assert(sidecar_suffix() =~= suffix);
    let keep = |name: Seq<char>| is_sidecar(name);
    let kept = entries.filter(keep);
    entries.lemma_filter_len(keep);
    let name = encoded + suffix;
    assert(name.skip(name.len() - suffix.len()) == suffix);
    assert(name.take(name.len() - suffix.len()) == encoded);
    assert(name != METADATA_FILENAME@);
    if entries.contains(name) {
        let i = choose|i: int| 0 <= i < entries.len() && entries[i] == name;
        entries.lemma_filter_contains(keep, i);
        let j = choose|j: int| 0 <= j < kept.len() && kept[j] == name;
        assert(recorded_of(entries)[j] == encoded);
    }
    assert forall|j: int| 0 <= j < kept.len() implies entries.contains(#[trigger] kept[j])
        && kept[j] == sidecar_stem(kept[j]) + suffix by {
        entries.lemma_filter_pred(keep, j);
        entries.lemma_filter_contains_rev(keep, kept[j]);
        assert(kept[j] == sidecar_stem(kept[j]) + suffix);
    }
    if recorded_of(entries).contains(encoded) {
        let j = choose|j: int|
            0 <= j < recorded_of(entries).len() && recorded_of(entries)[j] == encoded;
        assert(kept[j] == sidecar_stem(kept[j]) + suffix);
    }
    if entries.no_duplicates() {
        lemma_filter_no_duplicates(entries, keep);
        assert forall|i: int, j: int|
            0 <= i < recorded_of(entries).len() && 0 <= j < recorded_of(entries).len() && i
                != j implies recorded_of(entries)[i] != recorded_of(entries)[j] by {
            assert(kept[i] == sidecar_stem(kept[i]) + suffix);
            assert(kept[j] == sidecar_stem(kept[j]) + suffix);
        }
    }
}

pub proof fn lemma_filter_no_duplicates<T>(s: Seq<T>, keep: spec_fn(T) -> bool)
    requires
        s.no_duplicates(),
    ensures
        s.filter(keep).no_duplicates(),
    decreases s.len(),
{
    reveal(Seq::filter);
    if s.len() > 0 {
        let front = s.drop_last();
        lemma_filter_no_duplicates(front, keep);
        let kept = front.filter(keep);
        assert forall|i: int| 0 <= i < kept.len() implies #[trigger] kept[i] != s.last() by {
            front.lemma_filter_contains_rev(keep, kept[i]);
            let j = choose|j: int| 0 <= j < front.len() && front[j] == kept[i];
            assert(s[j] == kept[i]);
            assert(s[s.len() - 1] == s.last());
        }
    }
}

/// Whether the declaration number `i` is the first one of its name.
pub open spec fn first_declaration(bare: Seq<(Seq<char>, Seq<char>)>, i: int) -> bool {
    &&& 0 <= i < bare.len()
    &&& forall|j: int| 0 <= j < i ==> (#[trigger] bare[j]).0 != bare[i].0
}

/// A listing looks for a declared file exactly where no record has its name and no
/// earlier declaration does.
pub proof fn law_declared_files_are_looked_for(
    recorded: Set<Seq<char>>,
    bare: Seq<(Seq<char>, Seq<char>)>,
)
    ensures
        forall|i: int| #[trigger]
            first_declaration(bare, i) && !recorded.contains(encoded_key(bare[i].0)) ==> probed(
                recorded,
                bare,
            ).contains(bare[i]),
        forall|k: int|
            0 <= k < probed(recorded, bare).len() ==> exists|i: int|
                {
                    &&& #[trigger] first_declaration(bare, i)
                    &&& bare[i] == #[trigger] probed(recorded, bare)[k]
                    &&& !recorded.contains(encoded_key(bare[i].0))
                },
    decreases bare.len(),
{
    if bare.len() > 0 {
        let front = bare.drop_last();
        let last = bare.len() - 1;
        let probes = probed(recorded, bare);
        let before = probed(recorded, front);
        law_declared_files_are_looked_for(recorded, front);
        let names = front.map_values(|b: (Seq<char>, Seq<char>)| b.0);
        assert(declared(front).contains(bare[last].0) == !first_declaration(bare, last)) by {
            if names.contains(bare[last].0) {
                let j = choose|j: int| 0 <= j < names.len() && names[j] == bare[last].0;
                assert(bare[j].0 == bare[last].0);
            }
            if !first_declaration(bare, last) {
                let j = choose|j: int| 0 <= j < last && (#[trigger] bare[j]).0 == bare[last].0;
                assert(names[j] == bare[last].0);
            }
        }
        assert forall|i: int| 0 <= i < last implies #[trigger] first_declaration(bare, i)
            == first_declaration(front, i) by {
            if first_declaration(bare, i) {
                assert forall|j: int| 0 <= j < i implies (#[trigger] front[j]).0
                    != front[i].0 by {
                    assert(bare[j].0 != bare[i].0);
                }
            }
            if first_declaration(front, i) {
                assert forall|j: int| 0 <= j < i implies (#[trigger] bare[j]).0 != bare[i].0 by {
                    assert(front[j].0 != front[i].0);
                }
            }
        }
        assert forall|i: int| #[trigger]
            first_declaration(bare, i) && !recorded.contains(
                encoded_key(bare[i].0),
            ) implies probes.contains(bare[i]) by {
            if i < last {
                assert(first_declaration(front, i));
                assert(before.contains(front[i]));
                let k = choose|k: int| 0 <= k < before.len() && before[k] == front[i];
                assert(probes[k] == bare[i]);
            } else {
                assert(probes[before.len() as int] == bare[i]);
            }
        }
        assert forall|k: int| 0 <= k < probes.len() implies exists|i: int|
            {
                &&& #[trigger] first_declaration(bare, i)
                &&& bare[i] == #[trigger] probes[k]
                &&& !recorded.contains(encoded_key(bare[i].0))
            } by {
            if k < before.len() {
                assert(before[k] == probes[k]);
                let i = choose|i: int|
                    {
                        &&& #[trigger] first_declaration(front, i)
                        &&& front[i] == before[k]
                        &&& !recorded.contains(encoded_key(front[i].0))
                    };
                assert(first_declaration(bare, i));
            } else {
                assert(first_declaration(bare, last));
            }
        }
    }
}

/// Every file that was looked for and exists is listed under its own name, with the
/// declared type, or that of any bytes where none is declared, and with the length of
/// the file. Nothing else is listed.
pub proof fn law_found_files_are_listed(
    probes: Seq<(Seq<char>, Seq<char>)>,
    sizes: Seq<Option<usize>>,
)
    requires
        sizes.len() == probes.len(),
    ensures
        forall|i: int|
            0 <= i < probes.len() && (#[trigger] sizes[i]) is Some ==> bare_found(
                probes,
                sizes,
            ).contains(bare_entry(probes[i], sizes[i]->0)),
        forall|k: int|
            0 <= k < bare_found(probes, sizes).len() ==> stands_for_a_file(
                #[trigger] bare_found(probes, sizes)[k],
                probes,
                sizes,
            ),
{
    lemma_found_files(probes, sizes);
}

/// A file without a record as it stands in a listing.
pub open spec fn bare_entry(probe: (Seq<char>, Seq<char>), size: usize) -> CandidateView {
    CandidateView {
        sort_key: probe.0,
        encoded_key: None,
        meta: Some(
            RecordView {
                key: probe.0,
                content_type: if probe.1.len() == 0 {
                    "application/octet-stream"@
                } else {
                    probe.1
                },
                size: Some(size),
                filename: None,
            },
        ),
    }
}

/// Whether an entry of a listing stands for a file that was looked for and exists.
pub open spec fn stands_for_a_file(
    entry: CandidateView,
    probes: Seq<(Seq<char>, Seq<char>)>,
    sizes: Seq<Option<usize>>,
) -> bool {
    exists|i: int|
        {
            &&& 0 <= i < probes.len()
            &&& (#[trigger] sizes[i]) is Some
            &&& entry == bare_entry(probes[i], sizes[i]->0)
        }
}

proof fn lemma_found_files(probes: Seq<(Seq<char>, Seq<char>)>, sizes: Seq<Option<usize>>)
    requires
        sizes.len() >= probes.len(),
    ensures
        forall|i: int|
            0 <= i < probes.len() && (#[trigger] sizes[i]) is Some ==> bare_found(
                probes,
                sizes,
            ).contains(bare_entry(probes[i], sizes[i]->0)),
        forall|k: int|
            0 <= k < bare_found(probes, sizes).len() ==> stands_for_a_file(
                #[trigger] bare_found(probes, sizes)[k],
                probes,
                sizes,
            ),
    decreases probes.len(),
{
    if probes.len() > 0 {
        let front = probes.drop_last();
        let last = probes.len() - 1;
        lemma_found_files(front, sizes);
        let found = bare_found(probes, sizes);
        let before = bare_found(front, sizes);
        assert forall|i: int| 0 <= i < probes.len() && (#[trigger] sizes[i]) is Some implies
            found.contains(bare_entry(probes[i], sizes[i]->0)) by {
            if i < last {
                assert(before.contains(bare_entry(front[i], sizes[i]->0)));
                let k = choose|k: int|
                    0 <= k < before.len() && before[k] == bare_entry(front[i], sizes[i]->0);
                assert(found[k] == before[k]);
            } else {
                assert(found[before.len() as int] == bare_entry(probes[i], sizes[i]->0));
            }
        }
        assert forall|k: int| 0 <= k < found.len() implies stands_for_a_file(
            #[trigger] found[k],
            probes,
            sizes,
        ) by {
            if k < before.len() {
                assert(before[k] == found[k]);
                assert(stands_for_a_file(before[k], front, sizes));
                let i = choose|i: int|
                    {
                        &&& 0 <= i < front.len()
                        &&& (#[trigger] sizes[i]) is Some
                        &&& before[k] == bare_entry(front[i], sizes[i]->0)
                    };
                assert(probes[i] == front[i]);
                assert(sizes[i] is Some);
            } else {
                assert(sizes[last] is Some);
            }
        }
    }
}

/// A record that says how long its value is keeps that; one that does not gets the
/// length of the file. All else stays.
pub proof fn law_stated_length_wins(r: RecordView, file_size: Option<usize>)
    ensures
        with_size(r, file_size).size == match r.size {
            Some(n) => Some(n),
            None => file_size,
        },
        with_size(r, file_size).key == r.key,
        with_size(r, file_size).content_type == r.content_type,
        with_size(r, file_size).filename == r.filename,
{
}

/// A listing is made of every record of the directory, each at the place of the key
/// that its name stands for, and of every file that was found, and of nothing else.
pub proof fn law_records_and_files_make_the_listing(
    recorded: Seq<Seq<char>>,
    probes: Seq<(Seq<char>, Seq<char>)>,
    sizes: Seq<Option<usize>>,
    candidate: CandidateView,
)
    ensures
        unsorted_candidates(recorded, probes, sizes).len() == recorded.len() + bare_found(
            probes,
            sizes,
        ).len(),
        unsorted_candidates(recorded, probes, sizes).contains(candidate) <==> {
            ||| bare_found(probes, sizes).contains(candidate)
            ||| exists|i: int|
                {
                    &&& 0 <= i < recorded.len()
                    &&& candidate.encoded_key == Some(#[trigger] recorded[i])
                    &&& candidate.sort_key == decoded_key(recorded[i])
                    &&& candidate.meta is None
                }
        },
{
    let all = unsorted_candidates(recorded, probes, sizes);
    let files = bare_found(probes, sizes);
    if all.contains(candidate) {
        let k = choose|k: int| 0 <= k < all.len() && all[k] == candidate;
        if k < recorded.len() {
            assert(candidate.encoded_key == Some(recorded[k]));
        } else {
            assert(files[k - recorded.len()] == candidate);
        }
    }
    if files.contains(candidate) {
        let k = choose|k: int| 0 <= k < files.len() && files[k] == candidate;
        assert(all[recorded.len() + k] == candidate);
    }
    if exists|i: int|
        {
            &&& 0 <= i < recorded.len()
            &&& candidate.encoded_key == Some(#[trigger] recorded[i])
            &&& candidate.sort_key == decoded_key(recorded[i])
            &&& candidate.meta is None
        } {
        let i = choose|i: int|
            {
                &&& 0 <= i < recorded.len()
                &&& candidate.encoded_key == Some(#[trigger] recorded[i])
                &&& candidate.sort_key == decoded_key(recorded[i])
                &&& candidate.meta is None
            };
        assert(all[i] == candidate);
    }
}

// ---------------------------------------------------------------------------
// One by one
// ---------------------------------------------------------------------------

/// A listing takes records one by one: one more record, behind all others, is one more
/// item of the listing where it is asked for, and changes nothing otherwise.
pub proof fn law_listing_takes_records_one_by_one(
    records: Seq<RecordView>,
    r: RecordView,
    start: Option<Seq<char>>,
    prefix: Option<Seq<char>>,
)
    ensures
        listed(Seq::empty(), None, None, prefix) == Some(Seq::<RecordView>::empty()),
        listed(records, start, None, prefix) matches Some(found) ==> listed(
            records.push(r),
            start,
            None,
            prefix,
        ) == Some(
            if is_asked_for(r, start, prefix) {
                found.push(r)
            } else {
                found
            },
        ),
{
    let scope = |r: RecordView| in_scope(r, prefix);
    let behind = |r: RecordView| behind_cursor(r, start);
    let none = Seq::<RecordView>::empty();
    assert(none.filter(scope) == none && none.filter(|r: RecordView| behind_cursor(r, None))
        == none) by {
        reveal(Seq::filter);
    }
    let known = records.filter(scope);
    if prefix is Some {
        lemma_begins_with(r.key, prefix->0);
    }
    records.lemma_filter_push(r, scope);
    known.lemma_filter_push(r, behind);
    if start is Some && has_key(known, start->0) {
        let i = choose|i: int| 0 <= i < known.len() && (#[trigger] known[i]).key == start->0;
        assert(known.push(r)[i].key == start->0);
    }
}

proof fn lemma_asked_for(
    records: Seq<RecordView>,
    start: Option<Seq<char>>,
    prefix: Option<Seq<char>>,
)
    ensures
        records.filter(|r: RecordView| is_asked_for(r, start, prefix)) == scoped(
            records,
            prefix,
        ).filter(|r: RecordView| behind_cursor(r, start)),
    decreases records.len(),
{
    let scope = |r: RecordView| in_scope(r, prefix);
    let behind = |r: RecordView| behind_cursor(r, start);
    let asked = |r: RecordView| is_asked_for(r, start, prefix);
    reveal(Seq::filter);
    if records.len() > 0 {
        let front = records.drop_last();
        let r = records.last();
        lemma_asked_for(front, start, prefix);
        assert(records == front.push(r));
        front.lemma_filter_push(r, scope);
        front.filter(scope).lemma_filter_push(r, behind);
        front.lemma_filter_push(r, asked);
        if prefix is Some {
            lemma_begins_with(r.key, prefix->0);
        }
    }
}

/// Whether the cursor of a listing, where it has one, is among the keys that begin with
/// the prefix.
pub open spec fn cursor_is_known(
    records: Seq<RecordView>,
    start: Option<Seq<char>>,
    prefix: Option<Seq<char>>,
) -> bool {
    start matches Some(s) ==> exists|i: int|
        {
            &&& 0 <= i < records.len()
            &&& (#[trigger] records[i]).key == s
            &&& prefix matches Some(p) ==> begins_with(s, p)
        }
}

/// A scan takes in a record exactly where it is asked for and there are fewer than the
/// limit before it. It is over with the first record that is asked for beyond that, once
/// the cursor is known.
pub proof fn law_scan_takes_in_what_is_wanted(
    seen: Seq<RecordView>,
    r: RecordView,
    start: Option<Seq<char>>,
    limit: Option<usize>,
    prefix: Option<Seq<char>>,
)
    ensures
        ({
            let found = seen.filter(|x: RecordView| is_asked_for(x, start, prefix));
            let full = limit matches Some(n) && found.len() >= n;
            let step = scan_step(seen, r, start, limit, prefix);
            &&& step == ScanStep::Collect <==> is_asked_for(r, start, prefix) && !full
            &&& step == ScanStep::Stop <==> is_asked_for(r, start, prefix) && full
                && cursor_is_known(seen.push(r), start, prefix)
        }),
{
    lemma_asked_for(seen, start, prefix);
    law_listing_is_refused_without_its_cursor(seen.push(r), start, None, prefix);
    if prefix is Some {
        lemma_begins_with(r.key, prefix->0);
    }
}

/// The records of a directory are found file by file: a description adds its record, and
/// any other file none.
pub proof fn law_records_are_found_one_by_one(entries: Seq<Seq<char>>, name: Seq<char>)
    ensures
        recorded_of(Seq::empty()).len() == 0,
        recorded_of(entries.push(name + ".__metadata__.json"@)) == recorded_of(entries).push(name),
        (forall|stem: Seq<char>| name != #[trigger] (stem + ".__metadata__.json"@)) ==> recorded_of(
            entries.push(name),
        ) == recorded_of(entries),
{
    reveal_strlit(".");
    reveal_strlit("__metadata__.json");
    reveal_strlit(".__metadata__.json");
    let suffix = ".__metadata__.json"@;
    assert(sidecar_suffix() =~= suffix);
    let keep = |name: Seq<char>| is_sidecar(name);
    let stem = |name: Seq<char>| sidecar_stem(name);
    let none = Seq::<Seq<char>>::empty();
    assert(none.filter(keep) == none) by {
        reveal(Seq::filter);
    }
    let file = name + suffix;
    assert(file.skip(file.len() - suffix.len()) == suffix);
    assert(file.take(file.len() - suffix.len()) == name);
    entries.lemma_filter_push(file, keep);
    let kept = entries.filter(keep);
    assert(kept.push(file).map_values(stem) == kept.map_values(stem).push(name));
    entries.lemma_filter_push(name, keep);
    if is_sidecar(name) {
        assert(name == sidecar_stem(name) + suffix);
    }
}

/// A listing looks for declared files one by one, in their order: one whose name was
/// declared before, or which a record has taken, adds nothing, and any other itself.
pub proof fn law_declared_files_are_looked_for_one_by_one(
    recorded: Set<Seq<char>>,
    bare: Seq<(Seq<char>, Seq<char>)>,
    file: (Seq<char>, Seq<char>),
)
    ensures
        probed(recorded, Seq::empty()).len() == 0,
        probed(recorded, bare.push(file)) == if recorded.contains(encoded_key(file.0)) || (
        exists|j: int| 0 <= j < bare.len() && (#[trigger] bare[j]).0 == file.0) {
            probed(recorded, bare)
        } else {
            probed(recorded, bare).push(file)
        },
{
    assert(bare.push(file).drop_last() == bare);
    let names = bare.map_values(|b: (Seq<char>, Seq<char>)| b.0);
    if names.contains(file.0) {
        let j = choose|j: int| 0 <= j < names.len() && names[j] == file.0;
        assert(bare[j].0 == file.0);
    }
    if exists|j: int| 0 <= j < bare.len() && (#[trigger] bare[j]).0 == file.0 {
        let j = choose|j: int| 0 <= j < bare.len() && (#[trigger] bare[j]).0 == file.0;
        assert(names[j] == file.0);
    }
}

proof fn lemma_found_by_the_front(
    probes: Seq<(Seq<char>, Seq<char>)>,
    a: Seq<Option<usize>>,
    b: Seq<Option<usize>>,
)
    requires
        forall|i: int| 0 <= i < probes.len() ==> #[trigger] a[i] == b[i],
    ensures
        bare_found(probes, a) == bare_found(probes, b),
    decreases probes.len(),
{
    if probes.len() > 0 {
        lemma_found_by_the_front(probes.drop_last(), a, b);
        assert(a[probes.len() - 1] == b[probes.len() - 1]);
    }
}

/// The files that were looked for are listed one by one, in their order: one that exists
/// adds its entry, and one that does not adds nothing.
pub proof fn law_found_files_are_listed_one_by_one(
    probes: Seq<(Seq<char>, Seq<char>)>,
    sizes: Seq<Option<usize>>,
    file: (Seq<char>, Seq<char>),
    size: Option<usize>,
)
    requires
        sizes.len() == probes.len(),
    ensures
        bare_found(Seq::empty(), sizes).len() == 0,
        bare_found(probes.push(file), sizes.push(size)) == match size {
            Some(n) => bare_found(probes, sizes).push(bare_entry(file, n)),
            None => bare_found(probes, sizes),
        },
{
    assert(probes.push(file).drop_last() == probes);
    lemma_found_by_the_front(probes, sizes.push(size), sizes);
}

/// Before it is sorted, a listing has the records in the order of their files, and then
/// the files without one in the order in which they were found.
pub proof fn law_records_come_before_files(
    recorded: Seq<Seq<char>>,
    probes: Seq<(Seq<char>, Seq<char>)>,
    sizes: Seq<Option<usize>>,
    i: int,
)
    ensures
        ({
            let all = unsorted_candidates(recorded, probes, sizes);
            let files = bare_found(probes, sizes);
            &&& 0 <= i < recorded.len() ==> all[i] == (CandidateView {
                sort_key: decoded_key(recorded[i]),
                encoded_key: Some(recorded[i]),
                meta: None,
            })
            &&& 0 <= i < files.len() ==> all[recorded.len() + i] == files[i]
        }),
{
}

} // verus!
