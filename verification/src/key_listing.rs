//! Listing the keys of a key-value store: which records take part, in which
//! order, and which of them make up a page.

use vstd::prelude::*;
use vstd::hash_set::StringHashSet;

use crate::error::StorageError;
use crate::models::{
    record_views, KeyValueStoreRecordMetadata, KvsKeysPage, KvsListKeysResult, ListBareFallback,
    RecordView,
};
use crate::order::{arrange, arranged, sorts, stable_order, str_lt, text_lt};
use crate::text::{
    chars_of, concat2, ends_with, has_prefix, has_suffix, opt_text, starts_with, str_eq, string_of,
    texts,
};
use crate::utils::{decode_key, decoded_key, encode_key, encoded_key, METADATA_FILENAME};

verus! {

/// The type that is reported for a value whose type nobody declared.
pub const OCTET_STREAM: &'static str = "application/octet-stream";

// ---------------------------------------------------------------------------
// Which files take part in a listing, and in which order
// ---------------------------------------------------------------------------

/// What the name of a record's description ends with.
pub open spec fn sidecar_suffix() -> Seq<char> {
    "."@ + METADATA_FILENAME@
}

/// Whether a file describes a record.
pub open spec fn is_sidecar(name: Seq<char>) -> bool {
    has_suffix(name, sidecar_suffix()) && name != METADATA_FILENAME@
}

/// The encoded key of the record that a file describes.
pub open spec fn sidecar_stem(name: Seq<char>) -> Seq<char> {
    name.take(name.len() - sidecar_suffix().len())
}

/// The encoded keys of the records that the files of a directory describe.
pub open spec fn recorded_of(entries: Seq<Seq<char>>) -> Seq<Seq<char>> {
    entries.filter(|name: Seq<char>| is_sidecar(name)).map_values(
        |name: Seq<char>| sidecar_stem(name),
    )
}

/// The encoded keys of the records that the files of a directory describe.
pub fn recorded_keys(entries: &[String]) -> (r: Vec<String>)
    ensures
        texts(r@) == recorded_of(texts(entries@)),
{
    let ghost all = texts(entries@);
    let ghost keep = |name: Seq<char>| is_sidecar(name);
    let suffix = concat2(".", METADATA_FILENAME);
    let suffix_len = chars_of(suffix.as_str()).len();
    let mut out: Vec<String> = Vec::new();
    proof {
        reveal(Seq::filter);
        assert(texts(out@) == recorded_of(all.take(0)));
    }
    for i in 0..entries.len()
        invariant
            all == texts(entries@),
            keep == (|name: Seq<char>| is_sidecar(name)),
            suffix@ == sidecar_suffix(),
            suffix_len == suffix@.len(),
            texts(out@) == recorded_of(all.take(i as int)),
    {
        let name = entries[i].as_str();
        let ghost before = out@;
        proof {
            assert(all.take(i + 1) == all.take(i as int).push(name@));
            all.take(i as int).lemma_filter_push(name@, keep);
        }
        if ends_with(name, suffix.as_str()) && !str_eq(name, METADATA_FILENAME) {
            let mut chars = chars_of(name);
            let stem_len: usize = chars.len() - suffix_len;
            chars.truncate(stem_len);
            out.push(string_of(chars.as_slice()));
            assert(texts(out@) == texts(before).push(sidecar_stem(name@)));
            assert(all.take(i as int).filter(keep).push(name@).map_values(
                |name: Seq<char>| sidecar_stem(name),
            ) == recorded_of(all.take(i as int)).push(sidecar_stem(name@)));
        }
    }
    assert(all.take(all.len() as int) == all);
    out
}

/// A file without a record that a listing should look for.
pub struct BareProbe {
    /// The key under which the file is listed.
    pub name: String,
    /// The type that is reported for it; empty where the caller left it open.
    pub content_type: String,
    /// The name of the file.
    pub filename: String,
}

/// The name and the declared type of a file without a record.
pub open spec fn fallback_view(f: ListBareFallback) -> (Seq<char>, Seq<char>) {
    (f.name@, f.content_type@)
}

/// The names and declared types of files without a record.
pub open spec fn fallback_views(v: Seq<ListBareFallback>) -> Seq<(Seq<char>, Seq<char>)> {
    v.map_values(|f: ListBareFallback| fallback_view(f))
}

/// The names and declared types of the files that a listing looks for: the
/// first declaration of each name that no record has taken.
pub open spec fn probed(
    recorded: Set<Seq<char>>,
    bare: Seq<(Seq<char>, Seq<char>)>,
) -> Seq<(Seq<char>, Seq<char>)>
    decreases bare.len(),
{
    if bare.len() == 0 {
        Seq::empty()
    } else {
        let front = bare.drop_last();
        let name = bare.last().0;
        if declared(front).contains(name) || recorded.contains(encoded_key(name)) {
            probed(recorded, front)
        } else {
            probed(recorded, front).push(bare.last())
        }
    }
}

/// The names that are declared.
pub open spec fn declared(bare: Seq<(Seq<char>, Seq<char>)>) -> Set<Seq<char>> {
    bare.map_values(|b: (Seq<char>, Seq<char>)| b.0).to_set()
}

/// What a probe looks for.
pub open spec fn probe_views(v: Seq<BareProbe>) -> Seq<(Seq<char>, Seq<char>)> {
    v.map_values(|p: BareProbe| (p.name@, p.content_type@))
}

proof fn lemma_declared_push(bare: Seq<(Seq<char>, Seq<char>)>, b: (Seq<char>, Seq<char>))
    ensures
        declared(bare.push(b)) == declared(bare).insert(b.0),
{
    let names = bare.map_values(|b: (Seq<char>, Seq<char>)| b.0);
    assert(bare.push(b).map_values(|b: (Seq<char>, Seq<char>)| b.0) == names.push(b.0));
    names.lemma_push_to_set_commute(b.0);
}

/// The files without a record that a listing has to look for.
pub fn bare_probes(recorded: &[String], bare_fallbacks: &[ListBareFallback]) -> (r: Vec<BareProbe>)
    ensures
        probe_views(r@) == probed(texts(recorded@).to_set(), fallback_views(bare_fallbacks@)),
        forall|i: int|
            0 <= i < r@.len() ==> (#[trigger] r@[i]).filename@ == encoded_key(r@[i].name@),
{
    let mut taken = StringHashSet::new();
    for i in 0..recorded.len()
        invariant
            taken@ == texts(recorded@).take(i as int).to_set(),
    {
        let _ = taken.insert(recorded[i].clone());
        proof {
            let t = texts(recorded@);
            assert(t.take(i + 1) == t.take(i as int).push(t[i as int]));
            t.take(i as int).lemma_push_to_set_commute(t[i as int]);
        }
    }
    assert(texts(recorded@).take(recorded@.len() as int) == texts(recorded@));
    let ghost recorded_set = texts(recorded@).to_set();
    let ghost all = fallback_views(bare_fallbacks@);
    let mut seen = StringHashSet::new();
    let mut out: Vec<BareProbe> = Vec::new();
    assert(seen@ == declared(all.take(0)));
    for i in 0..bare_fallbacks.len()
        invariant
            all == fallback_views(bare_fallbacks@),
            taken@ == recorded_set,
            seen@ == declared(all.take(i as int)),
            probe_views(out@) == probed(recorded_set, all.take(i as int)),
            forall|j: int|
                0 <= j < out@.len() ==> (#[trigger] out@[j]).filename@ == encoded_key(
                    out@[j].name@,
                ),
    {
        let fallback = &bare_fallbacks[i];
        let ghost before = out@;
        proof {
            assert(all.take(i + 1) == all.take(i as int).push(all[i as int]));
            assert(all.take(i + 1).drop_last() == all.take(i as int));
            lemma_declared_push(all.take(i as int), all[i as int]);
        }
        if seen.insert(fallback.name.clone()) {
            let filename = encode_key(fallback.name.as_str());
            if !taken.contains(filename.as_str()) {
                let probe = BareProbe {
                    name: fallback.name.clone(),
                    content_type: fallback.content_type.clone(),
                    filename,
                };
                let ghost view = (probe.name@, probe.content_type@);
                out.push(probe);
                assert(probe_views(out@) == probe_views(before).push(view));
            }
        }
    }
    assert(all.take(all.len() as int) == all);
    out
}

/// A record or a file without one, at its place in a listing.
pub struct Candidate {
    /// What the listing is sorted by.
    pub sort_key: String,
    /// The encoded key of a record, whose description is still to be read.
    pub encoded_key: Option<String>,
    /// The description of a file without a record.
    pub meta: Option<KeyValueStoreRecordMetadata>,
}

/// A record or a file without one, as plain text and numbers.
#[verifier::ext_equal]
pub ghost struct CandidateView {
    pub sort_key: Seq<char>,
    pub encoded_key: Option<Seq<char>>,
    pub meta: Option<RecordView>,
}

impl View for Candidate {
    type V = CandidateView;

    open spec fn view(&self) -> CandidateView {
        CandidateView {
            sort_key: self.sort_key@,
            encoded_key: opt_text(self.encoded_key),
            meta: match self.meta {
                Some(m) => Some(m@),
                None => None,
            },
        }
    }
}

/// The contents of a sequence of candidates.
pub open spec fn candidate_views(v: Seq<Candidate>) -> Seq<CandidateView> {
    v.map_values(|c: Candidate| c@)
}

/// The place of a record in a listing: that of its key.
pub open spec fn recorded_candidate(encoded: Seq<char>) -> CandidateView {
    CandidateView { sort_key: decoded_key(encoded), encoded_key: Some(encoded), meta: None }
}

/// The type that is reported for a file: the declared one, or none in
/// particular.
pub open spec fn declared_type(content_type: Seq<char>) -> Seq<char> {
    if content_type.len() == 0 {
        OCTET_STREAM@
    } else {
        content_type
    }
}

/// A file without a record in a listing.
pub open spec fn bare_candidate(probe: (Seq<char>, Seq<char>), size: usize) -> CandidateView {
    CandidateView {
        sort_key: probe.0,
        encoded_key: None,
        meta: Some(
            RecordView {
                key: probe.0,
                content_type: declared_type(probe.1),
                size: Some(size),
                filename: None,
            },
        ),
    }
}

/// The files that were found, of those that were looked for.
pub open spec fn bare_found(
    probes: Seq<(Seq<char>, Seq<char>)>,
    sizes: Seq<Option<usize>>,
) -> Seq<CandidateView>
    decreases probes.len(),
{
    if probes.len() == 0 {
        Seq::empty()
    } else {
        let front = bare_found(probes.drop_last(), sizes);
        match sizes[probes.len() - 1] {
            Some(size) => front.push(bare_candidate(probes.last(), size)),
            None => front,
        }
    }
}

/// All candidates of a listing, before they are sorted.
pub open spec fn unsorted_candidates(
    recorded: Seq<Seq<char>>,
    probes: Seq<(Seq<char>, Seq<char>)>,
    sizes: Seq<Option<usize>>,
) -> Seq<CandidateView> {
    recorded.map_values(|e: Seq<char>| recorded_candidate(e)) + bare_found(probes, sizes)
}

/// Whether `order` sorts the candidates by their keys, equal ones staying in
/// their order.
pub open spec fn sorts_candidates(items: Seq<CandidateView>, order: Seq<usize>) -> bool {
    exists|keys: Seq<String>|
        texts(keys) == items.map_values(|c: CandidateView| c.sort_key) && #[trigger] sorts(
            keys,
            order,
        )
}

/// Whether `sorted` holds the candidates in the order of a listing: by key,
/// equal ones in the order they had.
pub open spec fn in_listing_order(items: Seq<CandidateView>, sorted: Seq<CandidateView>) -> bool {
    exists|order: Seq<usize>|
        sorts_candidates(items, order) && sorted == #[trigger] arranged(items, order)
}

/// Brings the records and the files that were found into the order of a
/// listing. `sizes` holds, for each probe, the length of the file where it
/// exists.
pub fn sorted_candidates(
    recorded: Vec<String>,
    probes: Vec<BareProbe>,
    sizes: &[Option<usize>],
) -> (r: Vec<Candidate>)
    requires
        sizes@.len() == probes@.len(),
    ensures
        in_listing_order(
            unsorted_candidates(texts(recorded@), probe_views(probes@), sizes@),
            candidate_views(r@),
        ),
{
    let mut out: Vec<Candidate> = Vec::new();
    let mut keys: Vec<String> = Vec::new();
    let ghost first = texts(recorded@).map_values(|e: Seq<char>| recorded_candidate(e));
    for i in 0..recorded.len()
        invariant
            first == texts(recorded@).map_values(|e: Seq<char>| recorded_candidate(e)),
            candidate_views(out@) == first.take(i as int),
            texts(keys@) == candidate_views(out@).map_values(|c: CandidateView| c.sort_key),
    {
        let ghost before = out@;
        let ghost keys_before = keys@;
        let sort_key = decode_key(recorded[i].as_str());
        keys.push(sort_key.clone());
        let candidate = Candidate {
            sort_key,
            encoded_key: Some(recorded[i].clone()),
            meta: None,
        };
        let ghost view = candidate@;
        out.push(candidate);
        assert(candidate_views(out@) == candidate_views(before).push(view));
        assert(first.take(i + 1) == first.take(i as int).push(first[i as int]));
        assert(texts(keys@) == texts(keys_before).push(view.sort_key));
        assert(candidate_views(out@).map_values(|c: CandidateView| c.sort_key)
            == candidate_views(before).map_values(|c: CandidateView| c.sort_key).push(
            view.sort_key,
        ));
    }
    let ghost views = probe_views(probes@);
    assert(first.take(first.len() as int) == first);
    assert(candidate_views(out@) == first + bare_found(views.take(0), sizes@));
    for i in 0..probes.len()
        invariant
            views == probe_views(probes@),
            sizes@.len() == probes@.len(),
            candidate_views(out@) == first + bare_found(views.take(i as int), sizes@),
            texts(keys@) == candidate_views(out@).map_values(|c: CandidateView| c.sort_key),
    {
        let probe = &probes[i];
        assert(views.take(i + 1).drop_last() == views.take(i as int));
        assert(views.take(i + 1).last() == views[i as int]);
        if let Some(size) = sizes[i] {
            let ghost before = out@;
            let ghost keys_before = keys@;
            keys.push(probe.name.clone());
            let content_type = if probe.content_type.as_str().is_empty() {
                OCTET_STREAM.to_string()
            } else {
                probe.content_type.clone()
            };
            let candidate = Candidate {
                sort_key: probe.name.clone(),
                encoded_key: None,
                meta: Some(
                    KeyValueStoreRecordMetadata {
                        key: probe.name.clone(),
                        content_type,
                        size: Some(size),
                        filename: None,
                    },
                ),
            };
            let ghost view = candidate@;
            out.push(candidate);
            assert(view == bare_candidate(views[i as int], size));
            assert(candidate_views(out@) == candidate_views(before).push(view));
            assert(first + bare_found(views.take(i as int), sizes@).push(view) == (first
                + bare_found(views.take(i as int), sizes@)).push(view));
            assert(texts(keys@) == texts(keys_before).push(view.sort_key));
            assert(candidate_views(out@).map_values(|c: CandidateView| c.sort_key)
                == candidate_views(before).map_values(|c: CandidateView| c.sort_key).push(
                view.sort_key,
            ));
        }
    }
    assert(views.take(views.len() as int) == views);
    let ghost items = unsorted_candidates(texts(recorded@), views, sizes@);
    assert(candidate_views(out@) == items);
    let order = stable_order(keys.as_slice());
    proof {
        assert(texts(keys@).len() == keys@.len());
        assert(out@.len() == keys@.len());
        crate::order::lemma_order_distinct(keys@, order@);
        assert(sorts_candidates(items, order@));
    }
    let ghost placed = out@;
    let sorted = arrange(out, order.as_slice());
    assert(candidate_views(sorted@) == arranged(items, order@)) by {
        assert forall|i: int| 0 <= i < order@.len() implies candidate_views(sorted@)[i]
            == arranged(items, order@)[i] by {
            assert(sorted@[i] == placed[order@[i] as int]);
            assert(items[order@[i] as int] == placed[order@[i] as int]@);
        }
    }
    sorted
}

/// A listing holds every candidate, and none that was not one; keys never
/// descend, and ascend strictly where no two candidates share one.
pub proof fn law_listing_is_sorted_and_complete(
    items: Seq<CandidateView>,
    sorted: Seq<CandidateView>,
)
    requires
        in_listing_order(items, sorted),
        items.len() <= usize::MAX,
    ensures
        sorted.len() == items.len(),
        forall|k: int| 0 <= k < items.len() ==> sorted.contains(#[trigger] items[k]),
        forall|i: int| 0 <= i < sorted.len() ==> items.contains(#[trigger] sorted[i]),
        forall|i: int, j: int|
            0 <= i < j < sorted.len() ==> !text_lt(
                (#[trigger] sorted[j]).sort_key,
                (#[trigger] sorted[i]).sort_key,
            ),
        (forall|a: int, b: int|
            0 <= a < b < items.len() ==> (#[trigger] items[a]).sort_key
                != (#[trigger] items[b]).sort_key) ==> forall|i: int, j: int|
            0 <= i < j < sorted.len() ==> text_lt(
                (#[trigger] sorted[i]).sort_key,
                (#[trigger] sorted[j]).sort_key,
            ),
{
    let order = choose|order: Seq<usize>|
        sorts_candidates(items, order) && sorted == #[trigger] arranged(items, order);
    let keys = choose|keys: Seq<String>|
        texts(keys) == items.map_values(|c: CandidateView| c.sort_key) && #[trigger] sorts(
            keys,
            order,
        );
    let names = items.map_values(|c: CandidateView| c.sort_key);
    assert(texts(keys).len() == keys.len());
    assert forall|k: int| 0 <= k < items.len() implies keys[k]@ == #[trigger] items[k].sort_key by {
        assert(texts(keys)[k] == names[k]);
    }
    assert forall|k: int| 0 <= k < items.len() implies sorted.contains(#[trigger] items[k]) by {
        assert(order.contains(k as usize));
        let i = choose|i: int| 0 <= i < order.len() && order[i] == k as usize;
        assert(sorted[i] == items[k]);
    }
    assert forall|i: int| 0 <= i < sorted.len() implies items.contains(#[trigger] sorted[i]) by {
        assert(order[i] < keys.len());
        assert(sorted[i] == items[order[i] as int]);
    }
    crate::order::lemma_order_distinct(keys, order);
    assert forall|i: int, j: int| 0 <= i < j < sorted.len() implies !text_lt(
        (#[trigger] sorted[j]).sort_key,
        (#[trigger] sorted[i]).sort_key,
    ) && (sorted[i].sort_key != sorted[j].sort_key ==> text_lt(
        sorted[i].sort_key,
        sorted[j].sort_key,
    )) && order[i] != order[j] && sorted[i] == items[order[i] as int] && sorted[j]
        == items[order[j] as int] by {
        let p = order[i] as int;
        let q = order[j] as int;
        assert(p < keys.len() && q < keys.len());
        assert(crate::order::goes_before(keys, p, q));
        assert(sorted[i].sort_key == keys[p]@ && sorted[j].sort_key == keys[q]@);
        crate::order::lemma_text_lt_total(keys[p]@, keys[q]@);
        crate::order::lemma_text_lt_irreflexive(keys[p]@);
        if text_lt(keys[p]@, keys[q]@) && text_lt(keys[q]@, keys[p]@) {
            crate::order::lemma_text_lt_transitive(keys[p]@, keys[q]@, keys[p]@);
        }
    }
    if forall|a: int, b: int|
        0 <= a < b < items.len() ==> (#[trigger] items[a]).sort_key != (#[trigger] items[b]).sort_key {
        assert forall|i: int, j: int| 0 <= i < j < sorted.len() implies text_lt(
            (#[trigger] sorted[i]).sort_key,
            (#[trigger] sorted[j]).sort_key,
        ) by {
            let p = order[i] as int;
            let q = order[j] as int;
            assert(sorted[i] == items[p] && sorted[j] == items[q]);
            if p < q {
                assert(items[p].sort_key != items[q].sort_key);
            } else {
                assert(items[q].sort_key != items[p].sort_key);
            }
        }
    }
}

// ---------------------------------------------------------------------------
// Which keys of the listing make up the answer
// ---------------------------------------------------------------------------

/// Whether a record is in the scope of a listing.
pub open spec fn in_scope(r: RecordView, prefix: Option<Seq<char>>) -> bool {
    prefix matches Some(p) ==> has_prefix(r.key, p)
}

/// Whether a record lies behind the cursor of a listing.
pub open spec fn behind_cursor(r: RecordView, start: Option<Seq<char>>) -> bool {
    start matches Some(s) ==> text_lt(s, r.key)
}

/// The records in the scope of a listing.
pub open spec fn scoped(records: Seq<RecordView>, prefix: Option<Seq<char>>) -> Seq<RecordView> {
    records.filter(|r: RecordView| in_scope(r, prefix))
}

/// Whether one of the records has the given key.
pub open spec fn has_key(records: Seq<RecordView>, key: Seq<char>) -> bool {
    exists|i: int| 0 <= i < records.len() && (#[trigger] records[i]).key == key
}

/// The first `limit` items.
pub open spec fn capped<T>(items: Seq<T>, limit: Option<usize>) -> Seq<T> {
    match limit {
        Some(n) => if items.len() > n {
            items.take(n as int)
        } else {
            items
        },
        None => items,
    }
}

/// The answer to a listing: the first `limit` records in scope that lie behind
/// the cursor. A cursor that is not one of the keys in scope has no answer.
pub open spec fn listed(
    records: Seq<RecordView>,
    start: Option<Seq<char>>,
    limit: Option<usize>,
    prefix: Option<Seq<char>>,
) -> Option<Seq<RecordView>> {
    let known = scoped(records, prefix);
    if start is Some && !has_key(known, start->0) {
        None
    } else {
        Some(capped(known.filter(|r: RecordView| behind_cursor(r, start)), limit))
    }
}

/// What a scan does with a record.
#[derive(Debug, Clone, Copy, PartialEq, Eq, Structural)]
pub enum ScanStep {
    /// The record is not part of the answer.
    Skip,
    /// The record is part of the answer.
    Collect,
    /// The answer is complete, whatever comes after.
    Stop,
}

/// A listing in progress. Records are offered in the order of the listing; the
/// scan says when it is over, so that later ones need not be read.
pub struct KeyScan {
    start: Option<String>,
    limit: Option<usize>,
    prefix: Option<String>,
    results: Vec<KeyValueStoreRecordMetadata>,
    cursor_seen: bool,
    seen: Ghost<Seq<RecordView>>,
}

/// What a scan does with `r` after it has seen `seen`.
pub open spec fn scan_step(
    seen: Seq<RecordView>,
    r: RecordView,
    start: Option<Seq<char>>,
    limit: Option<usize>,
    prefix: Option<Seq<char>>,
) -> ScanStep {
    let known = scoped(seen.push(r), prefix);
    let found = scoped(seen, prefix).filter(|r: RecordView| behind_cursor(r, start));
    if !in_scope(r, prefix) || !behind_cursor(r, start) {
        ScanStep::Skip
    } else if limit is Some && found.len() >= limit->0 {
        if start is Some && !has_key(known, start->0) {
            ScanStep::Skip
        } else {
            ScanStep::Stop
        }
    } else {
        ScanStep::Collect
    }
}

impl KeyScan {
    /// The records that the scan has seen.
    pub closed spec fn seen(&self) -> Seq<RecordView> {
        self.seen@
    }

    /// The cursor behind which the answer lies.
    pub closed spec fn start(&self) -> Option<Seq<char>> {
        opt_text(self.start)
    }

    /// How many records are wanted.
    pub closed spec fn limit(&self) -> Option<usize> {
        self.limit
    }

    /// What the keys in scope start with.
    pub closed spec fn prefix(&self) -> Option<Seq<char>> {
        opt_text(self.prefix)
    }

    /// Whether the scan has kept what it has seen.
    pub closed spec fn wf(&self) -> bool {
        let known = scoped(self.seen(), self.prefix());
        &&& record_views(self.results@) == capped(
            known.filter(|r: RecordView| behind_cursor(r, self.start())),
            self.limit(),
        )
        &&& self.cursor_seen == (self.start() is Some && has_key(known, self.start()->0))
    }

    /// A scan that has seen nothing yet.
    pub fn new(start: Option<String>, limit: Option<usize>, prefix: Option<String>) -> (r: Self)
        ensures
            r.wf(),
            r.seen() == Seq::<RecordView>::empty(),
            r.start() == opt_text(start),
            r.limit() == limit,
            r.prefix() == opt_text(prefix),
    {
        let scan = KeyScan {
            start,
            limit,
            prefix,
            results: Vec::new(),
            cursor_seen: false,
            seen: Ghost(Seq::empty()),
        };
        proof {
            reveal(Seq::filter);
            let known = scoped(scan.seen(), scan.prefix());
            assert(known == Seq::<RecordView>::empty());
            let found = known.filter(|r: RecordView| behind_cursor(r, scan.start()));
            assert(found == Seq::<RecordView>::empty());
            assert(record_views(scan.results@) == found);
        }
        scan
    }

    /// Decides what to do with the next record. One that is to be collected is
    /// handed over with [`collect`](Self::collect) before the next is offered.
    pub fn offer(&mut self, record: &KeyValueStoreRecordMetadata) -> (r: ScanStep)
        requires
            old(self).wf(),
        ensures
            final(self).wf(),
            final(self).start() == old(self).start(),
            final(self).limit() == old(self).limit(),
            final(self).prefix() == old(self).prefix(),
            r == scan_step(
                old(self).seen(),
                record@,
                old(self).start(),
                old(self).limit(),
                old(self).prefix(),
            ),
            final(self).seen() == if r == ScanStep::Skip {
                old(self).seen().push(record@)
            } else {
                old(self).seen()
            },
    {
        let ghost seen = self.seen@;
        let ghost known = scoped(seen, self.prefix());
        let ghost start = self.start();
        let ghost prefix = self.prefix();
        let ghost found = known.filter(|r: RecordView| behind_cursor(r, start));
        proof {
            lemma_scoped_push(seen, record@, prefix);
            lemma_behind_push(known, record@, start);
            lemma_has_key_push(known, record@);
            assert(record_views(self.results@).len() == self.results@.len());
        }
        if let Some(p) = &self.prefix {
            if !starts_with(record.key.as_str(), p.as_str()) {
                self.seen = Ghost(self.seen@.push(record@));
                return ScanStep::Skip;
            }
        }
        let mut seen_now = self.cursor_seen;
        if let Some(s) = &self.start {
            if str_eq(record.key.as_str(), s.as_str()) {
                seen_now = true;
            }
            if !str_lt(s.as_str(), record.key.as_str()) {
                self.cursor_seen = seen_now;
                self.seen = Ghost(self.seen@.push(record@));
                return ScanStep::Skip;
            }
        }
        if let Some(n) = self.limit {
            if self.results.len() >= n {
                if self.start.is_some() && !seen_now {
                    self.seen = Ghost(self.seen@.push(record@));
                    assert(capped(found.push(record@), Some(n)) == capped(found, Some(n)));
                    return ScanStep::Skip;
                }
                return ScanStep::Stop;
            }
        }
        ScanStep::Collect
    }

    /// Takes in a record that is part of the answer. A record that does not say
    /// how long its value is gets the length of the file, where that is known.
    pub fn collect(&mut self, record: KeyValueStoreRecordMetadata, file_size: Option<usize>)
        requires
            old(self).wf(),
            scan_step(
                old(self).seen(),
                record@,
                old(self).start(),
                old(self).limit(),
                old(self).prefix(),
            ) == ScanStep::Collect,
        ensures
            final(self).wf(),
            final(self).start() == old(self).start(),
            final(self).limit() == old(self).limit(),
            final(self).prefix() == old(self).prefix(),
            final(self).seen() == old(self).seen().push(with_size(record@, file_size)),
    {
        let ghost known = scoped(self.seen@, self.prefix());
        let ghost start = self.start();
        let ghost found = known.filter(|r: RecordView| behind_cursor(r, start));
        let filled = fill_size(record, file_size);
        proof {
            lemma_scoped_push(self.seen@, filled@, self.prefix());
            lemma_behind_push(known, filled@, start);
            lemma_has_key_push(known, filled@);
            if start is Some {
                crate::order::lemma_text_lt_irreflexive(start->0);
            }
        }
        self.seen = Ghost(self.seen@.push(filled@));
        let ghost before = self.results@;
        self.results.push(filled);
        assert(record_views(self.results@) == record_views(before).push(filled@));
    }

    /// The answer, from what the scan has seen.
    pub fn finish(self) -> (r: Result<Vec<KeyValueStoreRecordMetadata>, StorageError>)
        requires
            self.wf(),
        ensures
            match r {
                Ok(items) => listed(self.seen(), self.start(), self.limit(), self.prefix()) == Some(
                    record_views(items@),
                ),
                Err(e) => {
                    &&& listed(self.seen(), self.start(), self.limit(), self.prefix()) is None
                    &&& e matches StorageError::ExclusiveStartKeyNotFound(k)
                    &&& Some(k@) == self.start()
                },
            },
    {
        if let Some(s) = self.start {
            if !self.cursor_seen {
                return Err(StorageError::ExclusiveStartKeyNotFound(s));
            }
        }
        Ok(self.results)
    }
}

/// A record with its size, taken from the file where it does not say.
pub open spec fn with_size(r: RecordView, file_size: Option<usize>) -> RecordView {
    if r.size is None {
        RecordView { size: file_size, ..r }
    } else {
        r
    }
}

/// A record with its size, taken from the file where it does not say.
pub fn fill_size(record: KeyValueStoreRecordMetadata, file_size: Option<usize>) -> (r:
    KeyValueStoreRecordMetadata)
    ensures
        r@ == with_size(record@, file_size),
{
    let mut out = record;
    if out.size.is_none() {
        out.size = file_size;
    }
    out
}

proof fn lemma_scoped_push(records: Seq<RecordView>, r: RecordView, prefix: Option<Seq<char>>)
    ensures
        scoped(records.push(r), prefix) == if in_scope(r, prefix) {
            scoped(records, prefix).push(r)
        } else {
            scoped(records, prefix)
        },
{
    records.lemma_filter_push(r, |r: RecordView| in_scope(r, prefix));
}

proof fn lemma_behind_push(records: Seq<RecordView>, r: RecordView, start: Option<Seq<char>>)
    ensures
        records.push(r).filter(|r: RecordView| behind_cursor(r, start)) == if behind_cursor(
            r,
            start,
        ) {
            records.filter(|r: RecordView| behind_cursor(r, start)).push(r)
        } else {
            records.filter(|r: RecordView| behind_cursor(r, start))
        },
{
    records.lemma_filter_push(r, |r: RecordView| behind_cursor(r, start));
}

proof fn lemma_has_key_push(records: Seq<RecordView>, r: RecordView)
    ensures
        forall|k: Seq<char>|
            has_key(records.push(r), k) == (has_key(records, k) || r.key == k),
{
    assert forall|k: Seq<char>| has_key(records.push(r), k) == (has_key(records, k) || r.key
        == k) by {
        if has_key(records, k) {
            let i = choose|i: int| 0 <= i < records.len() && (#[trigger] records[i]).key == k;
            assert(records.push(r)[i].key == k);
        }
        if r.key == k {
            assert(records.push(r)[records.len() as int].key == k);
        }
        if has_key(records.push(r), k) {
            let i = choose|i: int|
                0 <= i < records.push(r).len() && (#[trigger] records.push(r)[i]).key == k;
            if i < records.len() {
                assert(records[i].key == k);
            }
        }
    }
}

/// Once a scan says that the answer is complete, no later record changes it.
pub proof fn law_scan_may_stop(
    seen: Seq<RecordView>,
    r: RecordView,
    later: Seq<RecordView>,
    start: Option<Seq<char>>,
    limit: Option<usize>,
    prefix: Option<Seq<char>>,
)
    requires
        scan_step(seen, r, start, limit, prefix) == ScanStep::Stop,
    ensures
        listed(seen.push(r) + later, start, limit, prefix) == listed(seen, start, limit, prefix),
{
    let known = scoped(seen, prefix);
    let scope = |r: RecordView| in_scope(r, prefix);
    let behind = |r: RecordView| behind_cursor(r, start);
    let tail = seq![r] + later;
    let all = seen.push(r) + later;
    assert(all == seen + tail);
    Seq::filter_distributes_over_add(seen, tail, scope);
    Seq::filter_distributes_over_add(known, tail.filter(scope), behind);
    let found = known.filter(behind);
    let more = tail.filter(scope).filter(behind);
    assert(capped(found + more, limit) == capped(found, limit));
    lemma_scoped_push(seen, r, prefix);
    lemma_has_key_push(known, r);
    if start is Some {
        crate::order::lemma_text_lt_irreflexive(start->0);
        assert(has_key(known, start->0));
        let i = choose|i: int| 0 <= i < known.len() && (#[trigger] known[i]).key == start->0;
        assert((known + tail.filter(scope))[i].key == start->0);
        assert(has_key(scoped(all, prefix), start->0));
    }
}

/// The text of an optional argument.
pub open spec fn opt_str(o: Option<&str>) -> Option<Seq<char>> {
    match o {
        Some(s) => Some(s@),
        None => None,
    }
}

/// A string of its own for an optional argument.
pub fn owned(o: Option<&str>) -> (r: Option<String>)
    ensures
        opt_text(r) == opt_str(o),
{
    match o {
        Some(s) => Some(s.to_string()),
        None => None,
    }
}

/// Whether `r` is the given answer, or the error that a missing cursor gives.
pub open spec fn answers(
    r: Result<Vec<KeyValueStoreRecordMetadata>, StorageError>,
    answer: Option<Seq<RecordView>>,
    start: Option<Seq<char>>,
) -> bool {
    match (r, answer) {
        (Ok(items), Some(views)) => record_views(items@) == views,
        (Err(e), None) => e matches StorageError::ExclusiveStartKeyNotFound(k) && Some(k@) == start,
        _ => false,
    }
}

/// Lists the records behind the cursor, at most `limit` of them, whose keys
/// start with `prefix`. The records come in the order of the listing.
pub fn list_keys_raw(
    records: &[KeyValueStoreRecordMetadata],
    exclusive_start_key: Option<&str>,
    limit: Option<usize>,
    prefix: Option<&str>,
) -> (r: Result<Vec<KeyValueStoreRecordMetadata>, StorageError>)
    ensures
        answers(
            r,
            listed(record_views(records@), opt_str(exclusive_start_key), limit, opt_str(prefix)),
            opt_str(exclusive_start_key),
        ),
{
    let ghost all = record_views(records@);
    let ghost start = opt_str(exclusive_start_key);
    let ghost scope = opt_str(prefix);
    let mut scan = KeyScan::new(owned(exclusive_start_key), limit, owned(prefix));
    let mut i: usize = 0;
    let mut stopped = false;
    assert(all.take(0) == Seq::<RecordView>::empty());
    while i < records.len() && !stopped
        invariant
            all == record_views(records@),
            i <= records@.len(),
            scan.wf(),
            scan.start() == start,
            scan.limit() == limit,
            scan.prefix() == scope,
            !stopped ==> scan.seen() == all.take(i as int),
            stopped ==> listed(scan.seen(), start, limit, scope) == listed(
                all,
                start,
                limit,
                scope,
            ),
        decreases
            records@.len() - i + if stopped {
                0int
            } else {
                1
            },
    {
        let record = &records[i];
        assert(all.take(i + 1) == all.take(i as int).push(record@));
        match scan.offer(record) {
            ScanStep::Skip => {
                i = i + 1;
            },
            ScanStep::Collect => {
                let copy = record.clone();
                let size = copy.size;
                scan.collect(copy, size);
                i = i + 1;
            },
            ScanStep::Stop => {
                proof {
                    let later = all.skip(i + 1);
                    law_scan_may_stop(scan.seen(), record@, later, start, limit, scope);
                    assert(scan.seen().push(record@) + later == all);
                }
                stopped = true;
            },
        }
    }
    assert(all.take(all.len() as int) == all);
    scan.finish()
}

// ---------------------------------------------------------------------------
// Pages
// ---------------------------------------------------------------------------

/// How many keys a page has at most.
pub open spec fn page_length(limit: Option<usize>, page_size: usize) -> usize {
    match limit {
        Some(remaining) => if remaining < page_size {
            remaining
        } else {
            page_size
        },
        None => page_size,
    }
}

/// The page at the start of `all`, and whether keys that are wanted follow it.
pub open spec fn page_of<T>(all: Seq<T>, limit: Option<usize>, page_size: usize) -> (
    Seq<T>,
    bool,
) {
    let length = page_length(limit, page_size);
    (
        capped(all, Some(length)),
        all.len() > length && (limit matches Some(remaining) ==> length < remaining),
    )
}

/// How many keys a page has at most.
pub fn page_fetch_limit(limit: Option<usize>, page_size: usize) -> (r: usize)
    ensures
        r == page_length(limit, page_size),
{
    match limit {
        Some(remaining) => {
            if remaining < page_size {
                remaining
            } else {
                page_size
            }
        },
        None => page_size,
    }
}

/// Makes a page of what a listing found when it looked for one key more than
/// the page holds.
pub fn keys_page(
    results: Vec<KeyValueStoreRecordMetadata>,
    limit: Option<usize>,
    page_size: usize,
) -> (r: KvsKeysPage)
    ensures
        (record_views(r.items@), r.has_more) == page_of(
            record_views(results@),
            limit,
            page_size,
        ),
        r.has_more <==> r.items@.len() < results@.len() && (limit matches Some(n)
            ==> r.items@.len() < n),
        r.items@.len() < results@.len() ==> r.items@.len() == page_size || limit == Some(
            r.items@.len() as usize,
        ),
{
    let fetch_limit = page_fetch_limit(limit, page_size);
    let wanted = match limit {
        Some(remaining) => fetch_limit < remaining,
        None => true,
    };
    let has_more = results.len() > fetch_limit && wanted;
    let mut items = results;
    if items.len() > fetch_limit {
        items.truncate(fetch_limit);
        assert(record_views(items@) == record_views(results@).take(fetch_limit as int));
    }
    KvsKeysPage { items, has_more }
}

/// Whether `r` is the page at the start of `all`, or the error that a missing
/// cursor gives.
pub open spec fn answers_page(
    r: Result<KvsKeysPage, StorageError>,
    all: Option<Seq<RecordView>>,
    start: Option<Seq<char>>,
    limit: Option<usize>,
    page_size: usize,
) -> bool {
    match (r, all) {
        (Ok(page), Some(views)) => (record_views(page.items@), page.has_more) == page_of(
            views,
            limit,
            page_size,
        ),
        (Err(e), None) => e matches StorageError::ExclusiveStartKeyNotFound(k) && Some(k@) == start,
        _ => false,
    }
}

/// The page of keys behind the cursor. `limit` is how many are wanted overall.
pub fn iterate_keys_page(
    records: &[KeyValueStoreRecordMetadata],
    exclusive_start_key: Option<&str>,
    limit: Option<usize>,
    page_size: usize,
    prefix: Option<&str>,
) -> (r: Result<KvsKeysPage, StorageError>)
    requires
        page_length(limit, page_size) < usize::MAX,
    ensures
        answers_page(
            r,
            listed(record_views(records@), opt_str(exclusive_start_key), None, opt_str(prefix)),
            opt_str(exclusive_start_key),
            limit,
            page_size,
        ),
{
    let fetch_limit = page_fetch_limit(limit, page_size);
    match list_keys_raw(records, exclusive_start_key, Some(fetch_limit + 1), prefix) {
        Err(e) => Err(e),
        Ok(results) => {
            let ghost all = listed(
                record_views(records@),
                opt_str(exclusive_start_key),
                None,
                opt_str(prefix),
            )->0;
            let ghost found = record_views(results@);
            assert(capped(found, Some(fetch_limit)) == capped(all, Some(fetch_limit)));
            assert((found.len() > fetch_limit) == (all.len() > fetch_limit));
            Ok(keys_page(results, limit, page_size))
        },
    }
}

/// The key after which the next page starts: the last of this one, where keys
/// follow it.
pub open spec fn next_cursor(items: Seq<RecordView>, has_more: bool) -> Option<Seq<char>> {
    if has_more && items.len() > 0 {
        Some(items.last().key)
    } else {
        None
    }
}

/// How many keys are listed at a time where the caller does not say.
pub const DEFAULT_LIST_LIMIT: usize = 1000;

/// How many keys a listing asks for.
pub open spec fn list_limit(limit: Option<usize>) -> usize {
    match limit {
        Some(n) => n,
        None => DEFAULT_LIST_LIMIT,
    }
}

/// Describes a page of keys, with the question it answers.
pub fn list_result(
    page: KvsKeysPage,
    page_limit: usize,
    exclusive_start_key: Option<&str>,
) -> (r: KvsListKeysResult)
    ensures
        r.items == page.items,
        r.count == page.items@.len(),
        r.limit == page_limit,
        opt_text(r.exclusive_start_key) == opt_str(exclusive_start_key),
        r.is_truncated == page.has_more,
        opt_text(r.next_exclusive_start_key) == next_cursor(
            record_views(page.items@),
            page.has_more,
        ),
{
    let n: usize = page.items.len();
    let next_exclusive_start_key = if page.has_more && n > 0 {
        assert(record_views(page.items@).last() == page.items@[n - 1]@);
        Some(page.items[n - 1].key.clone())
    } else {
        None
    };
    KvsListKeysResult {
        items: page.items,
        count: n,
        limit: page_limit,
        exclusive_start_key: owned(exclusive_start_key),
        is_truncated: page.has_more,
        next_exclusive_start_key,
    }
}

/// Lists one page of keys behind the cursor, with the cursor of the next page.
pub fn list_keys(
    records: &[KeyValueStoreRecordMetadata],
    exclusive_start_key: Option<&str>,
    limit: Option<usize>,
    prefix: Option<&str>,
) -> (r: Result<KvsListKeysResult, StorageError>)
    requires
        list_limit(limit) < usize::MAX,
    ensures
        match (
            r,
            listed(record_views(records@), opt_str(exclusive_start_key), None, opt_str(prefix)),
        ) {
            (Ok(result), Some(all)) => {
                let (items, more) = page_of(all, None, list_limit(limit));
                &&& record_views(result.items@) == items
                &&& result.count == items.len()
                &&& result.limit == list_limit(limit)
                &&& opt_text(result.exclusive_start_key) == opt_str(exclusive_start_key)
                &&& result.is_truncated == more
                &&& opt_text(result.next_exclusive_start_key) == next_cursor(items, more)
            },
            (Err(e), None) => e matches StorageError::ExclusiveStartKeyNotFound(k) && Some(k@)
                == opt_str(exclusive_start_key),
            _ => false,
        },
{
    let page_limit = match limit {
        Some(n) => n,
        None => DEFAULT_LIST_LIMIT,
    };
    match iterate_keys_page(records, exclusive_start_key, None, page_limit, prefix) {
        Err(e) => Err(e),
        Ok(page) => Ok(list_result(page, page_limit, exclusive_start_key)),
    }
}

// ---------------------------------------------------------------------------
// Walking through all pages
// ---------------------------------------------------------------------------

/// Whether the keys of the records ascend strictly.
pub open spec fn ascending(records: Seq<RecordView>) -> bool {
    forall|i: int, j: int|
        0 <= i < j < records.len() ==> text_lt(
            (#[trigger] records[i]).key,
            (#[trigger] records[j]).key,
        )
}

proof fn lemma_scoped_ascending(records: Seq<RecordView>, prefix: Option<Seq<char>>)
    requires
        ascending(records),
    ensures
        ascending(scoped(records, prefix)),
    decreases records.len(),
{
    reveal(Seq::filter);
    if records.len() > 0 {
        let front = records.drop_last();
        let r = records.last();
        lemma_scoped_ascending(front, prefix);
        assert(records == front.push(r));
        lemma_scoped_push(front, r, prefix);
        let known = scoped(front, prefix);
        assert forall|i: int| 0 <= i < known.len() implies text_lt(
            (#[trigger] known[i]).key,
            r.key,
        ) by {
            let scope = |r: RecordView| in_scope(r, prefix);
            front.lemma_filter_contains_rev(scope, known[i]);
            let j = choose|j: int| 0 <= j < front.len() && front[j] == known[i];
            assert(records[j] == known[i]);
            assert(records[records.len() - 1] == r);
        }
    }
}

proof fn lemma_behind_is_suffix(known: Seq<RecordView>, n: int)
    requires
        ascending(known),
        0 <= n <= known.len(),
    ensures
        known.filter(
            |r: RecordView|
                behind_cursor(
                    r,
                    if n == 0 {
                        None
                    } else {
                        Some(known[n - 1].key)
                    },
                ),
        ) == known.skip(n),
{
    let start = if n == 0 {
        None
    } else {
        Some(known[n - 1].key)
    };
    let behind = |r: RecordView| behind_cursor(r, start);
    let low = known.take(n);
    let high = known.skip(n);
    assert(known == low + high);
    Seq::filter_distributes_over_add(low, high, behind);
    assert forall|i: int| 0 <= i < low.len() implies !behind(#[trigger] low[i]) by {
        crate::order::lemma_text_lt_irreflexive(low[i].key);
        if i < n - 1 {
            assert(text_lt(known[i].key, known[n - 1].key));
            if text_lt(known[n - 1].key, known[i].key) {
                crate::order::lemma_text_lt_transitive(
                    known[i].key,
                    known[n - 1].key,
                    known[i].key,
                );
            }
        }
    }
    assert forall|i: int| 0 <= i < high.len() implies behind(#[trigger] high[i]) by {
        if n > 0 {
            assert(text_lt(known[n - 1].key, known[n + i].key));
        }
    }
    lemma_filter_none(low, behind);
    lemma_filter_all(high, behind);
    assert(Seq::<RecordView>::empty() + high == high);
}

proof fn lemma_filter_none<T>(s: Seq<T>, pred: spec_fn(T) -> bool)
    requires
        forall|i: int| 0 <= i < s.len() ==> !pred(#[trigger] s[i]),
    ensures
        s.filter(pred) == Seq::<T>::empty(),
    decreases s.len(),
{
    reveal(Seq::filter);
    if s.len() > 0 {
        lemma_filter_none(s.drop_last(), pred);
        assert(!pred(s[s.len() - 1]));
    }
}

proof fn lemma_filter_all<T>(s: Seq<T>, pred: spec_fn(T) -> bool)
    requires
        forall|i: int| 0 <= i < s.len() ==> pred(#[trigger] s[i]),
    ensures
        s.filter(pred) == s,
    decreases s.len(),
{
    reveal(Seq::filter);
    if s.len() > 0 {
        lemma_filter_all(s.drop_last(), pred);
        assert(pred(s[s.len() - 1]));
        assert(s.drop_last().push(s.last()) == s);
    }
}

/// The cursor after `n` keys of the listing.
pub open spec fn cursor_after(known: Seq<RecordView>, n: int) -> Option<Seq<char>> {
    if n == 0 {
        None
    } else {
        Some(known[n - 1].key)
    }
}

/// Where keys ascend strictly, the page behind the key number `n` of the scope
/// holds the keys that come next, as many as fit, and says that more follow
/// exactly where there are more.
pub proof fn law_page_continues_after_cursor(
    records: Seq<RecordView>,
    prefix: Option<Seq<char>>,
    n: int,
    page_size: usize,
)
    requires
        ascending(records),
        0 <= n <= scoped(records, prefix).len(),
    ensures
        ({
            let known = scoped(records, prefix);
            let all = listed(records, cursor_after(known, n), None, prefix);
            &&& all == Some(known.skip(n))
            &&& page_of(all->0, None, page_size).1 == (n + page_size < known.len())
            &&& page_of(all->0, None, page_size).0 == known.subrange(
                n,
                if n + page_size < known.len() {
                    n + page_size
                } else {
                    known.len() as int
                },
            )
        }),
{
    let known = scoped(records, prefix);
    lemma_scoped_ascending(records, prefix);
    lemma_behind_is_suffix(known, n);
    if n > 0 {
        assert(known[n - 1].key == cursor_after(known, n)->0);
    }
    let rest = known.skip(n);
    if rest.len() > page_size {
        assert(rest.take(page_size as int) == known.subrange(n, n + page_size));
    } else {
        assert(rest == known.subrange(n, known.len() as int));
    }
}

/// What a caller collects who asks for page after page, each time with the last
/// key as the cursor, until no more is promised.
pub open spec fn walk(
    records: Seq<RecordView>,
    prefix: Option<Seq<char>>,
    page_size: usize,
    start: Option<Seq<char>>,
    fuel: nat,
) -> Option<Seq<RecordView>>
    decreases fuel,
{
    match listed(records, start, None, prefix) {
        None => None,
        Some(all) => {
            let (items, more) = page_of(all, None, page_size);
            if !more {
                Some(items)
            } else if fuel == 0 || items.len() == 0 {
                None
            } else {
                match walk(
                    records,
                    prefix,
                    page_size,
                    Some(items.last().key),
                    (fuel - 1) as nat,
                ) {
                    None => None,
                    Some(rest) => Some(items + rest),
                }
            }
        },
    }
}

/// Where keys ascend strictly, walking through the pages gives every key in
/// scope, in order and each once, whatever the size of a page.
pub proof fn law_walk_visits_every_key_once(
    records: Seq<RecordView>,
    prefix: Option<Seq<char>>,
    page_size: usize,
)
    requires
        ascending(records),
        page_size > 0,
    ensures
        walk(records, prefix, page_size, None, records.len()) == Some(scoped(records, prefix)),
{
    let known = scoped(records, prefix);
    records.lemma_filter_len(|r: RecordView| in_scope(r, prefix));
    lemma_walk_from(records, prefix, page_size, 0, records.len());
    assert(known.skip(0) == known);
}

proof fn lemma_walk_from(
    records: Seq<RecordView>,
    prefix: Option<Seq<char>>,
    page_size: usize,
    n: int,
    fuel: nat,
)
    requires
        ascending(records),
        page_size > 0,
        0 <= n <= scoped(records, prefix).len(),
        fuel >= scoped(records, prefix).len() - n,
    ensures
        walk(
            records,
            prefix,
            page_size,
            cursor_after(scoped(records, prefix), n),
            fuel,
        ) == Some(scoped(records, prefix).skip(n)),
    decreases fuel,
{
    let known = scoped(records, prefix);
    law_page_continues_after_cursor(records, prefix, n, page_size);
    if n + page_size < known.len() {
        let next = n + page_size;
        let items = known.subrange(n, next);
        assert(items.last() == known[next - 1]);
        lemma_walk_from(records, prefix, page_size, next, (fuel - 1) as nat);
        assert(items + known.skip(next) == known.skip(n));
    } else {
        assert(known.subrange(n, known.len() as int) == known.skip(n));
    }
}

} // verus!
