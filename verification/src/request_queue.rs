//! The rules of a request queue: which requests are waiting, in progress and
//! handled, and in which order they are handed out.

use std::collections::VecDeque;
use vstd::hash_set::StringHashSet;
use vstd::prelude::*;

use crate::clock::{datetime_text, serialize_datetime, Timestamp};
use crate::dataset::{is_item_file, is_item_name};
use crate::error::StorageError;
use crate::json::{field_of, named_fields, text_of, with_field, JsonValue};
use crate::key_listing::capped;
use crate::key_map::{entry_views, map_of, KeyMap};
use crate::models::{ProcessedRequest, RequestQueueMetadata, StorageMetadata};
use crate::order::{arrange, arranged, sorts, stable_order, Descending};
use crate::text::{concat2, str_eq, texts};
use crate::utils::{sha256_prefix, sha256_prefix_text};

verus! {

/// The directory of all request queues.
pub const STORAGE_SUBDIR: &'static str = "request_queues";

/// The kind of storage, as it is called in messages.
pub const STORAGE_KIND: &'static str = "Request queue";

/// How many requests are held in memory at most after the queue was read from
/// disk.
pub const MAX_REQUESTS_IN_CACHE: usize = 100_000;

/// How many digits of a digest name the file of a request.
pub const REQUEST_FILENAME_DIGITS: usize = 15;

// ---------------------------------------------------------------------------
// Requests
// ---------------------------------------------------------------------------

/// The unique key of a request, in either spelling of the field.
pub open spec fn unique_key_of(request: JsonValue) -> Option<Seq<char>> {
    match field_of(request, "uniqueKey"@) {
        Some(v) => text_of(v),
        None => match field_of(request, "unique_key"@) {
            Some(v) => text_of(v),
            None => None,
        },
    }
}

/// Whether a request says that it was handled, in either spelling of the field.
pub open spec fn says_handled(request: JsonValue) -> bool {
    match field_of(request, "handledAt"@) {
        Some(v) => v !is Null,
        None => match field_of(request, "handled_at"@) {
            Some(v) => v !is Null,
            None => false,
        },
    }
}

/// The name of the file of a request.
pub open spec fn request_file_of(unique_key: Seq<char>) -> Seq<char> {
    sha256_prefix_text(unique_key, REQUEST_FILENAME_DIGITS as nat) + ".json"@
}

/// Whether `e` is the error for a request without a unique key.
pub open spec fn is_missing_key(e: StorageError) -> bool {
    e matches StorageError::InvalidArgs(text) && text@ == "Request must have a 'uniqueKey' field"@
}

/// The unique key of a request.
pub fn unique_key(request: &JsonValue) -> (r: Option<String>)
    ensures
        match r {
            Some(k) => unique_key_of(*request) == Some(k@),
            None => unique_key_of(*request) is None,
        },
{
    let field = match request.get("uniqueKey") {
        Some(v) => Some(v),
        None => request.get("unique_key"),
    };
    match field {
        Some(v) => match v.as_str() {
            Some(s) => Some(s.to_string()),
            None => None,
        },
        None => None,
    }
}

/// The unique key of a request that must have one.
fn required_key(request: &JsonValue) -> (r: Result<String, StorageError>)
    ensures
        match r {
            Ok(k) => unique_key_of(*request) == Some(k@),
            Err(e) => unique_key_of(*request) is None && is_missing_key(e),
        },
{
    match unique_key(request) {
        Some(k) => Ok(k),
        None => Err(
            StorageError::InvalidArgs("Request must have a 'uniqueKey' field".to_string()),
        ),
    }
}

/// Whether a request says that it was handled.
fn marked_handled(request: &JsonValue) -> (r: bool)
    ensures
        r == says_handled(*request),
{
    let field = match request.get("handledAt") {
        Some(v) => Some(v),
        None => request.get("handled_at"),
    };
    match field {
        Some(v) => !v.is_null(),
        None => false,
    }
}

/// The name of the file of the request with the given unique key.
pub fn request_filename(unique_key: &str) -> (r: String)
    ensures
        r@ == request_file_of(unique_key@),
{
    let digits = sha256_prefix(unique_key, REQUEST_FILENAME_DIGITS);
    concat2(digits.as_str(), ".json")
}

/// Whether a file of a queue holds a request.
pub fn is_request_file(name: &str) -> (r: bool)
    ensures
        r == is_item_name(name@),
{
    is_item_file(name)
}

// ---------------------------------------------------------------------------
// The state of a queue
// ---------------------------------------------------------------------------

/// The part of a queue's state that outlives the process.
pub struct RequestQueueState {
    pub sequence_counter: i64,
    pub forefront_sequence_counter: i64,
    pub regular_requests: Vec<(String, Option<i64>)>,
    pub forefront_requests: Vec<(String, Option<i64>)>,
    pub in_progress_requests: Vec<String>,
    pub handled_requests: Vec<String>,
}

impl Default for RequestQueueState {
    fn default() -> (r: Self)
        ensures
            r.sequence_counter == 0,
            r.forefront_sequence_counter == 0,
            r.regular_requests@.len() == 0,
            r.forefront_requests@.len() == 0,
            r.in_progress_requests@.len() == 0,
            r.handled_requests@.len() == 0,
    {
        RequestQueueState {
            sequence_counter: 0,
            forefront_sequence_counter: 0,
            regular_requests: Vec::new(),
            forefront_requests: Vec::new(),
            in_progress_requests: Vec::new(),
            handled_requests: Vec::new(),
        }
    }
}

/// A queue as plain values: its description, the requests that wait (with their
/// places), those in progress, those handled, and what is held in memory.
#[verifier::ext_equal]
pub ghost struct QueueView {
    pub metadata: RequestQueueMetadata,
    pub sequence: i64,
    pub forefront_sequence: i64,
    pub regular: Map<Seq<char>, Option<i64>>,
    pub forefront: Map<Seq<char>, Option<i64>>,
    pub in_progress: Seq<Seq<char>>,
    pub handled: Seq<Seq<char>>,
    pub cache: Seq<JsonValue>,
    pub needs_refresh: bool,
}

/// A request queue in memory.
pub struct RequestQueue {
    metadata: RequestQueueMetadata,
    sequence: i64,
    forefront_sequence: i64,
    regular: KeyMap,
    forefront: KeyMap,
    in_progress: Vec<String>,
    in_progress_set: StringHashSet,
    handled: Vec<String>,
    handled_set: StringHashSet,
    cache: VecDeque<JsonValue>,
    needs_refresh: bool,
}

impl View for RequestQueue {
    type V = QueueView;

    closed spec fn view(&self) -> QueueView {
        QueueView {
            metadata: self.metadata,
            sequence: self.sequence,
            forefront_sequence: self.forefront_sequence,
            regular: self.regular@,
            forefront: self.forefront@,
            in_progress: texts(self.in_progress@),
            handled: texts(self.handled@),
            cache: self.cache@,
            needs_refresh: self.needs_refresh,
        }
    }
}

/// A queue with the given description and state, before any request was read from
/// disk.
pub open spec fn opened(metadata: RequestQueueMetadata, state: RequestQueueState) -> QueueView {
    QueueView {
        metadata,
        sequence: state.sequence_counter,
        forefront_sequence: state.forefront_sequence_counter,
        regular: map_of(entry_views(state.regular_requests@)),
        forefront: map_of(entry_views(state.forefront_requests@)),
        in_progress: texts(state.in_progress_requests@),
        handled: texts(state.handled_requests@),
        cache: Seq::empty(),
        needs_refresh: true,
    }
}

/// Whether a state holds all of a queue that outlives the process.
pub open spec fn keeps_state(q: QueueView, state: RequestQueueState) -> bool {
    &&& state.sequence_counter == q.sequence
    &&& state.forefront_sequence_counter == q.forefront_sequence
    &&& map_of(entry_views(state.regular_requests@)) == q.regular
    &&& map_of(entry_views(state.forefront_requests@)) == q.forefront
    &&& texts(state.in_progress_requests@) == q.in_progress
    &&& texts(state.handled_requests@) == q.handled
}

/// Whether a request waits to be handed out.
pub open spec fn is_queued(q: QueueView, key: Seq<char>) -> bool {
    q.regular.dom().contains(key) || q.forefront.dom().contains(key)
}

/// Whether a queue knows a request at all.
pub open spec fn is_known(q: QueueView, key: Seq<char>) -> bool {
    is_queued(q, key) || q.in_progress.contains(key) || q.handled.contains(key)
}

/// What adding a request comes down to.
#[derive(Debug, Clone, Copy, PartialEq, Eq, Structural)]
pub enum AddOutcome {
    /// The request was handled before.
    AlreadyHandled,
    /// The request is in progress.
    AlreadyInProgress,
    /// The request waits already.
    AlreadyQueued,
    /// The request waits already and moves to the front.
    MoveToFront,
    /// The request is new.
    New,
}

/// What adding a request with the given key comes down to.
pub open spec fn add_outcome(q: QueueView, key: Seq<char>, forefront: bool) -> AddOutcome {
    if q.handled.contains(key) {
        AddOutcome::AlreadyHandled
    } else if q.in_progress.contains(key) {
        AddOutcome::AlreadyInProgress
    } else if is_queued(q, key) {
        if forefront {
            AddOutcome::MoveToFront
        } else {
            AddOutcome::AlreadyQueued
        }
    } else {
        AddOutcome::New
    }
}

/// Whether adding a request changes the queue.
pub open spec fn stores(outcome: AddOutcome) -> bool {
    outcome == AddOutcome::MoveToFront || outcome == AddOutcome::New
}

/// The description of a queue with one more request in it.
pub open spec fn one_more(m: RequestQueueMetadata) -> RequestQueueMetadata {
    RequestQueueMetadata {
        total_request_count: (m.total_request_count + 1) as usize,
        pending_request_count: (m.pending_request_count + 1) as usize,
        ..m
    }
}

/// The queue with a request at its front.
pub open spec fn put_front(q: QueueView, key: Seq<char>, request: JsonValue) -> QueueView {
    let place = (q.forefront_sequence + 1) as i64;
    QueueView {
        forefront_sequence: place,
        forefront: q.forefront.insert(key, Some(place)),
        cache: seq![request] + q.cache,
        ..q
    }
}

/// The queue with a request at its back.
pub open spec fn put_back(q: QueueView, key: Seq<char>, request: JsonValue) -> QueueView {
    let place = (q.sequence + 1) as i64;
    QueueView {
        sequence: place,
        regular: q.regular.insert(key, Some(place)),
        cache: q.cache.push(request),
        ..q
    }
}

/// The queue after a request was stored.
pub open spec fn after_add(
    q: QueueView,
    key: Seq<char>,
    request: JsonValue,
    forefront: bool,
) -> QueueView {
    match add_outcome(q, key, forefront) {
        AddOutcome::MoveToFront => QueueView {
            needs_refresh: true,
            ..put_front(QueueView { regular: q.regular.remove(key), ..q }, key, request)
        },
        AddOutcome::New => {
            let counted = QueueView { metadata: one_more(q.metadata), ..q };
            if forefront {
                put_front(counted, key, request)
            } else {
                put_back(counted, key, request)
            }
        },
        _ => q,
    }
}

/// Whether a queue has a number left for one more place at its front or back.
pub open spec fn place_left(q: QueueView, forefront: bool) -> bool {
    if forefront {
        q.forefront_sequence < i64::MAX
    } else {
        q.sequence < i64::MAX
    }
}

/// Whether the counters of a queue have room for a request that is to be added.
pub open spec fn room_for(q: QueueView, key: Seq<char>, forefront: bool) -> bool {
    match add_outcome(q, key, forefront) {
        AddOutcome::New => {
            &&& place_left(q, forefront)
            &&& q.metadata.total_request_count < usize::MAX
            &&& q.metadata.pending_request_count < usize::MAX
        },
        AddOutcome::MoveToFront => place_left(q, true),
        _ => true,
    }
}

/// Whether a request, where it is in progress, can be given back.
pub open spec fn room_to_reclaim(q: QueueView, request: JsonValue, forefront: bool) -> bool {
    unique_key_of(request) matches Some(k) ==> q.in_progress.contains(k) ==> place_left(
        q,
        forefront,
    )
}

/// What the queue decides about a request that is to be added.
pub enum AddDecision {
    /// Nothing changes.
    Report(ProcessedRequest),
    /// The request is to be written to the file of that name and then stored.
    Store(String),
}

/// The test for any key but one.
pub open spec fn other_than(key: Seq<char>) -> spec_fn(Seq<char>) -> bool {
    |k: Seq<char>| k != key
}

/// What is left of a list without one key.
pub open spec fn without(keys: Seq<Seq<char>>, key: Seq<char>) -> Seq<Seq<char>> {
    keys.filter(other_than(key))
}

/// The description of a queue that was changed at `now`.
pub open spec fn touched(m: RequestQueueMetadata, now: Timestamp) -> RequestQueueMetadata {
    RequestQueueMetadata {
        base: StorageMetadata { accessed_at: now, modified_at: now, ..m.base },
        ..m
    }
}

/// The description of a queue in which one more request was handled at `now`.
pub open spec fn one_handled(m: RequestQueueMetadata, now: Timestamp) -> RequestQueueMetadata {
    RequestQueueMetadata {
        handled_request_count: (m.handled_request_count + 1) as usize,
        pending_request_count: if m.pending_request_count > 0 {
            (m.pending_request_count - 1) as usize
        } else {
            0
        },
        ..touched(m, now)
    }
}

/// The queue after a request in progress was handled at `now`.
pub open spec fn after_handled(q: QueueView, key: Seq<char>, now: Timestamp) -> QueueView {
    QueueView {
        in_progress: without(q.in_progress, key),
        handled: q.handled.push(key),
        metadata: one_handled(q.metadata, now),
        ..q
    }
}

/// The queue after a request in progress was given back at `now`.
pub open spec fn after_reclaim(
    q: QueueView,
    key: Seq<char>,
    request: JsonValue,
    forefront: bool,
    now: Timestamp,
) -> QueueView {
    let freed = QueueView {
        in_progress: without(q.in_progress, key),
        metadata: touched(q.metadata, now),
        ..q
    };
    if forefront {
        put_front(freed, key, request)
    } else {
        put_back(freed, key, request)
    }
}

/// The fields of a handled request: the time stands in both spellings.
pub open spec fn handled_fields(
    before: Seq<(String, JsonValue)>,
    after: Seq<(String, JsonValue)>,
    now: Timestamp,
) -> bool {
    exists|a: JsonValue, b: JsonValue|
        {
            &&& text_of(a) == Some(datetime_text(now))
            &&& text_of(b) == Some(datetime_text(now))
            &&& named_fields(after) == #[trigger] with_field(
                #[trigger] with_field(named_fields(before), "handledAt"@, a),
                "handled_at"@,
                b,
            )
        }
}

/// What a request becomes when it was handled at `now`.
pub open spec fn is_handled_form(before: JsonValue, after: JsonValue, now: Timestamp) -> bool {
    match before {
        JsonValue::Object(fields) => after matches JsonValue::Object(stamped) && handled_fields(
            fields@,
            stamped@,
            now,
        ),
        _ => after == before,
    }
}

/// Whether the next request may be the given one: it has a key, and is neither
/// handled nor in progress.
pub open spec fn fetchable(q: QueueView, request: JsonValue) -> bool {
    unique_key_of(request) matches Some(k) && !q.handled.contains(k) && !q.in_progress.contains(k)
}

/// The queue after the request with the given key was handed out.
pub open spec fn after_fetch(q: QueueView, key: Seq<char>) -> QueueView {
    QueueView {
        in_progress: q.in_progress.push(key),
        regular: q.regular.remove(key),
        forefront: q.forefront.remove(key),
        ..q
    }
}

/// The request that is handed out next and the queue after it: the first one in
/// memory that may be. What stood before it is dropped.
pub open spec fn fetched(q: QueueView) -> (Option<JsonValue>, QueueView)
    decreases q.cache.len(),
{
    if q.cache.len() == 0 {
        (None, q)
    } else {
        let request = q.cache[0];
        let rest = QueueView { cache: q.cache.skip(1), ..q };
        if fetchable(q, request) {
            (Some(request), after_fetch(rest, unique_key_of(request)->0))
        } else {
            fetched(rest)
        }
    }
}

/// The number of a key, where it is present with one.
pub open spec fn number_in(m: Map<Seq<char>, Option<i64>>, key: Seq<char>) -> Option<i64> {
    if m.dom().contains(key) {
        m[key]
    } else {
        None
    }
}

/// The place of a request at the front of the queue, where it has one.
pub open spec fn front_place(q: QueueView, request: JsonValue) -> Option<i64> {
    if fetchable(q, request) {
        number_in(q.forefront, unique_key_of(request)->0)
    } else {
        None
    }
}

/// The place of a request in the ordinary order, where it has one and none at
/// the front.
pub open spec fn back_place(q: QueueView, request: JsonValue) -> Option<i64> {
    if fetchable(q, request) && front_place(q, request) is None {
        number_in(q.regular, unique_key_of(request)->0)
    } else {
        None
    }
}

/// The requests with a place at the front.
pub open spec fn front_requests(q: QueueView, requests: Seq<JsonValue>) -> Seq<JsonValue> {
    requests.filter(|r: JsonValue| front_place(q, r) is Some)
}

/// The requests with a place in the ordinary order.
pub open spec fn back_requests(q: QueueView, requests: Seq<JsonValue>) -> Seq<JsonValue> {
    requests.filter(|r: JsonValue| back_place(q, r) is Some)
}

/// The places of the requests at the front, of which the latest comes first.
pub open spec fn front_ranks(q: QueueView, requests: Seq<JsonValue>) -> Seq<Descending> {
    front_requests(q, requests).map_values(|r: JsonValue| Descending(front_place(q, r)->0))
}

/// The places of the requests in the ordinary order, of which the earliest comes
/// first.
pub open spec fn back_ranks(q: QueueView, requests: Seq<JsonValue>) -> Seq<i64> {
    back_requests(q, requests).map_values(|r: JsonValue| back_place(q, r)->0)
}

/// Whether `cache` is what a queue holds in memory after it read `requests` from
/// disk: those at the front, latest first, then the others, earliest first, and
/// not more than fit.
pub open spec fn is_refreshed(q: QueueView, requests: Seq<JsonValue>, cache: Seq<JsonValue>) -> bool {
    exists|a: Seq<usize>, b: Seq<usize>|
        {
            &&& #[trigger] sorts(front_ranks(q, requests), a)
            &&& #[trigger] sorts(back_ranks(q, requests), b)
            &&& cache == capped(
                arranged(front_requests(q, requests), a) + arranged(back_requests(q, requests), b),
                Some(MAX_REQUESTS_IN_CACHE),
            )
        }
}

/// What becomes of a queue that finds a request on disk: one that it does not
/// know is taken in, as handled where it says so.
pub open spec fn after_discovery(q: QueueView, request: JsonValue) -> QueueView {
    match unique_key_of(request) {
        None => q,
        Some(k) => if is_known(q, k) {
            q
        } else if says_handled(request) {
            QueueView { handled: q.handled.push(k), ..q }
        } else {
            let place = (q.sequence + 1) as i64;
            QueueView { sequence: place, regular: q.regular.insert(k, Some(place)), ..q }
        },
    }
}

/// What becomes of a queue that finds several requests on disk.
pub open spec fn after_discoveries(q: QueueView, requests: Seq<JsonValue>) -> QueueView
    decreases requests.len(),
{
    if requests.len() == 0 {
        q
    } else {
        after_discovery(after_discoveries(q, requests.drop_last()), requests.last())
    }
}

/// A queue in which nothing is left.
pub open spec fn cleared(q: QueueView) -> QueueView {
    QueueView {
        sequence: 0,
        forefront_sequence: 0,
        regular: Map::empty(),
        forefront: Map::empty(),
        in_progress: Seq::empty(),
        handled: Seq::empty(),
        cache: Seq::empty(),
        needs_refresh: true,
        ..q
    }
}

/// The description of a queue that was emptied at `now`.
pub open spec fn purged_metadata(m: RequestQueueMetadata, now: Timestamp) -> RequestQueueMetadata {
    RequestQueueMetadata {
        handled_request_count: 0,
        pending_request_count: 0,
        total_request_count: 0,
        ..touched(m, now)
    }
}

/// Whether a queue holds no request that waits or is in progress.
pub open spec fn queue_is_empty(q: QueueView) -> bool {
    forall|k: Seq<char>|
        #![trigger q.handled.contains(k)]
        is_queued(q, k) || q.in_progress.contains(k) ==> q.handled.contains(k)
}

proof fn lemma_without_set(keys: Seq<Seq<char>>, key: Seq<char>)
    ensures
        without(keys, key).to_set() == keys.to_set().remove(key),
{
    let keep = other_than(key);
    assert forall|k: Seq<char>| without(keys, key).contains(k) == (keys.contains(k) && k
        != key) by {
        if without(keys, key).contains(k) {
            let i = choose|i: int| 0 <= i < without(keys, key).len() && without(keys, key)[i] == k;
            keys.lemma_filter_contains_rev(keep, k);
            keys.lemma_filter_pred(keep, i);
        }
        if keys.contains(k) && k != key {
            let i = choose|i: int| 0 <= i < keys.len() && keys[i] == k;
            keys.lemma_filter_contains(keep, i);
        }
    }
    assert(without(keys, key).to_set() == keys.to_set().remove(key));
}

/// The set of the listed keys.
fn set_of(keys: &[String]) -> (r: StringHashSet)
    ensures
        r@ == texts(keys@).to_set(),
{
    let mut out = StringHashSet::new();
    assert(out@ == texts(keys@).take(0).to_set());
    for i in 0..keys.len()
        invariant
            out@ == texts(keys@).take(i as int).to_set(),
    {
        let _ = out.insert(keys[i].clone());
        proof {
            let t = texts(keys@);
            assert(t.take(i + 1) == t.take(i as int).push(t[i as int]));
            t.take(i as int).lemma_push_to_set_commute(t[i as int]);
        }
    }
    assert(texts(keys@).take(keys@.len() as int) == texts(keys@));
    out
}

/// What is left of a list without one key.
fn remove_key(keys: &[String], key: &str) -> (r: Vec<String>)
    ensures
        texts(r@) == without(texts(keys@), key@),
{
    let ghost all = texts(keys@);
    let ghost keep = other_than(key@);
    let mut out: Vec<String> = Vec::new();
    proof {
        reveal(Seq::filter);
        assert(texts(out@) == without(all.take(0), key@));
    }
    for i in 0..keys.len()
        invariant
            all == texts(keys@),
            keep == other_than(key@),
            texts(out@) == without(all.take(i as int), key@),
    {
        let ghost before = out@;
        proof {
            assert(all.take(i + 1) == all.take(i as int).push(all[i as int]));
            all.take(i as int).lemma_filter_push(all[i as int], keep);
        }
        if !str_eq(keys[i].as_str(), key) {
            out.push(keys[i].clone());
            assert(texts(out@) == texts(before).push(all[i as int]));
        }
    }
    assert(all.take(all.len() as int) == all);
    out
}

/// A copy of a list of keys.
fn copy_keys(keys: &[String]) -> (r: Vec<String>)
    ensures
        texts(r@) == texts(keys@),
{
    let mut out: Vec<String> = Vec::new();
    for i in 0..keys.len()
        invariant
            texts(out@) == texts(keys@).take(i as int),
    {
        let ghost before = out@;
        out.push(keys[i].clone());
        assert(texts(out@) == texts(before).push(keys@[i as int]@));
        assert(texts(keys@).take(i + 1) == texts(keys@).take(i as int).push(keys@[i as int]@));
    }
    assert(texts(keys@).take(keys@.len() as int) == texts(keys@));
    out
}

impl RequestQueue {
    /// Whether the sets that are kept for lookups agree with the lists.
    pub closed spec fn wf(&self) -> bool {
        &&& self.regular.wf()
        &&& self.forefront.wf()
        &&& self.in_progress_set@ == texts(self.in_progress@).to_set()
        &&& self.handled_set@ == texts(self.handled@).to_set()
    }

    /// A queue with the given description and state, of which nothing is held in
    /// memory yet.
    pub fn open(metadata: RequestQueueMetadata, state: RequestQueueState) -> (r: Self)
        ensures
            r.wf(),
            r@ == opened(metadata, state),
    {
        RequestQueue {
            metadata,
            sequence: state.sequence_counter,
            forefront_sequence: state.forefront_sequence_counter,
            regular: KeyMap::from_entries(state.regular_requests.as_slice()),
            forefront: KeyMap::from_entries(state.forefront_requests.as_slice()),
            in_progress_set: set_of(state.in_progress_requests.as_slice()),
            handled_set: set_of(state.handled_requests.as_slice()),
            in_progress: state.in_progress_requests,
            handled: state.handled_requests,
            cache: VecDeque::new(),
            needs_refresh: true,
        }
    }

    /// The part of the state that outlives the process.
    pub fn state(&self) -> (r: RequestQueueState)
        requires
            self.wf(),
        ensures
            keeps_state(self@, r),
    {
        RequestQueueState {
            sequence_counter: self.sequence,
            forefront_sequence_counter: self.forefront_sequence,
            regular_requests: self.regular.entries(),
            forefront_requests: self.forefront.entries(),
            in_progress_requests: copy_keys(self.in_progress.as_slice()),
            handled_requests: copy_keys(self.handled.as_slice()),
        }
    }

    /// The description of the queue.
    pub fn metadata(&self) -> (r: RequestQueueMetadata)
        ensures
            r == self@.metadata,
    {
        self.metadata.clone()
    }

    /// Whether the requests in memory have to be read from disk again before one
    /// is handed out.
    pub fn needs_refresh(&self) -> (r: bool)
        ensures
            r == self@.needs_refresh,
    {
        self.needs_refresh
    }

    /// Whether there is a number left for one more place at the front or back.
    fn has_place_left(&self, forefront: bool) -> (r: bool)
        ensures
            r == place_left(self@, forefront),
    {
        if forefront {
            self.forefront_sequence < i64::MAX
        } else {
            self.sequence < i64::MAX
        }
    }

    /// Whether there are numbers left for `n` more places at the back.
    pub fn has_places_for(&self, n: usize) -> (r: bool)
        ensures
            r == (self@.sequence + n <= i64::MAX),
    {
        self.sequence as i128 + n as i128 <= i64::MAX as i128
    }

    /// Whether the counters have room for a request that is to be added.
    pub fn has_room_for(&self, request: &JsonValue, forefront: bool) -> (r: bool)
        requires
            self.wf(),
        ensures
            r == (unique_key_of(*request) matches Some(k) ==> room_for(self@, k, forefront)),
    {
        match unique_key(request) {
            None => true,
            Some(key) => match self.outcome(key.as_str(), forefront) {
                AddOutcome::New => self.has_place_left(forefront)
                    && self.metadata.total_request_count < usize::MAX
                    && self.metadata.pending_request_count < usize::MAX,
                AddOutcome::MoveToFront => self.has_place_left(true),
                _ => true,
            },
        }
    }

    /// Whether the counters let a request be given back.
    pub fn has_room_to_reclaim(&self, request: &JsonValue, forefront: bool) -> (r: bool)
        requires
            self.wf(),
        ensures
            r == room_to_reclaim(self@, *request, forefront),
    {
        match unique_key(request) {
            None => true,
            Some(key) => !self.is_in_progress(key.as_str()) || self.has_place_left(forefront),
        }
    }

    fn is_handled(&self, key: &str) -> (r: bool)
        requires
            self.wf(),
        ensures
            r == self@.handled.contains(key@),
    {
        self.handled_set.contains(key)
    }

    fn is_in_progress(&self, key: &str) -> (r: bool)
        requires
            self.wf(),
        ensures
            r == self@.in_progress.contains(key@),
    {
        self.in_progress_set.contains(key)
    }

    fn outcome(&self, key: &str, forefront: bool) -> (r: AddOutcome)
        requires
            self.wf(),
        ensures
            r == add_outcome(self@, key@, forefront),
    {
        if self.is_handled(key) {
            AddOutcome::AlreadyHandled
        } else if self.is_in_progress(key) {
            AddOutcome::AlreadyInProgress
        } else if self.regular.contains(key) || self.forefront.contains(key) {
            if forefront {
                AddOutcome::MoveToFront
            } else {
                AddOutcome::AlreadyQueued
            }
        } else {
            AddOutcome::New
        }
    }

    /// Decides what to do with a request that is to be added. One that must be
    /// stored is first written to its file, and then handed to
    /// [`commit_add`](Self::commit_add).
    pub fn plan_add(&self, request: &JsonValue, forefront: bool) -> (r: Result<
        AddDecision,
        StorageError,
    >)
        requires
            self.wf(),
        ensures
            match unique_key_of(*request) {
                None => r matches Err(e) && is_missing_key(e),
                Some(k) => {
                    let outcome = add_outcome(self@, k, forefront);
                    match r {
                        Ok(AddDecision::Report(report)) => {
                            &&& !stores(outcome)
                            &&& report.reports(k, true, outcome == AddOutcome::AlreadyHandled)
                        },
                        Ok(AddDecision::Store(file)) => stores(outcome) && file@
                            == request_file_of(k),
                        Err(_) => false,
                    }
                },
            },
    {
        let key = match required_key(request) {
            Ok(k) => k,
            Err(e) => {
                return Err(e);
            },
        };
        match self.outcome(key.as_str(), forefront) {
            AddOutcome::AlreadyHandled => Ok(
                AddDecision::Report(ProcessedRequest::for_key(key, true, true)),
            ),
            AddOutcome::AlreadyInProgress => Ok(
                AddDecision::Report(ProcessedRequest::for_key(key, true, false)),
            ),
            AddOutcome::AlreadyQueued => Ok(
                AddDecision::Report(ProcessedRequest::for_key(key, true, false)),
            ),
            _ => Ok(AddDecision::Store(request_filename(key.as_str()))),
        }
    }

    fn put_front(&mut self, key: String, request: JsonValue)
        requires
            old(self).wf(),
            old(self)@.forefront_sequence < i64::MAX,
        ensures
            final(self).wf(),
            final(self)@ == put_front(old(self)@, key@, request),
    {
        self.forefront_sequence = self.forefront_sequence + 1;
        self.forefront.insert(key, Some(self.forefront_sequence));
        self.cache.push_front(request);
        assert(self@.cache == seq![request] + old(self)@.cache);
    }

    fn put_back(&mut self, key: String, request: JsonValue)
        requires
            old(self).wf(),
            old(self)@.sequence < i64::MAX,
        ensures
            final(self).wf(),
            final(self)@ == put_back(old(self)@, key@, request),
    {
        self.sequence = self.sequence + 1;
        self.regular.insert(key, Some(self.sequence));
        self.cache.push_back(request);
        assert(self@.cache == old(self)@.cache.push(request));
    }

    /// Stores a request whose file was written.
    pub fn commit_add(&mut self, request: JsonValue, forefront: bool) -> (r: Option<
        ProcessedRequest,
    >)
        requires
            old(self).wf(),
            unique_key_of(request) matches Some(k) ==> room_for(old(self)@, k, forefront),
        ensures
            final(self).wf(),
            match unique_key_of(request) {
                None => r is None && final(self)@ == old(self)@,
                Some(k) => {
                    let outcome = add_outcome(old(self)@, k, forefront);
                    if stores(outcome) {
                        &&& final(self)@ == after_add(old(self)@, k, request, forefront)
                        &&& r matches Some(report)
                        &&& report.reports(k, outcome == AddOutcome::MoveToFront, false)
                    } else {
                        r is None && final(self)@ == old(self)@
                    }
                },
            },
    {
        let key = match unique_key(&request) {
            Some(k) => k,
            None => {
                return None;
            },
        };
        match self.outcome(key.as_str(), forefront) {
            AddOutcome::MoveToFront => {
                self.regular.remove(key.as_str());
                self.put_front(key.clone(), request);
                self.needs_refresh = true;
                Some(ProcessedRequest::for_key(key, true, false))
            },
            AddOutcome::New => {
                self.metadata.total_request_count = self.metadata.total_request_count + 1;
                self.metadata.pending_request_count = self.metadata.pending_request_count + 1;
                if forefront {
                    self.put_front(key.clone(), request);
                } else {
                    self.put_back(key.clone(), request);
                }
                Some(ProcessedRequest::for_key(key, false, false))
            },
            _ => None,
        }
    }

    /// Records that the queue was changed at `now`.
    pub fn touch(&mut self, now: Timestamp)
        requires
            old(self).wf(),
        ensures
            final(self).wf(),
            final(self)@ == (QueueView {
                metadata: touched(old(self)@.metadata, now),
                ..old(self)@
            }),
    {
        self.metadata.base.touch(now);
    }

    /// Hands out the next request and marks it as in progress.
    pub fn fetch_next_request(&mut self) -> (r: Option<JsonValue>)
        requires
            old(self).wf(),
            !old(self)@.needs_refresh,
        ensures
            final(self).wf(),
            (r, final(self)@) == fetched(old(self)@),
    {
        let ghost goal = fetched(self@);
        while self.cache.len() > 0
            invariant
                self.wf(),
                fetched(self@) == goal,
                goal == fetched(old(self)@),
            decreases self.cache@.len(),
        {
            let ghost before = self@;
            if let Some(request) = self.cache.pop_front() {
                assert(self@.cache == before.cache.skip(1));
                assert(self@ == (QueueView { cache: before.cache.skip(1), ..before }));
                if let Some(key) = unique_key(&request) {
                    if !self.is_handled(key.as_str()) && !self.is_in_progress(key.as_str()) {
                        let ghost rest = self@;
                        let _ = self.in_progress_set.insert(key.clone());
                        self.regular.remove(key.as_str());
                        self.forefront.remove(key.as_str());
                        let ghost list = texts(self.in_progress@);
                        self.in_progress.push(key);
                        proof {
                            assert(fetchable(before, request));
                            assert(texts(self.in_progress@) == list.push(key@));
                            list.lemma_push_to_set_commute(key@);
                            assert(self@ == after_fetch(rest, key@));
                        }
                        return Some(request);
                    }
                }
            }
        }
        None
    }

    /// Prepares the request that is to be marked as handled: with the time in it,
    /// and the file that it is to be written to. A request that is not in
    /// progress is left alone.
    pub fn plan_handled(&self, request: JsonValue, now: Timestamp) -> (r: Result<
        Option<(String, JsonValue)>,
        StorageError,
    >)
        requires
            self.wf(),
            now.valid(),
        ensures
            match unique_key_of(request) {
                None => r matches Err(e) && is_missing_key(e),
                Some(k) => match r {
                    Ok(None) => !self@.in_progress.contains(k),
                    Ok(Some((file, stamped))) => {
                        &&& self@.in_progress.contains(k)
                        &&& file@ == request_file_of(k)
                        &&& is_handled_form(request, stamped, now)
                    },
                    Err(_) => false,
                },
            },
    {
        let key = match required_key(&request) {
            Ok(k) => k,
            Err(e) => {
                return Err(e);
            },
        };
        if !self.is_in_progress(key.as_str()) {
            return Ok(None);
        }
        let ghost plain = request;
        let mut stamped = request;
        let first = JsonValue::Str(serialize_datetime(&now));
        let second = JsonValue::Str(serialize_datetime(&now));
        stamped.set_field("handledAt", first);
        stamped.set_field("handled_at", second);
        proof {
            if plain is Object {
                let fields = plain->Object_0;
                let a = first;
                let b = second;
                assert(named_fields(stamped->Object_0@) == with_field(
                    with_field(named_fields(fields@), "handledAt"@, a),
                    "handled_at"@,
                    b,
                ));
                assert(handled_fields(fields@, stamped->Object_0@, now));
            }
        }
        Ok(Some((request_filename(key.as_str()), stamped)))
    }

    /// Moves a request from in progress to handled.
    pub fn commit_handled(&mut self, unique_key: &str, now: Timestamp) -> (r: Option<
        ProcessedRequest,
    >)
        requires
            old(self).wf(),
            old(self)@.in_progress.contains(unique_key@) ==>
                old(self)@.metadata.handled_request_count < usize::MAX,
        ensures
            final(self).wf(),
            if old(self)@.in_progress.contains(unique_key@) {
                &&& final(self)@ == after_handled(old(self)@, unique_key@, now)
                &&& r matches Some(report)
                &&& report.reports(unique_key@, true, false)
            } else {
                r is None && final(self)@ == old(self)@
            },
    {
        if !self.is_in_progress(unique_key) {
            return None;
        }
        proof {
            lemma_without_set(texts(self.in_progress@), unique_key@);
        }
        let _ = self.in_progress_set.remove(unique_key);
        let _ = self.handled_set.insert(unique_key.to_string());
        self.in_progress = remove_key(self.in_progress.as_slice(), unique_key);
        let ghost list = texts(self.handled@);
        self.handled.push(unique_key.to_string());
        proof {
            assert(texts(self.handled@) == list.push(unique_key@));
            list.lemma_push_to_set_commute(unique_key@);
        }
        self.metadata.handled_request_count = self.metadata.handled_request_count + 1;
        if self.metadata.pending_request_count > 0 {
            self.metadata.pending_request_count = self.metadata.pending_request_count - 1;
        }
        self.metadata.base.touch(now);
        Some(ProcessedRequest::for_key(unique_key.to_string(), true, false))
    }

    /// Gives a request in progress back to the queue. One that is not in progress
    /// is left alone.
    pub fn reclaim_request(&mut self, request: JsonValue, forefront: bool, now: Timestamp) -> (r:
        Result<Option<ProcessedRequest>, StorageError>)
        requires
            old(self).wf(),
            room_to_reclaim(old(self)@, request, forefront),
        ensures
            final(self).wf(),
            match unique_key_of(request) {
                None => {
                    &&& r matches Err(e)
                    &&& is_missing_key(e)
                    &&& final(self)@ == old(self)@
                },
                Some(k) => if old(self)@.in_progress.contains(k) {
                    &&& final(self)@ == after_reclaim(old(self)@, k, request, forefront, now)
                    &&& r matches Ok(Some(report))
                    &&& report.reports(k, true, false)
                } else {
                    &&& r matches Ok(None)
                    &&& final(self)@ == old(self)@
                },
            },
    {
        let key = match required_key(&request) {
            Ok(k) => k,
            Err(e) => {
                return Err(e);
            },
        };
        if !self.is_in_progress(key.as_str()) {
            return Ok(None);
        }
        proof {
            lemma_without_set(texts(self.in_progress@), key@);
        }
        let _ = self.in_progress_set.remove(key.as_str());
        self.in_progress = remove_key(self.in_progress.as_slice(), key.as_str());
        self.metadata.base.touch(now);
        if forefront {
            self.put_front(key.clone(), request);
        } else {
            self.put_back(key.clone(), request);
        }
        Ok(Some(ProcessedRequest::for_key(key, true, false)))
    }

    /// Whether the queue holds no request that waits or is in progress.
    pub fn is_empty(&self) -> (r: bool)
        requires
            self.wf(),
        ensures
            r == queue_is_empty(self@),
            r == forall|k: Seq<char>|
                #![trigger self@.handled.contains(k)]
                self@.regular.dom().contains(k) || self@.forefront.dom().contains(k)
                    || self@.in_progress.contains(k) ==> self@.handled.contains(k),
    {
        if self.regular.has_key_outside(&self.handled_set) || self.forefront.has_key_outside(
            &self.handled_set,
        ) {
            proof {
                let known = self.handled_set@;
                let regular = self.regular@.dom();
                let forefront = self.forefront@.dom();
                if exists|k: Seq<char>| #[trigger] regular.contains(k) && !known.contains(k) {
                    let k = choose|k: Seq<char>| #[trigger]
                        regular.contains(k) && !known.contains(k);
                    assert(is_queued(self@, k) && !self@.handled.contains(k));
                } else {
                    let k = choose|k: Seq<char>| #[trigger]
                        forefront.contains(k) && !known.contains(k);
                    assert(is_queued(self@, k) && !self@.handled.contains(k));
                }
            }
            return false;
        }
        for i in 0..self.in_progress.len()
            invariant
                self.wf(),
                forall|j: int|
                    0 <= j < i ==> self@.handled.contains(#[trigger] self@.in_progress[j]),
        {
            if !self.is_handled(self.in_progress[i].as_str()) {
                assert(self@.in_progress.contains(self@.in_progress[i as int]));
                return false;
            }
        }
        assert forall|k: Seq<char>|
            #![trigger self@.handled.contains(k)]
            is_queued(self@, k) || self@.in_progress.contains(k) implies self@.handled.contains(
            k,
        ) by {
            if self@.in_progress.contains(k) {
                let j = choose|j: int| 0 <= j < self@.in_progress.len() && self@.in_progress[j] == k;
                assert(self@.handled.contains(self@.in_progress[j]));
            } else {
                assert(self.handled_set@.contains(k));
            }
        }
        true
    }

    /// Forgets all requests.
    pub fn reset(&mut self)
        requires
            old(self).wf(),
        ensures
            final(self).wf(),
            final(self)@ == cleared(old(self)@),
    {
        self.sequence = 0;
        self.forefront_sequence = 0;
        self.regular = KeyMap::new();
        self.forefront = KeyMap::new();
        self.in_progress = Vec::new();
        self.handled = Vec::new();
        self.in_progress_set.clear();
        self.handled_set.clear();
        self.cache = VecDeque::new();
        self.needs_refresh = true;
        proof {
            assert(texts(self.in_progress@) == Seq::<Seq<char>>::empty());
            assert(texts(self.handled@) == Seq::<Seq<char>>::empty());
            assert(texts(self.in_progress@).to_set() == Set::<Seq<char>>::empty());
            assert(self@ == cleared(old(self)@));
        }
    }

    /// Forgets all requests, and that there ever were any.
    pub fn purge(&mut self, now: Timestamp)
        requires
            old(self).wf(),
        ensures
            final(self).wf(),
            final(self)@ == (QueueView {
                metadata: purged_metadata(old(self)@.metadata, now),
                ..cleared(old(self)@)
            }),
    {
        self.reset();
        self.metadata.handled_request_count = 0;
        self.metadata.pending_request_count = 0;
        self.metadata.total_request_count = 0;
        self.metadata.base.touch(now);
    }

    /// Takes in the requests that were found on disk when the queue was opened.
    pub fn discover_existing_requests(&mut self, requests: &[JsonValue])
        requires
            old(self).wf(),
            old(self)@.sequence + requests@.len() <= i64::MAX,
        ensures
            final(self).wf(),
            final(self)@ == after_discoveries(old(self)@, requests@),
    {
        let ghost start = self@;
        for i in 0..requests.len()
            invariant
                self.wf(),
                self@ == after_discoveries(start, requests@.take(i as int)),
                self@.sequence <= start.sequence + i,
                start.sequence + requests@.len() <= i64::MAX,
        {
            let request = &requests[i];
            let ghost before = self@;
            proof {
                assert(requests@.take(i + 1).drop_last() == requests@.take(i as int));
                assert(requests@.take(i + 1).last() == *request);
            }
            if let Some(key) = unique_key(request) {
                let known = self.regular.contains(key.as_str()) || self.forefront.contains(
                    key.as_str(),
                ) || self.is_in_progress(key.as_str()) || self.is_handled(key.as_str());
                if !known {
                    if marked_handled(request) {
                        let _ = self.handled_set.insert(key.clone());
                        let ghost list = texts(self.handled@);
                        self.handled.push(key);
                        proof {
                            assert(texts(self.handled@) == list.push(key@));
                            list.lemma_push_to_set_commute(key@);
                            assert(self@ == after_discovery(before, *request));
                        }
                    } else {
                        self.sequence = self.sequence + 1;
                        self.regular.insert(key, Some(self.sequence));
                        assert(self@ == after_discovery(before, *request));
                    }
                }
            }
        }
        assert(requests@.take(requests@.len() as int) == requests@);
    }

    fn place_at_front(&self, request: &JsonValue) -> (r: Option<i64>)
        requires
            self.wf(),
        ensures
            r == front_place(self@, *request),
    {
        match unique_key(request) {
            Some(key) => {
                if self.is_handled(key.as_str()) || self.is_in_progress(key.as_str()) {
                    None
                } else {
                    self.forefront.number(key.as_str())
                }
            },
            None => None,
        }
    }

    fn place_at_back(&self, request: &JsonValue) -> (r: Option<i64>)
        requires
            self.wf(),
        ensures
            front_place(self@, *request) is None ==> r == back_place(self@, *request),
    {
        match unique_key(request) {
            Some(key) => {
                if self.is_handled(key.as_str()) || self.is_in_progress(key.as_str()) {
                    None
                } else {
                    self.regular.number(key.as_str())
                }
            },
            None => None,
        }
    }

    /// Replaces the requests in memory by those that were read from disk and wait
    /// to be handed out.
    pub fn refresh_cache(&mut self, requests: Vec<JsonValue>)
        requires
            old(self).wf(),
        ensures
            final(self).wf(),
            is_refreshed(old(self)@, requests@, final(self)@.cache),
            final(self)@ == (QueueView {
                cache: final(self)@.cache,
                needs_refresh: false,
                ..old(self)@
            }),
    {
        let ghost q = self@;
        let ghost all = requests@;
        let ghost at_front = |r: JsonValue| front_place(q, r) is Some;
        let ghost at_back = |r: JsonValue| back_place(q, r) is Some;
        let mut front_keys: Vec<Descending> = Vec::new();
        let mut front: Vec<JsonValue> = Vec::new();
        let mut back_keys: Vec<i64> = Vec::new();
        let mut back: Vec<JsonValue> = Vec::new();
        let mut rest: VecDeque<JsonValue> = VecDeque::new();
        let mut source = requests;
        while source.len() > 0
            invariant
                source@ + rest@ == all,
            decreases source@.len(),
        {
            if let Some(item) = source.pop() {
                rest.push_front(item);
            }
        }
        assert(rest@ == all);
        let ghost mut done: int = 0;
        proof {
            reveal(Seq::filter);
            assert(all.take(0).filter(at_front) == Seq::<JsonValue>::empty());
            assert(all.take(0).filter(at_back) == Seq::<JsonValue>::empty());
            assert(front_ranks(q, all.take(0)) == Seq::<Descending>::empty());
            assert(back_ranks(q, all.take(0)) == Seq::<i64>::empty());
        }
        while rest.len() > 0
            invariant
                self.wf(),
                self@ == q,
                at_front == (|r: JsonValue| front_place(q, r) is Some),
                at_back == (|r: JsonValue| back_place(q, r) is Some),
                0 <= done <= all.len(),
                rest@ == all.skip(done),
                front@ == front_requests(q, all.take(done)),
                front_keys@ == front_ranks(q, all.take(done)),
                back@ == back_requests(q, all.take(done)),
                back_keys@ == back_ranks(q, all.take(done)),
            decreases rest@.len(),
        {
            if let Some(request) = rest.pop_front() {
                proof {
                    assert(request == all[done]);
                    assert(all.skip(done).skip(1) == all.skip(done + 1));
                    let seen = all.take(done);
                    assert(all.take(done + 1) == seen.push(request));
                    seen.lemma_filter_push(request, at_front);
                    seen.lemma_filter_push(request, at_back);
                    let f = |r: JsonValue| Descending(front_place(q, r)->0);
                    let g = |r: JsonValue| back_place(q, r)->0;
                    assert(seen.filter(at_front).push(request).map_values(f) == seen.filter(
                        at_front,
                    ).map_values(f).push(f(request)));
                    assert(seen.filter(at_back).push(request).map_values(g) == seen.filter(
                        at_back,
                    ).map_values(g).push(g(request)));
                    done = done + 1;
                }
                if let Some(place) = self.place_at_front(&request) {
                    front_keys.push(Descending(place));
                    front.push(request);
                } else if let Some(place) = self.place_at_back(&request) {
                    back_keys.push(place);
                    back.push(request);
                }
            }
        }
        assert(all.take(done) == all);
        let front_order = stable_order(front_keys.as_slice());
        let back_order = stable_order(back_keys.as_slice());
        proof {
            crate::order::lemma_order_distinct(front_keys@, front_order@);
            crate::order::lemma_order_distinct(back_keys@, back_order@);
        }
        let mut sorted = arrange(front, front_order.as_slice());
        let mut tail = arrange(back, back_order.as_slice());
        sorted.append(&mut tail);
        let ghost full = arranged(front_requests(q, all), front_order@) + arranged(
            back_requests(q, all),
            back_order@,
        );
        assert(sorted@ == full);
        if sorted.len() > MAX_REQUESTS_IN_CACHE {
            sorted.truncate(MAX_REQUESTS_IN_CACHE);
        }
        assert(sorted@ == capped(full, Some(MAX_REQUESTS_IN_CACHE)));
        let ghost kept = sorted@;
        let mut cache: VecDeque<JsonValue> = VecDeque::new();
        while sorted.len() > 0
            invariant
                sorted@ + cache@ == kept,
            decreases sorted@.len(),
        {
            if let Some(item) = sorted.pop() {
                cache.push_front(item);
            }
        }
        assert(cache@ == kept);
        self.cache = cache;
        self.needs_refresh = false;
        assert(is_refreshed(q, all, self@.cache)) by {
            assert(sorts(front_ranks(q, all), front_order@));
            assert(sorts(back_ranks(q, all), back_order@));
        }
    }
}

} // verus!
