//! What holds of a request queue over any run of operations: what waits is handed
//! out in its order, and nothing that was handed out comes out again unasked.

use vstd::prelude::*;

use crate::clock::Timestamp;
use crate::json::JsonValue;
use crate::key_listing::capped;
use crate::models::RequestQueueMetadata;
use crate::order::{arranged, lemma_order_distinct, sorts};
use crate::queue_laws::{
    consistent, law_add_keeps_order, law_fetch_keeps_order, law_handled_keeps_order,
    law_reclaim_keeps_order, law_refresh_keeps_order, law_refreshed_cache_is_in_order,
};
use crate::request_queue::{
    add_outcome, after_add, after_discovery, after_fetch, after_handled, after_reclaim,
    back_place, back_ranks, back_requests, cleared, fetchable, fetched, front_place, front_ranks,
    front_requests, is_queued, is_refreshed, keeps_state, opened, place_left, queue_is_empty,
    room_for, stores, touched, unique_key_of, without, AddOutcome, QueueView, RequestQueueState,
    MAX_REQUESTS_IN_CACHE,
};

verus! {

// ---------------------------------------------------------------------------
// What is held in memory
// ---------------------------------------------------------------------------

/// Whether every request that waits has a place, none beyond the last that was
/// given.
pub open spec fn places_known(q: QueueView) -> bool {
    &&& forall|k: Seq<char>| #[trigger]
        q.regular.dom().contains(k) ==> q.regular[k] is Some && q.regular[k]->0 <= q.sequence
    &&& forall|k: Seq<char>| #[trigger]
        q.forefront.dom().contains(k) ==> q.forefront[k] is Some && q.forefront[k]->0
            <= q.forefront_sequence
}

/// The key of the request number `i` in memory.
pub open spec fn key_at(q: QueueView, i: int) -> Seq<char> {
    unique_key_of(q.cache[i])->0
}

/// Whether a request with the given key is in memory.
pub open spec fn is_held(q: QueueView, key: Seq<char>) -> bool {
    exists|i: int|
        0 <= i < q.cache.len() && unique_key_of(#[trigger] q.cache[i]) == Some(key)
}

/// Whether the place of one request that waits is at least as good as that of
/// another: at the front the later one, otherwise the earlier one, and the front
/// before all others.
pub open spec fn goes_first(q: QueueView, a: Seq<char>, b: Seq<char>) -> bool {
    if q.forefront.dom().contains(b) {
        q.forefront.dom().contains(a) && q.forefront[a]->0 >= q.forefront[b]->0
    } else {
        q.forefront.dom().contains(a) || q.regular[a]->0 <= q.regular[b]->0
    }
}

/// Whether what is in memory is what waits, each request once and in the order of
/// the places.
pub open spec fn holds_what_waits(q: QueueView) -> bool {
    &&& forall|i: int|
        0 <= i < q.cache.len() ==> unique_key_of(#[trigger] q.cache[i]) is Some && is_queued(
            q,
            key_at(q, i),
        )
    &&& forall|i: int, j: int|
        0 <= i < j < q.cache.len() ==> #[trigger] key_at(q, i) != #[trigger] key_at(q, j)
            && goes_first(q, key_at(q, i), key_at(q, j))
    &&& forall|k: Seq<char>| #[trigger] is_queued(q, k) ==> is_held(q, k)
}

/// Whether the places are known and, unless the requests have to be read from disk
/// again, what is in memory is what waits.
pub open spec fn in_step(q: QueueView) -> bool {
    &&& places_known(q)
    &&& !q.needs_refresh ==> holds_what_waits(q)
}

proof fn lemma_first_is_fetched(q: QueueView)
    requires
        consistent(q),
        holds_what_waits(q),
    ensures
        q.cache.len() == 0 ==> fetched(q) == (None::<JsonValue>, q),
        q.cache.len() > 0 ==> fetched(q) == (
            Some(q.cache[0]),
            after_fetch(QueueView { cache: q.cache.skip(1), ..q }, key_at(q, 0)),
        ),
{
    if q.cache.len() > 0 {
        assert(is_queued(q, key_at(q, 0)));
        assert(fetchable(q, q.cache[0]));
    }
}

/// While nothing has to be read from disk, a fetch gives nothing exactly where
/// nothing waits; otherwise it gives the request with the best place: the one that
/// was put to the front last, or, where none was, the one that was put to the end
/// first.
pub proof fn law_fetch_takes_the_best_place(q: QueueView)
    requires
        consistent(q),
        in_step(q),
        !q.needs_refresh,
    ensures
        fetched(q).0 is None <==> forall|k: Seq<char>| !#[trigger] is_queued(q, k),
        fetched(q).0 matches Some(request) ==> {
            let key = unique_key_of(request)->0;
            &&& unique_key_of(request) is Some
            &&& is_queued(q, key)
            &&& forall|k: Seq<char>| #[trigger] is_queued(q, k) ==> goes_first(q, key, k)
            &&& q.forefront.dom().contains(key) ==> forall|k: Seq<char>| #[trigger]
                q.forefront.dom().contains(k) ==> q.forefront[k]->0 <= q.forefront[key]->0
            &&& !q.forefront.dom().contains(key) ==> (forall|k: Seq<char>|
                !#[trigger] q.forefront.dom().contains(k)) && (forall|k: Seq<char>| #[trigger]
                q.regular.dom().contains(k) ==> q.regular[key]->0 <= q.regular[k]->0)
        },
{
    lemma_first_is_fetched(q);
    if q.cache.len() == 0 {
        assert forall|k: Seq<char>| !#[trigger] is_queued(q, k) by {
            if is_queued(q, k) {
                assert(is_held(q, k));
            }
        }
    } else {
        let key = key_at(q, 0);
        assert(is_queued(q, key));
        assert forall|k: Seq<char>| #[trigger] is_queued(q, k) implies goes_first(q, key, k) by {
            assert(is_held(q, k));
            let i = choose|i: int|
                0 <= i < q.cache.len() && unique_key_of(#[trigger] q.cache[i]) == Some(k);
            assert(key_at(q, i) == k);
            if i > 0 {
                assert(key_at(q, 0) != key_at(q, i));
            }
        }
        assert forall|k: Seq<char>| #[trigger] q.forefront.dom().contains(k) implies {
            &&& q.forefront.dom().contains(key)
            &&& q.forefront[k]->0 <= q.forefront[key]->0
        } by {
            assert(is_queued(q, k));
        }
        if !q.forefront.dom().contains(key) {
            assert forall|k: Seq<char>| #[trigger] q.regular.dom().contains(k) implies q.regular[key]->0
                <= q.regular[k]->0 by {
                assert(is_queued(q, k));
                assert(!q.forefront.dom().contains(k));
            }
        }
    }
}

/// While nothing has to be read from disk, a queue is empty exactly where a fetch
/// gives nothing and nothing is in progress.
pub proof fn law_empty_queue_gives_nothing(q: QueueView)
    requires
        consistent(q),
        in_step(q),
        !q.needs_refresh,
    ensures
        queue_is_empty(q) <==> fetched(q).0 is None && q.in_progress.len() == 0,
{
    law_fetch_takes_the_best_place(q);
    if queue_is_empty(q) {
        if q.in_progress.len() > 0 {
            assert(q.in_progress.contains(q.in_progress[0]));
            assert(q.handled.contains(q.in_progress[0]));
        }
        assert forall|k: Seq<char>| !#[trigger] is_queued(q, k) by {
            if is_queued(q, k) {
                assert(q.handled.contains(k));
            }
        }
    }
}

/// Handing out a request keeps the memory in step.
pub proof fn law_fetch_keeps_step(q: QueueView)
    requires
        consistent(q),
        in_step(q),
        !q.needs_refresh,
    ensures
        in_step(fetched(q).1),
        !fetched(q).1.needs_refresh,
{
    lemma_first_is_fetched(q);
    if q.cache.len() > 0 {
        let key = key_at(q, 0);
        let a = fetched(q).1;
        assert(a.cache == q.cache.skip(1));
        assert forall|i: int| 0 <= i < a.cache.len() implies unique_key_of(
            #[trigger] a.cache[i],
        ) is Some && is_queued(a, key_at(a, i)) && key_at(a, i) == key_at(q, i + 1) by {
            assert(a.cache[i] == q.cache[i + 1]);
            assert(key_at(q, 0) != key_at(q, i + 1));
            assert(is_queued(q, key_at(q, i + 1)));
        }
        assert forall|i: int, j: int| 0 <= i < j < a.cache.len() implies #[trigger] key_at(a, i)
            != #[trigger] key_at(a, j) && goes_first(a, key_at(a, i), key_at(a, j)) by {
            assert(a.cache[i] == q.cache[i + 1] && a.cache[j] == q.cache[j + 1]);
            assert(key_at(q, 0) != key_at(q, i + 1) && key_at(q, 0) != key_at(q, j + 1));
            assert(key_at(q, i + 1) != key_at(q, j + 1));
            assert(goes_first(q, key_at(q, i + 1), key_at(q, j + 1)));
            assert(is_queued(q, key_at(q, i + 1)) && is_queued(q, key_at(q, j + 1)));
        }
        assert forall|k: Seq<char>| #[trigger] is_queued(a, k) implies is_held(a, k) by {
            assert(is_queued(q, k) && k != key);
            assert(is_held(q, k));
            let i = choose|i: int|
                0 <= i < q.cache.len() && unique_key_of(#[trigger] q.cache[i]) == Some(k);
            assert(a.cache[i - 1] == q.cache[i]);
        }
    }
}

proof fn lemma_put_front_in_step(q: QueueView, a: QueueView, key: Seq<char>, request: JsonValue)
    requires
        consistent(q),
        in_step(q),
        !is_queued(q, key),
        unique_key_of(request) == Some(key),
        q.forefront_sequence < i64::MAX,
        a.regular == q.regular,
        a.forefront == q.forefront.insert(key, Some((q.forefront_sequence + 1) as i64)),
        a.sequence == q.sequence,
        a.forefront_sequence == q.forefront_sequence + 1,
        a.cache == seq![request] + q.cache,
        a.needs_refresh == q.needs_refresh,
    ensures
        in_step(a),
{
    if !a.needs_refresh {
        assert forall|i: int| 0 <= i < a.cache.len() implies unique_key_of(
            #[trigger] a.cache[i],
        ) is Some && is_queued(a, key_at(a, i)) by {
            if i > 0 {
                assert(a.cache[i] == q.cache[i - 1]);
                assert(is_queued(q, key_at(q, i - 1)));
            }
        }
        assert forall|i: int, j: int| 0 <= i < j < a.cache.len() implies #[trigger] key_at(a, i)
            != #[trigger] key_at(a, j) && goes_first(a, key_at(a, i), key_at(a, j)) by {
            assert(a.cache[j] == q.cache[j - 1]);
            assert(is_queued(q, key_at(q, j - 1)));
            if i > 0 {
                assert(a.cache[i] == q.cache[i - 1]);
                assert(is_queued(q, key_at(q, i - 1)));
                assert(key_at(q, i - 1) != key_at(q, j - 1));
                assert(goes_first(q, key_at(q, i - 1), key_at(q, j - 1)));
            }
        }
        assert forall|k: Seq<char>| #[trigger] is_queued(a, k) implies is_held(a, k) by {
            if k == key {
                assert(a.cache[0] == request);
            } else {
                assert(is_queued(q, k));
                assert(is_held(q, k));
                let i = choose|i: int|
                    0 <= i < q.cache.len() && unique_key_of(#[trigger] q.cache[i]) == Some(k);
                assert(a.cache[i + 1] == q.cache[i]);
            }
        }
    }
}

proof fn lemma_put_back_in_step(q: QueueView, a: QueueView, key: Seq<char>, request: JsonValue)
    requires
        consistent(q),
        in_step(q),
        !is_queued(q, key),
        unique_key_of(request) == Some(key),
        q.sequence < i64::MAX,
        a.forefront == q.forefront,
        a.regular == q.regular.insert(key, Some((q.sequence + 1) as i64)),
        a.forefront_sequence == q.forefront_sequence,
        a.sequence == q.sequence + 1,
        a.cache == q.cache.push(request),
        a.needs_refresh == q.needs_refresh,
    ensures
        in_step(a),
{
    if !a.needs_refresh {
        assert forall|i: int| 0 <= i < a.cache.len() implies unique_key_of(
            #[trigger] a.cache[i],
        ) is Some && is_queued(a, key_at(a, i)) by {
            if i < q.cache.len() {
                assert(a.cache[i] == q.cache[i]);
                assert(is_queued(q, key_at(q, i)));
            }
        }
        assert forall|i: int, j: int| 0 <= i < j < a.cache.len() implies #[trigger] key_at(a, i)
            != #[trigger] key_at(a, j) && goes_first(a, key_at(a, i), key_at(a, j)) by {
            assert(a.cache[i] == q.cache[i]);
            assert(is_queued(q, key_at(q, i)));
            if j < q.cache.len() {
                assert(a.cache[j] == q.cache[j]);
                assert(is_queued(q, key_at(q, j)));
                assert(key_at(q, i) != key_at(q, j));
                assert(goes_first(q, key_at(q, i), key_at(q, j)));
            }
        }
        assert forall|k: Seq<char>| #[trigger] is_queued(a, k) implies is_held(a, k) by {
            if k == key {
                assert(a.cache[q.cache.len() as int] == request);
            } else {
                assert(is_queued(q, k));
                assert(is_held(q, k));
                let i = choose|i: int|
                    0 <= i < q.cache.len() && unique_key_of(#[trigger] q.cache[i]) == Some(k);
                assert(a.cache[i] == q.cache[i]);
            }
        }
    }
}

/// Adding a request keeps the memory in step.
pub proof fn law_add_keeps_step(q: QueueView, key: Seq<char>, request: JsonValue, forefront: bool)
    requires
        consistent(q),
        in_step(q),
        room_for(q, key, forefront),
        unique_key_of(request) == Some(key),
    ensures
        in_step(after_add(q, key, request, forefront)),
{
    let a = after_add(q, key, request, forefront);
    if add_outcome(q, key, forefront) == AddOutcome::New {
        if forefront {
            lemma_put_front_in_step(q, a, key, request);
        } else {
            lemma_put_back_in_step(q, a, key, request);
        }
    }
}

/// Giving a request back keeps the memory in step.
pub proof fn law_reclaim_keeps_step(
    q: QueueView,
    key: Seq<char>,
    request: JsonValue,
    forefront: bool,
    now: Timestamp,
)
    requires
        consistent(q),
        in_step(q),
        q.in_progress.contains(key),
        unique_key_of(request) == Some(key),
        place_left(q, forefront),
    ensures
        in_step(after_reclaim(q, key, request, forefront, now)),
{
    let a = after_reclaim(q, key, request, forefront, now);
    assert(!is_queued(q, key));
    if forefront {
        lemma_put_front_in_step(q, a, key, request);
    } else {
        lemma_put_back_in_step(q, a, key, request);
    }
}

proof fn lemma_same_memory(q: QueueView, a: QueueView)
    requires
        in_step(q),
        a.regular == q.regular,
        a.forefront == q.forefront,
        a.sequence == q.sequence,
        a.forefront_sequence == q.forefront_sequence,
        a.cache == q.cache,
        a.needs_refresh == q.needs_refresh,
    ensures
        in_step(a),
{
    if !a.needs_refresh {
        assert forall|i: int| 0 <= i < a.cache.len() implies unique_key_of(
            #[trigger] a.cache[i],
        ) is Some && is_queued(a, key_at(a, i)) by {
            assert(unique_key_of(q.cache[i]) is Some);
            assert(is_queued(q, key_at(q, i)));
        }
        assert forall|i: int, j: int| 0 <= i < j < a.cache.len() implies #[trigger] key_at(a, i)
            != #[trigger] key_at(a, j) && goes_first(a, key_at(a, i), key_at(a, j)) by {
            assert(key_at(q, i) != key_at(q, j));
        }
        assert forall|k: Seq<char>| #[trigger] is_queued(a, k) implies is_held(a, k) by {
            assert(is_queued(q, k));
            assert(is_held(q, k));
        }
    }
}

/// Marking a request as handled keeps the memory in step.
pub proof fn law_handled_keeps_step(q: QueueView, key: Seq<char>, now: Timestamp)
    requires
        in_step(q),
    ensures
        in_step(after_handled(q, key, now)),
{
    lemma_same_memory(q, after_handled(q, key, now));
}

/// A queue that was emptied has its memory in step; so has one that was opened
/// again, and one that took in a request from disk before any was read into memory.
pub proof fn law_new_queue_is_in_step(
    q: QueueView,
    state: RequestQueueState,
    metadata: RequestQueueMetadata,
    request: JsonValue,
)
    ensures
        in_step(cleared(q)),
        places_known(q) && keeps_state(q, state) ==> in_step(opened(metadata, state)),
        places_known(q) && q.sequence < i64::MAX && q.needs_refresh ==> in_step(
            after_discovery(q, request),
        ),
{
}

/// A request that is added to the front gets a place before all others there are,
/// one that is added to the end a place behind all others. The others keep theirs.
pub proof fn law_added_request_takes_its_place(
    q: QueueView,
    key: Seq<char>,
    request: JsonValue,
    forefront: bool,
)
    requires
        consistent(q),
        places_known(q),
        room_for(q, key, forefront),
        stores(add_outcome(q, key, forefront)),
    ensures
        ({
            let a = after_add(q, key, request, forefront);
            &&& is_queued(a, key)
            &&& forall|k: Seq<char>| #[trigger]
                is_queued(q, k) && k != key ==> is_queued(a, k) && (if forefront {
                    goes_first(a, key, k) && !goes_first(a, k, key)
                } else {
                    goes_first(a, k, key) && !goes_first(a, key, k)
                })
            &&& forall|j: Seq<char>, k: Seq<char>|
                is_queued(q, j) && is_queued(q, k) && j != key && k != key ==> (
                #[trigger] goes_first(a, j, k) <==> goes_first(q, j, k))
        }),
{
}

// ---------------------------------------------------------------------------
// Reading from disk
// ---------------------------------------------------------------------------

/// Whether no two documents have the same key.
pub open spec fn distinct_keys(requests: Seq<JsonValue>) -> bool {
    forall|i: int, j: int|
        0 <= i < j < requests.len() && unique_key_of(#[trigger] requests[i]) is Some
            ==> unique_key_of(requests[i]) != unique_key_of(#[trigger] requests[j])
}

/// Whether the documents on disk are those of the queue: one to a key, and one for
/// every request that waits.
pub open spec fn documents_of(q: QueueView, requests: Seq<JsonValue>) -> bool {
    &&& distinct_keys(requests)
    &&& forall|k: Seq<char>| #[trigger]
        is_queued(q, k) ==> exists|i: int|
            0 <= i < requests.len() && unique_key_of(#[trigger] requests[i]) == Some(k)
}

/// How many requests wait.
pub open spec fn waiting(q: QueueView) -> nat {
    q.regular.dom().len() + q.forefront.dom().len()
}

proof fn lemma_filter_distinct_keys(requests: Seq<JsonValue>, keep: spec_fn(JsonValue) -> bool)
    requires
        distinct_keys(requests),
    ensures
        distinct_keys(requests.filter(keep)),
    decreases requests.len(),
{
    reveal(Seq::filter);
    if requests.len() > 0 {
        let front = requests.drop_last();
        let last = requests.last();
        assert forall|i: int, j: int|
            0 <= i < j < front.len() && unique_key_of(#[trigger] front[i]) is Some implies unique_key_of(
            front[i],
        ) != unique_key_of(#[trigger] front[j]) by {
            assert(unique_key_of(requests[i]) != unique_key_of(requests[j]));
        }
        lemma_filter_distinct_keys(front, keep);
        let kept = front.filter(keep);
        if keep(last) {
            let all = kept.push(last);
            assert(requests.filter(keep) == all);
            assert forall|i: int, j: int|
                0 <= i < j < all.len() && unique_key_of(#[trigger] all[i]) is Some implies unique_key_of(
                all[i],
            ) != unique_key_of(#[trigger] all[j]) by {
                assert(all[i] == kept[i]);
                if j == kept.len() {
                    assert(kept.contains(kept[i]));
                    front.lemma_filter_contains_rev(keep, kept[i]);
                    let p = choose|p: int| 0 <= p < front.len() && front[p] == kept[i];
                    assert(requests[p] == kept[i]);
                    assert(requests[requests.len() - 1] == last);
                } else {
                    assert(all[j] == kept[j]);
                }
            }
        }
    }
}

/// A cache that was read from disk, before it was cut to what fits.
spec fn full_cache(
    q: QueueView,
    requests: Seq<JsonValue>,
    x: Seq<usize>,
    y: Seq<usize>,
) -> Seq<JsonValue> {
    arranged(front_requests(q, requests), x) + arranged(back_requests(q, requests), y)
}

proof fn lemma_full_cache(
    q: QueueView,
    requests: Seq<JsonValue>,
    x: Seq<usize>,
    y: Seq<usize>,
)
    requires
        consistent(q),
        places_known(q),
        distinct_keys(requests),
        requests.len() <= usize::MAX,
        sorts(front_ranks(q, requests), x),
        sorts(back_ranks(q, requests), y),
    ensures
        ({
            let full = full_cache(q, requests, x, y);
            &&& forall|i: int|
                0 <= i < full.len() ==> unique_key_of(#[trigger] full[i]) is Some && is_queued(
                    q,
                    unique_key_of(full[i])->0,
                )
            &&& distinct_keys(full)
            &&& full.len() <= waiting(q)
            &&& forall|i: int|
                0 <= i < requests.len() && unique_key_of(#[trigger] requests[i]) is Some
                    && is_queued(q, unique_key_of(requests[i])->0) ==> full.contains(requests[i])
        }),
{
    let full = full_cache(q, requests, x, y);
    let front = front_requests(q, requests);
    let back = back_requests(q, requests);
    let at_front = |r: JsonValue| front_place(q, r) is Some;
    let at_back = |r: JsonValue| back_place(q, r) is Some;
    lemma_order_distinct(front_ranks(q, requests), x);
    lemma_order_distinct(back_ranks(q, requests), y);
    lemma_filter_distinct_keys(requests, at_front);
    lemma_filter_distinct_keys(requests, at_back);
    requests.lemma_filter_len(at_front);
    requests.lemma_filter_len(at_back);
    assert forall|i: int| 0 <= i < full.len() implies unique_key_of(#[trigger] full[i]) is Some
        && is_queued(q, unique_key_of(full[i])->0) && (if i < x.len() {
        &&& x[i] < front.len()
        &&& full[i] == front[x[i] as int]
        &&& front_place(q, full[i]) is Some
    } else {
        &&& y[i - x.len()] < back.len()
        &&& full[i] == back[y[i - x.len()] as int]
        &&& front_place(q, full[i]) is None
    }) by {
        if i < x.len() {
            assert(x[i] < front_ranks(q, requests).len());
            requests.lemma_filter_pred(at_front, x[i] as int);
        } else {
            assert(y[i - x.len()] < back_ranks(q, requests).len());
            requests.lemma_filter_pred(at_back, y[i - x.len()] as int);
        }
    }
    assert forall|i: int, j: int|
        0 <= i < j < full.len() && unique_key_of(#[trigger] full[i]) is Some implies unique_key_of(
        full[i],
    ) != unique_key_of(#[trigger] full[j]) by {
        if j < x.len() {
            assert(x[i] != x[j]);
            if x[i] < x[j] {
                assert(unique_key_of(front[x[i] as int]) != unique_key_of(front[x[j] as int]));
            } else {
                assert(unique_key_of(front[x[j] as int]) != unique_key_of(front[x[i] as int]));
            }
        } else if i >= x.len() {
            let m = i - x.len();
            let n = j - x.len();
            assert(y[m] != y[n]);
            if y[m] < y[n] {
                assert(unique_key_of(back[y[m] as int]) != unique_key_of(back[y[n] as int]));
            } else {
                assert(unique_key_of(back[y[n] as int]) != unique_key_of(back[y[m] as int]));
            }
        }
    }
    assert forall|i: int|
        0 <= i < requests.len() && unique_key_of(#[trigger] requests[i]) is Some && is_queued(
            q,
            unique_key_of(requests[i])->0,
        ) implies full.contains(requests[i]) by {
        let r = requests[i];
        let k = unique_key_of(r)->0;
        assert(fetchable(q, r));
        if q.forefront.dom().contains(k) {
            assert(at_front(r));
            requests.lemma_filter_contains(at_front, i);
            let p = choose|p: int| 0 <= p < front.len() && front[p] == r;
            assert(front_ranks(q, requests).len() == front.len());
            assert(x.contains(p as usize));
            let m = choose|m: int| 0 <= m < x.len() && x[m] == p as usize;
            assert(full[m] == r);
        } else {
            assert(at_back(r));
            requests.lemma_filter_contains(at_back, i);
            let p = choose|p: int| 0 <= p < back.len() && back[p] == r;
            assert(back_ranks(q, requests).len() == back.len());
            assert(y.contains(p as usize));
            let m = choose|m: int| 0 <= m < y.len() && y[m] == p as usize;
            assert(full[x.len() + m] == r);
        }
    }
    let keys = full.map_values(|r: JsonValue| unique_key_of(r)->0);
    assert(keys.no_duplicates()) by {
        assert forall|i: int, j: int| 0 <= i < j < keys.len() implies keys[i] != keys[j] by {
            assert(unique_key_of(full[i]) != unique_key_of(full[j]));
        }
    }
    keys.unique_seq_to_set();
    let all = q.regular.dom().union(q.forefront.dom());
    assert(keys.to_set().subset_of(all)) by {
        assert forall|k: Seq<char>| keys.to_set().contains(k) implies all.contains(k) by {
            let i = choose|i: int| 0 <= i < keys.len() && keys[i] == k;
            assert(is_queued(q, unique_key_of(full[i])->0));
        }
    }
    vstd::set_lib::lemma_len_subset(keys.to_set(), all);
    vstd::set_lib::lemma_len_union(q.regular.dom(), q.forefront.dom());
}

/// Where no more requests wait than fit in memory, reading the documents of the
/// queue from disk brings the memory in step.
pub proof fn law_refresh_brings_in_step(
    q: QueueView,
    requests: Seq<JsonValue>,
    cache: Seq<JsonValue>,
)
    requires
        consistent(q),
        places_known(q),
        is_refreshed(q, requests, cache),
        requests.len() <= usize::MAX,
        documents_of(q, requests),
        waiting(q) <= MAX_REQUESTS_IN_CACHE,
    ensures
        in_step(QueueView { cache, needs_refresh: false, ..q }),
{
    let a = QueueView { cache, needs_refresh: false, ..q };
    let (x, y) = choose|x: Seq<usize>, y: Seq<usize>|
        {
            &&& #[trigger] sorts(front_ranks(q, requests), x)
            &&& #[trigger] sorts(back_ranks(q, requests), y)
            &&& cache == capped(
                arranged(front_requests(q, requests), x) + arranged(back_requests(q, requests), y),
                Some(MAX_REQUESTS_IN_CACHE),
            )
        };
    lemma_full_cache(q, requests, x, y);
    assert(cache == full_cache(q, requests, x, y));
    assert forall|i: int| 0 <= i < a.cache.len() implies unique_key_of(
        #[trigger] a.cache[i],
    ) is Some && is_queued(a, key_at(a, i)) by {
        assert(is_queued(q, unique_key_of(cache[i])->0));
    }
    assert forall|i: int, j: int| 0 <= i < j < a.cache.len() implies #[trigger] key_at(a, i)
        != #[trigger] key_at(a, j) && goes_first(a, key_at(a, i), key_at(a, j)) by {
        assert(unique_key_of(cache[i]) != unique_key_of(cache[j]));
        assert(is_queued(q, unique_key_of(cache[i])->0));
        assert(is_queued(q, unique_key_of(cache[j])->0));
        assert(fetchable(q, cache[i]) && fetchable(q, cache[j]));
        law_refreshed_cache_is_in_order(q, requests, cache, i, j);
    }
    assert forall|k: Seq<char>| #[trigger] is_queued(a, k) implies is_held(a, k) by {
        assert(is_queued(q, k));
        let i = choose|i: int|
            0 <= i < requests.len() && unique_key_of(#[trigger] requests[i]) == Some(k);
        assert(cache.contains(requests[i]));
        let j = choose|j: int| 0 <= j < cache.len() && cache[j] == requests[i];
        assert(a.cache[j] == requests[i]);
    }
}

// ---------------------------------------------------------------------------
// Runs
// ---------------------------------------------------------------------------

/// What can be done to a queue between two purges.
pub ghost enum QueueOp {
    Add { request: JsonValue, forefront: bool },
    Fetch,
    Handled { key: Seq<char>, now: Timestamp },
    Reclaim { request: JsonValue, forefront: bool, now: Timestamp },
    Refresh { requests: Seq<JsonValue>, cache: Seq<JsonValue> },
    Touch { now: Timestamp },
}

/// The queue after an operation. One that does not apply changes nothing.
pub open spec fn after_op(q: QueueView, op: QueueOp) -> QueueView {
    match op {
        QueueOp::Add { request, forefront } => match unique_key_of(request) {
            Some(k) => after_add(q, k, request, forefront),
            None => q,
        },
        QueueOp::Fetch => fetched(q).1,
        QueueOp::Handled { key, now } => if q.in_progress.contains(key) {
            after_handled(q, key, now)
        } else {
            q
        },
        QueueOp::Reclaim { request, forefront, now } => match unique_key_of(request) {
            Some(k) => if q.in_progress.contains(k) {
                after_reclaim(q, k, request, forefront, now)
            } else {
                q
            },
            None => q,
        },
        QueueOp::Refresh { requests, cache } => QueueView { cache, needs_refresh: false, ..q },
        QueueOp::Touch { now } => QueueView { metadata: touched(q.metadata, now), ..q },
    }
}

/// The queue after a run of operations.
pub open spec fn after_ops(q: QueueView, ops: Seq<QueueOp>) -> QueueView
    decreases ops.len(),
{
    if ops.len() == 0 {
        q
    } else {
        after_op(after_ops(q, ops.drop_last()), ops.last())
    }
}

/// Whether an operation may be done: there is room for it, a fetch finds the memory
/// up to date, and what is read from disk are the documents of the queue, of which
/// no more wait than fit in memory.
pub open spec fn may_do(q: QueueView, op: QueueOp) -> bool {
    match op {
        QueueOp::Add { request, forefront } => unique_key_of(request) matches Some(k)
            ==> room_for(q, k, forefront),
        QueueOp::Fetch => !q.needs_refresh,
        QueueOp::Handled { key, now } => q.in_progress.contains(key)
            ==> q.metadata.handled_request_count < usize::MAX,
        QueueOp::Reclaim { request, forefront, now } => unique_key_of(request) matches Some(k)
            ==> q.in_progress.contains(k) ==> place_left(q, forefront),
        QueueOp::Refresh { requests, cache } => {
            &&& is_refreshed(q, requests, cache)
            &&& requests.len() <= usize::MAX
            &&& documents_of(q, requests)
            &&& waiting(q) <= MAX_REQUESTS_IN_CACHE
        },
        QueueOp::Touch { now } => true,
    }
}

/// Whether the operations of a run may be done, each when its turn comes.
pub open spec fn may_run(q: QueueView, ops: Seq<QueueOp>) -> bool {
    forall|n: int|
        0 <= n < ops.len() ==> may_do(after_ops(q, ops.take(n)), #[trigger] ops[n])
}

proof fn lemma_op(q: QueueView, op: QueueOp)
    requires
        consistent(q),
        in_step(q),
        may_do(q, op),
    ensures
        consistent(after_op(q, op)),
        in_step(after_op(q, op)),
{
    match op {
        QueueOp::Add { request, forefront } => {
            if let Some(k) = unique_key_of(request) {
                law_add_keeps_order(q, k, request, forefront);
                law_add_keeps_step(q, k, request, forefront);
            }
        },
        QueueOp::Fetch => {
            law_fetch_keeps_order(q);
            law_fetch_keeps_step(q);
        },
        QueueOp::Handled { key, now } => {
            if q.in_progress.contains(key) {
                law_handled_keeps_order(q, key, now);
                law_handled_keeps_step(q, key, now);
            }
        },
        QueueOp::Reclaim { request, forefront, now } => {
            if let Some(k) = unique_key_of(request) {
                if q.in_progress.contains(k) {
                    law_reclaim_keeps_order(q, k, request, forefront, now);
                    law_reclaim_keeps_step(q, k, request, forefront, now);
                }
            }
        },
        QueueOp::Refresh { requests, cache } => {
            law_refresh_keeps_order(q, requests, cache);
            law_refresh_brings_in_step(q, requests, cache);
        },
        QueueOp::Touch { now } => {
            let a = after_op(q, op);
            lemma_same_memory(q, a);
            assert forall|k: Seq<char>| #[trigger] is_queued(a, k) implies !a.in_progress.contains(k)
                && !a.handled.contains(k) by {
                assert(is_queued(q, k));
            }
            assert forall|i: int|
                0 <= i < a.cache.len() && fetchable(a, #[trigger] a.cache[i]) implies is_queued(
                a,
                unique_key_of(a.cache[i])->0,
            ) by {
                assert(fetchable(q, q.cache[i]));
                assert(is_queued(q, unique_key_of(q.cache[i])->0));
            }
        },
    }
}

/// Whatever is done to a queue, every request stays in one place, and the memory
/// in step. So at any point of a run, while nothing has to be read from disk, a
/// fetch gives nothing exactly where nothing waits, and otherwise the request with
/// the best place.
pub proof fn law_run_keeps_step(q: QueueView, ops: Seq<QueueOp>)
    requires
        consistent(q),
        in_step(q),
        may_run(q, ops),
    ensures
        consistent(after_ops(q, ops)),
        in_step(after_ops(q, ops)),
        !after_ops(q, ops).needs_refresh ==> {
            let a = after_ops(q, ops);
            match fetched(a).0 {
                None => forall|k: Seq<char>| !#[trigger] is_queued(a, k),
                Some(request) => {
                    let key = unique_key_of(request)->0;
                    &&& unique_key_of(request) is Some
                    &&& is_queued(a, key)
                    &&& forall|k: Seq<char>| #[trigger] is_queued(a, k) ==> goes_first(a, key, k)
                },
            }
        },
    decreases ops.len(),
{
    if ops.len() > 0 {
        let front = ops.drop_last();
        assert forall|n: int| 0 <= n < front.len() implies may_do(
            after_ops(q, front.take(n)),
            #[trigger] front[n],
        ) by {
            assert(front.take(n) == ops.take(n));
            assert(front[n] == ops[n]);
        }
        law_run_keeps_step(q, front);
        assert(ops.take(ops.len() - 1) == front);
        assert(may_do(after_ops(q, front), ops[ops.len() - 1]));
        lemma_op(after_ops(q, front), ops.last());
    }
    if !after_ops(q, ops).needs_refresh {
        law_fetch_takes_the_best_place(after_ops(q, ops));
    }
}

/// Whether a request was handed out: it is in progress, or handled.
pub open spec fn is_taken(q: QueueView, key: Seq<char>) -> bool {
    q.in_progress.contains(key) || q.handled.contains(key)
}

/// Whether an operation gives a request back.
pub open spec fn gives_back(op: QueueOp, key: Seq<char>) -> bool {
    op matches QueueOp::Reclaim { request, .. } && unique_key_of(request) == Some(key)
}

proof fn lemma_fetch_keeps_taken(q: QueueView, key: Seq<char>)
    ensures
        is_taken(q, key) ==> is_taken(fetched(q).1, key),
        q.handled == fetched(q).1.handled,
        is_taken(q, key) ==> (fetched(q).0 matches Some(request) ==> unique_key_of(request) != Some(
            key,
        )),
    decreases q.cache.len(),
{
    if q.cache.len() > 0 {
        let request = q.cache[0];
        let rest = QueueView { cache: q.cache.skip(1), ..q };
        if fetchable(q, request) {
            if q.in_progress.contains(key) {
                let i = choose|i: int| 0 <= i < q.in_progress.len() && q.in_progress[i] == key;
                assert(fetched(q).1.in_progress[i] == key);
            }
        } else {
            lemma_fetch_keeps_taken(rest, key);
        }
    }
}

proof fn lemma_without_keeps(keys: Seq<Seq<char>>, gone: Seq<char>, key: Seq<char>)
    requires
        keys.contains(key),
        key != gone,
    ensures
        without(keys, gone).contains(key),
{
    let i = choose|i: int| 0 <= i < keys.len() && keys[i] == key;
    keys.lemma_filter_contains(crate::request_queue::other_than(gone), i);
}

proof fn lemma_op_keeps_taken(q: QueueView, op: QueueOp, key: Seq<char>)
    ensures
        q.handled.contains(key) ==> after_op(q, op).handled.contains(key),
        is_taken(q, key) && !gives_back(op, key) ==> is_taken(after_op(q, op), key),
{
    lemma_fetch_keeps_taken(q, key);
    match op {
        QueueOp::Handled { key: done, now } => {
            if q.in_progress.contains(done) {
                let a = after_op(q, op);
                if q.handled.contains(key) {
                    let i = choose|i: int| 0 <= i < q.handled.len() && q.handled[i] == key;
                    assert(a.handled[i] == key);
                }
                if done == key {
                    assert(a.handled[q.handled.len() as int] == key);
                } else if q.in_progress.contains(key) {
                    lemma_without_keeps(q.in_progress, done, key);
                }
            }
        },
        QueueOp::Reclaim { request, forefront, now } => {
            if let Some(k) = unique_key_of(request) {
                if k != key && q.in_progress.contains(key) {
                    lemma_without_keeps(q.in_progress, k, key);
                }
            }
        },
        _ => {},
    }
}

/// A request that was handled stays so through any run of operations up to a
/// purge: no fetch hands it out again, and adding it again is answered as such and
/// changes nothing.
pub proof fn law_handled_request_never_comes_back(
    q: QueueView,
    ops: Seq<QueueOp>,
    key: Seq<char>,
    again: JsonValue,
    forefront: bool,
)
    requires
        q.handled.contains(key),
    ensures
        ({
            let a = after_ops(q, ops);
            &&& a.handled.contains(key)
            &&& fetched(a).0 matches Some(request) ==> unique_key_of(request) != Some(key)
            &&& add_outcome(a, key, forefront) == AddOutcome::AlreadyHandled
            &&& after_add(a, key, again, forefront) == a
        }),
    decreases ops.len(),
{
    if ops.len() > 0 {
        law_handled_request_never_comes_back(q, ops.drop_last(), key, again, forefront);
        lemma_op_keeps_taken(after_ops(q, ops.drop_last()), ops.last(), key);
    }
    lemma_fetch_keeps_taken(after_ops(q, ops), key);
}

/// A request that was handed out is not handed out again through any run of
/// operations that does not give it back.
pub proof fn law_fetched_request_comes_back_only_reclaimed(
    q: QueueView,
    ops: Seq<QueueOp>,
    key: Seq<char>,
)
    requires
        is_taken(q, key),
        forall|n: int| 0 <= n < ops.len() ==> !gives_back(#[trigger] ops[n], key),
    ensures
        is_taken(after_ops(q, ops), key),
        fetched(after_ops(q, ops)).0 matches Some(request) ==> unique_key_of(request) != Some(key),
    decreases ops.len(),
{
    if ops.len() > 0 {
        let front = ops.drop_last();
        assert forall|n: int| 0 <= n < front.len() implies !gives_back(#[trigger] front[n], key) by {
            assert(front[n] == ops[n]);
        }
        law_fetched_request_comes_back_only_reclaimed(q, front, key);
        assert(!gives_back(ops[ops.len() - 1], key));
        lemma_op_keeps_taken(after_ops(q, front), ops.last(), key);
    }
    lemma_fetch_keeps_taken(after_ops(q, ops), key);
}

// ---------------------------------------------------------------------------
// Giving back
// ---------------------------------------------------------------------------

/// The queue after `n` fetches.
pub open spec fn after_fetches(q: QueueView, n: nat) -> QueueView
    decreases n,
{
    if n == 0 {
        q
    } else {
        fetched(after_fetches(q, (n - 1) as nat)).1
    }
}

/// What the fetch number `n` gives.
pub open spec fn nth_fetched(q: QueueView, n: nat) -> Option<JsonValue> {
    fetched(after_fetches(q, n)).0
}

/// While nothing has to be read from disk, fetches hand out what is in memory, from
/// the first request to the last, and then nothing.
pub proof fn law_fetches_go_through_memory(q: QueueView, n: nat)
    requires
        consistent(q),
        in_step(q),
        !q.needs_refresh,
    ensures
        nth_fetched(q, n) == if n < q.cache.len() {
            Some(q.cache[n as int])
        } else {
            None
        },
{
    lemma_after_fetches(q, n);
    lemma_first_is_fetched(after_fetches(q, n));
}

proof fn lemma_after_fetches(q: QueueView, n: nat)
    requires
        consistent(q),
        in_step(q),
        !q.needs_refresh,
    ensures
        ({
            let a = after_fetches(q, n);
            &&& consistent(a)
            &&& in_step(a)
            &&& !a.needs_refresh
            &&& a.cache == if n < q.cache.len() {
                q.cache.skip(n as int)
            } else {
                Seq::<JsonValue>::empty()
            }
        }),
    decreases n,
{
    if n == 0 {
        assert(q.cache.skip(0) == q.cache);
    } else {
        let b = after_fetches(q, (n - 1) as nat);
        lemma_after_fetches(q, (n - 1) as nat);
        law_fetch_keeps_order(b);
        law_fetch_keeps_step(b);
        lemma_first_is_fetched(b);
        if n - 1 < q.cache.len() {
            assert(q.cache.skip(n - 1).skip(1) == q.cache.skip(n as int));
        }
    }
}

/// A request that is given back to the end comes after all that waited at that
/// moment: its place is beyond all others there, and while nothing has to be read
/// from disk it is handed out right after them, at once where there are none. Given
/// back to the front, its place is before all others, and it is handed out next.
/// The others keep their places.
pub proof fn law_reclaimed_request_has_its_turn(
    q: QueueView,
    key: Seq<char>,
    request: JsonValue,
    forefront: bool,
    now: Timestamp,
)
    requires
        consistent(q),
        in_step(q),
        q.in_progress.contains(key),
        unique_key_of(request) == Some(key),
        place_left(q, forefront),
    ensures
        ({
            let a = after_reclaim(q, key, request, forefront, now);
            &&& is_queued(a, key)
            &&& forall|k: Seq<char>| #[trigger]
                is_queued(q, k) ==> k != key && is_queued(a, k) && (if forefront {
                    goes_first(a, key, k) && !goes_first(a, k, key)
                } else {
                    goes_first(a, k, key) && !goes_first(a, key, k)
                })
            &&& forall|j: Seq<char>, k: Seq<char>|
                is_queued(q, j) && is_queued(q, k) ==> (#[trigger] goes_first(a, j, k)
                    <==> goes_first(q, j, k))
            &&& !q.needs_refresh && forefront ==> nth_fetched(a, 0) == Some(request)
            &&& !q.needs_refresh && !forefront ==> {
                &&& nth_fetched(a, q.cache.len()) == Some(request)
                &&& forall|k: Seq<char>| #[trigger]
                    is_queued(q, k) ==> exists|n: nat|
                        n < q.cache.len() && (#[trigger] nth_fetched(a, n) matches Some(r)
                            && unique_key_of(r) == Some(k))
            }
        }),
{
    let a = after_reclaim(q, key, request, forefront, now);
    assert(!is_queued(q, key));
    law_reclaim_keeps_order(q, key, request, forefront, now);
    law_reclaim_keeps_step(q, key, request, forefront, now);
    assert forall|k: Seq<char>| #[trigger] is_queued(q, k) implies k != key && is_queued(a, k) && (
    if forefront {
        goes_first(a, key, k) && !goes_first(a, k, key)
    } else {
        goes_first(a, k, key) && !goes_first(a, key, k)
    }) by {
        assert(q.forefront.dom().contains(k) || q.regular.dom().contains(k));
    }
    if !q.needs_refresh {
        if forefront {
            law_fetches_go_through_memory(a, 0);
        } else {
            law_fetches_go_through_memory(a, q.cache.len());
            assert(a.cache[q.cache.len() as int] == request);
            assert forall|k: Seq<char>| #[trigger] is_queued(q, k) implies exists|n: nat|
                n < q.cache.len() && (#[trigger] nth_fetched(a, n) matches Some(r)
                    && unique_key_of(r) == Some(k)) by {
                assert(is_held(q, k));
                let i = choose|i: int|
                    0 <= i < q.cache.len() && unique_key_of(#[trigger] q.cache[i]) == Some(k);
                law_fetches_go_through_memory(a, i as nat);
                assert(a.cache[i] == q.cache[i]);
                assert(nth_fetched(a, i as nat) == Some(q.cache[i]));
            }
        }
    }
}

} // verus!
