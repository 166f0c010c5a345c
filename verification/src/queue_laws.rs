//! What the rules of a request queue add up to: every request is in exactly one
//! place, the counts agree with the places, and nothing is handed out twice.

use vstd::prelude::*;

use crate::clock::Timestamp;
use crate::json::JsonValue;
use crate::key_listing::capped;
use crate::models::RequestQueueMetadata;
use crate::order::{arranged, sorts};
use crate::request_queue::{
    add_outcome, after_add, after_discovery, after_fetch, after_handled, after_reclaim,
    back_place, back_ranks, back_requests, cleared, fetchable, fetched, front_place, front_ranks,
    front_requests, is_known, is_queued, is_refreshed, keeps_state, opened, other_than,
    place_left, purged_metadata, queue_is_empty, room_for, says_handled, stores, unique_key_of, without,
    AddOutcome, QueueView, RequestQueueState, MAX_REQUESTS_IN_CACHE,
};

verus! {

/// Whether every request is in one place only, and what is held in memory and
/// may be handed out really waits.
pub open spec fn consistent(q: QueueView) -> bool {
    &&& q.regular.dom().finite()
    &&& q.forefront.dom().finite()
    &&& q.in_progress.no_duplicates()
    &&& q.handled.no_duplicates()
    &&& forall|k: Seq<char>|
        !(#[trigger] q.regular.dom().contains(k) && q.forefront.dom().contains(k))
    &&& forall|k: Seq<char>| #[trigger]
        is_queued(q, k) ==> !q.in_progress.contains(k) && !q.handled.contains(k)
    &&& forall|k: Seq<char>| #[trigger] q.in_progress.contains(k) ==> !q.handled.contains(k)
    &&& forall|i: int|
        0 <= i < q.cache.len() && fetchable(q, #[trigger] q.cache[i]) ==> is_queued(
            q,
            unique_key_of(q.cache[i])->0,
        )
}

/// Whether the description of a queue counts its requests right.
pub open spec fn counted(q: QueueView) -> bool {
    &&& q.metadata.handled_request_count == q.handled.len()
    &&& q.metadata.pending_request_count == q.regular.dom().len() + q.forefront.dom().len()
        + q.in_progress.len()
    &&& q.metadata.total_request_count == q.metadata.handled_request_count
        + q.metadata.pending_request_count
}

proof fn lemma_push_contains<T>(s: Seq<T>, x: T)
    ensures
        forall|y: T|
            #![trigger s.push(x).contains(y)]
            #![trigger s.contains(y)]
            s.push(x).contains(y) == (s.contains(y) || y == x),
{
    assert forall|y: T| s.push(x).contains(y) == (s.contains(y) || y == x) by {
        if s.contains(y) {
            let i = choose|i: int| 0 <= i < s.len() && s[i] == y;
            assert(s.push(x)[i] == y);
        }
        assert(s.push(x)[s.len() as int] == x);
    }
}

proof fn lemma_without(keys: Seq<Seq<char>>, key: Seq<char>)
    requires
        keys.no_duplicates(),
    ensures
        without(keys, key).no_duplicates(),
        forall|k: Seq<char>|
            #![trigger without(keys, key).contains(k)]
            #![trigger keys.contains(k)]
            without(keys, key).contains(k) == (keys.contains(k) && k != key),
        without(keys, key).len() == keys.len() - if keys.contains(key) {
            1int
        } else {
            0
        },
    decreases keys.len(),
{
    reveal(Seq::filter);
    if keys.len() == 0 {
        assert(without(keys, key) == keys);
    } else {
        let front = keys.drop_last();
        let last = keys.last();
        assert(keys == front.push(last));
        lemma_push_contains(front, last);
        lemma_without(front, key);
        front.lemma_filter_push(last, other_than(key));
        assert(!front.contains(last)) by {
            if front.contains(last) {
                let i = choose|i: int| 0 <= i < front.len() && front[i] == last;
                assert(keys[i] == keys[keys.len() - 1]);
            }
        }
        lemma_push_contains(without(front, key), last);
    }
}

/// A queue that was emptied is consistent and holds nothing; where it was purged,
/// its counts agree.
pub proof fn law_emptied_queue(q: QueueView, now: Timestamp)
    ensures
        consistent(cleared(q)),
        queue_is_empty(cleared(q)),
        counted(QueueView { metadata: purged_metadata(q.metadata, now), ..cleared(q) }),
{
    let c = cleared(q);
    assert(c.regular.dom() == Set::<Seq<char>>::empty());
    assert(c.forefront.dom() == Set::<Seq<char>>::empty());
}

/// Adding a request keeps every request in one place and the counts right.
pub proof fn law_add_keeps_order(q: QueueView, key: Seq<char>, request: JsonValue, forefront: bool)
    requires
        consistent(q),
        room_for(q, key, forefront),
        unique_key_of(request) == Some(key),
    ensures
        consistent(after_add(q, key, request, forefront)),
        counted(q) ==> counted(after_add(q, key, request, forefront)),
        is_known(after_add(q, key, request, forefront), key),
{
    let a = after_add(q, key, request, forefront);
    match add_outcome(q, key, forefront) {
        AddOutcome::MoveToFront => {
            assert(a.regular.dom() == q.regular.dom().remove(key));
            assert(a.forefront.dom() == q.forefront.dom().insert(key));
            lemma_cache_front(q, a, key, request);
        },
        AddOutcome::New => {
            if forefront {
                assert(a.forefront.dom() == q.forefront.dom().insert(key));
                lemma_cache_front(q, a, key, request);
            } else {
                assert(a.regular.dom() == q.regular.dom().insert(key));
                lemma_cache_back(q, a, key, request);
            }
        },
        _ => {},
    }
    assert forall|k: Seq<char>| #[trigger] is_queued(a, k) implies !a.in_progress.contains(k)
        && !a.handled.contains(k) by {
        if k != key {
            assert(is_queued(q, k));
        }
    }
}

proof fn lemma_cache_front(q: QueueView, a: QueueView, key: Seq<char>, request: JsonValue)
    requires
        consistent(q),
        unique_key_of(request) == Some(key),
        a.cache == seq![request] + q.cache,
        is_queued(a, key),
        forall|k: Seq<char>| #[trigger] is_queued(q, k) ==> is_queued(a, k),
        forall|k: Seq<char>|
            k != key ==> (#[trigger] a.in_progress.contains(k) || a.handled.contains(k)) == (
            q.in_progress.contains(k) || q.handled.contains(k)),
    ensures
        forall|i: int|
            0 <= i < a.cache.len() && fetchable(a, #[trigger] a.cache[i]) ==> is_queued(
                a,
                unique_key_of(a.cache[i])->0,
            ),
{
    assert forall|i: int|
        0 <= i < a.cache.len() && fetchable(a, #[trigger] a.cache[i]) implies is_queued(
        a,
        unique_key_of(a.cache[i])->0,
    ) by {
        let k = unique_key_of(a.cache[i])->0;
        if i > 0 {
            assert(a.cache[i] == q.cache[i - 1]);
            assert(a.in_progress.contains(k) || !a.in_progress.contains(k));
            if k != key {
                assert(fetchable(q, q.cache[i - 1]));
            }
        }
    }
}

proof fn lemma_cache_back(q: QueueView, a: QueueView, key: Seq<char>, request: JsonValue)
    requires
        consistent(q),
        unique_key_of(request) == Some(key),
        a.cache == q.cache.push(request),
        is_queued(a, key),
        forall|k: Seq<char>| #[trigger] is_queued(q, k) ==> is_queued(a, k),
        forall|k: Seq<char>|
            k != key ==> (#[trigger] a.in_progress.contains(k) || a.handled.contains(k)) == (
            q.in_progress.contains(k) || q.handled.contains(k)),
    ensures
        forall|i: int|
            0 <= i < a.cache.len() && fetchable(a, #[trigger] a.cache[i]) ==> is_queued(
                a,
                unique_key_of(a.cache[i])->0,
            ),
{
    assert forall|i: int|
        0 <= i < a.cache.len() && fetchable(a, #[trigger] a.cache[i]) implies is_queued(
        a,
        unique_key_of(a.cache[i])->0,
    ) by {
        let k = unique_key_of(a.cache[i])->0;
        if i < q.cache.len() {
            assert(a.cache[i] == q.cache[i]);
            assert(a.in_progress.contains(k) || !a.in_progress.contains(k));
            if k != key {
                assert(fetchable(q, q.cache[i]));
            }
        }
    }
}

/// Adding a request that the queue knows already, without asking for the front,
/// changes nothing.
pub proof fn law_adding_twice_changes_nothing(
    q: QueueView,
    key: Seq<char>,
    request: JsonValue,
    forefront: bool,
    again: JsonValue,
)
    ensures
        ({
            let once = after_add(q, key, request, forefront);
            &&& !stores(add_outcome(once, key, false))
            &&& after_add(once, key, again, false) == once
        }),
{
}

/// Handing out a request keeps every request in one place and the counts right.
pub proof fn law_fetch_keeps_order(q: QueueView)
    requires
        consistent(q),
    ensures
        consistent(fetched(q).1),
        counted(q) ==> counted(fetched(q).1),
    decreases q.cache.len(),
{
    if q.cache.len() > 0 {
        let request = q.cache[0];
        let rest = QueueView { cache: q.cache.skip(1), ..q };
        assert forall|i: int|
            0 <= i < rest.cache.len() && fetchable(rest, #[trigger] rest.cache[i]) implies is_queued(
            rest,
            unique_key_of(rest.cache[i])->0,
        ) by {
            assert(rest.cache[i] == q.cache[i + 1]);
            assert(fetchable(q, q.cache[i + 1]));
            assert(is_queued(q, unique_key_of(q.cache[i + 1])->0));
        }
        assert forall|k: Seq<char>| #[trigger] is_queued(rest, k) implies !rest.in_progress.contains(
            k,
        ) && !rest.handled.contains(k) by {
            assert(is_queued(q, k));
        }
        assert(consistent(rest));
        if fetchable(q, request) {
            let key = unique_key_of(request)->0;
            assert(is_queued(q, key));
            lemma_fetch_step(rest, key);
        } else {
            law_fetch_keeps_order(rest);
        }
    }
}

proof fn lemma_fetch_step(q: QueueView, key: Seq<char>)
    requires
        consistent(q),
        is_queued(q, key),
    ensures
        consistent(after_fetch(q, key)),
        counted(q) ==> counted(after_fetch(q, key)),
{
    let a = after_fetch(q, key);
    assert(a.regular.dom() == q.regular.dom().remove(key));
    assert(a.forefront.dom() == q.forefront.dom().remove(key));
    lemma_push_contains(q.in_progress, key);
    assert forall|k: Seq<char>| #[trigger] is_queued(a, k) implies !a.in_progress.contains(k)
        && !a.handled.contains(k) by {
        assert(is_queued(q, k));
    }
    assert forall|i: int|
        0 <= i < a.cache.len() && fetchable(a, #[trigger] a.cache[i]) implies is_queued(
        a,
        unique_key_of(a.cache[i])->0,
    ) by {
        assert(fetchable(q, q.cache[i]));
        assert(is_queued(q, unique_key_of(q.cache[i])->0));
    }
}

/// A request that is handed out was neither handled nor in progress, and is in
/// progress from then on, so it is not handed out again until it is given back.
pub proof fn law_fetched_request_was_waiting(q: QueueView)
    ensures
        fetched(q).0 matches Some(request) ==> {
            let key = unique_key_of(request)->0;
            let after = fetched(q).1;
            &&& unique_key_of(request) is Some
            &&& !q.handled.contains(key)
            &&& !q.in_progress.contains(key)
            &&& after.in_progress.contains(key)
            &&& !is_queued(after, key)
            &&& !fetchable(after, request)
        },
    decreases q.cache.len(),
{
    if q.cache.len() > 0 {
        let request = q.cache[0];
        let rest = QueueView { cache: q.cache.skip(1), ..q };
        if fetchable(q, request) {
            lemma_push_contains(q.in_progress, unique_key_of(request)->0);
        } else {
            law_fetched_request_was_waiting(rest);
        }
    }
}

/// Nothing comes out of a queue exactly where nothing in memory may be handed
/// out.
pub proof fn law_fetch_finds_what_waits(q: QueueView)
    ensures
        fetched(q).0 is Some <==> exists|i: int|
            0 <= i < q.cache.len() && fetchable(q, #[trigger] q.cache[i]),
    decreases q.cache.len(),
{
    if q.cache.len() > 0 {
        let rest = QueueView { cache: q.cache.skip(1), ..q };
        law_fetch_finds_what_waits(rest);
        if !fetchable(q, q.cache[0]) {
            if exists|i: int| 0 <= i < q.cache.len() && fetchable(q, #[trigger] q.cache[i]) {
                let i = choose|i: int|
                    0 <= i < q.cache.len() && fetchable(q, #[trigger] q.cache[i]);
                assert(rest.cache[i - 1] == q.cache[i]);
                assert(fetchable(rest, rest.cache[i - 1]));
            }
            if exists|i: int| 0 <= i < rest.cache.len() && fetchable(rest, #[trigger] rest.cache[i]) {
                let i = choose|i: int|
                    0 <= i < rest.cache.len() && fetchable(rest, #[trigger] rest.cache[i]);
                assert(q.cache[i + 1] == rest.cache[i]);
                assert(fetchable(q, q.cache[i + 1]));
            }
        }
    }
}

/// A new request that is added to the front is the next one to be handed out.
pub proof fn law_forefront_request_comes_first(q: QueueView, key: Seq<char>, request: JsonValue)
    requires
        unique_key_of(request) == Some(key),
        add_outcome(q, key, true) == AddOutcome::New,
    ensures
        fetched(after_add(q, key, request, true)).0 == Some(request),
{
    let a = after_add(q, key, request, true);
    assert(a.cache[0] == request);
    assert(fetchable(a, request));
}

/// A new request that is added in the ordinary order waits its turn: what would
/// have been handed out next still is, and where nothing would have been, the
/// new request is.
pub proof fn law_regular_request_waits_its_turn(q: QueueView, key: Seq<char>, request: JsonValue)
    requires
        unique_key_of(request) == Some(key),
        add_outcome(q, key, false) == AddOutcome::New,
    ensures
        fetched(after_add(q, key, request, false)).0 == if fetched(q).0 is Some {
            fetched(q).0
        } else {
            Some(request)
        },
{
    let a = after_add(q, key, request, false);
    lemma_fetch_from_longer(q, a, request);
}

proof fn lemma_fetch_from_longer(q: QueueView, a: QueueView, request: JsonValue)
    requires
        a.cache == q.cache.push(request),
        a.handled == q.handled,
        a.in_progress == q.in_progress,
        fetchable(q, request),
    ensures
        fetched(a).0 == if fetched(q).0 is Some {
            fetched(q).0
        } else {
            Some(request)
        },
    decreases q.cache.len(),
{
    if q.cache.len() > 0 {
        assert(a.cache[0] == q.cache[0]);
        if !fetchable(q, q.cache[0]) {
            let rest_q = QueueView { cache: q.cache.skip(1), ..q };
            let rest_a = QueueView { cache: a.cache.skip(1), ..a };
            assert(rest_a.cache == rest_q.cache.push(request));
            lemma_fetch_from_longer(rest_q, rest_a, request);
        }
    } else {
        assert(a.cache[0] == request);
    }
}

/// Marking a request in progress as handled keeps every request in one place and
/// the counts right.
pub proof fn law_handled_keeps_order(q: QueueView, key: Seq<char>, now: Timestamp)
    requires
        consistent(q),
        q.in_progress.contains(key),
        q.metadata.handled_request_count < usize::MAX,
    ensures
        consistent(after_handled(q, key, now)),
        counted(q) ==> counted(after_handled(q, key, now)),
        counted(q) ==> {
            let m = after_handled(q, key, now).metadata;
            &&& m.handled_request_count == q.metadata.handled_request_count + 1
            &&& m.pending_request_count == q.metadata.pending_request_count - 1
            &&& m.total_request_count == q.metadata.total_request_count
        },
{
    let a = after_handled(q, key, now);
    lemma_without(q.in_progress, key);
    lemma_push_contains(q.handled, key);
    assert forall|k: Seq<char>| #[trigger] is_queued(a, k) implies !a.in_progress.contains(k)
        && !a.handled.contains(k) by {
        assert(is_queued(q, k));
    }
    assert forall|i: int|
        0 <= i < a.cache.len() && fetchable(a, #[trigger] a.cache[i]) implies is_queued(
        a,
        unique_key_of(a.cache[i])->0,
    ) by {
        let k = unique_key_of(a.cache[i])->0;
        assert(k != key);
        assert(fetchable(q, q.cache[i]));
        assert(is_queued(q, k));
    }
}

/// A request that was handled is never handed out again, and adding it again
/// changes nothing.
pub proof fn law_handled_requests_stay_handled(
    q: QueueView,
    key: Seq<char>,
    now: Timestamp,
    request: JsonValue,
    forefront: bool,
)
    requires
        unique_key_of(request) == Some(key),
    ensures
        ({
            let a = after_handled(q, key, now);
            &&& !fetchable(a, request)
            &&& add_outcome(a, key, forefront) == AddOutcome::AlreadyHandled
            &&& after_add(a, key, request, forefront) == a
        }),
{
    lemma_push_contains(q.handled, key);
}

/// Giving a request back keeps every request in one place and the counts as they
/// were.
pub proof fn law_reclaim_keeps_order(
    q: QueueView,
    key: Seq<char>,
    request: JsonValue,
    forefront: bool,
    now: Timestamp,
)
    requires
        consistent(q),
        q.in_progress.contains(key),
        unique_key_of(request) == Some(key),
        place_left(q, forefront),
    ensures
        consistent(after_reclaim(q, key, request, forefront, now)),
        counted(q) ==> counted(after_reclaim(q, key, request, forefront, now)),
        ({
            let m = after_reclaim(q, key, request, forefront, now).metadata;
            &&& m.handled_request_count == q.metadata.handled_request_count
            &&& m.pending_request_count == q.metadata.pending_request_count
            &&& m.total_request_count == q.metadata.total_request_count
        }),
        is_queued(after_reclaim(q, key, request, forefront, now), key),
{
    let a = after_reclaim(q, key, request, forefront, now);
    lemma_without(q.in_progress, key);
    assert(!is_queued(q, key));
    if forefront {
        assert(a.forefront.dom() == q.forefront.dom().insert(key));
        lemma_cache_front(q, a, key, request);
    } else {
        assert(a.regular.dom() == q.regular.dom().insert(key));
        lemma_cache_back(q, a, key, request);
    }
    assert forall|k: Seq<char>| #[trigger] is_queued(a, k) implies !a.in_progress.contains(k)
        && !a.handled.contains(k) by {
        if k != key {
            assert(is_queued(q, k));
        }
    }
}

/// A request that was given back can be handed out again; given back to the
/// front, it is the next one.
pub proof fn law_reclaimed_request_is_fetchable(
    q: QueueView,
    key: Seq<char>,
    request: JsonValue,
    forefront: bool,
    now: Timestamp,
)
    requires
        consistent(q),
        q.in_progress.contains(key),
        unique_key_of(request) == Some(key),
    ensures
        ({
            let a = after_reclaim(q, key, request, forefront, now);
            &&& fetchable(a, request)
            &&& a.cache.contains(request)
            &&& fetched(a).0 is Some
            &&& forefront ==> fetched(a).0 == Some(request)
        }),
{
    let a = after_reclaim(q, key, request, forefront, now);
    lemma_without(q.in_progress, key);
    let at = if forefront {
        0
    } else {
        q.cache.len() as int
    };
    assert(a.cache[at] == request);
    assert(fetchable(a, a.cache[at]));
    law_fetch_finds_what_waits(a);
}

/// Taking in a request that was found on disk keeps every request in one place.
pub proof fn law_discovery_keeps_order(q: QueueView, request: JsonValue)
    requires
        consistent(q),
    ensures
        consistent(after_discovery(q, request)),
        unique_key_of(request) matches Some(k) ==> is_known(after_discovery(q, request), k),
{
    let a = after_discovery(q, request);
    if unique_key_of(request) is Some && !is_known(q, unique_key_of(request)->0) {
        let key = unique_key_of(request)->0;
        if says_handled(request) {
            lemma_push_contains(q.handled, key);
        } else {
            assert(a.regular.dom() == q.regular.dom().insert(key));
        }
        assert forall|k: Seq<char>| #[trigger] is_queued(a, k) implies !a.in_progress.contains(k)
            && !a.handled.contains(k) by {
            if k != key {
                assert(is_queued(q, k));
            }
        }
        assert forall|i: int|
            0 <= i < a.cache.len() && fetchable(a, #[trigger] a.cache[i]) implies is_queued(
            a,
            unique_key_of(a.cache[i])->0,
        ) by {
            assert(fetchable(q, q.cache[i]));
            assert(is_queued(q, unique_key_of(q.cache[i])->0));
        }
    }
}

/// A queue that is opened with the state that another one handed out knows the
/// same requests in the same places; only what was in memory has to be read
/// again. So what was in progress or handled stays so.
pub proof fn law_state_survives_reopening(
    q: QueueView,
    state: RequestQueueState,
    metadata: RequestQueueMetadata,
)
    requires
        keeps_state(q, state),
    ensures
        opened(metadata, state) == (QueueView {
            metadata,
            cache: Seq::empty(),
            needs_refresh: true,
            ..q
        }),
        consistent(q) ==> consistent(opened(metadata, state)),
{
    let a = opened(metadata, state);
    assert(forall|k: Seq<char>| #[trigger] is_queued(a, k) ==> is_queued(q, k));
}

/// Reading the requests from disk keeps every request in one place: only
/// requests that wait are held in memory.
pub proof fn law_refresh_keeps_order(q: QueueView, requests: Seq<JsonValue>, cache: Seq<JsonValue>)
    requires
        consistent(q),
        is_refreshed(q, requests, cache),
    ensures
        consistent(QueueView { cache, needs_refresh: false, ..q }),
{
    let a = QueueView { cache, needs_refresh: false, ..q };
    let (x, y) = choose|x: Seq<usize>, y: Seq<usize>|
        {
            &&& #[trigger] sorts(front_ranks(q, requests), x)
            &&& #[trigger] sorts(back_ranks(q, requests), y)
            &&& cache == capped(
                arranged(front_requests(q, requests), x) + arranged(back_requests(q, requests), y),
                Some(MAX_REQUESTS_IN_CACHE),
            )
        };
    let front = front_requests(q, requests);
    let back = back_requests(q, requests);
    assert forall|i: int|
        0 <= i < a.cache.len() && fetchable(a, #[trigger] a.cache[i]) implies is_queued(
        a,
        unique_key_of(a.cache[i])->0,
    ) by {
        let r = a.cache[i];
        if i < x.len() {
            assert(x[i] < front_ranks(q, requests).len());
            assert(r == front[x[i] as int]);
            requests.lemma_filter_pred(|r: JsonValue| front_place(q, r) is Some, x[i] as int);
        } else {
            let j = i - x.len();
            assert(y[j] < back_ranks(q, requests).len());
            assert(r == back[y[j] as int]);
            requests.lemma_filter_pred(|r: JsonValue| back_place(q, r) is Some, y[j] as int);
        }
    }
    assert forall|k: Seq<char>| #[trigger] is_queued(a, k) implies !a.in_progress.contains(k)
        && !a.handled.contains(k) by {
        assert(is_queued(q, k));
    }
}

/// After the requests were read from disk, those at the front are handed out
/// latest first, before all others, and those in the ordinary order earliest
/// first: whatever comes earlier in memory has the better place.
pub proof fn law_refreshed_cache_is_in_order(
    q: QueueView,
    requests: Seq<JsonValue>,
    cache: Seq<JsonValue>,
    i: int,
    j: int,
)
    requires
        is_refreshed(q, requests, cache),
        0 <= i < j < cache.len(),
    ensures
        front_place(q, cache[j]) is Some ==> front_place(q, cache[i]) is Some && front_place(
            q,
            cache[i],
        )->0 >= front_place(q, cache[j])->0,
        front_place(q, cache[i]) is None ==> back_place(q, cache[i]) is Some && back_place(
            q,
            cache[j],
        ) is Some && back_place(q, cache[i])->0 <= back_place(q, cache[j])->0,
{
    let (x, y) = choose|x: Seq<usize>, y: Seq<usize>|
        {
            &&& #[trigger] sorts(front_ranks(q, requests), x)
            &&& #[trigger] sorts(back_ranks(q, requests), y)
            &&& cache == capped(
                arranged(front_requests(q, requests), x) + arranged(back_requests(q, requests), y),
                Some(MAX_REQUESTS_IN_CACHE),
            )
        };
    let front = front_requests(q, requests);
    let back = back_requests(q, requests);
    assert forall|m: int| 0 <= m < cache.len() implies (if m < x.len() {
        &&& #[trigger] cache[m] == front[x[m] as int]
        &&& front_place(q, cache[m]) is Some
        &&& front_ranks(q, requests)[x[m] as int].0 == front_place(q, cache[m])->0
    } else {
        &&& cache[m] == back[y[m - x.len()] as int]
        &&& back_place(q, cache[m]) is Some
        &&& back_ranks(q, requests)[y[m - x.len()] as int] == back_place(q, cache[m])->0
    }) by {
        if m < x.len() {
            assert(x[m] < front_ranks(q, requests).len());
            requests.lemma_filter_pred(|r: JsonValue| front_place(q, r) is Some, x[m] as int);
        } else {
            let n = m - x.len();
            assert(y[n] < back_ranks(q, requests).len());
            requests.lemma_filter_pred(|r: JsonValue| back_place(q, r) is Some, y[n] as int);
        }
    }
    let ri = cache[i];
    let rj = cache[j];
    if j < x.len() {
        assert(crate::order::goes_before(front_ranks(q, requests), x[i] as int, x[j] as int));
    } else if i >= x.len() {
        assert(crate::order::goes_before(
            back_ranks(q, requests),
            y[i - x.len()] as int,
            y[j - x.len()] as int,
        ));
    }
}

} // verus!
