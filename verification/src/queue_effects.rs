//! What each operation of a request queue changes, and what it leaves alone, said of
//! the lists, the maps and the counts themselves.

use vstd::prelude::*;

use crate::clock::Timestamp;
use crate::json::JsonValue;
use crate::key_map::{entry_views, map_of};
use crate::models::RequestQueueMetadata;
use crate::queue_laws::{consistent, counted};
use crate::request_laws::has_request;
use crate::request_queue::{
    add_outcome, after_add, after_handled, after_reclaim, cleared, fetched, is_queued, opened,
    other_than, purged_metadata, queue_is_empty, room_for, room_to_reclaim, stores, touched,
    unique_key_of, without, AddOutcome, QueueView, RequestQueueState,
};

verus! {

// ---------------------------------------------------------------------------
// Being empty
// ---------------------------------------------------------------------------

/// Whether a request is still to be dealt with: it waits or is in progress, and was
/// not handled.
pub open spec fn is_open(q: QueueView, key: Seq<char>) -> bool {
    &&& !q.handled.contains(key)
    &&& {
        ||| q.regular.dom().contains(key)
        ||| q.forefront.dom().contains(key)
        ||| q.in_progress.contains(key)
    }
}

/// A queue is empty exactly where no request is still to be dealt with, whether or
/// not its requests were read into memory.
pub proof fn law_queue_with_open_requests_is_not_empty(q: QueueView)
    ensures
        queue_is_empty(q) <==> forall|k: Seq<char>| !#[trigger] is_open(q, k),
{
    if queue_is_empty(q) {
        assert forall|k: Seq<char>| !#[trigger] is_open(q, k) by {
            assert(is_queued(q, k) || q.in_progress.contains(k) ==> q.handled.contains(k));
        }
    }
    if forall|k: Seq<char>| !#[trigger] is_open(q, k) {
        assert forall|k: Seq<char>|
            #![trigger q.handled.contains(k)]
            is_queued(q, k) || q.in_progress.contains(k) implies q.handled.contains(k) by {
            assert(!is_open(q, k));
        }
    }
}

/// What is held in memory, and whether it has to be read again, makes no difference
/// to whether a queue is empty; nor do the counters and the description.
pub proof fn law_memory_does_not_make_a_queue_empty(q: QueueView, other: QueueView)
    requires
        other.regular.dom() == q.regular.dom(),
        other.forefront.dom() == q.forefront.dom(),
        other.in_progress == q.in_progress,
        other.handled == q.handled,
    ensures
        queue_is_empty(other) == queue_is_empty(q),
{
    law_queue_with_open_requests_is_not_empty(q);
    law_queue_with_open_requests_is_not_empty(other);
    assert forall|k: Seq<char>| #[trigger] is_open(q, k) == is_open(other, k) by {}
    if forall|k: Seq<char>| !#[trigger] is_open(q, k) {
        assert forall|k: Seq<char>| !#[trigger] is_open(other, k) by {
            assert(!is_open(q, k));
        }
    }
    if forall|k: Seq<char>| !#[trigger] is_open(other, k) {
        assert forall|k: Seq<char>| !#[trigger] is_open(q, k) by {
            assert(!is_open(other, k));
        }
    }
}

/// A queue to which a new request was added is not empty, and stays so while the
/// request is in progress or given back.
pub proof fn law_added_request_keeps_a_queue_from_being_empty(
    q: QueueView,
    key: Seq<char>,
    request: JsonValue,
    forefront: bool,
)
    requires
        !has_request(q, key),
    ensures
        !queue_is_empty(after_add(q, key, request, forefront)),
        fetched(after_add(q, key, request, forefront)).0 is Some ==> !queue_is_empty(
            fetched(after_add(q, key, request, forefront)).1,
        ),
{
    let a = after_add(q, key, request, forefront);
    law_queue_with_open_requests_is_not_empty(a);
    assert(is_open(a, key));
    law_fetch_effect(a);
    if fetched(a).0 is Some {
        let b = fetched(a).1;
        let k = unique_key_of(fetched(a).0->0)->0;
        law_queue_with_open_requests_is_not_empty(b);
        assert(b.in_progress[a.in_progress.len() as int] == k);
        assert(is_open(b, k));
    }
}

/// Where the description counts right, a queue is empty exactly where no request is
/// pending.
pub proof fn law_empty_queue_has_nothing_pending(q: QueueView)
    requires
        consistent(q),
        counted(q),
    ensures
        queue_is_empty(q) <==> q.metadata.pending_request_count == 0,
{
    law_queue_with_open_requests_is_not_empty(q);
    if queue_is_empty(q) {
        assert(q.regular.dom() == Set::<Seq<char>>::empty()) by {
            assert forall|k: Seq<char>| !q.regular.dom().contains(k) by {
                assert(!is_open(q, k));
                if is_queued(q, k) {
                }
            }
        }
        assert(q.forefront.dom() == Set::<Seq<char>>::empty()) by {
            assert forall|k: Seq<char>| !q.forefront.dom().contains(k) by {
                assert(!is_open(q, k));
                if is_queued(q, k) {
                }
            }
        }
        if q.in_progress.len() > 0 {
            assert(q.in_progress.contains(q.in_progress[0]));
            assert(!is_open(q, q.in_progress[0]));
        }
    }
    if q.metadata.pending_request_count == 0 {
        q.regular.dom().lemma_len0_is_empty();
        q.forefront.dom().lemma_len0_is_empty();
    }
}

// ---------------------------------------------------------------------------
// Adding
// ---------------------------------------------------------------------------

/// What adding a request comes down to tells where the queue has it, if anywhere: a
/// handled request is reported as such before all else, one that is in progress or
/// waits as present, and only one that the queue does not have is new. A request is
/// stored exactly where it is new, or waits and is asked to the front.
pub proof fn law_outcome_tells_where_a_request_is(q: QueueView, key: Seq<char>, forefront: bool)
    ensures
        ({
            let outcome = add_outcome(q, key, forefront);
            let waits = q.regular.dom().contains(key) || q.forefront.dom().contains(key);
            &&& outcome == AddOutcome::New <==> !has_request(q, key)
            &&& outcome == AddOutcome::AlreadyHandled <==> q.handled.contains(key)
            &&& stores(outcome) <==> !has_request(q, key) || (waits && forefront
                && !q.in_progress.contains(key) && !q.handled.contains(key))
        }),
{
}

/// There is room for a request unless it would be stored and a number or a count that it
/// needs is used up: one of the place where it goes, and of those in all and pending
/// where it is new.
pub proof fn law_when_there_is_room(
    q: QueueView,
    key: Seq<char>,
    forefront: bool,
    request: JsonValue,
)
    ensures
        room_for(q, key, forefront) <==> {
            let waits = q.regular.dom().contains(key) || q.forefront.dom().contains(key);
            ||| q.handled.contains(key)
            ||| q.in_progress.contains(key)
            ||| waits && !forefront
            ||| waits && q.forefront_sequence < i64::MAX
            ||| {
                &&& !waits
                &&& forefront ==> q.forefront_sequence < i64::MAX
                &&& !forefront ==> q.sequence < i64::MAX
                &&& q.metadata.total_request_count < usize::MAX
                &&& q.metadata.pending_request_count < usize::MAX
            }
        },
        unique_key_of(request) == Some(key) ==> (room_to_reclaim(q, request, forefront) <==> {
            ||| !q.in_progress.contains(key)
            ||| forefront && q.forefront_sequence < i64::MAX
            ||| !forefront && q.sequence < i64::MAX
        }),
        unique_key_of(request) is None ==> room_to_reclaim(q, request, forefront),
{
}

/// Whether two maps are the same but for one key.
pub open spec fn same_but(
    a: Map<Seq<char>, Option<i64>>,
    b: Map<Seq<char>, Option<i64>>,
    key: Seq<char>,
) -> bool {
    forall|k: Seq<char>|
        k != key ==> (#[trigger] a.dom().contains(k) == b.dom().contains(k)) && (a.dom().contains(k)
            ==> a[k] == b[k])
}

/// Adding a request to a queue that does not have it puts it at the end, or at the
/// front where it is asked there, and counts it as one more in all and one more
/// pending. Nothing else changes.
pub proof fn law_add_of_a_new_request(
    q: QueueView,
    key: Seq<char>,
    request: JsonValue,
    forefront: bool,
)
    requires
        !has_request(q, key),
        q.sequence < i64::MAX,
        q.forefront_sequence < i64::MAX,
        q.metadata.total_request_count < usize::MAX,
        q.metadata.pending_request_count < usize::MAX,
    ensures
        ({
            let a = after_add(q, key, request, forefront);
            &&& same_but(a.regular, q.regular, key)
            &&& same_but(a.forefront, q.forefront, key)
            &&& a.regular.dom().contains(key) == !forefront
            &&& a.forefront.dom().contains(key) == forefront
            &&& a.in_progress == q.in_progress
            &&& a.handled == q.handled
            &&& a.cache.len() == q.cache.len() + 1
            &&& forefront ==> a.cache[0] == request && a.cache.skip(1) == q.cache
            &&& !forefront ==> a.cache.last() == request && a.cache.drop_last() == q.cache
            &&& a.needs_refresh == q.needs_refresh
            &&& a.metadata.total_request_count == q.metadata.total_request_count + 1
            &&& a.metadata.pending_request_count == q.metadata.pending_request_count + 1
            &&& a.metadata.handled_request_count == q.metadata.handled_request_count
            &&& a.metadata.base == q.metadata.base
            &&& a.metadata.had_multiple_clients == q.metadata.had_multiple_clients
        }),
{
    let a = after_add(q, key, request, forefront);
    if forefront {
        assert(a.cache.skip(1) == q.cache);
    } else {
        assert(a.cache.drop_last() == q.cache);
    }
}

/// Adding a request that a queue has changes nothing, unless it waits and is asked
/// to the front; then it waits at the front alone, nothing is counted, and the
/// requests have to be read into memory again.
pub proof fn law_add_of_a_known_request(
    q: QueueView,
    key: Seq<char>,
    request: JsonValue,
    forefront: bool,
)
    requires
        has_request(q, key),
    ensures
        ({
            let a = after_add(q, key, request, forefront);
            let moves = forefront && !q.handled.contains(key) && !q.in_progress.contains(key);
            &&& !moves ==> a == q
            &&& moves ==> {
                &&& same_but(a.regular, q.regular, key)
                &&& same_but(a.forefront, q.forefront, key)
                &&& !a.regular.dom().contains(key)
                &&& a.forefront.dom().contains(key)
                &&& a.in_progress == q.in_progress
                &&& a.handled == q.handled
                &&& a.metadata == q.metadata
                &&& a.needs_refresh
            }
        }),
{
}

// ---------------------------------------------------------------------------
// Handing out
// ---------------------------------------------------------------------------

/// Whether a request in memory is passed over: it has no key, or its key is handled
/// or in progress.
pub open spec fn is_passed_over(q: QueueView, request: JsonValue) -> bool {
    match unique_key_of(request) {
        None => true,
        Some(k) => q.handled.contains(k) || q.in_progress.contains(k),
    }
}

/// A fetch hands out the first request in memory that is not passed over. That one
/// is in progress from then on and waits no more; it and what stood before it leave
/// the memory. Where all are passed over, nothing is handed out. Nothing else
/// changes.
pub proof fn law_fetch_effect(q: QueueView)
    ensures
        ({
            let (r, a) = fetched(q);
            &&& a.handled == q.handled
            &&& a.metadata == q.metadata
            &&& a.sequence == q.sequence
            &&& a.forefront_sequence == q.forefront_sequence
            &&& a.needs_refresh == q.needs_refresh
            &&& match r {
                None => {
                    &&& forall|i: int|
                        0 <= i < q.cache.len() ==> is_passed_over(q, #[trigger] q.cache[i])
                    &&& a.regular == q.regular
                    &&& a.forefront == q.forefront
                    &&& a.in_progress == q.in_progress
                    &&& a.cache.len() == 0
                },
                Some(request) => exists|n: int|
                    {
                        &&& 0 <= n < q.cache.len()
                        &&& #[trigger] q.cache[n] == request
                        &&& !is_passed_over(q, request)
                        &&& forall|i: int| 0 <= i < n ==> is_passed_over(q, #[trigger] q.cache[i])
                        &&& a.cache == q.cache.skip(n + 1)
                        &&& a.in_progress == q.in_progress.push(unique_key_of(request)->0)
                        &&& a.regular == q.regular.remove(unique_key_of(request)->0)
                        &&& a.forefront == q.forefront.remove(unique_key_of(request)->0)
                    },
            }
        }),
    decreases q.cache.len(),
{
    if q.cache.len() > 0 {
        let first = q.cache[0];
        let rest = QueueView { cache: q.cache.skip(1), ..q };
        if is_passed_over(q, first) {
            law_fetch_effect(rest);
            let (r, a) = fetched(q);
            assert(fetched(q) == fetched(rest));
            match r {
                None => {
                    assert forall|i: int| 0 <= i < q.cache.len() implies is_passed_over(
                        q,
                        #[trigger] q.cache[i],
                    ) by {
                        if i > 0 {
                            assert(is_passed_over(rest, rest.cache[i - 1]));
                        }
                    }
                },
                Some(request) => {
                    let n = choose|n: int|
                        {
                            &&& 0 <= n < rest.cache.len()
                            &&& #[trigger] rest.cache[n] == request
                            &&& !is_passed_over(rest, request)
                            &&& forall|i: int|
                                0 <= i < n ==> is_passed_over(rest, #[trigger] rest.cache[i])
                            &&& a.cache == rest.cache.skip(n + 1)
                            &&& a.in_progress == rest.in_progress.push(unique_key_of(request)->0)
                            &&& a.regular == rest.regular.remove(unique_key_of(request)->0)
                            &&& a.forefront == rest.forefront.remove(unique_key_of(request)->0)
                        };
                    assert(q.cache[n + 1] == request);
                    assert forall|i: int| 0 <= i < n + 1 implies is_passed_over(
                        q,
                        #[trigger] q.cache[i],
                    ) by {
                        if i > 0 {
                            assert(is_passed_over(rest, rest.cache[i - 1]));
                        }
                    }
                    assert(a.cache == q.cache.skip(n + 2));
                },
            }
        } else {
            assert(q.cache[0] == first);
            assert(fetched(q).1.cache == q.cache.skip(0int + 1));
        }
    }
}

// ---------------------------------------------------------------------------
// Handling and giving back
// ---------------------------------------------------------------------------

proof fn lemma_without_one(keys: Seq<Seq<char>>, key: Seq<char>)
    ensures
        forall|k: Seq<char>| #[trigger]
            without(keys, key).contains(k) == (keys.contains(k) && k != key),
{
    let keep = crate::request_queue::other_than(key);
    assert forall|k: Seq<char>| #[trigger]
        without(keys, key).contains(k) == (keys.contains(k) && k != key) by {
        if without(keys, key).contains(k) {
            let i = choose|i: int| 0 <= i < without(keys, key).len() && without(keys, key)[i] == k;
            keys.lemma_filter_contains_rev(keep, k);
            keys.lemma_filter_pred(keep, i);
        }
        if keys.contains(k) && k != key {
            let i = choose|i: int| 0 <= i < keys.len() && keys[i] == k;
            keys.lemma_filter_contains(keep, i);
        }
    }
}

/// Whether a description is that of `m` but for its counts, with both its times of
/// access and change at `now`.
pub open spec fn stamped_at(
    a: RequestQueueMetadata,
    m: RequestQueueMetadata,
    now: Timestamp,
) -> bool {
    &&& a.base.id == m.base.id
    &&& a.base.name == m.base.name
    &&& a.base.created_at == m.base.created_at
    &&& a.base.accessed_at == now
    &&& a.base.modified_at == now
    &&& a.had_multiple_clients == m.had_multiple_clients
}

/// Marking a request in progress as handled makes it the last of those handled and
/// takes it out of progress. It is counted as one more handled and one less pending.
/// Nothing else changes but the times of access and change.
pub proof fn law_handling_effect(q: QueueView, key: Seq<char>, now: Timestamp)
    requires
        q.in_progress.contains(key),
        q.metadata.handled_request_count < usize::MAX,
    ensures
        ({
            let a = after_handled(q, key, now);
            &&& a.handled == q.handled.push(key)
            &&& forall|k: Seq<char>| #[trigger]
                a.in_progress.contains(k) == (q.in_progress.contains(k) && k != key)
            &&& a.regular == q.regular
            &&& a.forefront == q.forefront
            &&& a.sequence == q.sequence
            &&& a.forefront_sequence == q.forefront_sequence
            &&& a.cache == q.cache
            &&& a.needs_refresh == q.needs_refresh
            &&& a.metadata.handled_request_count == q.metadata.handled_request_count + 1
            &&& q.metadata.pending_request_count > 0 ==> a.metadata.pending_request_count
                == q.metadata.pending_request_count - 1
            &&& q.metadata.pending_request_count == 0 ==> a.metadata.pending_request_count == 0
            &&& a.metadata.total_request_count == q.metadata.total_request_count
            &&& stamped_at(a.metadata, q.metadata, now)
        }),
{
    lemma_without_one(q.in_progress, key);
}

/// Giving a request in progress back takes it out of progress and lets it wait, at
/// the end or at the front, alone there. Nothing is counted. Nothing else changes
/// but the times of access and change.
pub proof fn law_reclaiming_effect(
    q: QueueView,
    key: Seq<char>,
    request: JsonValue,
    forefront: bool,
    now: Timestamp,
)
    requires
        q.in_progress.contains(key),
        q.sequence < i64::MAX,
        q.forefront_sequence < i64::MAX,
    ensures
        ({
            let a = after_reclaim(q, key, request, forefront, now);
            &&& forall|k: Seq<char>| #[trigger]
                a.in_progress.contains(k) == (q.in_progress.contains(k) && k != key)
            &&& a.handled == q.handled
            &&& same_but(a.regular, q.regular, key)
            &&& same_but(a.forefront, q.forefront, key)
            &&& if forefront {
                &&& a.forefront.dom().contains(key)
                &&& a.regular == q.regular
                &&& a.cache[0] == request
                &&& a.cache.skip(1) == q.cache
            } else {
                &&& a.regular.dom().contains(key)
                &&& a.forefront == q.forefront
                &&& a.cache.last() == request
                &&& a.cache.drop_last() == q.cache
            }
            &&& a.needs_refresh == q.needs_refresh
            &&& a.metadata.handled_request_count == q.metadata.handled_request_count
            &&& a.metadata.pending_request_count == q.metadata.pending_request_count
            &&& a.metadata.total_request_count == q.metadata.total_request_count
            &&& stamped_at(a.metadata, q.metadata, now)
        }),
{
    lemma_without_one(q.in_progress, key);
    let a = after_reclaim(q, key, request, forefront, now);
    if forefront {
        assert(a.cache.skip(1) == q.cache);
    } else {
        assert(a.cache.drop_last() == q.cache);
    }
}

// ---------------------------------------------------------------------------
// Forgetting, keeping and opening
// ---------------------------------------------------------------------------

/// A queue that forgot its requests has none of any kind, and its counters start
/// anew. Its description stays; a purge sets the counts to zero and the times of
/// access and change to `now`.
pub proof fn law_forgetting_effect(q: QueueView, key: Seq<char>, now: Timestamp)
    ensures
        !has_request(cleared(q), key),
        cleared(q).cache.len() == 0,
        cleared(q).sequence == 0,
        cleared(q).forefront_sequence == 0,
        cleared(q).needs_refresh,
        cleared(q).metadata == q.metadata,
        ({
            let m = purged_metadata(q.metadata, now);
            &&& m.handled_request_count == 0
            &&& m.pending_request_count == 0
            &&& m.total_request_count == 0
            &&& stamped_at(m, q.metadata, now)
        }),
{
}

/// A touch changes the times of access and change, and nothing else.
pub proof fn law_touching_effect(m: RequestQueueMetadata, now: Timestamp)
    ensures
        stamped_at(touched(m, now), m, now),
        touched(m, now).handled_request_count == m.handled_request_count,
        touched(m, now).pending_request_count == m.pending_request_count,
        touched(m, now).total_request_count == m.total_request_count,
{
}

/// A list of entries stands for a map in which each key has the number of its last
/// entry, and no other key is present.
pub proof fn law_last_entry_of_a_key_counts(
    entries: Seq<(Seq<char>, Option<i64>)>,
    key: Seq<char>,
    i: int,
)
    ensures
        0 <= i < entries.len() && entries[i].0 == key && (forall|j: int|
            i < j < entries.len() ==> (#[trigger] entries[j]).0 != key) ==> map_of(
            entries,
        ).dom().contains(key) && map_of(entries)[key] == entries[i].1,
        (forall|j: int| 0 <= j < entries.len() ==> (#[trigger] entries[j]).0 != key) ==> !map_of(
            entries,
        ).dom().contains(key),
    decreases entries.len(),
{
    if entries.len() > 0 {
        let front = entries.drop_last();
        law_last_entry_of_a_key_counts(front, key, i);
        assert(entries[entries.len() - 1] == entries.last());
        if 0 <= i < entries.len() - 1 && entries[i].0 == key && (forall|j: int|
            i < j < entries.len() ==> (#[trigger] entries[j]).0 != key) {
            assert forall|j: int| i < j < front.len() implies (#[trigger] front[j]).0 != key by {
                assert(entries[j].0 != key);
            }
            assert(entries[entries.len() - 1].0 != key);
        }
        if forall|j: int| 0 <= j < entries.len() ==> (#[trigger] entries[j]).0 != key {
            assert forall|j: int| 0 <= j < front.len() implies (#[trigger] front[j]).0 != key by {
                assert(entries[j].0 != key);
            }
            assert(entries[entries.len() - 1].0 != key);
        }
    }
}

/// A queue that is opened has the requests that its state lists.
pub proof fn law_opened_queue_has_the_listed_requests(
    state: RequestQueueState,
    metadata: RequestQueueMetadata,
    i: int,
)
    ensures
        ({
            let a = opened(metadata, state);
            &&& 0 <= i < state.in_progress_requests@.len() ==> a.in_progress.contains(
                state.in_progress_requests@[i]@,
            )
            &&& 0 <= i < state.handled_requests@.len() ==> a.handled.contains(
                state.handled_requests@[i]@,
            )
            &&& 0 <= i < state.regular_requests@.len() ==> a.regular.dom().contains(
                state.regular_requests@[i].0@,
            )
            &&& 0 <= i < state.forefront_requests@.len() ==> a.forefront.dom().contains(
                state.forefront_requests@[i].0@,
            )
            &&& a.in_progress.len() == state.in_progress_requests@.len()
            &&& a.handled.len() == state.handled_requests@.len()
            &&& a.sequence == state.sequence_counter
            &&& a.forefront_sequence == state.forefront_sequence_counter
        }),
{
    let a = opened(metadata, state);
    if 0 <= i < state.in_progress_requests@.len() {
        assert(a.in_progress[i] == state.in_progress_requests@[i]@);
    }
    if 0 <= i < state.handled_requests@.len() {
        assert(a.handled[i] == state.handled_requests@[i]@);
    }
    if 0 <= i < state.regular_requests@.len() {
        lemma_listed_key_is_present(entry_views(state.regular_requests@), i);
    }
    if 0 <= i < state.forefront_requests@.len() {
        lemma_listed_key_is_present(entry_views(state.forefront_requests@), i);
    }
}

proof fn lemma_listed_key_is_present(entries: Seq<(Seq<char>, Option<i64>)>, i: int)
    requires
        0 <= i < entries.len(),
    ensures
        map_of(entries).dom().contains(entries[i].0),
    decreases entries.len(),
{
    if i < entries.len() - 1 {
        lemma_listed_key_is_present(entries.drop_last(), i);
        assert(entries.drop_last()[i] == entries[i]);
    }
}

/// Taking a key out of a list takes out every place of it. The other keys stay, in
/// their order.
pub proof fn law_removing_a_key(keys: Seq<Seq<char>>, k: Seq<char>, key: Seq<char>)
    ensures
        without(Seq::empty(), key).len() == 0,
        without(keys.push(k), key) == if k == key {
            without(keys, key)
        } else {
            without(keys, key).push(k)
        },
{
    let none = Seq::<Seq<char>>::empty();
    assert(none.filter(other_than(key)) == none) by {
        reveal(Seq::filter);
    }
    keys.lemma_filter_push(k, other_than(key));
}

} // verus!
