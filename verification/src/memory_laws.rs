//! What a queue has in memory after it read its requests from disk, and what a batch
//! of requests does to it.

use vstd::prelude::*;

use crate::add_batch::{add_all, add_one, reports_add, reports_all};
use crate::json::JsonValue;
use crate::key_listing::capped;
use crate::listing_laws::lemma_filter_no_duplicates;
use crate::models::ProcessedRequest;
use crate::order::{arranged, law_sorting_is_stable, sorts, SortKey};
use crate::queue_laws::law_refreshed_cache_is_in_order;
use crate::request_queue::{
    after_add, back_place, back_ranks, back_requests, front_place, front_ranks, front_requests,
    is_refreshed, unique_key_of, QueueView, MAX_REQUESTS_IN_CACHE,
};
use crate::utils::request_id;

verus! {

/// Whether a key has a number in one of the two orders of a queue.
pub open spec fn has_number(m: Map<Seq<char>, Option<i64>>, key: Seq<char>) -> bool {
    m.dom().contains(key) && m[key] is Some
}

/// Whether a request waits for its turn: it has a number, and is neither in progress
/// nor handled.
pub open spec fn waits(q: QueueView, key: Seq<char>) -> bool {
    &&& has_number(q.forefront, key) || has_number(q.regular, key)
    &&& !q.in_progress.contains(key)
    &&& !q.handled.contains(key)
}

proof fn lemma_places(q: QueueView, r: JsonValue)
    ensures
        (front_place(q, r) is Some || back_place(q, r) is Some) <==> (unique_key_of(
            r,
        ) matches Some(k) && waits(q, k)),
{
}

spec fn is_arranged_by(
    q: QueueView,
    requests: Seq<JsonValue>,
    cache: Seq<JsonValue>,
    a: Seq<usize>,
    b: Seq<usize>,
) -> bool {
    &&& sorts(front_ranks(q, requests), a)
    &&& sorts(back_ranks(q, requests), b)
    &&& cache == capped(
        arranged(front_requests(q, requests), a) + arranged(back_requests(q, requests), b),
        Some(MAX_REQUESTS_IN_CACHE),
    )
}

proof fn lemma_arrangement(q: QueueView, requests: Seq<JsonValue>, cache: Seq<JsonValue>) -> (r: (
    Seq<usize>,
    Seq<usize>,
))
    requires
        is_refreshed(q, requests, cache),
    ensures
        is_arranged_by(q, requests, cache, r.0, r.1),
{
    choose|a: Seq<usize>, b: Seq<usize>|
        {
            &&& #[trigger] sorts(front_ranks(q, requests), a)
            &&& #[trigger] sorts(back_ranks(q, requests), b)
            &&& cache == capped(
                arranged(front_requests(q, requests), a) + arranged(back_requests(q, requests), b),
                Some(MAX_REQUESTS_IN_CACHE),
            )
        }
}

/// What a queue has in memory after it read its requests is on disk and waits for its
/// turn, and there are never more than a hundred thousand.
pub proof fn law_memory_holds_waiting_requests(
    q: QueueView,
    requests: Seq<JsonValue>,
    cache: Seq<JsonValue>,
    i: int,
)
    requires
        is_refreshed(q, requests, cache),
        0 <= i < cache.len(),
    ensures
        cache.len() <= 100_000,
        requests.contains(cache[i]),
        unique_key_of(cache[i]) matches Some(k) && waits(q, k),
{
    let (a, b) = lemma_arrangement(q, requests, cache);
    let front = front_requests(q, requests);
    let back = back_requests(q, requests);
    let in_front = |r: JsonValue| front_place(q, r) is Some;
    let in_back = |r: JsonValue| back_place(q, r) is Some;
    if i < a.len() {
        let at = a[i] as int;
        assert(cache[i] == front[at]);
        requests.lemma_filter_pred(in_front, at);
        assert(front.contains(front[at]));
        requests.lemma_filter_contains_rev(in_front, front[at]);
    } else {
        let at = b[i - a.len()] as int;
        assert(cache[i] == back[at]);
        requests.lemma_filter_pred(in_back, at);
        assert(back.contains(back[at]));
        requests.lemma_filter_contains_rev(in_back, back[at]);
    }
    lemma_places(q, cache[i]);
}

/// A request that waits for its turn is in memory after it was read from disk, unless
/// the memory is full.
pub proof fn law_waiting_requests_are_read(
    q: QueueView,
    requests: Seq<JsonValue>,
    cache: Seq<JsonValue>,
    i: int,
)
    requires
        is_refreshed(q, requests, cache),
        requests.len() <= usize::MAX,
        0 <= i < requests.len(),
        unique_key_of(requests[i]) matches Some(k) && waits(q, k),
    ensures
        cache.contains(requests[i]) || cache.len() == 100_000,
{
    let r = requests[i];
    let (a, b) = lemma_arrangement(q, requests, cache);
    let front = front_requests(q, requests);
    let back = back_requests(q, requests);
    let in_front = |r: JsonValue| front_place(q, r) is Some;
    let in_back = |r: JsonValue| back_place(q, r) is Some;
    lemma_places(q, r);
    requests.lemma_filter_len(in_front);
    requests.lemma_filter_len(in_back);
    let all = arranged(front, a) + arranged(back, b);
    assert(requests.contains(r));
    if in_front(r) {
        requests.lemma_filter_contains(in_front, i);
        let at = choose|at: int| 0 <= at < front.len() && front[at] == r;
        lemma_found_in_order(front, front_ranks(q, requests), a, at);
        let m = choose|m: int| 0 <= m < a.len() && #[trigger] arranged(front, a)[m] == r;
        assert(all[m] == r);
    } else {
        requests.lemma_filter_contains(in_back, i);
        let at = choose|at: int| 0 <= at < back.len() && back[at] == r;
        lemma_found_in_order(back, back_ranks(q, requests), b, at);
        let m = choose|m: int| 0 <= m < b.len() && #[trigger] arranged(back, b)[m] == r;
        assert(all[m + a.len()] == r);
    }
    assert(all.contains(r));
}

proof fn lemma_found_in_order<K: SortKey>(
    items: Seq<JsonValue>,
    keys: Seq<K>,
    order: Seq<usize>,
    at: int,
)
    requires
        sorts(keys, order),
        keys.len() == items.len(),
        0 <= at < items.len(),
        items.len() <= usize::MAX,
    ensures
        exists|m: int| 0 <= m < order.len() && #[trigger] arranged(items, order)[m] == items[at],
{
    assert(order.contains(at as usize));
    let m = choose|m: int| 0 <= m < order.len() && order[m] == at;
    assert(arranged(items, order)[m] == items[at]);
}

/// A request that is on disk once is in memory once at most.
pub proof fn law_memory_holds_requests_once(
    q: QueueView,
    requests: Seq<JsonValue>,
    cache: Seq<JsonValue>,
    i: int,
    j: int,
)
    requires
        is_refreshed(q, requests, cache),
        requests.no_duplicates(),
        0 <= i < j < cache.len(),
    ensures
        cache[i] != cache[j],
{
    let (a, b) = lemma_arrangement(q, requests, cache);
    let front = front_requests(q, requests);
    let back = back_requests(q, requests);
    let in_front = |r: JsonValue| front_place(q, r) is Some;
    let in_back = |r: JsonValue| back_place(q, r) is Some;
    lemma_filter_no_duplicates(requests, in_front);
    lemma_filter_no_duplicates(requests, in_back);
    let all = arranged(front, a) + arranged(back, b);
    assert(cache[i] == all[i] && cache[j] == all[j]);
    if j < a.len() {
        law_sorting_is_stable(front_ranks(q, requests), a, i, j);
        assert(front[a[i] as int] != front[a[j] as int]);
    } else if i >= a.len() {
        let x = i - a.len();
        let y = j - a.len();
        law_sorting_is_stable(back_ranks(q, requests), b, x, y);
        assert(back[b[x] as int] != back[b[y] as int]);
    } else {
        let y = j - a.len();
        requests.lemma_filter_pred(in_front, a[i] as int);
        requests.lemma_filter_pred(in_back, b[y] as int);
        assert(cache[i] == front[a[i] as int]);
        assert(cache[j] == back[b[y] as int]);
    }
}

/// In memory, a request of the front comes before every other one, the latest of them
/// first; the others come in the order of their numbers.
pub proof fn law_memory_is_in_order(
    q: QueueView,
    requests: Seq<JsonValue>,
    cache: Seq<JsonValue>,
    i: int,
    j: int,
)
    requires
        is_refreshed(q, requests, cache),
        0 <= i < j < cache.len(),
    ensures
        unique_key_of(cache[i]) matches Some(first) && (unique_key_of(cache[j]) matches Some(second)
            && {
            &&& has_number(q.forefront, second) ==> has_number(q.forefront, first)
                && q.forefront[first]->0 >= q.forefront[second]->0
            &&& !has_number(q.forefront, first) ==> has_number(q.regular, first) && has_number(
                q.regular,
                second,
            ) && !has_number(q.forefront, second) && q.regular[first]->0 <= q.regular[second]->0
        }),
{
    law_memory_holds_waiting_requests(q, requests, cache, i);
    law_memory_holds_waiting_requests(q, requests, cache, j);
    law_refreshed_cache_is_in_order(q, requests, cache, i, j);
}

// ---------------------------------------------------------------------------
// Batches
// ---------------------------------------------------------------------------

/// Two batches, one after the other, do what one batch of all their requests does.
pub proof fn law_batches_add_up(
    q: QueueView,
    a: Seq<JsonValue>,
    b: Seq<JsonValue>,
    forefront: bool,
)
    ensures
        add_all(q, a + b, forefront) == add_all(add_all(q, a, forefront), b, forefront),
    decreases b.len(),
{
    if b.len() == 0 {
        assert(a + b == a);
    } else {
        law_batches_add_up(q, a, b.drop_last(), forefront);
        assert((a + b).drop_last() == a + b.drop_last());
        assert((a + b).last() == b.last());
    }
}

/// A batch of one request adds that request, or nothing where it has no key, and a batch
/// of none changes nothing.
pub proof fn law_smallest_batches(q: QueueView, request: JsonValue, forefront: bool)
    ensures
        add_all(q, Seq::empty(), forefront) == q,
        unique_key_of(request) is None ==> add_all(q, seq![request], forefront) == q,
        unique_key_of(request) matches Some(k) ==> add_all(q, seq![request], forefront)
            == after_add(q, k, request, forefront),
{
    let one = seq![request];
    assert(one.drop_last() == Seq::<JsonValue>::empty());
    assert(add_all(q, one.drop_last(), forefront) == q);
}

/// Whether a queue knows a key: it waits, is in progress or was handled.
pub open spec fn knows(q: QueueView, key: Seq<char>) -> bool {
    ||| q.regular.dom().contains(key)
    ||| q.forefront.dom().contains(key)
    ||| q.in_progress.contains(key)
    ||| q.handled.contains(key)
}

/// Whether one of the requests has the given key.
pub open spec fn some_request_has(requests: Seq<JsonValue>, key: Seq<char>) -> bool {
    exists|i: int| 0 <= i < requests.len() && unique_key_of(#[trigger] requests[i]) == Some(key)
}

/// After a batch a queue knows what it knew before and the keys of the batch, and
/// nothing else. What is in progress and what was handled stays as it was.
pub proof fn law_batch_makes_its_requests_known(
    q: QueueView,
    requests: Seq<JsonValue>,
    forefront: bool,
    key: Seq<char>,
)
    ensures
        knows(add_all(q, requests, forefront), key) <==> knows(q, key) || some_request_has(
            requests,
            key,
        ),
        add_all(q, requests, forefront).handled == q.handled,
        add_all(q, requests, forefront).in_progress == q.in_progress,
    decreases requests.len(),
{
    if requests.len() > 0 {
        let front = requests.drop_last();
        let before = add_all(q, front, forefront);
        law_batch_makes_its_requests_known(q, front, forefront, key);
        if some_request_has(front, key) {
            let i = choose|i: int|
                0 <= i < front.len() && unique_key_of(#[trigger] front[i]) == Some(key);
            assert(requests[i] == front[i]);
        }
        if some_request_has(requests, key) {
            let i = choose|i: int|
                0 <= i < requests.len() && unique_key_of(#[trigger] requests[i]) == Some(key);
            if i < front.len() {
                assert(front[i] == requests[i]);
            }
        }
        if unique_key_of(requests.last()) == Some(key) {
            assert(unique_key_of(requests[requests.len() - 1]) == Some(key));
        }
        assert(add_all(q, requests, forefront) == add_one(before, requests.last(), forefront));
    }
}

/// The report of a batch tells of each request, in order, whether it was known before:
/// to the queue, or by an earlier request of the batch. It tells that a request was
/// handled exactly where it was, and names each request by the identifier of its key.
pub proof fn law_reports_tell_what_was_known(
    reports: Seq<ProcessedRequest>,
    q: QueueView,
    requests: Seq<JsonValue>,
    forefront: bool,
    i: int,
)
    requires
        reports_all(reports, q, requests, forefront),
        0 <= i < requests.len(),
    ensures
        reports.len() == requests.len(),
        unique_key_of(requests[i]) == Some(reports[i].unique_key@),
        reports[i].request_id@ == request_id(reports[i].unique_key@),
        reports[i].was_already_present <==> knows(q, reports[i].unique_key@) || some_request_has(
            requests.take(i),
            reports[i].unique_key@,
        ),
        reports[i].was_already_handled <==> q.handled.contains(reports[i].unique_key@),
{
    assert(reports_add(
        reports[i],
        add_all(q, requests.take(i), forefront),
        requests[i],
        forefront,
    ));
    law_batch_makes_its_requests_known(q, requests.take(i), forefront, reports[i].unique_key@);
}

} // verus!
