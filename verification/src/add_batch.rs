//! Adding a batch of requests to a queue, one file at a time.

use std::collections::VecDeque;
use vstd::prelude::*;

use crate::clock::Timestamp;
use crate::error::StorageError;
use crate::json::JsonValue;
use crate::models::{AddRequestsResponse, ProcessedRequest};
use crate::request_queue::{
    add_outcome, after_add, is_known, is_missing_key, request_file_of, room_for, stores, touched,
    unique_key_of, AddDecision, AddOutcome, QueueView, RequestQueue,
};

verus! {

/// The queue after a request was added.
pub open spec fn add_one(q: QueueView, request: JsonValue, forefront: bool) -> QueueView {
    match unique_key_of(request) {
        Some(k) => after_add(q, k, request, forefront),
        None => q,
    }
}

/// The queue after several requests were added, one after the other.
pub open spec fn add_all(q: QueueView, requests: Seq<JsonValue>, forefront: bool) -> QueueView
    decreases requests.len(),
{
    if requests.len() == 0 {
        q
    } else {
        add_one(add_all(q, requests.drop_last(), forefront), requests.last(), forefront)
    }
}

/// Whether `report` says what became of a request that was added to `q`.
pub open spec fn reports_add(
    report: ProcessedRequest,
    q: QueueView,
    request: JsonValue,
    forefront: bool,
) -> bool {
    &&& unique_key_of(request) matches Some(k)
    &&& report.reports(
        k,
        add_outcome(q, k, forefront) != AddOutcome::New,
        add_outcome(q, k, forefront) == AddOutcome::AlreadyHandled,
    )
}

/// Whether `reports` says, for each request in turn, what became of it.
pub open spec fn reports_all(
    reports: Seq<ProcessedRequest>,
    q: QueueView,
    requests: Seq<JsonValue>,
    forefront: bool,
) -> bool {
    &&& reports.len() == requests.len()
    &&& forall|i: int|
        0 <= i < requests.len() ==> #[trigger] reports_add(
            reports[i],
            add_all(q, requests.take(i), forefront),
            requests[i],
            forefront,
        )
}

/// What a batch needs next.
pub enum BatchStep {
    /// The current request is to be written to the file of that name.
    Write(String),
    /// Nothing: all requests were added.
    Done,
}

/// A batch of requests on its way into a queue.
pub struct AddBatch {
    current: Option<JsonValue>,
    rest: VecDeque<JsonValue>,
    forefront: bool,
    processed: Vec<ProcessedRequest>,
    start: Ghost<QueueView>,
    all: Ghost<Seq<JsonValue>>,
}

impl AddBatch {
    /// The queue before the batch.
    pub closed spec fn start(&self) -> QueueView {
        self.start@
    }

    /// All requests of the batch.
    pub closed spec fn all(&self) -> Seq<JsonValue> {
        self.all@
    }

    /// Whether the requests go to the front.
    pub closed spec fn forefront(&self) -> bool {
        self.forefront
    }

    /// How many requests were added so far.
    pub closed spec fn done(&self) -> int {
        self.processed@.len() as int
    }

    /// The request whose file is to be written.
    pub closed spec fn current(&self) -> Option<JsonValue> {
        self.current
    }

    /// Whether `q` is the queue with the requests so far, and each of them is
    /// reported.
    pub closed spec fn wf(&self, q: QueueView) -> bool {
        let n = self.processed@.len() as int;
        &&& n <= self.all@.len()
        &&& q == add_all(self.start@, self.all@.take(n), self.forefront)
        &&& reports_all(self.processed@, self.start@, self.all@.take(n), self.forefront)
        &&& match self.current {
            Some(r) => n < self.all@.len() && r == self.all@[n] && self.rest@ == self.all@.skip(
                n + 1,
            ),
            None => self.rest@ == self.all@.skip(n),
        }
    }

    /// A batch of which nothing was added to `q` yet.
    pub fn new(q: &RequestQueue, requests: Vec<JsonValue>, forefront: bool) -> (r: Self)
        ensures
            r.wf(q@),
            r.start() == q@,
            r.all() == requests@,
            r.forefront() == forefront,
            r.done() == 0,
            r.current() is None,
    {
        let ghost all = requests@;
        let mut rest: VecDeque<JsonValue> = VecDeque::new();
        let mut source = requests;
        while source.len() > 0
            invariant
                source@ + rest@ == all,
            decreases source@.len(),
        {
            if let Some(item) = source.pop() {
                rest.push_front(item);
            }
        }
        assert(rest@ == all);
        assert(all.skip(0) == all);
        assert(all.take(0) == Seq::<JsonValue>::empty());
        AddBatch {
            current: None,
            rest,
            forefront,
            processed: Vec::new(),
            start: Ghost(q@),
            all: Ghost(all),
        }
    }

    /// The request whose file is to be written.
    pub fn request(&self) -> (r: Option<&JsonValue>)
        ensures
            match r {
                Some(v) => self.current() == Some(*v),
                None => self.current() is None,
            },
    {
        match &self.current {
            Some(v) => Some(v),
            None => None,
        }
    }

    /// Goes on until a file has to be written or all requests were added. A
    /// request without a unique key is an error; those before it stay added.
    pub fn step(&mut self, q: &RequestQueue) -> (r: Result<BatchStep, StorageError>)
        requires
            q.wf(),
            old(self).wf(q@),
        ensures
            final(self).wf(q@),
            final(self).start() == old(self).start(),
            final(self).all() == old(self).all(),
            final(self).forefront() == old(self).forefront(),
            final(self).done() >= old(self).done(),
            match r {
                Ok(BatchStep::Done) => final(self).done() == final(self).all().len(),
                Ok(BatchStep::Write(file)) => {
                    &&& final(self).done() < final(self).all().len()
                    &&& final(self).current() == Some(final(self).all()[final(self).done()])
                    &&& unique_key_of(final(self).all()[final(self).done()]) matches Some(k)
                    &&& stores(add_outcome(q@, k, final(self).forefront()))
                    &&& file@ == request_file_of(k)
                },
                Err(e) => {
                    &&& final(self).done() < final(self).all().len()
                    &&& unique_key_of(final(self).all()[final(self).done()]) is None
                    &&& is_missing_key(e)
                },
            },
    {
        let ghost all = self.all@;
        loop
            invariant
                q.wf(),
                self.wf(q@),
                self.start@ == old(self).start@,
                self.all@ == all,
                all == old(self).all@,
                self.forefront == old(self).forefront,
                self.processed@.len() >= old(self).processed@.len(),
            decreases
                all.len() - self.processed@.len(),
        {
            let ghost n = self.processed@.len() as int;
            if self.current.is_none() {
                match self.rest.pop_front() {
                    None => {
                        assert(all.skip(n).len() == 0);
                        return Ok(BatchStep::Done);
                    },
                    Some(request) => {
                        assert(request == all.skip(n)[0]);
                        assert(all.skip(n).skip(1) == all.skip(n + 1));
                        self.current = Some(request);
                    },
                }
            }
            if let Some(request) = &self.current {
                match q.plan_add(request, self.forefront) {
                    Err(e) => {
                        return Err(e);
                    },
                    Ok(AddDecision::Store(file)) => {
                        return Ok(BatchStep::Write(file));
                    },
                    Ok(AddDecision::Report(report)) => {
                        proof {
                            self.lemma_report(q@, report);
                        }
                        self.processed.push(report);
                        self.current = None;
                    },
                }
            }
        }
    }

    proof fn lemma_report(&self, q: QueueView, report: ProcessedRequest)
        requires
            self.wf(q),
            self.current is Some,
            reports_add(report, q, self.current->0, self.forefront),
        ensures
            ({
                let n = self.processed@.len() as int;
                &&& add_all(self.start@, self.all@.take(n + 1), self.forefront) == add_one(
                    q,
                    self.current->0,
                    self.forefront,
                )
                &&& reports_all(
                    self.processed@.push(report),
                    self.start@,
                    self.all@.take(n + 1),
                    self.forefront,
                )
            }),
    {
        let n = self.processed@.len() as int;
        let all = self.all@;
        assert(all.take(n + 1).drop_last() == all.take(n));
        assert(all.take(n + 1).last() == all[n]);
        let reports = self.processed@.push(report);
        assert forall|i: int| 0 <= i < n + 1 implies #[trigger] reports_add(
            reports[i],
            add_all(self.start@, all.take(n + 1).take(i), self.forefront),
            all.take(n + 1)[i],
            self.forefront,
        ) by {
            assert(all.take(n + 1).take(i) == all.take(i));
            if i < n {
                assert(all.take(n).take(i) == all.take(i));
                assert(reports_add(
                    self.processed@[i],
                    add_all(self.start@, all.take(n).take(i), self.forefront),
                    all.take(n)[i],
                    self.forefront,
                ));
            }
        }
    }

    /// Adds the current request, whose file was written.
    pub fn commit(&mut self, q: &mut RequestQueue)
        requires
            old(q).wf(),
            old(self).wf(old(q)@),
            old(self).current() matches Some(r) && (unique_key_of(r) matches Some(k) && stores(
                add_outcome(old(q)@, k, old(self).forefront()),
            ) && room_for(old(q)@, k, old(self).forefront())),
        ensures
            final(q).wf(),
            final(self).wf(final(q)@),
            final(self).start() == old(self).start(),
            final(self).all() == old(self).all(),
            final(self).forefront() == old(self).forefront(),
            final(self).done() == old(self).done() + 1,
            final(q)@ == add_one(old(q)@, old(self).current()->0, old(self).forefront()),
    {
        let ghost before = *self;
        let mut taken: Option<JsonValue> = None;
        std::mem::swap(&mut taken, &mut self.current);
        if let Some(request) = taken {
            if let Some(report) = q.commit_add(request, self.forefront) {
                proof {
                    before.lemma_report(old(q)@, report);
                }
                self.processed.push(report);
            }
        }
    }

    /// Closes the batch at `now` and says what became of each request.
    pub fn finish(self, q: &mut RequestQueue, now: Timestamp) -> (r: AddRequestsResponse)
        requires
            old(q).wf(),
            self.wf(old(q)@),
            self.done() == self.all().len(),
        ensures
            final(q).wf(),
            final(q)@ == ({
                let added = add_all(self.start(), self.all(), self.forefront());
                QueueView { metadata: touched(added.metadata, now), ..added }
            }),
            reports_all(r.processed_requests@, self.start(), self.all(), self.forefront()),
            r.unprocessed_requests@.len() == 0,
    {
        let ghost all = self.all@;
        assert(all.take(all.len() as int) =~= all);
        q.touch(now);
        AddRequestsResponse { processed_requests: self.processed, unprocessed_requests: Vec::new() }
    }
}

proof fn lemma_stays_known(q: QueueView, request: JsonValue, forefront: bool, key: Seq<char>)
    ensures
        is_known(q, key) ==> is_known(add_one(q, request, forefront), key),
        unique_key_of(request) matches Some(k) ==> is_known(add_one(q, request, forefront), k),
{
}

proof fn lemma_all_known(q: QueueView, requests: Seq<JsonValue>, forefront: bool, i: int)
    requires
        0 <= i < requests.len(),
        unique_key_of(requests[i]) is Some,
    ensures
        is_known(add_all(q, requests, forefront), unique_key_of(requests[i])->0),
    decreases requests.len(),
{
    let front = requests.drop_last();
    let key = unique_key_of(requests[i])->0;
    lemma_stays_known(add_all(q, front, forefront), requests.last(), forefront, key);
    if i < front.len() {
        assert(front[i] == requests[i]);
        lemma_all_known(q, front, forefront, i);
    }
}

proof fn lemma_known_changes_nothing(q: QueueView, requests: Seq<JsonValue>)
    requires
        forall|i: int|
            0 <= i < requests.len() ==> (unique_key_of(#[trigger] requests[i]) matches Some(k)
                ==> is_known(q, k)),
    ensures
        add_all(q, requests, false) == q,
    decreases requests.len(),
{
    if requests.len() > 0 {
        let front = requests.drop_last();
        assert forall|i: int| 0 <= i < front.len() implies (unique_key_of(
            #[trigger] front[i],
        ) matches Some(k) ==> is_known(q, k)) by {
            assert(front[i] == requests[i]);
        }
        lemma_known_changes_nothing(q, front);
        assert(requests[requests.len() - 1] == requests.last());
    }
}

/// Every request of a batch is known to the queue afterwards, and adding the
/// same batch again, without asking for the front, changes nothing.
pub proof fn law_batch_is_deduplicated(q: QueueView, requests: Seq<JsonValue>, forefront: bool)
    ensures
        forall|i: int|
            0 <= i < requests.len() ==> (unique_key_of(#[trigger] requests[i]) matches Some(k)
                ==> is_known(add_all(q, requests, forefront), k)),
        add_all(add_all(q, requests, forefront), requests, false) == add_all(
            q,
            requests,
            forefront,
        ),
{
    let after = add_all(q, requests, forefront);
    assert forall|i: int| 0 <= i < requests.len() implies (unique_key_of(
        #[trigger] requests[i],
    ) matches Some(k) ==> is_known(after, k)) by {
        if unique_key_of(requests[i]) is Some {
            lemma_all_known(q, requests, forefront, i);
        }
    }
    lemma_known_changes_nothing(after, requests);
}

} // verus!
