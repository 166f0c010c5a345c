use std::collections::BTreeMap;

use crawlee_storage::add_batch::{AddBatch, BatchStep};
use crawlee_storage::clock::Timestamp;
use crawlee_storage::error::StorageError;
use crawlee_storage::json::JsonValue;
use crawlee_storage::models::{AddRequestsResponse, RequestQueueMetadata};
use crawlee_storage::request_queue::{
    is_request_file, request_filename, unique_key, RequestQueue, RequestQueueState,
};

const NOW: Timestamp = Timestamp { secs: 1705314600, nanos: 123456789 };

fn text(s: &str) -> JsonValue {
    JsonValue::Str(s.to_string())
}

fn page(key: &str, url: &str) -> JsonValue {
    JsonValue::Object(vec![
        ("uniqueKey".to_string(), text(key)),
        ("url".to_string(), text(url)),
        ("method".to_string(), text("GET")),
    ])
}

fn request(key: &str) -> JsonValue {
    page(key, &format!("https://example.com/{key}"))
}

fn key_of(request: &JsonValue) -> String {
    unique_key(request).unwrap()
}

/// A queue whose files are kept in memory, by name and in the order of a
/// directory.
struct MemQueue {
    queue: RequestQueue,
    files: BTreeMap<String, Vec<(String, JsonValue)>>,
}

fn copy(v: &JsonValue) -> JsonValue {
    match v {
        JsonValue::Null => JsonValue::Null,
        JsonValue::Bool(b) => JsonValue::Bool(*b),
        JsonValue::Number(n) => JsonValue::Number(*n),
        JsonValue::Str(s) => JsonValue::Str(s.clone()),
        JsonValue::Array(items) => JsonValue::Array(items.iter().map(copy).collect()),
        JsonValue::Object(f) => JsonValue::Object(copy_fields(f)),
    }
}

fn copy_fields(fields: &[(String, JsonValue)]) -> Vec<(String, JsonValue)> {
    fields.iter().map(|(k, v)| (k.clone(), copy(v))).collect()
}

impl MemQueue {
    fn new() -> Self {
        let meta = RequestQueueMetadata::created("id".to_string(), None, NOW);
        MemQueue {
            queue: RequestQueue::open(meta, RequestQueueState::default()),
            files: BTreeMap::new(),
        }
    }

    fn write(&mut self, name: String, value: &JsonValue) {
        if let JsonValue::Object(fields) = value {
            self.files.insert(name, copy_fields(fields));
        }
    }

    fn read_all(&self) -> Vec<JsonValue> {
        self.files.values().map(|f| JsonValue::Object(copy_fields(f))).collect()
    }

    fn add(&mut self, requests: Vec<JsonValue>, forefront: bool) -> Result<AddRequestsResponse, StorageError> {
        let mut batch = AddBatch::new(&self.queue, requests, forefront);
        while let BatchStep::Write(name) = batch.step(&self.queue)? {
            let value = copy(batch.request().unwrap());
            self.write(name, &value);
            batch.commit(&mut self.queue);
        }
        Ok(batch.finish(&mut self.queue, NOW))
    }

    fn fetch(&mut self) -> Option<JsonValue> {
        if self.queue.needs_refresh() {
            let all = self.read_all();
            self.queue.refresh_cache(all);
        }
        self.queue.fetch_next_request()
    }

    fn handled(&mut self, request: JsonValue) -> bool {
        let key = key_of(&request);
        match self.queue.plan_handled(request, NOW).unwrap() {
            None => false,
            Some((name, value)) => {
                self.write(name, &value);
                self.queue.commit_handled(&key, NOW).is_some()
            }
        }
    }

    fn counts(&self) -> (usize, usize, usize) {
        let m = self.queue.metadata();
        (m.handled_request_count, m.pending_request_count, m.total_request_count)
    }
}

#[test]
fn test_add_and_fetch_request() {
    let mut q = MemQueue::new();
    let response = q.add(vec![page("https://example.com", "https://example.com")], false).unwrap();
    assert_eq!(response.processed_requests.len(), 1);
    assert!(!response.processed_requests[0].was_already_present);
    assert!(response.unprocessed_requests.is_empty());
    let fetched = q.fetch();
    assert!(fetched.is_some());
    let fetched = fetched.unwrap();
    assert_eq!(fetched.get("url").and_then(JsonValue::as_str), Some("https://example.com"));
    assert!(q.fetch().is_none());
}

#[test]
fn test_deduplication() {
    let mut q = MemQueue::new();
    let req = page("https://example.com", "https://example.com");
    q.add(vec![copy(&req)], false).unwrap();
    let response = q.add(vec![req], false).unwrap();
    assert!(response.processed_requests[0].was_already_present);
    assert_eq!(q.counts(), (0, 1, 1));
}

#[test]
fn test_mark_as_handled() {
    let mut q = MemQueue::new();
    q.add(vec![page("req1", "https://example.com/1")], false).unwrap();
    let fetched = q.fetch().unwrap();
    assert!(!q.queue.is_empty());
    assert!(q.handled(fetched));
    assert!(q.queue.is_empty());
    assert_eq!(q.counts(), (1, 0, 1));
    let stored = q.read_all().remove(0);
    for field in ["handledAt", "handled_at"] {
        assert_eq!(
            stored.get(field).and_then(JsonValue::as_str),
            Some("2024-01-15T10:30:00.123456+00:00")
        );
    }
    let response = q.add(vec![request("req1")], true).unwrap();
    assert!(response.processed_requests[0].was_already_handled);
}

#[test]
fn test_reclaim_request() {
    let mut q = MemQueue::new();
    q.add(vec![page("req1", "https://example.com/1")], false).unwrap();
    let fetched = q.fetch().unwrap();
    let report = q.queue.reclaim_request(fetched, false, NOW).unwrap().unwrap();
    assert_eq!(report.unique_key, "req1");
    assert!(q.fetch().is_some());
    assert_eq!(q.counts(), (0, 1, 1));
}

#[test]
fn test_forefront() {
    let mut q = MemQueue::new();
    q.add(vec![request("regular")], false).unwrap();
    q.add(vec![request("priority")], true).unwrap();
    assert_eq!(key_of(&q.fetch().unwrap()), "priority");
    assert_eq!(key_of(&q.fetch().unwrap()), "regular");
}

#[test]
fn order_of_a_queue_read_from_disk() {
    let mut q = MemQueue::new();
    q.add(vec![request("r1"), request("r2"), request("r3")], false).unwrap();
    q.add(vec![request("f1"), request("f2")], true).unwrap();
    q.add(vec![request("r3")], true).unwrap();
    let order: Vec<String> = std::iter::from_fn(|| q.fetch().map(|r| key_of(&r))).collect();
    assert_eq!(order, ["r3", "f2", "f1", "r1", "r2"]);
    assert_eq!(q.counts(), (0, 5, 5));
}

#[test]
fn a_request_that_waits_moves_to_the_front() {
    let mut q = MemQueue::new();
    q.add(vec![request("a"), request("b")], false).unwrap();
    let response = q.add(vec![request("b")], true).unwrap();
    assert!(response.processed_requests[0].was_already_present);
    assert!(!response.processed_requests[0].was_already_handled);
    assert_eq!(key_of(&q.fetch().unwrap()), "b");
    assert_eq!(key_of(&q.fetch().unwrap()), "a");
    assert!(q.fetch().is_none());
}

#[test]
fn requests_without_a_key_are_refused() {
    let mut q = MemQueue::new();
    let bad = JsonValue::Object(vec![("url".to_string(), text("u"))]);
    match q.add(vec![request("a"), bad, request("b")], false) {
        Err(StorageError::InvalidArgs(text)) => {
            assert_eq!(text, "Request must have a 'uniqueKey' field");
        }
        other => panic!("expected a refusal, got {other:?}"),
    }
    assert_eq!(q.counts(), (0, 1, 1));
    assert!(q.queue.plan_handled(JsonValue::Null, NOW).is_err());
    assert!(q.queue.reclaim_request(JsonValue::Null, false, NOW).is_err());
}

#[test]
fn either_spelling_of_the_key_counts() {
    let snake = JsonValue::Object(vec![("unique_key".to_string(), text("k"))]);
    assert_eq!(unique_key(&snake).as_deref(), Some("k"));
    let both = JsonValue::Object(vec![
        ("unique_key".to_string(), text("snake")),
        ("uniqueKey".to_string(), text("camel")),
    ]);
    assert_eq!(unique_key(&both).as_deref(), Some("camel"));
    let wrong = JsonValue::Object(vec![
        ("uniqueKey".to_string(), JsonValue::Null),
        ("unique_key".to_string(), text("snake")),
    ]);
    assert_eq!(unique_key(&wrong), None);
}

#[test]
fn requests_that_are_not_in_progress_are_left_alone() {
    let mut q = MemQueue::new();
    q.add(vec![request("a")], false).unwrap();
    assert!(!q.handled(request("a")));
    assert!(q.queue.commit_handled("a", NOW).is_none());
    assert!(q.queue.reclaim_request(request("a"), true, NOW).unwrap().is_none());
    assert_eq!(q.counts(), (0, 1, 1));
}

#[test]
fn state_outlives_the_process() {
    let mut q = MemQueue::new();
    q.add(vec![request("a"), request("b"), request("c")], false).unwrap();
    let a = q.fetch().unwrap();
    assert!(q.handled(a));
    q.fetch().unwrap();
    let state = q.queue.state();
    assert_eq!(state.sequence_counter, 3);
    assert_eq!(state.handled_requests, ["a"]);
    assert_eq!(state.in_progress_requests, ["b"]);
    assert_eq!(state.regular_requests, [("c".to_string(), Some(3))]);
    let mut reopened = MemQueue {
        queue: RequestQueue::open(q.queue.metadata(), state),
        files: std::mem::take(&mut q.files),
    };
    let found = reopened.read_all();
    reopened.queue.discover_existing_requests(&found);
    assert_eq!(key_of(&reopened.fetch().unwrap()), "c");
    assert!(reopened.fetch().is_none());
    assert!(!reopened.queue.is_empty());
}

#[test]
fn requests_on_disk_are_discovered() {
    let mut q = MemQueue::new();
    let mut done = request("done");
    done.set_field("handledAt", text("2024-01-15T10:30:00.000000+00:00"));
    let mut waiting = request("waiting");
    waiting.set_field("handledAt", JsonValue::Null);
    q.write(request_filename("done"), &done);
    q.write(request_filename("waiting"), &waiting);
    q.write("other.json".to_string(), &JsonValue::Object(Vec::new()));
    let found = q.read_all();
    q.queue.discover_existing_requests(&found);
    assert_eq!(q.queue.state().handled_requests, ["done"]);
    assert_eq!(key_of(&q.fetch().unwrap()), "waiting");
    assert!(q.fetch().is_none());
}

#[test]
fn purge_forgets_everything() {
    let mut q = MemQueue::new();
    q.add(vec![request("a"), request("b")], true).unwrap();
    q.fetch().unwrap();
    q.queue.purge(NOW);
    q.files.clear();
    assert!(q.queue.is_empty());
    assert_eq!(q.counts(), (0, 0, 0));
    assert!(q.fetch().is_none());
    assert_eq!(q.queue.state().forefront_sequence_counter, 0);
}

#[test]
fn request_files_are_named_after_a_digest() {
    assert_eq!(request_filename("https://example.com"), "100680ad546ce6a.json");
    assert!(is_request_file("100680ad546ce6a.json"));
    assert!(!is_request_file("__metadata__.json"));
    assert!(!is_request_file("lock"));
}

#[test]
fn counters_at_their_end_leave_no_room() {
    let state = RequestQueueState { sequence_counter: i64::MAX, ..RequestQueueState::default() };
    let meta = RequestQueueMetadata::created("id".to_string(), None, NOW);
    let queue = RequestQueue::open(meta, state);
    assert!(queue.has_places_for(0));
    assert!(!queue.has_places_for(1));
    assert!(!queue.has_room_for(&request("a"), false));
    assert!(queue.has_room_for(&request("a"), true));
    assert!(queue.has_room_for(&JsonValue::Null, false));
    assert!(queue.has_room_to_reclaim(&request("a"), false));
}

#[test]
fn a_full_back_takes_nothing_back() {
    let state = RequestQueueState {
        sequence_counter: i64::MAX,
        in_progress_requests: vec!["a".to_string()],
        ..RequestQueueState::default()
    };
    let meta = RequestQueueMetadata::created("id".to_string(), None, NOW);
    let mut queue = RequestQueue::open(meta, state);
    assert!(!queue.has_room_to_reclaim(&request("a"), false));
    assert!(queue.has_room_to_reclaim(&request("a"), true));
    let report = queue.reclaim_request(request("a"), true, NOW).unwrap().unwrap();
    assert!(report.was_already_present);
    assert_eq!(queue.state().forefront_requests, vec![("a".to_string(), Some(1))]);
}

fn rest(q: &mut MemQueue) -> Vec<String> {
    std::iter::from_fn(|| q.fetch().map(|r| key_of(&r))).collect()
}

#[test]
fn a_request_given_back_to_the_end_comes_after_all_that_wait() {
    let mut q = MemQueue::new();
    q.add(vec![request("a"), request("b"), request("c")], false).unwrap();
    q.add(vec![request("f")], true).unwrap();
    assert_eq!(key_of(&q.fetch().unwrap()), "f");
    let a = q.fetch().unwrap();
    assert_eq!(q.counts(), (0, 4, 4));
    q.queue.reclaim_request(a, false, NOW).unwrap().unwrap();
    assert_eq!(q.counts(), (0, 4, 4));
    assert_eq!(rest(&mut q), ["b", "c", "a"]);
    assert!(q.fetch().is_none());
}

#[test]
fn a_request_given_back_to_the_front_comes_next() {
    let mut q = MemQueue::new();
    q.add(vec![request("a"), request("b")], false).unwrap();
    let a = q.fetch().unwrap();
    q.add(vec![request("f")], true).unwrap();
    q.queue.reclaim_request(a, true, NOW).unwrap().unwrap();
    assert_eq!(rest(&mut q), ["a", "f", "b"]);
}

#[test]
fn the_order_outlives_a_reading_from_disk() {
    let mut q = MemQueue::new();
    q.add(vec![request("a"), request("b"), request("c"), request("d")], false).unwrap();
    let a = q.fetch().unwrap();
    q.add(vec![request("d")], true).unwrap();
    assert!(q.queue.needs_refresh());
    q.queue.reclaim_request(a, false, NOW).unwrap().unwrap();
    assert_eq!(rest(&mut q), ["d", "b", "c", "a"]);
}

#[test]
fn a_handled_request_never_comes_back() {
    let mut q = MemQueue::new();
    q.add(vec![request("a"), request("b"), request("c")], false).unwrap();
    let a = q.fetch().unwrap();
    let again = copy(&a);
    assert!(q.handled(a));
    assert_eq!(q.counts(), (1, 2, 3));
    for forefront in [false, true] {
        let response = q.add(vec![request("a")], forefront).unwrap();
        assert!(response.processed_requests[0].was_already_present);
        assert!(response.processed_requests[0].was_already_handled);
    }
    assert!(q.queue.reclaim_request(again, true, NOW).unwrap().is_none());
    let b = q.fetch().unwrap();
    q.queue.reclaim_request(b, true, NOW).unwrap().unwrap();
    let all = q.read_all();
    q.queue.refresh_cache(all);
    assert_eq!(rest(&mut q), ["b", "c"]);
    assert_eq!(q.counts(), (1, 2, 3));
}

#[test]
fn nothing_comes_out_exactly_where_nothing_waits() {
    let mut q = MemQueue::new();
    assert!(q.queue.is_empty());
    assert!(q.fetch().is_none());
    q.add(vec![request("a")], false).unwrap();
    assert!(!q.queue.is_empty());
    let a = q.fetch().unwrap();
    assert!(q.fetch().is_none());
    assert!(!q.queue.is_empty());
    q.queue.reclaim_request(a, false, NOW).unwrap().unwrap();
    let a = q.fetch().unwrap();
    assert!(q.handled(a));
    assert!(q.fetch().is_none());
    assert!(q.queue.is_empty());
}
