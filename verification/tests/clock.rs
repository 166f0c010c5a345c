use crawlee_storage::clock::{
    deserialize_datetime, first_reading, serialize_datetime, shifted_millis, shifted_time, Clock,
    SystemClock, TestClock, Timestamp, MAX_SECS,
};
use crawlee_storage::models::{
    DatasetMetadata, KeyValueStoreMetadata, RequestQueueMetadata, StorageMetadata,
};

fn at(secs: i64, nanos: u32) -> Timestamp {
    Timestamp { secs, nanos }
}

#[test]
fn text_of_a_timestamp() {
    assert_eq!(serialize_datetime(&at(1705314600, 123456789)), "2024-01-15T10:30:00.123456+00:00");
    assert_eq!(serialize_datetime(&at(0, 0)), "1970-01-01T00:00:00.000000+00:00");
}

#[test]
fn test_open_tolerates_z_suffix_and_varying_fractions() {
    for (text, expected) in [
        ("2024-01-15T10:30:00.123456+00:00", at(1705314600, 123456000)),
        ("2024-01-15T10:30:00.123Z", at(1705314600, 123000000)),
        ("2024-01-15T10:30:00Z", at(1705314600, 0)),
        ("2024-01-15T10:30:00.5", at(1705314600, 500000000)),
        ("2024-01-15T10:30:00", at(1705314600, 0)),
        ("2024-01-15T12:30:00.000001+02:00", at(1705314600, 1000)),
    ] {
        assert_eq!(deserialize_datetime(text), Ok(expected), "{text}");
    }
    assert!(deserialize_datetime("yesterday").is_err());
}

#[test]
fn timestamps_are_read_back_to_the_microsecond() {
    for t in [at(0, 0), at(1705314600, 123456789), at(253402300799, 999999999)] {
        let back = deserialize_datetime(&serialize_datetime(&t)).unwrap();
        assert_eq!(back, at(t.secs, t.nanos / 1000 * 1000));
    }
}

#[test]
fn readings_are_tried_in_order() {
    let (a, b, c) = (at(1, 0), at(2, 0), at(3, 0));
    assert_eq!(first_reading(Some(a), Some(b), Ok(c)), Ok(a));
    assert_eq!(first_reading(None, Some(b), Err("e".to_string())), Ok(b));
    assert_eq!(first_reading(None, None, Ok(c)), Ok(c));
    assert_eq!(first_reading(None, None, Err("e".to_string())), Err("e".to_string()));
}

#[test]
fn clocks_show_the_time() {
    let before = SystemClock.now().unwrap();
    let mut clock = TestClock::new();
    assert_eq!(clock.offset(), 0);
    let shown = clock.now().unwrap();
    assert!((shown.secs, shown.nanos) >= (before.secs, before.nanos));
    clock.advance(3_600_000);
    clock.advance(-600_000);
    assert_eq!(clock.offset(), 3_000_000);
    let later = clock.now().unwrap();
    assert!(later.secs >= before.secs + 3000);
    assert!(clock.now_millis().unwrap() >= SystemClock.now_millis().unwrap() + 2_999_000);
    clock.set_offset(-1000);
    assert!(clock.now_millis().unwrap() <= SystemClock.now_millis().unwrap());
    assert!(clock.now().is_some());
    clock.set_offset(i64::MAX);
    assert_eq!(clock.now(), None);
    assert_eq!(clock.now_millis(), None);
    clock.advance(1);
    assert_eq!(clock.offset(), i64::MIN);
    assert_eq!(clock.now(), None);
}

#[test]
fn times_are_shifted_by_milliseconds() {
    assert_eq!(shifted_time(at(10, 999_000_000), 2), Some(at(11, 1_000_000)));
    assert_eq!(shifted_time(at(10, 0), -1), Some(at(9, 999_000_000)));
    assert_eq!(shifted_time(at(MAX_SECS, 0), 999), Some(at(MAX_SECS, 999_000_000)));
    assert_eq!(shifted_time(at(MAX_SECS, 0), 1000), None);
    assert_eq!(shifted_time(at(0, 0), -8334601228800000), Some(at(-8334601228800, 0)));
    assert_eq!(shifted_time(at(0, 0), -8334601228800001), None);
    assert_eq!(at(-1, 1_999_999).timestamp_millis(), -999);
    assert_eq!(shifted_millis(at(1, 2_000_000), 5), Some(1007));
}

#[test]
fn new_storages_carry_one_time_throughout() {
    let base = StorageMetadata::new("id".to_string(), Some("n".to_string()));
    assert_eq!((base.id.as_str(), base.name.as_deref()), ("id", Some("n")));
    assert_eq!(base.accessed_at, base.created_at);
    assert_eq!(base.modified_at, base.created_at);
    assert_eq!(DatasetMetadata::new("d".to_string(), None).item_count, 0);
    assert_eq!(KeyValueStoreMetadata::new("k".to_string(), None).base.id, "k");
    let queue = RequestQueueMetadata::new("q".to_string(), None);
    assert!(!queue.had_multiple_clients);
    assert_eq!(queue.total_request_count, 0);
    let mut touched = queue.base.clone();
    touched.touch_read(at(5, 0));
    assert_eq!(touched.accessed_at, at(5, 0));
    assert_eq!(touched.modified_at, queue.base.modified_at);
}
