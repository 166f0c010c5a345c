use crawlee_storage::bindings::{request_queue_access_to_sole_owner, storage_dir_or_default};
use crawlee_storage::error::StorageError;
use crawlee_storage::json::{JsonNumber, JsonValue};
use crawlee_storage::json_text::{json_dumps, written};
use crawlee_storage::python::{py_to_value, PyObjectView};
use crawlee_storage::storage::{
    find_storage_by_id, locate, locate_checked, not_found, storage_id, temp_file_name,
    StorageLocation,
};

fn text(s: &str) -> JsonValue {
    JsonValue::Str(s.to_string())
}

#[test]
fn documents_are_written_over_several_lines() {
    let value: serde_json::Value =
        serde_json::from_str(r#"{"b":[1,2.5,-3],"a":"ü","c":{}}"#).unwrap();
    assert_eq!(
        json_dumps(&value).unwrap(),
        "{\n  \"a\": \"ü\",\n  \"b\": [\n    1,\n    2.5,\n    -3\n  ],\n  \"c\": {}\n}"
    );
    assert!(matches!(written(Err("bad".to_string())), Err(StorageError::Json(ref t)) if t == "bad"));
    assert_eq!(written(Ok("1".to_string())).unwrap(), "1");
}

#[test]
fn fields_of_documents() {
    let mut v = JsonValue::Object(vec![
        ("a".to_string(), JsonValue::Number(JsonNumber::PosInt(u64::MAX))),
        ("b".to_string(), JsonValue::Number(JsonNumber::NegInt(-4))),
    ]);
    assert_eq!(v.get("a").unwrap().as_i64(), None);
    assert_eq!(v.get("b").unwrap().as_i64(), Some(-4));
    assert!(v.get("c").is_none());
    v.set_field("a", text("x"));
    v.set_field("c", JsonValue::Null);
    assert_eq!(v.get("a").unwrap().as_str(), Some("x"));
    assert!(v.get("c").unwrap().is_null());
    assert_eq!(v.get("b").unwrap().as_i64(), Some(-4));
    let mut other = JsonValue::Bool(true);
    other.set_field("a", text("x"));
    assert_eq!(other, JsonValue::Bool(true));
    assert!(other.get("a").is_none());
    assert_eq!(other.as_str(), None);
}

#[test]
fn storages_are_located() {
    let some = |s: &str| Some(s.to_string());
    match locate(&None, &some("n"), &None, "./storage", "datasets").unwrap() {
        StorageLocation::At(path) => assert_eq!(path, "./storage/datasets/n"),
        other => panic!("unexpected {other:?}"),
    }
    match locate(&None, &None, &some("al"), "/s", "datasets").unwrap() {
        StorageLocation::At(path) => assert_eq!(path, "/s/datasets/al"),
        other => panic!("unexpected {other:?}"),
    }
    match locate(&some("id"), &None, &None, "/s", "datasets").unwrap() {
        StorageLocation::ById(id) => assert_eq!(id, "id"),
        other => panic!("unexpected {other:?}"),
    }
    assert!(locate(&some("id"), &some("n"), &None, "/s", "datasets").is_err());
    match locate_checked(&None, &None, &None, "/s", "key_value_stores").unwrap() {
        StorageLocation::At(path) => assert_eq!(path, "/s/key_value_stores/default"),
        other => panic!("unexpected {other:?}"),
    }
    assert!(locate_checked(&None, &some("../x"), &None, "/s", "k").is_err());
    assert!(locate_checked(&some("i"), &None, &some("a"), "/s", "k").is_err());
    match locate_checked(&None, &some("./x"), &None, "/s", "k").unwrap() {
        StorageLocation::At(path) => assert_eq!(path, "/s/k/x"),
        other => panic!("unexpected {other:?}"),
    }
    assert_eq!(not_found("Dataset", "7").message(), "Storage not found: Dataset with id '7' not found");
}

#[test]
fn storages_are_found_by_id() {
    let meta = |id: JsonValue| Some(JsonValue::Object(vec![("id".to_string(), id)]));
    let found = [
        None,
        meta(JsonValue::Null),
        meta(text("b")),
        meta(text("a")),
        meta(text("a")),
    ];
    assert_eq!(find_storage_by_id(&found, "a"), Some(3));
    assert_eq!(find_storage_by_id(&found, "z"), None);
    assert_eq!(storage_id(Some("given".to_string())), "given");
    assert_eq!(storage_id(None).len(), 17);
    let temp = temp_file_name();
    assert!(temp.starts_with(".tmp."));
    assert_eq!(temp.len(), 17);
    assert_ne!(temp, temp_file_name());
}

#[test]
fn access_to_queues() {
    let some = |s: &str| Some(s.to_string());
    assert_eq!(request_queue_access_to_sole_owner(None), Ok(true));
    assert_eq!(request_queue_access_to_sole_owner(some("single")), Ok(true));
    assert_eq!(request_queue_access_to_sole_owner(some("shared")), Ok(false));
    assert_eq!(
        request_queue_access_to_sole_owner(some("many")),
        Err("requestQueueAccess must be 'single' or 'shared', got 'many'".to_string())
    );
    assert_eq!(storage_dir_or_default(None), "./storage");
    assert_eq!(storage_dir_or_default(some("/x")), "/x");
}

fn object() -> PyObjectView {
    PyObjectView {
        is_none: false,
        as_bool: None,
        as_int: None,
        as_float: None,
        as_text: None,
        items: None,
        fields: None,
        printed: "<object>".to_string(),
    }
}

#[test]
fn python_objects_become_documents() {
    assert_eq!(py_to_value(&PyObjectView { is_none: true, ..object() }), JsonValue::Null);
    let truth =
        PyObjectView { as_bool: Some(true), as_int: Some(1), as_float: Some(1f64.to_bits()), ..object() };
    assert_eq!(py_to_value(&truth), JsonValue::Bool(true));
    let int = PyObjectView { as_int: Some(-2), as_float: Some((-2f64).to_bits()), ..object() };
    assert_eq!(py_to_value(&int), JsonValue::Number(JsonNumber::NegInt(-2)));
    let float = PyObjectView { as_float: Some(0.5f64.to_bits()), ..object() };
    assert_eq!(py_to_value(&float), JsonValue::Number(JsonNumber::Float(0.5f64.to_bits())));
    for bad in [f64::NAN, f64::INFINITY, f64::NEG_INFINITY] {
        let v = PyObjectView { as_float: Some(bad.to_bits()), ..object() };
        assert_eq!(py_to_value(&v), JsonValue::Null);
    }
    let entry = PyObjectView { as_text: Some("t".to_string()), ..object() };
    let nested = PyObjectView {
        fields: Some(vec![("k".to_string(), PyObjectView {
            items: Some(vec![entry, object(), PyObjectView { as_int: Some(3), ..object() }]),
            ..object()
        })]),
        ..object()
    };
    assert_eq!(
        py_to_value(&nested),
        JsonValue::Object(vec![(
            "k".to_string(),
            JsonValue::Array(vec![
                text("t"),
                text("<object>"),
                JsonValue::Number(JsonNumber::PosInt(3)),
            ])
        )])
    );
}
