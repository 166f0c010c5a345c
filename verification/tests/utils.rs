use std::path::Path;

use crawlee_storage::error::StorageError;
use crawlee_storage::path::{join_path, normalize_lexically, slashed, validate_subdirectory};
use crawlee_storage::utils::{
    crypto_random_object_id, decode_key, encode_key, hex_prefix, is_metadata_filename,
    object_id_from_indices, request_id_from_digest, sha256_prefix, unique_key_to_request_id,
    validate_exclusive_args, validate_filename,
};

#[test]
fn test_encode_key_matches_quote_safe_empty() {
    assert_eq!(encode_key("INPUT.json"), "INPUT.json");
    assert_eq!(encode_key("my-key"), "my-key");
    assert_eq!(encode_key("a_b.c-d~e"), "a_b.c-d~e");
    assert_eq!(encode_key("plain123"), "plain123");
    assert_eq!(encode_key("a/b"), "a%2Fb");
    assert_eq!(encode_key("a b"), "a%20b");
    assert_eq!(encode_key("a:b"), "a%3Ab");
    assert_eq!(decode_key(&encode_key("INPUT.json")), "INPUT.json");
    assert_eq!(decode_key("INPUT%2Ejson"), "INPUT.json");
}

#[test]
fn test_validate_subdirectory_accepts_plain_names() {
    let base = "/data/datasets";
    for name in ["default", "my-store", "Some_Name", "with spaces", "123"] {
        let got = validate_subdirectory(base, name).expect("plain name should be accepted");
        assert_eq!(Path::new(&got), Path::new(base).join(name), "name: {name}");
    }
}

#[test]
fn test_validate_subdirectory_rejects_traversal_and_separators() {
    let base = "/data/datasets";
    for evil in [
        "..",
        "../escape",
        "../../etc/passwd",
        "nested/inside",
        "a/b",
        "/absolute",
        "/etc/passwd",
        "foo/..",
        "./..",
    ] {
        assert!(
            validate_subdirectory(base, evil).is_err(),
            "expected rejection for: {evil:?}"
        );
    }
}

#[test]
fn test_validate_subdirectory_collapses_harmless_curdir() {
    let base = "/data/key_value_stores";
    let got = validate_subdirectory(base, "./store").expect("./store should normalize");
    assert_eq!(Path::new(&got), Path::new(base).join("store"));
}

#[test]
fn keys_survive_encoding() {
    for key in ["", "a", "a/b c%d", "%41", "ünïcödé", "日本語", "..", "\u{1F600}", "a\u{0}b"] {
        assert_eq!(decode_key(&encode_key(key)), key);
    }
    assert_eq!(encode_key("ü"), "%C3%BC");
    assert_eq!(decode_key("%zz%4"), "%zz%4");
    assert_eq!(decode_key("%c3%bc"), "ü");
    assert_eq!(decode_key("%FF"), "\u{FFFD}");
}

#[test]
fn digests_and_request_ids() {
    assert_eq!(sha256_prefix("https://example.com", 15), "100680ad546ce6a");
    assert_eq!(
        sha256_prefix("a", 100),
        "ca978112ca1bbdcafac231b39a23dc4da786eff8147c4e72b9807785afee48bb"
    );
    assert_eq!(sha256_prefix("a", 0), "");
    assert_eq!(unique_key_to_request_id("https://example.com"), "EAaArVRs5qV39C9");
    assert_eq!(unique_key_to_request_id("a"), "ypeBEsobvcr6wjG");
    assert_eq!(unique_key_to_request_id(""), "47DEQpj8HBSaTIm");
    assert_eq!(hex_prefix(&[0x0f, 0xa0], 3), "0fa");
    assert_eq!(request_id_from_digest(&[0xfb, 0xff, 0xfe]), "");
    assert_eq!(request_id_from_digest(&[0]), "AA");
    assert_eq!(request_id_from_digest(&[0, 0x10, 0x83, 0x10]), "ABCDEA");
}

#[test]
fn random_ids_have_the_asked_length_and_characters() {
    let charset = "abcdefghijklmnopqrstuvwxyzABCEDFGHIJKLMNOPQRSTUVWXYZ0123456789";
    for length in [0, 1, 17, 200] {
        let id = crypto_random_object_id(length);
        assert_eq!(id.len(), length);
        assert!(id.chars().all(|c| charset.contains(c)));
    }
    assert_ne!(crypto_random_object_id(17), crypto_random_object_id(17));
    assert_eq!(object_id_from_indices(&[0, 25, 26, 29, 30, 61]), "azAED9");
}

#[test]
fn at_most_one_way_of_naming_a_storage() {
    let some = || Some("x".to_string());
    assert!(validate_exclusive_args(&None, &None, &None).is_ok());
    assert!(validate_exclusive_args(&some(), &None, &None).is_ok());
    assert!(validate_exclusive_args(&None, &None, &some()).is_ok());
    for (id, name, alias) in
        [(some(), some(), None), (None, some(), some()), (some(), None, some()), (some(), some(), some())]
    {
        match validate_exclusive_args(&id, &name, &alias) {
            Err(e) => assert_eq!(
                e.message(),
                "Invalid arguments: At most one of 'id', 'name', or 'alias' may be specified"
            ),
            Ok(()) => panic!("expected a refusal"),
        }
    }
}

#[test]
fn file_names_of_values() {
    assert_eq!(validate_filename("input.json").unwrap(), "input.json");
    assert_eq!(validate_filename("..a").unwrap(), "..a");
    for bad in ["", ".", "..", "a/b", "/a", "__metadata__.json", "x.__metadata__.json"] {
        assert!(validate_filename(bad).is_err(), "{bad:?}");
    }
    assert!(is_metadata_filename("__metadata__.json"));
    assert!(is_metadata_filename("INPUT.__metadata__.json"));
    assert!(!is_metadata_filename("a__metadata__.json"));
}

#[test]
fn paths_are_normalized_lexically() {
    for (path, normal) in [
        ("", ""),
        (".", ""),
        ("/", "/"),
        ("a//b/./c/", "a/b/c"),
        ("a/../b", "b"),
        ("../a/..", ".."),
        ("/../a", "/../a"),
        ("/a/b/../../c", "/c"),
    ] {
        assert_eq!(normalize_lexically(path), normal, "{path:?}");
        assert_eq!(normalize_lexically(&normalize_lexically(path)), normal);
    }
    for (base, name) in [("/a", "b"), ("/a/", "b"), ("", "b"), ("a", "/b"), ("a", "")] {
        let joined = Path::new(base).join(name);
        assert_eq!(join_path(base, name), joined.to_str().unwrap());
    }
}

#[test]
fn parent_references_are_refused_in_any_directory() {
    for base in ["", ".", "..", "/", "/data", "data"] {
        assert!(validate_subdirectory(base, "..").is_err(), "{base:?}");
        assert!(validate_subdirectory(base, ".").is_err(), "{base:?}");
        assert!(validate_subdirectory(base, "").is_err(), "{base:?}");
    }
    match validate_subdirectory("/data", "a/b") {
        Err(e) => assert!(e.message().starts_with(
            "Invalid arguments: Invalid storage name or alias \"a/b\". It must map to a single "
        )),
        Ok(_) => panic!("expected a refusal"),
    }
}

#[test]
fn messages_of_errors() {
    let text = |s: &str| s.to_string();
    assert_eq!(StorageError::Io(text("x")).message(), "I/O error: x");
    assert_eq!(StorageError::Json(text("x")).message(), "JSON error: x");
    assert_eq!(StorageError::NotFound(text("x")).message(), "Storage not found: x");
    assert_eq!(
        StorageError::ExclusiveStartKeyNotFound(text("k")).message(),
        "exclusiveStartKey \"k\" was not found in the key-value store. This is likely a bug — \
         the key may have been deleted between paginated listKeys calls."
    );
    let ambiguous = StorageError::AmbiguousInput { key: text("K"), files: vec![text("a"), text("b")] };
    assert_eq!(
        ambiguous.message(),
        "Multiple files match the key \"K\": a, b. Keep only one of them."
    );
}

#[test]
fn backslashes_separate_only_where_they_are_said_to() {
    assert_eq!(slashed(r"C:\data\x/y", true), "C:/data/x/y");
    assert_eq!(slashed(r"C:\data\x/y", false), r"C:\data\x/y");
    for name in [r"a\b", r"..\escape", r"\absolute", r"nested\inside\more"] {
        assert!(validate_subdirectory("/data", &slashed(name, true)).is_err(), "{name}");
        let kept = validate_subdirectory("/data", &slashed(name, false)).unwrap();
        assert_eq!(Path::new(&kept), Path::new("/data").join(name));
    }
    for name in [r".\store", r"store\", r"x\..\store"] {
        assert_eq!(validate_subdirectory("/data", &slashed(name, true)).unwrap(), "/data/store");
    }
}
