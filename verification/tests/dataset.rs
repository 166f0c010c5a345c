use std::collections::BTreeMap;

use crawlee_storage::clock::Timestamp;
use crawlee_storage::dataset::{
    get_data, is_item_file, item_filename, iterate_items_page, sorted_data_files, split_items,
};
use crawlee_storage::error::StorageError;
use crawlee_storage::json::{JsonNumber, JsonValue};
use crawlee_storage::models::{DatasetItemsListPage, DatasetItemsPage, DatasetMetadata};
use crawlee_storage::storage::{
    find_storage_by_id, locate, not_found, storage_id, StorageLocation,
};

fn number(n: u64) -> JsonValue {
    JsonValue::Number(JsonNumber::PosInt(n))
}

fn item(index: u64) -> JsonValue {
    JsonValue::Object(vec![("index".to_string(), number(index))])
}

fn items(range: std::ops::Range<u64>) -> Vec<JsonValue> {
    range.map(item).collect()
}

fn person(name: &str, age: u64) -> JsonValue {
    JsonValue::Object(vec![
        ("name".to_string(), JsonValue::Str(name.to_string())),
        ("age".to_string(), number(age)),
    ])
}

fn index(item: &JsonValue) -> i64 {
    item.get("index").and_then(JsonValue::as_i64).unwrap()
}

fn numbers(items: &[JsonValue]) -> Vec<i64> {
    items.iter().map(index).collect()
}

fn copy(v: &JsonValue) -> JsonValue {
    match v {
        JsonValue::Null => JsonValue::Null,
        JsonValue::Bool(b) => JsonValue::Bool(*b),
        JsonValue::Number(n) => JsonValue::Number(*n),
        JsonValue::Str(s) => JsonValue::Str(s.clone()),
        JsonValue::Array(items) => JsonValue::Array(items.iter().map(copy).collect()),
        JsonValue::Object(f) => {
            JsonValue::Object(f.iter().map(|(k, v)| (k.clone(), copy(v))).collect())
        }
    }
}

const NOW: Timestamp = Timestamp { secs: 100, nanos: 5 };
const LATER: Timestamp = Timestamp { secs: 200, nanos: 6 };

/// A dataset whose files are held in memory.
struct MemDataset {
    meta: DatasetMetadata,
    files: Vec<(String, JsonValue)>,
}

impl MemDataset {
    fn new() -> Self {
        MemDataset {
            meta: DatasetMetadata::created("id".to_string(), Some("n".to_string()), NOW),
            files: Vec::new(),
        }
    }

    fn push_data(&mut self, data: JsonValue) {
        for value in split_items(data) {
            self.files.push((self.meta.next_item_file(), value));
            self.meta.count_item();
        }
        self.meta.base.touch(LATER);
    }

    fn names(&self) -> Vec<&str> {
        self.files.iter().map(|(name, _)| name.as_str()).collect()
    }

    /// The items in the order of their files, whatever the order of the directory.
    fn items(&self) -> Vec<JsonValue> {
        let entries = self.names().iter().rev().map(|name| name.to_string()).collect();
        sorted_data_files(entries)
            .iter()
            .map(|name| copy(&self.files.iter().find(|(n, _)| n == name).unwrap().1))
            .collect()
    }

    fn get_data(
        &self,
        offset: usize,
        limit: usize,
        desc: bool,
        skip_empty: bool,
    ) -> DatasetItemsListPage {
        get_data(self.items(), offset, limit, desc, skip_empty)
    }

    fn iterate_items_page(
        &self,
        offset: usize,
        limit: Option<usize>,
        page_size: usize,
        desc: bool,
        skip_empty: bool,
    ) -> DatasetItemsPage {
        iterate_items_page(self.items(), offset, limit, page_size, desc, skip_empty)
    }

    fn purge(&mut self) {
        for name in sorted_data_files(self.names().iter().map(|n| n.to_string()).collect()) {
            self.files.retain(|(n, _)| *n != name);
        }
        self.meta.purged(LATER);
    }
}

#[test]
fn test_create_and_push_data() {
    let mut client = MemDataset::new();
    client.push_data(person("Alice", 30));
    assert_eq!(client.meta.item_count, 1);
    client.push_data(JsonValue::Array(vec![person("Bob", 25), person("Charlie", 35)]));
    assert_eq!(client.meta.item_count, 3);
    assert_eq!(client.meta.base.created_at, NOW);
    assert_eq!(client.meta.base.modified_at, LATER);
    assert_eq!(client.names(), ["000000001.json", "000000002.json", "000000003.json"]);
    assert_eq!(client.items(), [person("Alice", 30), person("Bob", 25), person("Charlie", 35)]);
}

#[test]
fn test_get_data_pagination() {
    let mut client = MemDataset::new();
    for i in 1..=5 {
        client.push_data(item(i));
    }
    let page = client.get_data(0, 2, false, false);
    assert_eq!(page.count, 2);
    assert_eq!(page.total, 5);
    assert_eq!(index(&page.items[0]), 1);
    assert_eq!(index(&page.items[1]), 2);

    let page = client.get_data(2, 2, false, false);
    assert_eq!(page.count, 2);
    assert_eq!(index(&page.items[0]), 3);

    let page = client.get_data(0, 5, true, false);
    assert_eq!(index(&page.items[0]), 5);
    assert_eq!(index(&page.items[4]), 1);
}

#[test]
fn pages_echo_what_was_asked_for() {
    let page = get_data(items(0..10), 2, 3, false, false);
    assert_eq!((page.offset, page.limit, page.desc), (2, 3, false));
    assert_eq!(numbers(&page.items), [2, 3, 4]);
    let page = get_data(items(0..3), 5, 3, false, false);
    assert_eq!((page.count, page.total), (0, 3));
}

#[test]
fn test_get_data_desc_with_offset() {
    let mut client = MemDataset::new();
    for i in 0..10 {
        client.push_data(item(i));
    }
    let page = client.get_data(2, 5, true, false);
    assert_eq!(page.count, 5);
    assert_eq!(page.total, 10);
    assert_eq!(page.offset, 2);
    assert_eq!(page.desc, true);
    assert_eq!(numbers(&page.items), vec![7, 6, 5, 4, 3]);
}

#[test]
fn empty_objects_are_skipped_on_request() {
    let data = || vec![item(1), JsonValue::Object(Vec::new()), JsonValue::Null, item(2)];
    let page = get_data(data(), 0, 10, false, true);
    assert_eq!(page.total, 3);
    assert_eq!(page.items[1], JsonValue::Null);
    assert_eq!(get_data(data(), 0, 10, false, false).total, 4);
}

#[test]
fn test_purge() {
    let mut client = MemDataset::new();
    client.push_data(JsonValue::Object(vec![("x".to_string(), number(1))]));
    assert_eq!(client.meta.item_count, 1);
    client.purge();
    assert_eq!(client.meta.item_count, 0);
    assert!(client.files.is_empty());
    assert!(!is_item_file("__metadata__.json"));
    assert_eq!(client.meta.base.name.as_deref(), Some("n"));
    assert_eq!(client.meta.base.accessed_at, LATER);
}

#[test]
fn test_iterate_items_page() {
    let mut client = MemDataset::new();
    for i in 1..=5 {
        client.push_data(item(i));
    }
    let page = client.iterate_items_page(0, None, 1000, false, false);
    assert_eq!(page.items.len(), 5);
    assert!(!page.has_more);

    let page1 = client.iterate_items_page(0, None, 2, false, false);
    assert_eq!(page1.items.len(), 2);
    assert!(page1.has_more);
    assert_eq!(index(&page1.items[0]), 1);
    assert_eq!(index(&page1.items[1]), 2);

    let page2 = client.iterate_items_page(2, None, 2, false, false);
    assert_eq!(page2.items.len(), 2);
    assert!(page2.has_more);
    assert_eq!(index(&page2.items[0]), 3);

    let page3 = client.iterate_items_page(4, None, 2, false, false);
    assert_eq!(page3.items.len(), 1);
    assert!(!page3.has_more);
    assert_eq!(index(&page3.items[0]), 5);

    let page1 = client.iterate_items_page(0, Some(3), 2, false, false);
    assert_eq!(page1.items.len(), 2);
    assert!(page1.has_more);

    let page2 = client.iterate_items_page(2, Some(1), 2, false, false);
    assert_eq!(page2.items.len(), 1);
    assert!(!page2.has_more);

    let page = client.iterate_items_page(0, None, 3, true, false);
    assert_eq!(index(&page.items[0]), 5);
    assert_eq!(index(&page.items[2]), 3);
    assert!(page.has_more);
}

#[test]
fn walking_by_offset_gives_every_item_once() {
    for page_size in 1..7 {
        let mut offset = 0;
        let mut walked = Vec::new();
        loop {
            let page = iterate_items_page(items(0..5), offset, None, page_size, false, false);
            offset += page.items.len();
            walked.extend(numbers(&page.items));
            if !page.has_more {
                break;
            }
        }
        assert_eq!(walked, [0, 1, 2, 3, 4]);
    }
}

#[test]
fn item_names_have_nine_digits_or_more() {
    assert_eq!(item_filename(1), "000000001.json");
    assert_eq!(item_filename(123456789), "123456789.json");
    assert_eq!(item_filename(9876543210), "9876543210.json");
    assert_eq!(item_filename(0), "000000000.json");
    assert!(is_item_file("000000001.json"));
    assert!(!is_item_file("__metadata__.json"));
    assert!(!is_item_file("readme.txt"));
}

#[test]
fn files_are_listed_by_number() {
    let entries = [
        "000000010.json",
        "__metadata__.json",
        "b.json",
        "9999999999.json",
        "000000002.json",
        ".json",
        "+7.json",
        "99999999999999999999.json",
        "note.txt",
    ];
    let sorted = sorted_data_files(entries.iter().map(|s| s.to_string()).collect());
    assert_eq!(
        sorted,
        [
            "b.json",
            ".json",
            "99999999999999999999.json",
            "000000002.json",
            "+7.json",
            "000000010.json",
            "9999999999.json",
        ]
    );
}

#[test]
fn new_items_follow_the_old_ones() {
    let mut client = MemDataset::new();
    client.push_data(JsonValue::Array(items(0..9)));
    client.push_data(item(40));
    client.push_data(JsonValue::Array(Vec::new()));
    client.push_data(JsonValue::Array(items(20..22)));
    assert_eq!(numbers(&client.items()), [0, 1, 2, 3, 4, 5, 6, 7, 8, 40, 20, 21]);
    assert_eq!(client.meta.item_count, 12);
    assert_eq!(client.meta.base.id, "id");
    assert_eq!(client.meta.base.name.as_deref(), Some("n"));
    assert_eq!(client.meta.base.created_at, NOW);
}

#[test]
fn a_list_is_pushed_as_its_elements_one_by_one() {
    let (mut whole, mut parts) = (MemDataset::new(), MemDataset::new());
    whole.push_data(JsonValue::Array(items(3..5)));
    parts.push_data(item(3));
    parts.push_data(item(4));
    assert_eq!(whole.files, parts.files);
    assert_eq!(whole.meta.item_count, parts.meta.item_count);
}

fn document(meta: &DatasetMetadata) -> Option<JsonValue> {
    Some(JsonValue::Object(vec![("id".to_string(), JsonValue::Str(meta.base.id.clone()))]))
}

/// Datasets by the path of their directories.
#[derive(Default)]
struct MemDisk {
    dirs: BTreeMap<String, DatasetMetadata>,
}

impl MemDisk {
    fn open(
        &mut self,
        id: Option<&str>,
        name: Option<&str>,
        alias: Option<&str>,
    ) -> Result<&mut DatasetMetadata, StorageError> {
        let [id, name, alias] = [id, name, alias].map(|a| a.map(str::to_string));
        match locate(&id, &name, &alias, "/storage", "datasets")? {
            StorageLocation::At(path) => Ok(self
                .dirs
                .entry(path)
                .or_insert_with(|| DatasetMetadata::created(storage_id(id), name, NOW))),
            StorageLocation::ById(wanted) => {
                let found: Vec<Option<JsonValue>> = self.dirs.values().map(document).collect();
                match find_storage_by_id(&found, &wanted) {
                    Some(k) => Ok(self.dirs.values_mut().nth(k).unwrap()),
                    None => Err(not_found("Dataset", &wanted)),
                }
            }
        }
    }
}

#[test]
fn test_reopen_existing() {
    let mut disk = MemDisk::default();
    disk.open(None, None, None).unwrap();
    let client = disk.open(None, Some("my-ds"), None).unwrap();
    client.count_item();
    let id = client.base.id.clone();

    assert_eq!(disk.open(None, Some("my-ds"), None).unwrap().item_count, 1);
    assert_eq!(disk.open(Some(&id), None, None).unwrap().item_count, 1);
    assert!(matches!(disk.open(Some("other"), None, None), Err(StorageError::NotFound(_))));
}

#[test]
fn test_alias_creates_dir_but_metadata_name_is_none() {
    let mut disk = MemDisk::default();
    let client = disk.open(None, None, Some("my-alias")).unwrap();
    assert!(client.base.name.is_none(), "alias storage should have name=None in metadata");
    client.count_item();
    assert_eq!(client.item_count, 1);
    assert!(disk.dirs.contains_key("/storage/datasets/my-alias"));
}

#[test]
fn test_alias_reopen_preserves_name_none() {
    let mut disk = MemDisk::default();
    let client = disk.open(None, None, Some("run-ds")).unwrap();
    client.count_item();
    let id = client.base.id.clone();

    let client2 = disk.open(None, None, Some("run-ds")).unwrap();
    assert!(client2.base.name.is_none());
    assert_eq!(client2.item_count, 1);

    let client3 = disk.open(Some(&id), None, None).unwrap();
    assert!(
        client3.base.name.is_none(),
        "reopening alias storage by ID should still have name=None"
    );
    assert_eq!(client3.item_count, 1);
}

#[test]
fn test_name_vs_alias_difference() {
    let mut disk = MemDisk::default();
    let named = disk.open(None, Some("my-name"), None).unwrap();
    assert_eq!(named.base.name.as_deref(), Some("my-name"));
    let aliased = disk.open(None, None, Some("my-alias")).unwrap();
    assert!(aliased.base.name.is_none());
}

#[test]
fn test_exclusive_args_rejected() {
    let mut disk = MemDisk::default();
    assert!(disk.open(None, Some("name"), Some("alias")).is_err());
    assert!(disk.open(Some("id"), None, Some("alias")).is_err());
    assert!(disk.dirs.is_empty());
}
