use std::collections::BTreeMap;

use crawlee_storage::error::StorageError;
use crawlee_storage::key_listing::{
    bare_probes, iterate_keys_page, keys_page, list_keys, page_fetch_limit, recorded_keys,
    sorted_candidates, KeyScan, ScanStep,
};
use crawlee_storage::key_value_store::{
    adopt_file, adoption_probes, delete_targets, describe_value, existence_probe, lookup_value,
    prepare_write, public_url, read_record, record_for, resolution_attempts, resolve_found,
    sidecar_name, usable_file, value_file_info, value_name, Lookup, PurgePlan, ValueSearch,
};
use crawlee_storage::models::{
    AdoptableFile, AdoptionCandidate, BareFallback, KeyValueStoreRecord,
    KeyValueStoreRecordMetadata, KeyValueStoreValueFileInfo, KvsKeysPage, KvsListKeysResult, ListBareFallback,
};
use crawlee_storage::storage::{locate_checked, StorageLocation};
use crawlee_storage::utils::{encode_key, METADATA_FILENAME, NONE_CONTENT_TYPE};

/// A store in memory that follows the library's decisions file by file.
#[derive(Default)]
struct MemStore {
    files: BTreeMap<String, Vec<u8>>,
    sidecars: BTreeMap<String, KeyValueStoreRecordMetadata>,
}

const PATH: &str = "/data/key_value_stores/default";

fn bare(list: &[(&str, &str)]) -> Vec<ListBareFallback> {
    list.iter()
        .map(|(n, c)| ListBareFallback { name: n.to_string(), content_type: c.to_string() })
        .collect()
}

fn extensions(list: &[(&str, &str)]) -> Vec<BareFallback> {
    list.iter()
        .map(|(e, c)| BareFallback { extension: e.to_string(), content_type: c.to_string() })
        .collect()
}

impl MemStore {
    fn new() -> Self {
        let mut store = MemStore::default();
        store.files.insert(METADATA_FILENAME.to_string(), b"{}".to_vec());
        store
    }

    fn write_bare(&mut self, name: &str, data: &[u8]) {
        self.files.insert(name.to_string(), data.to_vec());
    }

    fn has_file(&self, name: &str) -> bool {
        self.files.contains_key(name) || self.sidecars.contains_key(name)
    }

    fn sidecar(&self, key: &str) -> Option<KeyValueStoreRecordMetadata> {
        self.sidecars.get(&sidecar_name(&encode_key(key))).cloned()
    }

    fn set_value(
        &mut self,
        key: &str,
        data: &[u8],
        content_type: &str,
        filename: Option<&str>,
    ) -> Result<(), StorageError> {
        let plan = prepare_write(key, &filename.map(str::to_string), &self.sidecar(key))?;
        if let Some(stale) = plan.stale {
            self.files.remove(&stale);
        }
        self.files.insert(plan.value, data.to_vec());
        self.sidecars
            .insert(plan.sidecar, record_for(key, content_type.to_string(), data.len(), filename));
        Ok(())
    }

    fn get_value(
        &self,
        key: &str,
        require: bool,
    ) -> Result<Option<(String, KeyValueStoreRecordMetadata)>, StorageError> {
        match lookup_value(key, self.sidecar(key), require)? {
            Lookup::Absent => Ok(None),
            Lookup::Probe { file, sidecar } => match self.files.get(&file) {
                None => Ok(None),
                Some(bytes) => Ok(Some((file, describe_value(key, sidecar, bytes.len())))),
            },
        }
    }

    fn read_value(&self, key: &str) -> Result<Option<KeyValueStoreRecord>, StorageError> {
        Ok(self
            .get_value(key, true)?
            .map(|(file, meta)| read_record(meta, self.files[&file].clone())))
    }

    /// The bytes, the type and the size of a value.
    fn read_back(&self, key: &str) -> Option<(Vec<u8>, String, Option<usize>)> {
        let (file, meta) = self.get_value(key, true).unwrap()?;
        Some((self.files[&file].clone(), meta.content_type, meta.size))
    }

    /// Writes a value by hand, with a sidecar that states no size.
    fn write_legacy(&mut self, key: &str, data: &[u8], content_type: &str) {
        self.write_bare(&encode_key(key), data);
        self.write_sidecar(key, content_type, None);
    }

    /// Writes a sidecar by hand.
    fn write_sidecar(&mut self, key: &str, content_type: &str, filename: Option<&str>) {
        self.sidecars.insert(
            format!("{}.{METADATA_FILENAME}", encode_key(key)),
            KeyValueStoreRecordMetadata {
                key: key.to_string(),
                content_type: content_type.to_string(),
                size: None,
                filename: filename.map(str::to_string),
            },
        );
    }

    fn value_file_info(
        &self,
        key: &str,
    ) -> Result<Option<KeyValueStoreValueFileInfo>, StorageError> {
        Ok(self.get_value(key, true)?.map(|(file, meta)| {
            let size = self.files.get(&file).map(Vec::len);
            value_file_info(meta, format!("{PATH}/{file}"), size)
        }))
    }

    fn record_exists(&self, key: &str, require: bool) -> bool {
        existence_probe(key, &self.sidecar(key), require).is_some_and(|f| self.has_file(&f))
    }

    fn delete_value(&mut self, key: &str) {
        let (value, sidecar) = delete_targets(key, &self.sidecar(key));
        self.files.remove(&value);
        self.sidecars.remove(&sidecar);
    }

    fn purge(&mut self, keep: &[&str]) {
        let mut plan = PurgePlan::new();
        for key in keep {
            plan.keep(key, &self.sidecar(key));
        }
        self.files.retain(|name, _| !plan.removes(name));
        self.sidecars.retain(|name, _| !plan.removes(name));
    }

    fn adopt(&mut self, candidates: &[AdoptionCandidate]) -> Result<(), StorageError> {
        for candidate in candidates {
            let usable = usable_file(&candidate.key, &self.sidecar(&candidate.key));
            if usable.is_some_and(|f| self.files.contains_key(&f)) {
                continue;
            }
            let probes = adoption_probes(candidate)?;
            let sizes: Vec<Option<usize>> =
                probes.iter().map(|p| self.files.get(&p.filename).map(Vec::len)).collect();
            if let Some(record) = adopt_file(&candidate.key, &probes, &sizes)? {
                self.sidecars.insert(sidecar_name(&encode_key(&candidate.key)), record);
            }
        }
        Ok(())
    }

    fn records(&self, fallbacks: &[(&str, &str)]) -> Vec<KeyValueStoreRecordMetadata> {
        let entries: Vec<String> =
            self.files.keys().chain(self.sidecars.keys()).rev().cloned().collect();
        let recorded = recorded_keys(&entries);
        let probes = bare_probes(&recorded, &bare(fallbacks));
        let sizes: Vec<Option<usize>> =
            probes.iter().map(|p| self.files.get(&p.filename).map(Vec::len)).collect();
        let mut scan = KeyScan::new(None, None, None);
        for candidate in sorted_candidates(recorded, probes, &sizes) {
            let (meta, size) = match candidate.meta {
                Some(meta) => (meta, None),
                None => {
                    let encoded = candidate.encoded_key.unwrap();
                    let meta = self.sidecars[&sidecar_name(&encoded)].clone();
                    let file = value_name(&encoded, &meta.filename).ok();
                    (meta, file.and_then(|f| self.files.get(&f)).map(Vec::len))
                }
            };
            assert_eq!(scan.offer(&meta), ScanStep::Collect);
            scan.collect(meta, size);
        }
        scan.finish().unwrap()
    }

    fn page(
        &self,
        start: Option<&str>,
        limit: Option<usize>,
        page_size: usize,
        prefix: Option<&str>,
        fallbacks: &[(&str, &str)],
    ) -> Result<KvsKeysPage, StorageError> {
        iterate_keys_page(&self.records(fallbacks), start, limit, page_size, prefix)
    }

    fn list(
        &self,
        start: Option<&str>,
        limit: Option<usize>,
        prefix: Option<&str>,
    ) -> Result<KvsListKeysResult, StorageError> {
        list_keys(&self.records(&[]), start, limit, prefix)
    }

    fn resolve_value(
        &self,
        key: &str,
        fallbacks: &[(&str, &str)],
    ) -> Option<(String, KeyValueStoreRecordMetadata)> {
        let fallbacks = extensions(fallbacks);
        let mut search = ValueSearch::new(key, &fallbacks);
        let mut hit = None;
        while let Some((attempt, require)) = search.attempt() {
            hit = self.get_value(&attempt, require).unwrap();
            search.report(hit.is_some());
        }
        hit.and_then(|(file, meta)| Some((file, search.describe(meta)?)))
    }

    fn resolve_and_read_value(
        &self,
        key: &str,
        fallbacks: &[(&str, &str)],
    ) -> Option<KeyValueStoreRecord> {
        self.resolve_value(key, fallbacks)
            .map(|(file, meta)| read_record(meta, self.files[&file].clone()))
    }

    fn resolve_existing_key(&self, key: &str, exts: &[&str]) -> Option<String> {
        let fallbacks = extensions(&exts.iter().map(|e| (*e, "")).collect::<Vec<_>>());
        let mut search = ValueSearch::new(key, &fallbacks);
        while let Some((attempt, require)) = search.attempt() {
            search.report(self.record_exists(&attempt, require));
        }
        search.found_key()
    }

    fn url(&self, key: &str) -> String {
        public_url(PATH, key, &self.sidecar(key))
    }
}

fn keys(items: &[KeyValueStoreRecordMetadata]) -> Vec<&str> {
    items.iter().map(|m| m.key.as_str()).collect()
}

fn input_candidates() -> Vec<AdoptionCandidate> {
    vec![AdoptionCandidate {
        key: "INPUT".to_string(),
        files: vec![
            AdoptableFile {
                filename: "INPUT".to_string(),
                content_type: "application/octet-stream".to_string(),
            },
            AdoptableFile {
                filename: "INPUT.json".to_string(),
                content_type: "application/json".to_string(),
            },
        ],
    }]
}

#[test]
fn test_json_bytes_roundtrip() {
    let mut store = MemStore::new();
    let payload = br#"{"hello":"world"}"#;
    store.set_value("my-key", payload, "application/json; charset=utf-8", None).unwrap();
    let (bytes, content_type, size) = store.read_back("my-key").unwrap();
    assert_eq!(bytes, payload);
    assert_eq!(content_type, "application/json; charset=utf-8");
    assert_eq!(size, Some(payload.len()));
}

#[test]
fn test_get_missing_key_returns_none() {
    let store = MemStore::new();
    assert!(store.get_value("nope", true).unwrap().is_none());
}

#[test]
fn test_delete_value() {
    let mut store = MemStore::new();
    store.set_value("key1", b"1", "application/json; charset=utf-8", None).unwrap();
    assert!(store.record_exists("key1", true));
    store.delete_value("key1");
    assert!(!store.record_exists("key1", true));
    assert!(store.get_value("key1", true).unwrap().is_none());
}

#[test]
fn test_sidecar_less_read_requires_opt_in() {
    let mut store = MemStore::new();
    let payload = br#"{"foo":"bar"}"#;
    assert_eq!(encode_key("INPUT.json"), "INPUT.json");
    store.write_bare("INPUT.json", payload);
    assert!(store.get_value("INPUT.json", true).unwrap().is_none());
    assert!(!store.record_exists("INPUT.json", true));

    let (file, meta) = store.get_value("INPUT.json", false).unwrap().unwrap();
    assert_eq!(store.files[&file], payload);
    assert_eq!(meta.key, "INPUT.json");
    assert_eq!(meta.content_type, "application/octet-stream");
    assert_eq!(meta.size, Some(payload.len()));
    assert!(store.record_exists("INPUT.json", false));

    assert!(store.get_value("nope", false).unwrap().is_none());
    assert!(!store.record_exists("nope", false));
}

#[test]
fn test_size_backfilled_for_legacy_sidecar_without_size() {
    let mut store = MemStore::new();
    let key = "legacy-key";
    let payload = b"twelve bytes";
    store.write_legacy(key, payload, "text/plain");
    let (_, meta) = store.get_value(key, true).unwrap().unwrap();
    assert_eq!(meta.size, Some(payload.len()));
    let page = store.page(None, None, 1000, None, &[]).unwrap();
    let entry = page.items.iter().find(|m| m.key == key).unwrap();
    assert_eq!(entry.size, Some(payload.len()));
}

#[test]
fn test_resolve_value_prefers_tracked_record() {
    let mut store = MemStore::new();
    store.set_value("INPUT", br#"{"x":1}"#, "application/json", None).unwrap();
    let fallbacks = [("", ""), (".json", "application/json"), (".bin", "")];
    let (file, meta) = store.resolve_value("INPUT", &fallbacks).unwrap();
    assert_eq!(store.files[&file], br#"{"x":1}"#);
    assert_eq!(meta.key, "INPUT");
    assert_eq!(meta.content_type, "application/json");
}

#[test]
fn test_resolve_value_falls_back_to_bare_file_with_inferred_type() {
    let mut store = MemStore::new();
    let payload = br#"{"foo":"bar"}"#;
    store.write_bare("INPUT.json", payload);
    let fallbacks =
        [("", ""), (".json", "application/json"), (".txt", "text/plain"), (".bin", "")];
    let (file, meta) = store.resolve_value("INPUT", &fallbacks).unwrap();
    assert_eq!(store.files[&file], payload);
    assert_eq!(meta.key, "INPUT");
    assert_eq!(meta.content_type, "application/json");
    assert_eq!(meta.size, Some(payload.len()));
}

#[test]
fn test_resolve_value_bare_empty_extension_keeps_octet_stream() {
    let mut store = MemStore::new();
    store.write_bare("INPUT", b"raw");
    let (_, meta) =
        store.resolve_value("INPUT", &[("", ""), (".json", "application/json")]).unwrap();
    assert_eq!(meta.key, "INPUT");
    assert_eq!(meta.content_type, "application/octet-stream");
}

#[test]
fn test_resolve_value_missing_returns_none() {
    let store = MemStore::new();
    assert!(store.resolve_value("nope", &[("", ""), (".json", "application/json")]).is_none());
}

#[test]
fn test_resolve_existing_key() {
    let mut store = MemStore::new();
    let fallbacks = ["", ".json", ".txt", ".bin"];
    store.set_value("tracked", b"x", "text/plain", None).unwrap();
    assert_eq!(
        store.resolve_existing_key("tracked", &fallbacks),
        Some("tracked".to_string())
    );
    store.write_bare("INPUT.json", b"{}");
    assert_eq!(
        store.resolve_existing_key("INPUT", &fallbacks),
        Some("INPUT.json".to_string())
    );
    assert_eq!(store.resolve_existing_key("nope", &fallbacks), None);
}

#[test]
fn test_adopt_with_no_candidate_file_present() {
    let mut store = MemStore::new();
    store.adopt(&input_candidates()).unwrap();
    assert!(!store.record_exists("INPUT", true));
    assert!(!store.has_file(&sidecar_name("INPUT")));
}

#[test]
fn test_adopt_binds_the_single_present_file() {
    let mut store = MemStore::new();
    let payload = br#"{"foo":"bar"}"#;
    store.write_bare("INPUT.json", payload);
    store.adopt(&input_candidates()).unwrap();
    let record = store.read_value("INPUT").unwrap().unwrap();
    assert_eq!(record.value, payload);
    assert_eq!(record.content_type, "application/json");
    assert_eq!(record.size, payload.len());
    let page = store.list(None, None, None).unwrap();
    assert_eq!(keys(&page.items), ["INPUT"]);
    let sidecar = store.sidecar("INPUT").unwrap();
    assert_eq!(sidecar.filename.as_deref(), Some("INPUT.json"));
    assert_eq!(sidecar.size, Some(payload.len()));
    assert_eq!(store.files["INPUT.json"], payload);
}

#[test]
fn test_adopt_omits_filename_for_the_default_name() {
    let mut store = MemStore::new();
    store.write_bare("INPUT", b"raw");
    store.adopt(&input_candidates()).unwrap();
    assert_eq!(store.sidecar("INPUT").unwrap().filename, None);
    assert_eq!(store.read_value("INPUT").unwrap().unwrap().value, b"raw");
}

#[test]
fn test_adopt_rejects_several_present_files() {
    let mut store = MemStore::new();
    store.write_bare("INPUT", b"raw");
    store.write_bare("INPUT.json", b"{}");
    match store.adopt(&input_candidates()) {
        Err(StorageError::AmbiguousInput { key, files }) => {
            assert_eq!(key, "INPUT");
            assert_eq!(files, ["INPUT", "INPUT.json"]);
        }
        other => panic!("expected an ambiguity, got {other:?}"),
    }
}

#[test]
fn test_adopt_leaves_a_tracked_record_alone() {
    let mut store = MemStore::new();
    store.set_value("INPUT", b"tracked", "text/plain", None).unwrap();
    store.write_bare("INPUT.json", b"{}");
    store.adopt(&input_candidates()).unwrap();
    let record = store.read_value("INPUT").unwrap().unwrap();
    assert_eq!(record.value, b"tracked");
    assert_eq!(record.content_type, "text/plain");
}

#[test]
fn test_adopt_rewrites_a_dangling_sidecar() {
    let mut store = MemStore::new();
    store.set_value("INPUT", b"old", "text/plain", None).unwrap();
    store.files.remove("INPUT");
    assert!(!store.record_exists("INPUT", true));
    assert!(store.get_value("INPUT", true).unwrap().is_none());
    store.write_bare("INPUT.json", b"{}");
    store.adopt(&input_candidates()).unwrap();
    let record = store.read_value("INPUT").unwrap().unwrap();
    assert_eq!(record.value, b"{}");
    assert_eq!(record.content_type, "application/json");
}

#[test]
fn adoption_skips_metadata_and_refuses_other_bad_names() {
    let file = |name: &str| AdoptableFile {
        filename: name.to_string(),
        content_type: "text/plain".to_string(),
    };
    let mut candidate = AdoptionCandidate {
        key: "INPUT".to_string(),
        files: vec![file("INPUT.__metadata__.json"), file("INPUT.txt")],
    };
    let probes = adoption_probes(&candidate).unwrap();
    assert_eq!(probes.len(), 1);
    assert_eq!(probes[0].filename, "INPUT.txt");
    candidate.files.push(file("../escape"));
    match adoption_probes(&candidate) {
        Err(StorageError::InvalidArgs(text)) => assert!(text.contains("\"../escape\"")),
        other => panic!("expected a refusal, got {other:?}"),
    }
}

#[test]
fn test_purge_does_not_keep_the_encoded_name_of_a_bound_key() {
    let mut store = MemStore::new();
    store.set_value("INPUT", b"{}", "application/json", Some("INPUT.json")).unwrap();
    store.write_bare("INPUT", b"stray");
    store.purge(&["INPUT"]);
    assert!(!store.has_file("INPUT"));
    assert_eq!(store.read_value("INPUT").unwrap().unwrap().value, b"{}");
}

#[test]
fn test_sidecar_present_ignores_flag() {
    let mut store = MemStore::new();
    store.set_value("tracked", b"hi", "text/plain; charset=utf-8", None).unwrap();
    for require in [true, false] {
        let (_, meta) = store.get_value("tracked", require).unwrap().unwrap();
        assert_eq!(meta.content_type, "text/plain; charset=utf-8");
        assert!(store.record_exists("tracked", require));
    }
}

#[test]
fn test_filename_binding_roundtrip() {
    let mut store = MemStore::new();
    store.set_value("INPUT", br#"{"x":1}"#, "application/json", Some("input.json")).unwrap();
    assert!(store.has_file("input.json"));
    assert!(!store.has_file("INPUT"));
    let sidecar = &store.sidecars["INPUT.__metadata__.json"];
    assert_eq!(sidecar.filename.as_deref(), Some("input.json"));
    let record = store.read_value("INPUT").unwrap().unwrap();
    assert_eq!(record.key, "INPUT");
    assert_eq!(record.value, br#"{"x":1}"#.to_vec());
    assert_eq!(record.content_type, "application/json");
    assert_eq!(record.size, 7);
    assert!(store.record_exists("INPUT", true));
    let page = store.list(None, None, None).unwrap();
    assert_eq!(page.items.len(), 1);
    assert_eq!(page.items[0].key, "INPUT");
    assert_eq!(page.items[0].size, Some(7));
    assert_eq!(store.url("INPUT"), format!("file://{PATH}/input.json"));
}

#[test]
fn test_rebinding_a_key_removes_the_previous_file() {
    let mut store = MemStore::new();
    let ct = "application/json";
    store.set_value("INPUT", b"old", ct, None).unwrap();
    store.set_value("INPUT", b"new", ct, Some("input.json")).unwrap();
    assert!(!store.has_file("INPUT"));
    assert_eq!(store.read_value("INPUT").unwrap().unwrap().value, b"new".to_vec());
    store.set_value("INPUT", b"back", ct, None).unwrap();
    assert!(!store.has_file("input.json"));
    assert_eq!(store.read_value("INPUT").unwrap().unwrap().value, b"back".to_vec());
}

#[test]
fn test_bound_file_is_deleted_and_kept_by_key() {
    let mut store = MemStore::new();
    store.set_value("INPUT", b"in", "text/plain", Some("input.json")).unwrap();
    store.set_value("other", b"x", "text/plain", Some("other.txt")).unwrap();
    store.purge(&["INPUT"]);
    assert!(store.has_file("input.json"));
    assert!(!store.has_file("other.txt"));
    assert!(!store.has_file("other.__metadata__.json"));
    store.delete_value("INPUT");
    assert!(!store.has_file("input.json"));
    assert!(!store.has_file("INPUT.__metadata__.json"));
}

#[test]
fn test_filename_must_be_a_plain_name_in_the_store() {
    let mut store = MemStore::new();
    for filename in
        ["../escape", "nested/name", "", ".", METADATA_FILENAME, "INPUT.__metadata__.json"]
    {
        let err = store.set_value("INPUT", b"x", "text/plain", Some(filename)).unwrap_err();
        assert!(
            matches!(err, StorageError::InvalidArgs(_)),
            "{filename:?} should be rejected, got {err:?}"
        );
    }
    assert!(!store.record_exists("INPUT", false));
    store.write_sidecar("EVIL", "text/plain", Some("../escape"));
    assert!(matches!(store.get_value("EVIL", true), Err(StorageError::InvalidArgs(_))));
    assert!(!store.record_exists("EVIL", true));
}

#[test]
fn test_binding_to_a_missing_file_is_not_a_record() {
    let mut store = MemStore::new();
    store.write_sidecar("INPUT", "application/json", Some("input.json"));
    assert!(store.get_value("INPUT", true).unwrap().is_none());
    assert!(!store.record_exists("INPUT", true));
    assert_eq!(store.url("INPUT"), format!("file://{PATH}/input.json"));
}

#[test]
fn test_purge_with_keep_list() {
    let mut store = MemStore::new();
    let ct = "application/json; charset=utf-8";
    store.set_value("INPUT", b"in", ct, None).unwrap();
    store.set_value("other", b"x", ct, None).unwrap();
    store.write_bare("INPUT.json", b"bare");
    store.purge(&["INPUT"]);
    assert!(store.record_exists("INPUT", true));
    assert!(!store.record_exists("other", true));
    assert!(!store.has_file("INPUT.json"));
    assert!(store.has_file(METADATA_FILENAME));
}

#[test]
fn test_purge_empty_keep_list_clears_everything() {
    let mut store = MemStore::new();
    let ct = "application/json; charset=utf-8";
    store.set_value("a", b"1", ct, None).unwrap();
    store.set_value("b", b"2", ct, None).unwrap();
    store.write_bare("INPUT.json", b"bare");
    store.purge(&[]);
    assert!(!store.record_exists("a", true));
    assert!(!store.record_exists("b", true));
    assert!(!store.has_file("INPUT.json"));
    assert_eq!(store.files.keys().collect::<Vec<_>>(), [METADATA_FILENAME]);
    assert!(store.sidecars.is_empty());
}

#[test]
fn test_iterate_keys_page() {
    let mut store = MemStore::new();
    let ct = "application/json; charset=utf-8";
    store.set_value("alpha", b"1", ct, None).unwrap();
    store.set_value("beta", b"2", ct, None).unwrap();
    store.set_value("gamma", b"3", ct, None).unwrap();
    let page = store.page(None, None, 1000, None, &[]).unwrap();
    assert_eq!(page.items.len(), 3);
    assert!(!page.has_more);
    let page = store.page(None, Some(2), 1000, None, &[]).unwrap();
    assert_eq!(page.items.len(), 2);
    assert!(!page.has_more);
    let page1 = store.page(None, None, 2, None, &[]).unwrap();
    assert_eq!(page1.items.len(), 2);
    assert!(page1.has_more);
    let last_key = &page1.items.last().unwrap().key;
    let page2 = store.page(Some(last_key), None, 2, None, &[]).unwrap();
    assert_eq!(page2.items.len(), 1);
    assert!(!page2.has_more);
    let page = store.page(Some("alpha"), None, 1000, None, &[]).unwrap();
    assert_eq!(keys(&page.items), ["beta", "gamma"]);
}

#[test]
fn test_iterate_keys_page_with_prefix() {
    let mut store = MemStore::new();
    let ct = "application/json; charset=utf-8";
    for key in ["foo:1", "foo:2", "foo:3", "bar:1", "baz"] {
        store.set_value(key, b"x", ct, None).unwrap();
    }
    let page = store.page(None, None, 1000, Some("foo:"), &[]).unwrap();
    assert_eq!(page.items.len(), 3);
    assert!(!page.has_more);
    assert_eq!(keys(&page.items), ["foo:1", "foo:2", "foo:3"]);
    let page = store.page(None, Some(2), 1000, Some("foo:"), &[]).unwrap();
    assert_eq!(keys(&page.items), ["foo:1", "foo:2"]);
    let page1 = store.page(None, None, 2, Some("foo:"), &[]).unwrap();
    assert_eq!(page1.items.len(), 2);
    assert!(page1.has_more);
    let last_key = &page1.items.last().unwrap().key;
    let page2 = store.page(Some(last_key), None, 1000, Some("foo:"), &[]).unwrap();
    assert_eq!(keys(&page2.items), ["foo:3"]);
    let page = store.page(None, None, 1000, Some("nope"), &[]).unwrap();
    assert!(page.items.is_empty());
    assert!(!page.has_more);
}

#[test]
fn test_iterate_keys_includes_bare_fallback_files() {
    let mut store = MemStore::new();
    store.set_value("alpha", b"1", "application/json; charset=utf-8", None).unwrap();
    let payload = br#"{"foo":"bar"}"#;
    store.write_bare("INPUT.json", payload);
    let page = store.page(None, None, 1000, None, &[]).unwrap();
    assert_eq!(keys(&page.items), ["alpha"]);
    let fallbacks = [("INPUT.json", "application/json")];
    let page = store.page(None, None, 1000, None, &fallbacks).unwrap();
    assert_eq!(keys(&page.items), ["INPUT.json", "alpha"]);
    let input = page.items.iter().find(|m| m.key == "INPUT.json").unwrap();
    assert_eq!(input.content_type, "application/json");
    assert_eq!(input.size, Some(payload.len()));
}

#[test]
fn undeclared_type_of_a_bare_file_and_repeated_names() {
    let mut store = MemStore::new();
    store.write_bare("INPUT.bin", b"raw");
    let page = store
        .page(None, None, 10, None, &[("INPUT.bin", ""), ("INPUT.bin", "text/plain")])
        .unwrap();
    assert_eq!(keys(&page.items), ["INPUT.bin"]);
    assert_eq!(page.items[0].content_type, "application/octet-stream");
}

#[test]
fn test_iterate_keys_tracked_record_wins_over_bare_fallback() {
    let mut store = MemStore::new();
    store.set_value("INPUT.json", b"tracked", "application/json", None).unwrap();
    let page = store.page(None, None, 1000, None, &[("INPUT.json", "text/plain")]).unwrap();
    let inputs: Vec<_> = page.items.iter().filter(|m| m.key == "INPUT.json").collect();
    assert_eq!(inputs.len(), 1);
    assert_eq!(inputs[0].content_type, "application/json");
    assert_eq!(inputs[0].size, Some(b"tracked".len()));
}

#[test]
fn test_iterate_keys_bare_fallback_respects_prefix_and_pagination() {
    let mut store = MemStore::new();
    store.set_value("foo:a", b"1", "application/json", None).unwrap();
    store.set_value("foo:b", b"2", "application/json", None).unwrap();
    store.write_bare("foo%3Az.json", b"bare-in");
    store.write_bare("bar.json", b"bare-out");
    let fallbacks = [("foo:z.json", "application/json"), ("bar.json", "application/json")];
    let page = store.page(None, None, 1000, Some("foo:"), &fallbacks).unwrap();
    assert_eq!(keys(&page.items), ["foo:a", "foo:b", "foo:z.json"]);
    let page = store.page(Some("foo:b"), None, 1000, Some("foo:"), &fallbacks).unwrap();
    assert_eq!(keys(&page.items), ["foo:z.json"]);
}

#[test]
fn test_iterate_keys_valid_cursor_paginates() {
    let mut store = MemStore::new();
    let ct = "application/json; charset=utf-8";
    for key in ["alpha", "beta", "gamma", "delta"] {
        store.set_value(key, b"x", ct, None).unwrap();
    }
    let page = store.page(Some("beta"), None, 1000, None, &[]).unwrap();
    assert_eq!(keys(&page.items), ["delta", "gamma"]);
    assert!(!page.has_more);
}

#[test]
fn test_iterate_keys_paginates_keys_whose_encoding_reorders_them() {
    for pair in [["a.b", "a:b"], ["zz", "éz"]] {
        let mut store = MemStore::new();
        for key in pair {
            store.set_value(key, b"x", "text/plain", None).unwrap();
        }
        let mut expected = pair.to_vec();
        expected.sort_unstable();
        let page = store.page(None, None, 1000, None, &[]).unwrap();
        assert_eq!(keys(&page.items), expected);
        let mut walked: Vec<String> = Vec::new();
        let mut cursor: Option<String> = None;
        loop {
            let page = store.page(cursor.as_deref(), None, 1, None, &[]).unwrap();
            walked.extend(page.items.iter().map(|m| m.key.clone()));
            if !page.has_more {
                break;
            }
            cursor = walked.last().cloned();
        }
        assert_eq!(walked, expected);
    }
}

#[test]
fn test_iterate_keys_nonexistent_cursor_errors() {
    let mut store = MemStore::new();
    let ct = "application/json; charset=utf-8";
    store.set_value("alpha", b"x", ct, None).unwrap();
    store.set_value("beta", b"x", ct, None).unwrap();
    match store.page(Some("alfa"), None, 1000, None, &[]) {
        Err(StorageError::ExclusiveStartKeyNotFound(key)) => assert_eq!(key, "alfa"),
        other => panic!("expected ExclusiveStartKeyNotFound, got: {other:?}"),
    }
    store.delete_value("alpha");
    let err = store.page(Some("alpha"), None, 1000, None, &[]).unwrap_err();
    assert!(matches!(err, StorageError::ExclusiveStartKeyNotFound(ref k) if k == "alpha"));
}

#[test]
fn test_iterate_keys_cursor_validation_with_prefix() {
    let mut store = MemStore::new();
    let ct = "application/json; charset=utf-8";
    for key in ["foo:1", "foo:2", "foo:3", "bar:1"] {
        store.set_value(key, b"x", ct, None).unwrap();
    }
    let page = store.page(Some("foo:1"), None, 1000, Some("foo:"), &[]).unwrap();
    assert_eq!(keys(&page.items), ["foo:2", "foo:3"]);
    let err = store.page(Some("bar:1"), None, 1000, Some("foo:"), &[]).unwrap_err();
    assert!(matches!(err, StorageError::ExclusiveStartKeyNotFound(ref k) if k == "bar:1"));
}

#[test]
fn test_iterate_keys_cursor_validation_with_small_page() {
    let mut store = MemStore::new();
    let ct = "application/json; charset=utf-8";
    for key in ["a", "b", "c", "d", "z"] {
        store.set_value(key, b"x", ct, None).unwrap();
    }
    let page = store.page(Some("z"), None, 2, None, &[]).unwrap();
    assert!(page.items.is_empty());
    assert!(!page.has_more);
    let page = store.page(Some("b"), None, 2, None, &[]).unwrap();
    assert_eq!(keys(&page.items), ["c", "d"]);
}

#[test]
fn test_list_keys_result_shape() {
    let mut store = MemStore::new();
    let result = store.list(None, Some(10), None).unwrap();
    assert!(result.items.is_empty());
    assert_eq!(result.count, 0);
    assert_eq!(result.limit, 10);
    assert_eq!(result.exclusive_start_key, None);
    assert!(!result.is_truncated);
    assert_eq!(result.next_exclusive_start_key, None);
    for key in ["alpha", "beta", "gamma"] {
        store.set_value(key, b"x", "application/json; charset=utf-8", None).unwrap();
    }
    let result = store.list(None, Some(100), None).unwrap();
    assert_eq!(keys(&result.items), ["alpha", "beta", "gamma"]);
    assert_eq!(result.count, 3);
    assert_eq!(result.limit, 100);
    assert_eq!(result.exclusive_start_key, None);
    assert!(!result.is_truncated);
    assert_eq!(result.next_exclusive_start_key, None);
    let page1 = store.list(None, Some(2), None).unwrap();
    assert_eq!(keys(&page1.items), ["alpha", "beta"]);
    assert_eq!(page1.count, 2);
    assert_eq!(page1.limit, 2);
    assert_eq!(page1.exclusive_start_key, None);
    assert!(page1.is_truncated);
    assert_eq!(page1.next_exclusive_start_key.as_deref(), Some("beta"));
    let cursor = page1.next_exclusive_start_key.unwrap();
    let page2 = store.list(Some(&cursor), Some(2), None).unwrap();
    assert_eq!(keys(&page2.items), ["gamma"]);
    assert_eq!(page2.count, 1);
    assert_eq!(page2.exclusive_start_key.as_deref(), Some("beta"));
    assert!(!page2.is_truncated);
    assert_eq!(page2.next_exclusive_start_key, None);
    let result = store.list(None, None, None).unwrap();
    assert_eq!(result.count, 3);
    assert_eq!(result.limit, 1000);
    assert!(!result.is_truncated);
}

#[test]
fn test_list_keys_prefix_and_limit_interaction() {
    let mut store = MemStore::new();
    for key in ["foo:1", "foo:2", "foo:3", "bar:1"] {
        store.set_value(key, b"x", "application/json", None).unwrap();
    }
    let page = store.list(None, Some(2), Some("foo:")).unwrap();
    assert_eq!(keys(&page.items), ["foo:1", "foo:2"]);
    assert_eq!(page.count, 2);
    assert_eq!(page.limit, 2);
    assert!(page.is_truncated);
    assert_eq!(page.next_exclusive_start_key.as_deref(), Some("foo:2"));
    let cursor = page.next_exclusive_start_key.unwrap();
    let page2 = store.list(Some(&cursor), Some(2), Some("foo:")).unwrap();
    assert_eq!(keys(&page2.items), ["foo:3"]);
    assert!(!page2.is_truncated);
    assert_eq!(page2.next_exclusive_start_key, None);
}

#[test]
fn test_get_public_url() {
    let mut store = MemStore::new();
    let expected = |key: &str| format!("file://{PATH}/{key}");
    assert_eq!(store.url("missing"), expected("missing"));
    store.set_value("my-key", b"v", "text/plain", None).unwrap();
    assert_eq!(store.url("my-key"), expected("my-key"));
    assert_eq!(store.url("path/to/key"), expected(&encode_key("path/to/key")));
    store.delete_value("my-key");
    assert_eq!(store.url("my-key"), expected("my-key"));
}

#[test]
fn test_special_characters_in_key() {
    let mut store = MemStore::new();
    store
        .set_value("path/to/key with spaces", b"value", "text/plain; charset=utf-8", None)
        .unwrap();
    let (bytes, content_type, _) = store.read_back("path/to/key with spaces").unwrap();
    assert_eq!(bytes, b"value");
    assert_eq!(content_type, "text/plain; charset=utf-8");
}

#[test]
fn keys_of_any_characters_are_listed() {
    let mut store = MemStore::new();
    for key in ["path/to/key", "key with spaces", "key?query=1&x", "ünïcödé"] {
        store.set_value(key, key.as_bytes(), "text/plain", None).unwrap();
        assert_eq!(store.read_value(key).unwrap().unwrap().value, key.as_bytes());
    }
    let page = store.page(None, None, 1000, None, &[]).unwrap();
    assert_eq!(
        keys(&page.items),
        ["key with spaces", "key?query=1&x", "path/to/key", "ünïcödé"]
    );
}

#[test]
fn test_read_value_finalizes_size_for_sidecar_without_size() {
    let mut store = MemStore::new();
    let key = "legacy";
    let payload = b"twelve bytes";
    store.write_legacy(key, payload, "text/plain");
    let record = store.read_value(key).unwrap().unwrap();
    assert_eq!(record.value, payload);
    assert_eq!(record.size, payload.len());
}

#[test]
fn stated_sizes_win_over_counted_ones() {
    let meta = KeyValueStoreRecordMetadata {
        key: "k".to_string(),
        content_type: "text/plain".to_string(),
        size: None,
        filename: None,
    };
    assert_eq!(read_record(meta.clone(), b"12345".to_vec()).size, 5);
    assert_eq!(value_file_info(meta.clone(), "/p".to_string(), Some(7)).size, 7);
    assert_eq!(value_file_info(meta.clone(), "/p".to_string(), None).size, 0);
    let sized = KeyValueStoreRecordMetadata { size: Some(3), ..meta };
    assert_eq!(read_record(sized, b"12345".to_vec()).size, 3);
}

#[test]
fn scan_stops_once_the_page_is_full_and_the_cursor_was_seen() {
    let record = |key: &str| record_for(key, "text/plain".to_string(), 1, None);
    let mut scan = KeyScan::new(Some("a".to_string()), Some(1), None);
    assert_eq!(scan.offer(&record("a")), ScanStep::Skip);
    assert_eq!(scan.offer(&record("b")), ScanStep::Collect);
    scan.collect(record("b"), None);
    assert_eq!(scan.offer(&record("c")), ScanStep::Stop);
    let found = scan.finish().unwrap();
    assert_eq!(keys(&found), ["b"]);
    let mut scan = KeyScan::new(Some("zz".to_string()), Some(0), None);
    assert_eq!(scan.offer(&record("b")), ScanStep::Skip);
    assert!(matches!(
        scan.finish(),
        Err(StorageError::ExclusiveStartKeyNotFound(ref k)) if k == "zz"
    ));
}

#[test]
fn scan_takes_missing_sizes_from_the_file() {
    let mut record = record_for("k", "text/plain".to_string(), 1, None);
    record.size = None;
    let mut scan = KeyScan::new(None, None, None);
    assert_eq!(scan.offer(&record), ScanStep::Collect);
    scan.collect(record, Some(9));
    let found = scan.finish().unwrap();
    assert_eq!(found[0].size, Some(9));
    let page = keys_page(found, None, page_fetch_limit(Some(5), 3));
    assert_eq!(page.items.len(), 1);
    assert!(!page.has_more);
}

#[test]
fn test_text_bytes_roundtrip() {
    let mut store = MemStore::new();
    store.set_value("greeting", b"hello", "text/plain; charset=utf-8", None).unwrap();
    let (bytes, content_type, _) = store.read_back("greeting").unwrap();
    assert_eq!(bytes, b"hello");
    assert_eq!(content_type, "text/plain; charset=utf-8");
}

#[test]
fn test_null_sentinel_roundtrip() {
    let mut store = MemStore::new();
    store.set_value("empty", b"", NONE_CONTENT_TYPE, None).unwrap();
    let (bytes, content_type, size) = store.read_back("empty").unwrap();
    assert!(bytes.is_empty());
    assert_eq!(content_type, NONE_CONTENT_TYPE);
    assert_eq!(size, Some(0));
}

#[test]
fn test_binary_bytes_roundtrip() {
    let mut store = MemStore::new();
    let raw_bytes: Vec<u8> = vec![0x00, 0x01, 0x02, 0x03, 0x04, 0x89, 0xFF];
    store.set_value("binary-key", &raw_bytes, "application/octet-stream", None).unwrap();
    let (bytes, content_type, size) = store.read_back("binary-key").unwrap();
    assert_eq!(bytes, raw_bytes);
    assert_eq!(content_type, "application/octet-stream");
    assert_eq!(size, Some(raw_bytes.len()));
}

#[test]
fn test_content_type_stored_verbatim() {
    let mut store = MemStore::new();
    store.set_value("weird", b"<svg/>", "image/svg+xml; charset=utf-8", None).unwrap();
    let (bytes, content_type, _) = store.read_back("weird").unwrap();
    assert_eq!(bytes, b"<svg/>");
    assert_eq!(content_type, "image/svg+xml; charset=utf-8");
}

#[test]
fn test_large_value_roundtrip() {
    let mut store = MemStore::new();
    let size = 1024 * 1024;
    let payload: Vec<u8> = (0..size).map(|i| (i % 251) as u8).collect();
    store.set_value("big.bin", &payload, "application/octet-stream", None).unwrap();
    let (bytes, content_type, persisted_size) = store.read_back("big.bin").unwrap();
    assert_eq!(bytes.len(), size, "round-tripped value must keep its length");
    assert_eq!(bytes, payload, "round-tripped value must be byte-identical");
    assert_eq!(content_type, "application/octet-stream");
    assert_eq!(persisted_size, Some(size), "size must reflect the real length");
}

#[test]
fn test_reopen_preserves_records() {
    let mut store = MemStore::new();
    store.set_value("greeting", b"hello", "text/plain; charset=utf-8", None).unwrap();
    store.set_value("payload", br#"{"x":1}"#, "application/json", None).unwrap();

    let name = Some("kvs".to_string());
    for _ in 0..2 {
        match locate_checked(&None, &name, &None, "/data", "key_value_stores").unwrap() {
            StorageLocation::At(path) => assert_eq!(path, "/data/key_value_stores/kvs"),
            StorageLocation::ById(id) => panic!("looked for {id}"),
        }
    }
    let mut reopened = MemStore { files: store.files, sidecars: store.sidecars };
    reopened.adopt(&[]).unwrap();

    let record = reopened.read_value("greeting").unwrap().unwrap();
    assert_eq!(record.value, b"hello");
    assert_eq!(record.content_type, "text/plain; charset=utf-8");
    let record = reopened.read_value("payload").unwrap().unwrap();
    assert_eq!(record.value, br#"{"x":1}"#);
    assert_eq!(record.content_type, "application/json");
    assert!(reopened.get_value("missing", true).unwrap().is_none());
}

#[test]
fn test_read_value_returns_bytes_and_size() {
    let mut store = MemStore::new();
    store.set_value("k", b"hello", "text/plain", None).unwrap();
    let record = store.read_value("k").unwrap().unwrap();
    assert_eq!(record.key, "k");
    assert_eq!(record.content_type, "text/plain");
    assert_eq!(record.value, b"hello");
    assert_eq!(record.size, 5);
    assert!(store.read_value("nope").unwrap().is_none());
    store.write_bare("bare", b"x");
    assert!(store.read_value("bare").unwrap().is_none());
}

#[test]
fn test_value_file_info_has_size_without_reading_bytes() {
    let mut store = MemStore::new();
    store.set_value("k", b"abcd", "application/json", None).unwrap();
    let info = store.value_file_info("k").unwrap().unwrap();
    assert_eq!(info.key, "k");
    assert_eq!(info.content_type, "application/json");
    assert_eq!(info.size, 4);
    assert_eq!(info.path, format!("{PATH}/{}", encode_key("k")));
    assert_eq!(store.files[&encode_key("k")], b"abcd");
    assert!(store.value_file_info("nope").unwrap().is_none());
}

#[test]
fn test_resolve_and_read_value_bare_fallback() {
    let mut store = MemStore::new();
    let payload = br#"{"foo":"bar"}"#;
    store.write_bare("INPUT.json", payload);
    let fallbacks = [("", ""), (".json", "application/json"), (".bin", "")];
    let record = store.resolve_and_read_value("INPUT", &fallbacks).unwrap();
    assert_eq!(record.key, "INPUT");
    assert_eq!(record.content_type, "application/json");
    assert_eq!(record.value, payload);
    assert_eq!(record.size, payload.len());
    assert!(store.resolve_and_read_value("missing", &fallbacks).is_none());
}

#[test]
fn the_first_hit_ends_a_search() {
    let fallbacks = extensions(&[("", ""), (".json", "application/json"), (".bin", "")]);
    let attempts = resolution_attempts("K", &fallbacks);
    assert_eq!(attempts.len(), 4);
    for first in 0..=attempts.len() {
        let mut search = ValueSearch::new("K", &fallbacks);
        let mut tried = Vec::new();
        while let Some(attempt) = search.attempt() {
            search.report(tried.len() >= first);
            tried.push(attempt);
        }
        assert_eq!(tried, attempts[..attempts.len().min(first + 1)]);
        search.report(true);
        assert_eq!(search.attempt(), None);
        let found = record_for("K.file", "text/plain".to_string(), 1, None);
        match attempts.get(first) {
            Some((key, _)) => {
                assert_eq!(search.found_key().as_ref(), Some(key));
                let expected = resolve_found("K", found.clone(), first, &fallbacks);
                let described = search.describe(found).unwrap();
                assert_eq!(described.key, expected.key);
                assert_eq!(described.content_type, expected.content_type);
                assert_eq!(described.key, if first == 0 { "K.file" } else { "K" });
            }
            None => {
                assert_eq!(search.found_key(), None);
                assert!(search.describe(found).is_none());
            }
        }
    }
}

#[test]
fn written_keys_are_listed_and_deleted_ones_are_not() {
    let mut store = MemStore::new();
    store.set_value("a/b", b"1", "text/plain", None).unwrap();
    store.set_value("z", b"2", "text/plain", Some("bound.txt")).unwrap();
    assert_eq!(keys(&store.records(&[])), ["a/b", "z"]);
    let entries: Vec<String> = store.files.keys().chain(store.sidecars.keys()).cloned().collect();
    let mut recorded = recorded_keys(&entries);
    recorded.sort();
    assert_eq!(recorded, ["a%2Fb", "z"]);
    store.delete_value("a/b");
    assert_eq!(keys(&store.records(&[])), ["z"]);
}
