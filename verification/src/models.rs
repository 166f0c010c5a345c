//! The documents and results that storages work with.

use vstd::prelude::*;

use crate::clock::{is_clock_reading, read_clock, Timestamp};
use crate::json::JsonValue;
use crate::text::opt_text;
use crate::utils::{request_id, unique_key_to_request_id};

verus! {

/// What every storage records about itself.
#[derive(Debug)]
pub struct StorageMetadata {
    pub id: String,
    pub name: Option<String>,
    pub accessed_at: Timestamp,
    pub created_at: Timestamp,
    pub modified_at: Timestamp,
}

/// A copy of an optional string.
pub fn clone_text(s: &Option<String>) -> (r: Option<String>)
    ensures
        r == *s,
{
    match s {
        Some(text) => Some(text.clone()),
        None => None,
    }
}

impl StorageMetadata {
    /// The record of a storage that came into being at `now`.
    pub fn created(id: String, name: Option<String>, now: Timestamp) -> (r: Self)
        ensures
            r == (StorageMetadata {
                id,
                name,
                accessed_at: now,
                created_at: now,
                modified_at: now,
            }),
    {
        StorageMetadata { id, name, accessed_at: now, created_at: now, modified_at: now }
    }

    /// The record of a storage that comes into being right now.
    pub fn new(id: String, name: Option<String>) -> (r: Self)
        ensures
            r.id == id,
            r.name == name,
            r.accessed_at == r.created_at,
            r.modified_at == r.created_at,
            is_clock_reading(r.created_at),
            r.created_at.ordinary(),
    {
        Self::created(id, name, read_clock())
    }

    /// Records a read at `now`.
    pub fn touch_read(&mut self, now: Timestamp)
        ensures
            *final(self) == (StorageMetadata { accessed_at: now, ..*old(self) }),
    {
        self.accessed_at = now;
    }

    /// Records a change at `now`.
    pub fn touch(&mut self, now: Timestamp)
        ensures
            *final(self) == (StorageMetadata { accessed_at: now, modified_at: now, ..*old(self) }),
    {
        self.accessed_at = now;
        self.modified_at = now;
    }
}

impl Clone for StorageMetadata {
    fn clone(&self) -> (r: Self)
        ensures
            r == *self,
    {
        StorageMetadata {
            id: self.id.clone(),
            name: clone_text(&self.name),
            accessed_at: self.accessed_at,
            created_at: self.created_at,
            modified_at: self.modified_at,
        }
    }
}

/// What a dataset records about itself.
#[derive(Debug)]
pub struct DatasetMetadata {
    pub base: StorageMetadata,
    pub item_count: usize,
}

impl DatasetMetadata {
    /// The record of an empty dataset that came into being at `now`.
    pub fn created(id: String, name: Option<String>, now: Timestamp) -> (r: Self)
        ensures
            r.item_count == 0,
            r.base == (StorageMetadata {
                id,
                name,
                accessed_at: now,
                created_at: now,
                modified_at: now,
            }),
    {
        DatasetMetadata { base: StorageMetadata::created(id, name, now), item_count: 0 }
    }

    /// The record of an empty dataset that comes into being right now.
    pub fn new(id: String, name: Option<String>) -> (r: Self)
        ensures
            r.item_count == 0,
            r.base.id == id,
            r.base.name == name,
            r.base.accessed_at == r.base.created_at,
            r.base.modified_at == r.base.created_at,
            is_clock_reading(r.base.created_at),
            r.base.created_at.ordinary(),
    {
        DatasetMetadata { base: StorageMetadata::new(id, name), item_count: 0 }
    }
}

impl Clone for DatasetMetadata {
    fn clone(&self) -> (r: Self)
        ensures
            r == *self,
    {
        DatasetMetadata { base: self.base.clone(), item_count: self.item_count }
    }
}

/// What a key-value store records about itself.
#[derive(Debug)]
pub struct KeyValueStoreMetadata {
    pub base: StorageMetadata,
}

impl KeyValueStoreMetadata {
    /// The record of a store that came into being at `now`.
    pub fn created(id: String, name: Option<String>, now: Timestamp) -> (r: Self)
        ensures
            r.base == (StorageMetadata {
                id,
                name,
                accessed_at: now,
                created_at: now,
                modified_at: now,
            }),
    {
        KeyValueStoreMetadata { base: StorageMetadata::created(id, name, now) }
    }

    /// The record of a store that comes into being right now.
    pub fn new(id: String, name: Option<String>) -> (r: Self)
        ensures
            r.base.id == id,
            r.base.name == name,
            r.base.accessed_at == r.base.created_at,
            r.base.modified_at == r.base.created_at,
            is_clock_reading(r.base.created_at),
            r.base.created_at.ordinary(),
    {
        KeyValueStoreMetadata { base: StorageMetadata::new(id, name) }
    }
}

impl Clone for KeyValueStoreMetadata {
    fn clone(&self) -> (r: Self)
        ensures
            r == *self,
    {
        KeyValueStoreMetadata { base: self.base.clone() }
    }
}

/// What a key-value store records about one of its records.
#[derive(Debug)]
pub struct KeyValueStoreRecordMetadata {
    pub key: String,
    pub content_type: String,
    /// The length of the value, where it is recorded.
    pub size: Option<usize>,
    /// The file that holds the value, where that is not the one named after the
    /// key.
    pub filename: Option<String>,
}

/// The record of a value as plain text and numbers.
#[verifier::ext_equal]
pub ghost struct RecordView {
    pub key: Seq<char>,
    pub content_type: Seq<char>,
    pub size: Option<usize>,
    pub filename: Option<Seq<char>>,
}

impl View for KeyValueStoreRecordMetadata {
    type V = RecordView;

    open spec fn view(&self) -> RecordView {
        RecordView {
            key: self.key@,
            content_type: self.content_type@,
            size: self.size,
            filename: opt_text(self.filename),
        }
    }
}

/// The contents of a sequence of records.
pub open spec fn record_views(v: Seq<KeyValueStoreRecordMetadata>) -> Seq<RecordView> {
    v.map_values(|r: KeyValueStoreRecordMetadata| r@)
}

impl Clone for KeyValueStoreRecordMetadata {
    fn clone(&self) -> (r: Self)
        ensures
            r == *self,
    {
        KeyValueStoreRecordMetadata {
            key: self.key.clone(),
            content_type: self.content_type.clone(),
            size: self.size,
            filename: clone_text(&self.filename),
        }
    }
}

/// A value as its content type tells it apart.
#[derive(Debug)]
pub enum KvsValue {
    /// No value.
    Nothing,
    /// A JSON document.
    Json(JsonValue),
    /// Text.
    Text(String),
    /// Any other bytes.
    Binary(Vec<u8>),
}

/// A record with its value.
#[derive(Debug)]
pub struct KeyValueStoreRecord {
    pub key: String,
    pub content_type: String,
    pub size: usize,
    pub value: Vec<u8>,
}

/// A record with the place of its value.
#[derive(Debug)]
pub struct KeyValueStoreValueFileInfo {
    pub key: String,
    pub content_type: String,
    pub size: usize,
    pub path: String,
}

/// A key whose value may lie in the store without a record of it.
#[derive(Debug, Clone)]
pub struct AdoptionCandidate {
    pub key: String,
    pub files: Vec<AdoptableFile>,
}

/// A file that may hold the value of a key, and its type.
#[derive(Debug, Clone)]
pub struct AdoptableFile {
    pub filename: String,
    pub content_type: String,
}

/// A file without a record that may stand for a key: the key with `extension`
/// behind it. An empty content type leaves the type open.
#[derive(Debug)]
pub struct BareFallback {
    pub extension: String,
    pub content_type: String,
}

/// A file without a record that is listed under its own name. An empty content
/// type leaves the type open.
#[derive(Debug)]
pub struct ListBareFallback {
    pub name: String,
    pub content_type: String,
}

/// What a request queue records about itself.
#[derive(Debug)]
pub struct RequestQueueMetadata {
    pub base: StorageMetadata,
    pub had_multiple_clients: bool,
    pub handled_request_count: usize,
    pub pending_request_count: usize,
    pub total_request_count: usize,
}

impl RequestQueueMetadata {
    /// The record of an empty queue that came into being at `now`.
    pub fn created(id: String, name: Option<String>, now: Timestamp) -> (r: Self)
        ensures
            r == (RequestQueueMetadata {
                base: StorageMetadata {
                    id,
                    name,
                    accessed_at: now,
                    created_at: now,
                    modified_at: now,
                },
                had_multiple_clients: false,
                handled_request_count: 0,
                pending_request_count: 0,
                total_request_count: 0,
            }),
    {
        RequestQueueMetadata {
            base: StorageMetadata::created(id, name, now),
            had_multiple_clients: false,
            handled_request_count: 0,
            pending_request_count: 0,
            total_request_count: 0,
        }
    }

    /// The record of an empty queue that comes into being right now.
    pub fn new(id: String, name: Option<String>) -> (r: Self)
        ensures
            r.base.id == id,
            r.base.name == name,
            r.base.accessed_at == r.base.created_at,
            r.base.modified_at == r.base.created_at,
            is_clock_reading(r.base.created_at),
            r.base.created_at.ordinary(),
            !r.had_multiple_clients,
            r.handled_request_count == 0,
            r.pending_request_count == 0,
            r.total_request_count == 0,
    {
        Self::created(id, name, read_clock())
    }
}

impl Clone for RequestQueueMetadata {
    fn clone(&self) -> (r: Self)
        ensures
            r == *self,
    {
        RequestQueueMetadata {
            base: self.base.clone(),
            had_multiple_clients: self.had_multiple_clients,
            handled_request_count: self.handled_request_count,
            pending_request_count: self.pending_request_count,
            total_request_count: self.total_request_count,
        }
    }
}

/// A page of dataset items, with the question it answers.
#[derive(Debug)]
pub struct DatasetItemsListPage {
    pub count: usize,
    pub offset: usize,
    pub limit: usize,
    pub total: usize,
    pub desc: bool,
    pub items: Vec<JsonValue>,
}

/// A page of dataset items, and whether more follow.
#[derive(Debug)]
pub struct DatasetItemsPage {
    pub items: Vec<JsonValue>,
    pub has_more: bool,
}

/// A page of keys, and whether more follow.
#[derive(Debug)]
pub struct KvsKeysPage {
    pub items: Vec<KeyValueStoreRecordMetadata>,
    pub has_more: bool,
}

/// A page of keys, with the question it answers and the cursor of the next page.
#[derive(Debug)]
pub struct KvsListKeysResult {
    pub items: Vec<KeyValueStoreRecordMetadata>,
    pub count: usize,
    pub limit: usize,
    pub exclusive_start_key: Option<String>,
    pub is_truncated: bool,
    pub next_exclusive_start_key: Option<String>,
}

/// What became of a request that was handed to a queue.
#[derive(Debug)]
pub struct ProcessedRequest {
    pub request_id: String,
    pub unique_key: String,
    pub was_already_present: bool,
    pub was_already_handled: bool,
}

impl ProcessedRequest {
    /// The outcome as plain values. The identifier is that of the unique key.
    pub open spec fn reports(
        self,
        unique_key: Seq<char>,
        was_already_present: bool,
        was_already_handled: bool,
    ) -> bool {
        &&& self.request_id@ == request_id(unique_key)
        &&& self.unique_key@ == unique_key
        &&& self.was_already_present == was_already_present
        &&& self.was_already_handled == was_already_handled
    }

    /// The outcome for the request with the given unique key.
    pub fn for_key(
        unique_key: String,
        was_already_present: bool,
        was_already_handled: bool,
    ) -> (r: Self)
        ensures
            r.reports(unique_key@, was_already_present, was_already_handled),
    {
        let request_id = unique_key_to_request_id(unique_key.as_str());
        ProcessedRequest { request_id, unique_key, was_already_present, was_already_handled }
    }
}

/// A request that a queue could not take.
#[derive(Debug)]
pub struct UnprocessedRequest {
    pub unique_key: String,
    pub url: String,
    pub method: Option<String>,
}

/// What became of a batch of requests.
#[derive(Debug)]
pub struct AddRequestsResponse {
    pub processed_requests: Vec<ProcessedRequest>,
    pub unprocessed_requests: Vec<UnprocessedRequest>,
}

} // verus!
