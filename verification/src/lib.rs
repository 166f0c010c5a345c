//! Filesystem-backed storages for crawlers: datasets, key-value stores and
//! request queues, with every rule of the on-disk layout proved.

pub mod text;
pub mod text_laws;
pub mod error;
pub mod path;
pub mod utils;
pub mod pagination;
pub mod clock;
pub mod json;
pub mod order;
pub mod models;
pub mod key_listing;
pub mod storage;
pub mod listing_laws;
pub mod key_value_store;
pub mod store_laws;
pub mod resolution_laws;
pub mod dataset;
pub mod dataset_laws;
pub mod key_map;
pub mod request_queue;
pub mod queue_laws;
pub mod queue_runs;
pub mod request_laws;
pub mod name_laws;
pub mod queue_effects;
pub mod stub_gen;
pub mod stub_laws;
pub mod python;
pub mod json_text;
pub mod bindings;
pub mod add_batch;
pub mod memory_laws;
pub mod reading_laws;
pub mod view_laws;
