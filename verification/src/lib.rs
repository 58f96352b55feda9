//! Persistent index-storage layer of a chain indexer.
//!
//! The store keeps five ordered byte-key tables (config, headers, funding,
//! spending, txid) inside an embedded key-value engine, tracks the on-disk
//! format version and the one-time-compaction flag in a JSON config record,
//! and serves fixed-width prefix scans over the hash tables.

pub mod batch;
pub mod config;
pub mod order;
pub mod store;
