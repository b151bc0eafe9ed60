//! FlashStore: the verified core of an embedded LSM-tree key-value store.
//!
//! Keys and values are byte strings. The modules below hold the
//! write-ahead-log framing, the in-memory table, the on-disk table
//! format (blocks, Bloom filter, index, footer), merging of sorted runs,
//! compaction planning, version bookkeeping, and the text utilities of
//! the retrieval layer.
pub mod keys;
pub mod types;
pub mod batch;
pub mod config;
pub mod error;
pub mod crc;
pub mod wire;
pub mod wal;
pub mod sstable;
pub mod memtable;
pub mod merge;
pub mod iterator;
pub mod manifest;
pub mod compaction;
pub mod cache;
pub mod engine;
pub mod agreement;
pub mod text;
pub mod cli;
pub mod rag;
