//! Text utilities of the retrieval layer: identifiers, chunking, tokenizing,
//! context settings and counters.
pub mod types;
pub mod chunker;
pub mod store_keys;
pub mod sparse;
pub mod context;
pub mod pipeline;
pub mod config;
pub mod cache;
pub mod metrics;
