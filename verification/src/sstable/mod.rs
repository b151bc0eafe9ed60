//! Sorted string tables: data blocks, Bloom filter, index and footer.
pub mod footer;
pub mod bloom;
pub mod block;
pub mod reader;
pub mod builder;
pub mod lookup;
pub mod naming;
