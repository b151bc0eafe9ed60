//! Error type of the store.
use vstd::prelude::*;

verus! {

/// Every failure the store reports; each variant carries a human-readable message.
#[derive(Debug, Clone)]
pub enum FlashStoreError {
    Io(String),
    Corruption(String),
    CompactionError(String),
    InvalidArgument(String),
    WalError(String),
    TableError(String),
    LockError(String),
    BincodeError(String),
    VectorDimensionMismatch { expected: usize, actual: usize },
    Rag(String),
    Other(String),
}

} // verus!
