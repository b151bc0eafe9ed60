//! Write-ahead log: record framing and recovery of the records a log holds.
pub mod record;
pub mod log;
