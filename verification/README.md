# flash_store

An embedded LSM-tree key-value store with a retrieval layer, written in Verus.

- `src/` is the verified library: write batches, the write-ahead log format and
  its replay, the memtable, data blocks, bloom filters, table building and
  reading, the merge of sorted runs, the manifest and its version edits,
  compaction planning, the engine's decisions (what a read, a scan, a flush or a
  compaction does with the tables it is given), the block cache, and the
  integer and text logic of the retrieval layer (chunking, context budgets,
  store keys, cache expiry, evaluation counts) and of the command line
  (tokenizing, command parsing, batch files, option reading).
- `app/` is ordinary Rust around it: files, the command line program, the
  interactive shell, locking, and the parts of retrieval that compute with
  floating point (vector similarity, BM25 scores, fusion, reranking).
- `tests/` runs the library, the engine through an in-memory set of files.

The library calls `crc32fast` for checksums and `bincode` for the encoding of
records and entries; both calls stand behind small trusted wrappers whose
contracts are stated in `src/crc.rs` and `src/wire.rs`.
