use flash_store::batch::{BatchOp, WriteBatch};
use flash_store::cli::batch_parser::{batch_from_raw_ops, parse_json_ops, parse_plain_lines, KeyOnly, KvPair, RawBatchOp};
use flash_store::error::FlashStoreError;
use flash_store::rag::chunker::{char_width, chunk_text};
use flash_store::rag::types::{ChunkingConfig, ChunkingStrategy};
use flash_store::cli::inspect::summarize_entries;
use flash_store::cli::scan_rows;
use flash_store::cli::{options_for, GlobalOpts};
use flash_store::rag::cache::{live_mask, live_mask_now, lru_victim};
use flash_store::rag::context::{BlockSizes, BudgetPlan, ContextAssembler, LastBlock, TruncationStrategy};
use flash_store::types::Entry;
use flash_store::rag::store_keys::{
    chunk_key, chunk_prefix, classify_key, doc_key, meta_key, rows_with_prefix, starts_with, vec_key, StoredKey,
};

fn flat(op: &str, key: &str, value: Option<&str>) -> RawBatchOp {
    RawBatchOp::Flat { op: op.to_string(), key: key.to_string(), value: value.map(|v| v.to_string()) }
}

fn nested_put(key: &str, value: &str) -> RawBatchOp {
    RawBatchOp::Nested {
        put: Some(KvPair { key: key.to_string(), value: value.to_string() }),
        delete: None,
        del: None,
    }
}

fn describe(b: &WriteBatch) -> Vec<(String, Option<String>)> {
    b.ops
        .iter()
        .map(|op| match op {
            BatchOp::Put(k, v) => (String::from_utf8(k.clone()).unwrap(), Some(String::from_utf8(v.clone()).unwrap())),
            BatchOp::Delete(k) => (String::from_utf8(k.clone()).unwrap(), None),
        })
        .collect()
}

fn refusal(r: Result<WriteBatch, FlashStoreError>) -> String {
    match r {
        Err(FlashStoreError::InvalidArgument(m)) => m,
        _ => panic!("expected a refusal"),
    }
}

#[test]
fn test_parse_json_flat_batch() {
    let json = r#"[
            {"op": "put", "key": "k1", "value": "v1"},
            {"op": "delete", "key": "k2"},
            {"type": "set", "key": "k3", "value": "v3"}
        ]"#;
    let ops = vec![flat("put", "k1", Some("v1")), flat("delete", "k2", None), flat("set", "k3", Some("v3"))];
    let batch = parse_json_ops(json, Some(ops)).unwrap();
    assert_eq!(batch.len(), 3);
    assert_eq!(
        describe(&batch),
        vec![
            ("k1".to_string(), Some("v1".to_string())),
            ("k2".to_string(), None),
            ("k3".to_string(), Some("v3".to_string())),
        ]
    );
}

#[test]
fn test_parse_plain_lines_batch() {
    let text = "PUT user1 Alice\n# comment\nPUT user2 Bob Jones\nDEL user1\n";
    let batch = parse_plain_lines(text).unwrap();
    assert_eq!(batch.len(), 3);
    assert_eq!(
        describe(&batch),
        vec![
            ("user1".to_string(), Some("Alice".to_string())),
            ("user2".to_string(), Some("Bob Jones".to_string())),
            ("user1".to_string(), None),
        ]
    );
}

#[test]
fn test_parse_invalid_batch() {
    let bad_json = r#"[{"op": "invalid_op", "key": "k"}]"#;
    let ops = vec![flat("invalid_op", "k", None)];
    assert!(parse_json_ops(bad_json, Some(ops)).is_err());

    let bad_line = "UNKNOWN_CMD foo bar";
    assert!(parse_plain_lines(bad_line).is_err());
}

#[test]
fn test_batch_parser_nested_and_plain() {
    let json_nested = r#"[
        {"put": {"key": "alpha", "value": "1"}},
        {"delete": {"key": "beta"}},
        {"del": {"key": "gamma"}}
    ]"#;
    let ops = vec![
        nested_put("alpha", "1"),
        RawBatchOp::Nested { put: None, delete: Some(KeyOnly { key: "beta".to_string() }), del: None },
        RawBatchOp::Nested { put: None, delete: None, del: Some(KeyOnly { key: "gamma".to_string() }) },
    ];
    let b = parse_json_ops(json_nested, Some(ops)).unwrap();
    assert_eq!(b.len(), 3);

    let empty = parse_json_ops("", None).unwrap();
    assert_eq!(empty.len(), 0);

    let plain_with_comments = r#"
        # Header comment
        // Another comment
        PUT k1 v1
        SET k2 v2
        DEL k1
        DELETE k2
    "#;
    let b_plain = parse_plain_lines(plain_with_comments).unwrap();
    assert_eq!(b_plain.len(), 4);
}

#[test]
fn test_batch_refusal_messages() {
    assert_eq!(
        refusal(parse_plain_lines("PUT onlykey")),
        "Invalid PUT line, expected 'PUT <key> <value>', got: 'PUT onlykey'"
    );
    assert_eq!(refusal(parse_plain_lines("  del  \r\n")), "Invalid DEL line, expected 'DEL <key>', got: 'del'");
    assert_eq!(refusal(parse_plain_lines("PUT a b\nfrob x")), "Unrecognized batch command: 'FROB'");
    assert_eq!(
        refusal(batch_from_raw_ops(&vec![flat("put", "a", Some("1")), flat("Upsert", "b", None)])),
        "Unknown batch operation: 'upsert'"
    );
}

#[test]
fn test_json_ops_case_defaults_and_nested_priority() {
    let ops = vec![
        flat("INSERT", "a", None),
        flat("Remove", "b", None),
        RawBatchOp::Nested {
            put: Some(KvPair { key: "c".to_string(), value: "3".to_string() }),
            delete: Some(KeyOnly { key: "d".to_string() }),
            del: None,
        },
        RawBatchOp::Nested { put: None, delete: None, del: None },
    ];
    let b = batch_from_raw_ops(&ops).unwrap();
    assert_eq!(
        describe(&b),
        vec![("a".to_string(), Some(String::new())), ("b".to_string(), None), ("c".to_string(), Some("3".to_string()))]
    );
}

#[test]
fn test_json_ops_fall_back_to_lines() {
    // Text that does not start like JSON is read as lines, whatever was parsed.
    let b = parse_json_ops("  PUT x 1\nDEL y  ", Some(vec![flat("put", "ignored", None)])).unwrap();
    assert_eq!(describe(&b), vec![("x".to_string(), Some("1".to_string())), ("y".to_string(), None)]);
    // Text that starts like JSON but did not parse is read as lines too.
    assert_eq!(refusal(parse_json_ops("[not json", None)), "Unrecognized batch command: '[NOT'");
}

#[test]
fn test_plain_lines_values_keep_inner_words() {
    let b = parse_plain_lines("set k  many   spaced\twords \n\n   // note\n#x\n").unwrap();
    assert_eq!(describe(&b), vec![("k".to_string(), Some("many spaced words".to_string()))]);
}

#[test]
fn test_chunk_fixed_chars() {
    let config = ChunkingConfig { strategy: ChunkingStrategy::FixedChars { size: 20, overlap: 5 }, min_chunk_size: 5 };
    let text = "FlashStore is an embedded LSM-tree storage engine in Rust.";
    let chunks = chunk_text(text, &config);
    assert!(chunks.len() >= 3);
    assert_eq!(chunks[0].0, 0);
    assert_eq!(&text[chunks[0].0..chunks[0].1], "FlashStore is an emb");
}

#[test]
fn test_chunk_fixed_tokens() {
    let config = ChunkingConfig { strategy: ChunkingStrategy::FixedTokens { size: 4, overlap: 1 }, min_chunk_size: 5 };
    let text = "one two three four five six seven eight nine ten";
    let chunks = chunk_text(text, &config);
    assert_eq!(chunks.len(), 3);
    assert_eq!(chunks[0].2, "one two three four");
    assert_eq!(chunks[1].2, "four five six seven");
    assert_eq!(chunks[2].2, "seven eight nine ten");
}

#[test]
fn test_chunk_paragraphs() {
    let config = ChunkingConfig { strategy: ChunkingStrategy::Paragraph, min_chunk_size: 10 };
    let text = "Paragraph one has sufficient length.\n\nParagraph two is also very long and detailed.\n\nParagraph three.";
    let chunks = chunk_text(text, &config);
    assert_eq!(chunks.len(), 3);
    assert!(chunks[0].2.contains("Paragraph one"));
    assert!(chunks[1].2.contains("Paragraph two"));
    assert!(chunks[2].2.contains("Paragraph three"));
}

#[test]
fn test_chunk_sentences() {
    let config = ChunkingConfig { strategy: ChunkingStrategy::Sentence, min_chunk_size: 10 };
    let text = "First sentence here! Second sentence follows. Is this the third sentence? Yes it is.";
    let chunks = chunk_text(text, &config);
    assert_eq!(chunks.len(), 4);
    assert_eq!(chunks[0].2, "First sentence here!");
    assert_eq!(chunks[1].2, "Second sentence follows.");
    assert_eq!(chunks[2].2, "Is this the third sentence?");
    assert_eq!(chunks[3].2, "Yes it is.");
}

#[test]
fn test_rag_chunking_algorithms() {
    let char_cfg = ChunkingConfig { strategy: ChunkingStrategy::FixedChars { size: 25, overlap: 5 }, min_chunk_size: 5 };
    let char_chunks = chunk_text("FlashStore storage engine for fast LSM indexing", &char_cfg);
    assert!(char_chunks.len() >= 2);
    assert_eq!(char_chunks[0].0, 0);

    let tok_cfg = ChunkingConfig { strategy: ChunkingStrategy::FixedTokens { size: 3, overlap: 1 }, min_chunk_size: 3 };
    let tok_chunks = chunk_text("rust high performance key value embedded database", &tok_cfg);
    assert!(tok_chunks.len() >= 3);

    let para_cfg = ChunkingConfig { strategy: ChunkingStrategy::Paragraph, min_chunk_size: 10 };
    let para_text = "Section 1 provides an overview of the system.\n\nSection 2 describes architecture.\n\nSection 3 summarizes findings.";
    let para_chunks = chunk_text(para_text, &para_cfg);
    assert_eq!(para_chunks.len(), 3);
    assert!(para_chunks[0].2.contains("Section 1"));
    assert!(para_chunks[1].2.contains("Section 2"));
    assert!(para_chunks[2].2.contains("Section 3"));

    let sent_cfg = ChunkingConfig { strategy: ChunkingStrategy::Sentence, min_chunk_size: 8 };
    let sent_text = "First sentence is clear! Second sentence has detail. Is the third sentence present? Absolutely.";
    let sent_chunks = chunk_text(sent_text, &sent_cfg);
    assert_eq!(sent_chunks.len(), 4);
}

#[test]
fn test_chunk_offsets_are_characters() {
    // Multi-byte characters: offsets count characters, as windows do.
    let config = ChunkingConfig { strategy: ChunkingStrategy::FixedChars { size: 3, overlap: 0 }, min_chunk_size: 1 };
    let text = "héllo wörld";
    let chunks = chunk_text(text, &config);
    assert_eq!(chunks[0], (0, 3, "hél".to_string()));
    assert_eq!(chunks[1], (3, 6, "lo ".to_string()));
    let cs: Vec<char> = text.chars().collect();
    for (s, e, t) in &chunks {
        assert_eq!(cs[*s..*e].iter().collect::<String>(), *t);
    }
    assert_eq!(chunks.last().unwrap().1, cs.len());
    let accents = ChunkingConfig { strategy: ChunkingStrategy::FixedChars { size: 5, overlap: 0 }, min_chunk_size: 1 };
    assert_eq!(chunk_text("éé", &accents), vec![(0, 2, "éé".to_string())]);
    assert_eq!(char_width('a'), 1);
    assert_eq!(char_width('é'), 2);
    assert_eq!(char_width('€'), 3);
    assert_eq!(char_width('😀'), 4);
}

#[test]
fn test_chunk_blank_and_zero_size() {
    let config = ChunkingConfig { strategy: ChunkingStrategy::FixedChars { size: 0, overlap: 0 }, min_chunk_size: 1 };
    assert!(chunk_text("some text", &config).is_empty());
    let para = ChunkingConfig { strategy: ChunkingStrategy::Paragraph, min_chunk_size: 1 };
    assert!(chunk_text(" \n\t ", &para).is_empty());
    // A short last window is kept only when nothing else was.
    let big = ChunkingConfig { strategy: ChunkingStrategy::FixedTokens { size: 10, overlap: 2 }, min_chunk_size: 100 };
    assert_eq!(chunk_text("  tiny text ", &big), vec![(2, 11, "tiny text".to_string())]);
}

#[test]
fn test_chunk_sentence_tail_is_merged() {
    let config = ChunkingConfig { strategy: ChunkingStrategy::Sentence, min_chunk_size: 10 };
    let text = "A long enough sentence. Tail";
    let chunks = chunk_text(text, &config);
    assert_eq!(chunks, vec![(0, text.len(), "A long enough sentence. Tail".to_string())]);
    let short_paragraphs = ChunkingConfig { strategy: ChunkingStrategy::Paragraph, min_chunk_size: 50 };
    assert_eq!(chunk_text("ab\n\ncd", &short_paragraphs), vec![(4, 6, "cd".to_string())]);
}

#[test]
fn test_context_budget_plan() {
    let sizes = vec![BlockSizes { block: 30, head: 20, text: 10 }, BlockSizes { block: 100, head: 20, text: 78 }];
    let cut = ContextAssembler::plan_budget(None, &sizes, 95, TruncationStrategy::TruncateLast);
    assert_eq!(cut, BudgetPlan { full_blocks: 1, last: LastBlock::CutAt(28), was_truncated: true });
    // First block and separator, then heading, cut text and the marker: exactly the budget.
    assert_eq!(30 + 2 + 20 + 28 + "... [truncated]".len(), 95);
    assert_eq!(cut.citations(), 2);
    let dropped = ContextAssembler::plan_budget(None, &sizes, 95, TruncationStrategy::DropOversized);
    assert_eq!(dropped, BudgetPlan { full_blocks: 1, last: LastBlock::Omitted, was_truncated: true });
    assert_eq!(dropped.citations(), 1);
    // The header takes its bytes and a blank line; too little room is left for the second heading.
    let tight = ContextAssembler::plan_budget(Some(20), &sizes, 80, TruncationStrategy::TruncateLast);
    assert_eq!(tight, BudgetPlan { full_blocks: 1, last: LastBlock::Omitted, was_truncated: true });
    let all = ContextAssembler::plan_budget(Some(5), &sizes, 1000, TruncationStrategy::TruncateLast);
    assert_eq!(all, BudgetPlan { full_blocks: 2, last: LastBlock::Omitted, was_truncated: false });
    let whole = ContextAssembler::plan_budget(None, &vec![BlockSizes { block: 90, head: 20, text: 5 }], 60, TruncationStrategy::TruncateLast);
    assert_eq!(whole, BudgetPlan { full_blocks: 0, last: LastBlock::WholeText, was_truncated: true });
}

#[test]
fn test_options_for_global_opts() {
    let mut g = GlobalOpts::default();
    let o = options_for(&g);
    assert_eq!(o.dir, "./data");
    assert_eq!(o.memtable_size, 4 * 1024 * 1024);
    assert_eq!(o.block_size, 4096);
    g.path = "/tmp/db".to_string();
    g.memtable_size = Some(1024);
    g.block_size = Some(128);
    g.sync_wal = true;
    g.block_cache_size = Some(512);
    let o = options_for(&g);
    assert_eq!(o.dir, "/tmp/db");
    assert_eq!((o.memtable_size, o.block_size, o.sync_wal, o.block_cache_size), (1024, 128, true, 512));
    assert_eq!(o.bloom_bits_per_key, 10);
}

#[test]
fn test_scan_rows_reverse_and_limit() {
    let rows: Vec<(Vec<u8>, Vec<u8>)> = (1..=4u8).map(|i| (vec![i], vec![i + 10])).collect();
    assert_eq!(scan_rows(rows.clone(), false, None), rows);
    let r = scan_rows(rows.clone(), true, Some(2));
    assert_eq!(r, vec![(vec![4], vec![14]), (vec![3], vec![13])]);
    assert_eq!(scan_rows(rows.clone(), false, Some(10)).len(), 4);
    assert_eq!(scan_rows(rows, false, Some(0)).len(), 0);
}

#[test]
fn test_summarize_entries() {
    let entries = vec![
        Entry::new_value(b"a".to_vec(), b"1".to_vec(), 1),
        Entry::new_tombstone(b"b".to_vec(), 2),
        Entry::new_value(b"c".to_vec(), b"3".to_vec(), 3),
    ];
    let s = summarize_entries(&entries);
    assert_eq!((s.total_entries, s.values, s.tombstones), (3, 2, 1));
    assert_eq!(s.smallest_key, Some(b"a".to_vec()));
    assert_eq!(s.largest_key, Some(b"c".to_vec()));
    let e = summarize_entries(&Vec::new());
    assert_eq!((e.total_entries, e.smallest_key, e.largest_key), (0, None, None));
}

#[test]
fn test_cache_expiry_and_lru_victim() {
    assert_eq!(live_mask(&vec![100, 50, 200], 60, 130), vec![true, false, true]);
    // No time to live: nothing expires.
    assert_eq!(live_mask(&vec![0, 1], 0, u64::MAX), vec![true, true]);
    let (now, mask) = live_mask_now(&vec![0, u64::MAX], 3600);
    assert!(now > 0);
    assert_eq!(mask, vec![false, true]);
    assert_eq!(lru_victim(&vec![]), None);
    assert_eq!(lru_victim(&vec![5, 3, 3, 9]), Some(1));
    assert_eq!(lru_victim(&vec![7]), Some(0));
}

#[test]
fn test_store_keys() {
    assert_eq!(doc_key("doc1"), b"rag:doc:doc1".to_vec());
    assert_eq!(vec_key("é"), "rag:vec:é".as_bytes().to_vec());
    assert_eq!(meta_key("x"), b"rag:meta:x".to_vec());
    assert_eq!(chunk_prefix("d"), b"rag:chunk:d:".to_vec());
    assert_eq!(chunk_key("d", 0), b"rag:chunk:d:0".to_vec());
    assert_eq!(chunk_key("doc_100", 1234567), b"rag:chunk:doc_100:1234567".to_vec());
}

#[test]
fn test_stored_key_prefixes() {
    assert!(starts_with(b"rag:doc:a", b"rag:doc:"));
    assert!(starts_with(b"abc", b""));
    assert!(!starts_with(b"rag", b"rag:"));
    assert!(!starts_with(b"rag:vec:a", b"rag:doc:"));
    match classify_key(b"rag:doc:doc_1") {
        StoredKey::DocText(id) => assert_eq!(id, b"doc_1".to_vec()),
        _ => panic!("expected a text key"),
    }
    match classify_key(b"rag:vec:x") {
        StoredKey::DocVector(id) => assert_eq!(id, b"x".to_vec()),
        _ => panic!("expected an embedding key"),
    }
    match classify_key(b"rag:meta:") {
        StoredKey::DocMeta(id) => assert!(id.is_empty()),
        _ => panic!("expected a metadata key"),
    }
    assert!(matches!(classify_key(b"rag:chunk:d:0"), StoredKey::Chunk));
    assert!(matches!(classify_key(b"rag:sys:next"), StoredKey::Other));
    assert!(matches!(classify_key(b"user"), StoredKey::Other));
    let rows = vec![
        (b"rag:chunk:d:0".to_vec(), b"0".to_vec()),
        (b"rag:chunk:d:1".to_vec(), b"1".to_vec()),
        (b"rag:chunk:e:0".to_vec(), b"2".to_vec()),
        (b"rag:chunk:d:2".to_vec(), b"3".to_vec()),
    ];
    let kept = rows_with_prefix(rows, b"rag:chunk:d:");
    assert_eq!(kept.len(), 2);
    assert_eq!(kept[1].1, b"1".to_vec());
    assert!(rows_with_prefix(Vec::new(), b"x").is_empty());
}
