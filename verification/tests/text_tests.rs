use flash_store::cache::{BlockCache, LruBlockCache};
use flash_store::cli::formatter::safe_truncate_str;
use flash_store::cli::rag::{parse_chunk_config, parse_output_format, split_assignment, split_list};
use flash_store::cli::repl::tokenize_line;
use flash_store::cli::commands::{eval_query, parse_rag_command, parse_repl_command, RagReplCommand, ReplCommand};
use flash_store::cli::{GlobalOpts, OutputFormat};
use flash_store::compaction::Compactor;
use flash_store::error::FlashStoreError;
use flash_store::rag::context::{ContextAssembler, ContextConfig, ContextFormat, RagPromptTemplate, TruncationStrategy};
use flash_store::rag::metrics::{QueryEvaluationSample, RagMetricsTracker, RetrievalEvaluator, StageLatencyTracker};
use flash_store::rag::pipeline::MockEmbeddingProvider;
use flash_store::rag::sparse::tokenize;
use flash_store::rag::types::{ChunkingConfig, ChunkingStrategy, DocumentId};

#[test]
fn test_parse_chunk_config() {
    let cfg1 = parse_chunk_config("chars", Some(300), Some(30));
    match cfg1.strategy {
        ChunkingStrategy::FixedChars { size, overlap } => {
            assert_eq!(size, 300);
            assert_eq!(overlap, 30);
        }
        _ => panic!("Expected FixedChars"),
    }

    let cfg2 = parse_chunk_config("tokens", Some(150), Some(15));
    match cfg2.strategy {
        ChunkingStrategy::FixedTokens { size, overlap } => {
            assert_eq!(size, 150);
            assert_eq!(overlap, 15);
        }
        _ => panic!("Expected FixedTokens"),
    }
}

#[test]
fn test_parse_chunk_config_defaults_and_names() {
    let c = parse_chunk_config("FIXED-CHARS", None, None);
    assert_eq!(c.strategy, ChunkingStrategy::FixedChars { size: 500, overlap: 50 });
    assert_eq!(c.min_chunk_size, 10);
    let t = parse_chunk_config("Tokens", None, Some(3));
    assert_eq!(t.strategy, ChunkingStrategy::FixedTokens { size: 200, overlap: 3 });
    assert_eq!(parse_chunk_config("sentence", None, None).strategy, ChunkingStrategy::Sentence);
    assert_eq!(parse_chunk_config("whatever", None, None).strategy, ChunkingStrategy::Paragraph);
    let d = ChunkingConfig::default();
    assert_eq!(d.strategy, ChunkingStrategy::FixedTokens { size: 256, overlap: 32 });
    assert_eq!(d.min_chunk_size, 20);
}

#[test]
fn test_tokenize_line() {
    let tokens = tokenize_line("PUT \"my key\" 'my value' 123").unwrap();
    assert_eq!(tokens, vec!["PUT", "my key", "my value", "123"]);

    let tokens2 = tokenize_line("SCAN a b 10").unwrap();
    assert_eq!(tokens2, vec!["SCAN", "a", "b", "10"]);

    let unclosed = tokenize_line("PUT \"unclosed key val");
    assert!(unclosed.is_err());
}

#[test]
fn test_repl_tokenizer_edge_cases() {
    assert_eq!(tokenize_line("SET key value").unwrap(), vec!["SET", "key", "value"]);
    assert_eq!(tokenize_line("  PUT    k    v   ").unwrap(), vec!["PUT", "k", "v"]);
    assert_eq!(
        tokenize_line(r#"PUT "first key" "first value""#).unwrap(),
        vec!["PUT", "first key", "first value"]
    );
    assert_eq!(tokenize_line("PUT 'my key' 'my value'").unwrap(), vec!["PUT", "my key", "my value"]);
    assert_eq!(tokenize_line(r"PUT key\ name val\ val").unwrap(), vec!["PUT", "key name", "val val"]);
    assert!(tokenize_line(r#"PUT "unclosed key value"#).is_err());
    assert!(tokenize_line("PUT 'unclosed key value").is_err());
    assert_eq!(tokenize_line("").unwrap(), Vec::<String>::new());
    assert_eq!(tokenize_line("   \t  ").unwrap(), Vec::<String>::new());
}

#[test]
fn test_tokenize_line_quotes_inside_other_quotes() {
    assert_eq!(tokenize_line(r#"a "it's" 'say "hi"'"#).unwrap(), vec!["a", "it's", "say \"hi\""]);
    assert_eq!(tokenize_line(r#"x\"y"#).unwrap(), vec!["x\"y"]);
    match tokenize_line("'") {
        Err(FlashStoreError::InvalidArgument(_)) => {}
        other => panic!("unexpected {:?}", other),
    }
}

#[test]
fn test_tokenize() {
    let text = "FlashStore: High-Performance, Embedded LSM-Tree!";
    let tokens = tokenize(text);
    assert_eq!(tokens, vec!["flashstore", "high", "performance", "embedded", "lsm", "tree"]);
}

#[test]
fn test_tokenize_edge_cases() {
    assert_eq!(tokenize(""), Vec::<String>::new());
    assert_eq!(tokenize("...!!"), Vec::<String>::new());
    assert_eq!(tokenize("abc123 DEF"), vec!["abc123", "def"]);
}

#[test]
fn test_document_id_basics() {
    let id = DocumentId::new("doc_123");
    assert_eq!(id.as_str(), "doc_123");
    assert_eq!(&*id, "doc_123");
    assert_eq!(id.to_string(), "doc_123");

    let s: String = id.clone().into();
    assert_eq!(s, "doc_123");

    let from_str: DocumentId = "doc_456".into();
    assert_eq!(from_str.as_ref(), "doc_456");
}

#[test]
fn test_output_formats() {
    assert_eq!(parse_output_format("JSON", false), OutputFormat::Json);
    assert_eq!(parse_output_format("tsv", false), OutputFormat::Tsv);
    assert_eq!(parse_output_format("TsV", false), OutputFormat::Tsv);
    assert_eq!(parse_output_format("tsv", true), OutputFormat::Json);
    assert_eq!(parse_output_format("xml", false), OutputFormat::Text);
    let opts = GlobalOpts::default();
    assert_eq!(opts.path, "./data");
    assert_eq!(opts.effective_format(), OutputFormat::Text);
    let json = GlobalOpts { json: true, ..GlobalOpts::default() };
    assert_eq!(json.effective_format(), OutputFormat::Json);
    assert_eq!(OutputFormat::default(), OutputFormat::Text);
}

#[test]
fn test_safe_truncate_str() {
    assert_eq!(safe_truncate_str("hello", 10), "hello");
    assert_eq!(safe_truncate_str("hello", 3), "hel");
    assert_eq!(safe_truncate_str("héllo", 2), "h");
    assert_eq!(safe_truncate_str("héllo", 3), "hé");
    assert_eq!(safe_truncate_str("日本", 1), "");
}

#[test]
fn test_hash_token_fnv1a() {
    assert_eq!(MockEmbeddingProvider::hash_token(""), 0xcbf29ce484222325);
    assert_eq!(MockEmbeddingProvider::hash_token("a"), 0xaf63dc4c8601ec8c);
    assert_eq!(MockEmbeddingProvider::new(8).dim, 8);
}

#[test]
fn test_metrics_tracker_counts() {
    let mut t = StageLatencyTracker::new();
    assert_eq!(t.min_or_zero(), 0);
    t.record(50);
    t.record(10);
    t.record(70);
    assert_eq!(t.count, 3);
    assert_eq!(t.total_micros, 130);
    assert_eq!(t.min_or_zero(), 10);
    assert_eq!(t.max_micros, 70);

    let mut m = RagMetricsTracker::new();
    m.record_cache_lookup(true);
    m.record_cache_lookup(false);
    m.record_cache_lookup(true);
    m.record_search();
    assert_eq!(m.cache_hits, 2);
    assert_eq!(m.cache_misses, 1);
    assert_eq!(m.total_searches, 1);
}

#[test]
fn test_retrieval_counts() {
    let sample = QueryEvaluationSample {
        query: "q".to_string(),
        retrieved_ids: vec!["d3".to_string(), "d1".to_string(), "d9".to_string(), "d2".to_string()],
        ground_truth_ids: vec!["d1".to_string(), "d2".to_string(), "d1".to_string()],
    };
    let c = RetrievalEvaluator::count_sample(&sample, 3);
    assert_eq!(c.relevant_ranks, vec![1]);
    assert_eq!(c.relevant_total, 2);
    let all = RetrievalEvaluator::count_sample(&sample, 10);
    assert_eq!(all.relevant_ranks, vec![1, 3]);
}

#[test]
fn test_context_config_builders() {
    let c = ContextConfig::new();
    assert_eq!(c.max_chars, 16384);
    assert_eq!(c.format, ContextFormat::Markdown);
    assert_eq!(c.truncation_strategy, TruncationStrategy::TruncateLast);
    assert_eq!(c.header.as_deref(), Some("Relevant Context Passages:"));
    let c = c.max_chars(100).format(ContextFormat::Xml).include_scores(false).include_metadata(false)
        .truncation_strategy(TruncationStrategy::DropOversized).header("H");
    assert_eq!(c.max_chars, 100);
    assert!(!c.include_scores && !c.include_metadata);
    assert_eq!(c.header.as_deref(), Some("H"));
    let c = c.without_header();
    assert!(c.header.is_none());
    assert_eq!(ContextAssembler::format_custom_block("<h>", "txt", &c), "<h>txt\n  </document>");
    let m = ContextConfig::new();
    assert_eq!(ContextAssembler::format_custom_block("# ", "txt", &m), "# txt");
    let t = RagPromptTemplate::new("Be brief.");
    assert_eq!(t.user_query_prefix, "User Query:");
    assert_eq!(t.format_prompt_text("why?", "ctx"), "Be brief.\n\nctx\n\nUser Query: why?");
}

#[test]
fn test_block_cache_eviction() {
    let mut c = LruBlockCache::new(2);
    c.insert((1, 0), vec![1]);
    c.insert((1, 4), vec![2]);
    assert_eq!(c.get(&(1, 0)), Some(vec![1]));
    // Full: emptied before the insertion, even of a key it holds.
    c.insert((1, 4), vec![3]);
    assert_eq!(c.len(), 1);
    assert_eq!(c.get(&(1, 0)), None);
    c.insert((2, 0), vec![4]);
    assert_eq!(c.len(), 2);
    assert_eq!(c.get(&(1, 4)), Some(vec![3]));
    assert_eq!(c.get(&(2, 0)), Some(vec![4]));
}

#[test]
fn test_compactor_new() {
    let c = Compactor::new(7, 1024);
    assert_eq!(c.max_levels, 7);
    assert_eq!(c.base_level_size_bytes, 1024);
    assert_eq!(c.l0_compaction_trigger, 4);
}

#[test]
fn test_split_assignment_and_list() {
    assert_eq!(split_assignment(" views = 100 "), Some(("views".to_string(), "100".to_string())));
    assert_eq!(split_assignment("a=b=c"), Some(("a".to_string(), "b=c".to_string())));
    assert_eq!(split_assignment("=x"), Some((String::new(), "x".to_string())));
    assert_eq!(split_assignment("novalue"), None);
    assert_eq!(split_list("rust, storage ,lsm"), vec!["rust", "storage", "lsm"]);
    assert_eq!(split_list(""), vec![""]);
    assert_eq!(split_list("a,,b,"), vec!["a", "", "b", ""]);
}

fn words(ws: &[&str]) -> Vec<String> {
    ws.iter().map(|w| w.to_string()).collect()
}

fn refusal_text<T>(r: Result<T, FlashStoreError>) -> String {
    match r {
        Err(FlashStoreError::InvalidArgument(m)) => m,
        _ => panic!("expected a refusal"),
    }
}

#[test]
fn test_repl_command_parsing() {
    assert!(matches!(parse_repl_command(&words(&[])), Ok(ReplCommand::Nothing)));
    match parse_repl_command(&words(&["set", "user:100", "Alice"])) {
        Ok(ReplCommand::Put { key, value }) => assert_eq!((key.as_str(), value.as_str()), ("user:100", "Alice")),
        _ => panic!("expected a put"),
    }
    assert_eq!(refusal_text(parse_repl_command(&words(&["PUT", "only_key"]))), "Usage: PUT <key> <value>");
    assert_eq!(refusal_text(parse_repl_command(&words(&["GET"]))), "Usage: GET <key>");
    assert_eq!(refusal_text(parse_repl_command(&words(&["del"]))), "Usage: DEL <key>");
    match parse_repl_command(&words(&["scan", "a", "b", "10"])) {
        Ok(ReplCommand::Scan { start, end, limit }) => {
            assert_eq!((start.as_deref(), end.as_deref(), limit), (Some("a"), Some("b"), Some(10)))
        }
        _ => panic!("expected a scan"),
    }
    match parse_repl_command(&words(&["SCAN", "a", "b", "ten"])) {
        Ok(ReplCommand::Scan { limit, .. }) => assert_eq!(limit, None),
        _ => panic!("expected a scan"),
    }
    assert!(matches!(parse_repl_command(&words(&["flush"])), Ok(ReplCommand::Flush)));
    assert!(matches!(parse_repl_command(&words(&["Compact"])), Ok(ReplCommand::Compact)));
    assert!(matches!(parse_repl_command(&words(&["STATS"])), Ok(ReplCommand::Stats)));
    assert!(matches!(parse_repl_command(&words(&["help"])), Ok(ReplCommand::Help)));
    assert!(matches!(parse_repl_command(&words(&["?"])), Ok(ReplCommand::Help)));
    assert!(matches!(parse_repl_command(&words(&["clear"])), Ok(ReplCommand::Clear)));
    for w in ["EXIT", "bye", "QUIT", "q"] {
        let r = parse_repl_command(&words(&[w]));
        if w == "bye" {
            assert_eq!(refusal_text(r), "Unknown command 'BYE'. Type 'HELP' for commands.");
        } else {
            assert!(matches!(r, Ok(ReplCommand::Exit)));
        }
    }
    assert_eq!(refusal_text(parse_repl_command(&words(&["FOOBAR"]))), "Unknown command 'FOOBAR'. Type 'HELP' for commands.");
    match parse_repl_command(&words(&["rag-query", "hello", "3"])) {
        Ok(ReplCommand::Rag(a)) => assert_eq!(a, words(&["QUERY", "hello", "3"])),
        _ => panic!("expected a retrieval command"),
    }
    match parse_repl_command(&words(&["RAG", "list"])) {
        Ok(ReplCommand::Rag(a)) => assert_eq!(a, words(&["list"])),
        _ => panic!("expected a retrieval command"),
    }
}

#[test]
fn test_rag_command_parsing() {
    match parse_rag_command(&words(&["INGEST", "repl_doc1", "FlashStore", "supports", "search"])) {
        Ok(RagReplCommand::Ingest { id, text }) => {
            assert_eq!((id.as_str(), text.as_str()), ("repl_doc1", "FlashStore supports search"))
        }
        _ => panic!("expected an ingest"),
    }
    match parse_rag_command(&words(&["query", "interactive", "search"])) {
        Ok(RagReplCommand::Query { query, top_k }) => assert_eq!((query.as_str(), top_k), ("interactive search", 5)),
        _ => panic!("expected a query"),
    }
    match parse_rag_command(&words(&["SEARCH", "hybrid", "search", "7"])) {
        Ok(RagReplCommand::Query { query, top_k }) => assert_eq!((query.as_str(), top_k), ("hybrid search", 7)),
        _ => panic!("expected a query"),
    }
    match parse_rag_command(&words(&["PROMPT", "42"])) {
        Ok(RagReplCommand::Prompt { query, top_k }) => assert_eq!((query.as_str(), top_k), ("42", 5)),
        _ => panic!("expected a prompt"),
    }
    match parse_rag_command(&words(&["list", "x"])) {
        Ok(RagReplCommand::List { limit }) => assert_eq!(limit, 20),
        _ => panic!("expected a list"),
    }
    match parse_rag_command(&words(&["LIST", "3"])) {
        Ok(RagReplCommand::List { limit }) => assert_eq!(limit, 3),
        _ => panic!("expected a list"),
    }
    assert!(matches!(parse_rag_command(&words(&["cache", "clear"])), Ok(RagReplCommand::ClearCache)));
    assert!(matches!(parse_rag_command(&words(&["CLEAR-CACHE"])), Ok(RagReplCommand::ClearCache)));
    assert!(matches!(parse_rag_command(&words(&["stats"])), Ok(RagReplCommand::Stats)));
    assert!(matches!(parse_rag_command(&words(&["EVAL"])), Ok(RagReplCommand::Eval)));
    assert_eq!(refusal_text(parse_rag_command(&words(&["CACHE"]))), "Usage: RAG CACHE CLEAR");
    assert_eq!(refusal_text(parse_rag_command(&words(&["INGEST", "id"]))), "Usage: RAG INGEST <id> <text>");
    assert_eq!(
        refusal_text(parse_rag_command(&words(&[]))),
        "Usage: RAG <INGEST|GET|DEL|QUERY|PROMPT|STATS|LIST|CLEAR-CACHE|EVAL> ..."
    );
    assert_eq!(
        refusal_text(parse_rag_command(&words(&["foo"]))),
        "Unknown RAG command 'FOO'. Available: INGEST, GET, DEL, QUERY, PROMPT, STATS, LIST, CACHE CLEAR, EVAL"
    );
}

#[test]
fn test_eval_query_takes_three_words() {
    assert_eq!(eval_query("The  write-ahead\tlog keeps data"), "The write-ahead log");
    assert_eq!(eval_query("  one two  "), "  one two  ");
    assert_eq!(eval_query(""), "");
    assert_eq!(eval_query("a b c"), "a b c");
}

#[test]
fn test_metrics_tracker_latency_and_cache() {
    let mut tracker = RagMetricsTracker::new();
    tracker.record_cache_lookup(true);
    tracker.record_cache_lookup(false);
    tracker.record_cache_lookup(true);
    tracker.search_latency.record(100);
    tracker.search_latency.record(200);
    assert_eq!(tracker.cache_hits, 2);
    assert_eq!(tracker.cache_misses, 1);
    let hit_rate = tracker.cache_hits as f64 / (tracker.cache_hits + tracker.cache_misses) as f64;
    assert!((hit_rate - (2.0 / 3.0)).abs() < 1e-4);
    assert_eq!(tracker.search_latency.count, 2);
    assert_eq!(tracker.search_latency.min_or_zero(), 100);
    assert_eq!(tracker.search_latency.max_micros, 200);
    assert_eq!(tracker.search_latency.total_micros as f64 / tracker.search_latency.count as f64, 150.0);
}

#[test]
fn test_tokenize_line_unclosed_quote_message() {
    match tokenize_line("PUT 'open") {
        Err(FlashStoreError::InvalidArgument(m)) => assert_eq!(m, "Unclosed quote in input line"),
        other => panic!("unexpected {:?}", other),
    }
    assert!(tokenize_line("a  '' b").unwrap().iter().all(|w| !w.is_empty()));
}
