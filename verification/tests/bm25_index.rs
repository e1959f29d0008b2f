use lean_ctx::bm25_index::{
    format_search_results, BM25Index, IndexedFileState, ScoreTerm, SearchResult,
};
use lean_ctx::bm25_scan::{
    bm25_index_looks_stale, is_code_file, list_code_files, paths_to_check, ScannedFile, WalkEntry,
    MAX_BM25_FILES,
};
use lean_ctx::bm25_storage::{
    max_bm25_cache_bytes, max_bm25_cache_mb, migrated, replacement, save_packed, unpack, FileProbe, IndexFile,
    IndexPlan, LoadPlan, SavePlan,
};
use lean_ctx::chunks::{
    detect_symbol, enrich_for_bm25, extract_chunks, find_block_end, ChunkKind, CodeChunk,
    ContentCut,
};
use lean_ctx::string_table::StringTable;
use lean_ctx::tokens::{split_camel_case_tokens, tokenize, tokenize_for_index};

// --- scoring, as a caller does it ---

const BM25_K1: f64 = 1.2;
const BM25_B: f64 = 0.75;

fn scores(index: &BM25Index, query: &str) -> Vec<u64> {
    let mut sums = vec![0.0f64; index.chunks.len()];
    let avg = index.total_len as f64 / index.doc_count.max(1) as f64;
    for t in index.score_terms(query) {
        let df = t.doc_freq as f64;
        let idf = ((index.doc_count as f64 - df + 0.5) / (df + 0.5) + 1.0).ln();
        let norm = t.doc_len as f64 / avg.max(1.0);
        sums[t.chunk_idx] +=
            idf * (BM25_K1 + 1.0) / (1.0 + BM25_K1 * (1.0 - BM25_B + BM25_B * norm));
    }
    sums.iter()
        .map(|s| if *s > 0.0 { s.to_bits() } else { 0 })
        .collect()
}

fn search(index: &BM25Index, query: &str, top_k: usize) -> Vec<SearchResult> {
    index.search(query, top_k, &scores(index, query))
}

fn chunk(path: &str, name: &str, content: &str, start: usize, end: usize) -> CodeChunk {
    CodeChunk {
        file_path: path.into(),
        symbol_name: name.into(),
        kind: ChunkKind::Function,
        start_line: start,
        end_line: end,
        content: content.into(),
        tokens: Vec::new(),
        token_count: 0,
    }
}

fn state(mtime_ms: u64, size_bytes: u64) -> IndexedFileState {
    IndexedFileState {
        mtime_ms,
        size_bytes,
    }
}

fn scanned(rel: &str, state: IndexedFileState, content: Option<&str>) -> ScannedFile {
    ScannedFile {
        rel: rel.into(),
        under_pressure: false,
        abort_requested: false,
        state: Some(state),
        content: content.map(|c| c.to_string()),
        cuts: Vec::new(),
    }
}

// --- tokens ---

#[test]
fn tokenize_splits_code() {
    let tokens = tokenize("fn calculate_total(items: Vec<Item>) -> f64");
    assert!(tokens.contains(&"calculate_total".to_string()));
    assert!(tokens.contains(&"items".to_string()));
    assert!(tokens.contains(&"Vec".to_string()));
}

#[test]
fn camel_case_splitting() {
    let tokens = split_camel_case_tokens(&["calculateTotal".to_string()]);
    assert!(tokens.contains(&"calculateTotal".to_string()));
    assert!(tokens.contains(&"calculate".to_string()));
    assert!(tokens.contains(&"Total".to_string()));
}

#[test]
fn tokens_take_two_bytes() {
    assert_eq!(
        tokenize("a bc ä _x HTTPServer"),
        vec!["bc", "ä", "_x", "HTTPServer", "HTTP", "Server"]
    );
    assert_eq!(tokenize_for_index("a b"), Vec::<String>::new());
    assert_eq!(
        split_camel_case_tokens(&["x".to_string(), "getX".to_string()]),
        vec!["x", "getX", "get"]
    );
}

// --- chunks ---

#[test]
fn detect_rust_function() {
    let (name, kind) = detect_symbol("pub fn process_request(req: Request) -> Response {").unwrap();
    assert_eq!(name, "process_request");
    assert_eq!(kind, ChunkKind::Function);
}

#[test]
fn detect_other_definitions() {
    let of = |line: &str| detect_symbol(line);
    assert_eq!(of("  class Foo:"), Some(("Foo".to_string(), ChunkKind::Class)));
    assert_eq!(of("impl Bar for X {"), Some(("Bar".to_string(), ChunkKind::Impl)));
    assert_eq!(of("struct Pair<A, B> {"), Some(("Pair".to_string(), ChunkKind::Struct)));
    assert_eq!(of("impl<T> Bar<T> {"), None);
    assert_eq!(of("fn (x)"), None);
    assert_eq!(of("let x = 1;"), None);
    assert_eq!(
        of("export async function go() {"),
        Some(("go".to_string(), ChunkKind::Function))
    );
}

#[test]
fn blocks_end_where_their_brackets_close() {
    assert_eq!(find_block_end(&["fn a() {", "  x();", "}", "fn b"], 0), 0);
    assert_eq!(find_block_end(&["struct A {", "  x: (u8),", "}", "z"], 0), 2);
    assert_eq!(find_block_end(&["def a:", "  x", "  y", "  z", "  w"], 0), 2);
    assert_eq!(find_block_end(&["class {", "a", "b"], 0), 2);
    assert_eq!(find_block_end(&[], 0), 0);
    let open: Vec<&str> = std::iter::once("mod {").chain(std::iter::repeat("x").take(80)).collect();
    assert_eq!(find_block_end(&open, 0), 50);
    assert_eq!(find_block_end(&open, usize::MAX), 80);
}

#[test]
fn definitions_become_chunks() {
    let chunks = extract_chunks("a.rs", "struct A {\n  x: u8,\n}\n\nfn f() {}\n", &[]);
    assert_eq!(chunks.len(), 2);
    assert_eq!(chunks[0].symbol_name, "A");
    assert_eq!((chunks[0].start_line, chunks[0].end_line), (1, 3));
    assert_eq!(chunks[0].content, "struct A {\n  x: u8,\n}");
    assert_eq!(chunks[1].symbol_name, "f");
    assert_eq!((chunks[1].start_line, chunks[1].end_line), (5, 5));
    assert_eq!(chunks[1].token_count, 1);
    assert!(extract_chunks("a.rs", "", &[]).is_empty());
}

#[test]
fn text_without_definitions_is_one_chunk() {
    let text: String = (0..60).map(|i| format!("line {i}\n")).collect();
    let chunks = extract_chunks("notes.md", &text, &[]);
    assert_eq!(chunks.len(), 1);
    assert_eq!(chunks[0].symbol_name, "notes.md");
    assert_eq!(chunks[0].kind, ChunkKind::Module);
    assert_eq!((chunks[0].start_line, chunks[0].end_line), (1, 60));
    assert!(chunks[0].content.ends_with("line 49"));
    assert_eq!(chunks[0].token_count, 110);
}

#[test]
fn text_without_definitions_is_cut_into_its_pieces() {
    let text = "one two\nthree\nfour";
    let cuts = vec![
        ContentCut { offset: 0, length: 8 },
        ContentCut { offset: 8, length: 100 },
    ];
    let chunks = extract_chunks("n.md", text, &cuts);
    assert_eq!(chunks.len(), 2);
    assert_eq!(chunks[0].symbol_name, "n.md#chunk-0");
    assert_eq!(chunks[0].content, "one two\n");
    assert_eq!((chunks[0].start_line, chunks[0].end_line), (1, 2));
    assert_eq!(chunks[0].token_count, 2);
    assert_eq!(chunks[1].symbol_name, "n.md#chunk-1");
    assert_eq!(chunks[1].content, "three\nfour");
    assert_eq!((chunks[1].start_line, chunks[1].end_line), (2, 3));
    let many: Vec<ContentCut> = (0..60).map(|_| ContentCut { offset: 0, length: 1 }).collect();
    assert_eq!(extract_chunks("n.md", text, &many).len(), 50);
    let too_many: Vec<ContentCut> = (0..201).map(|_| ContentCut { offset: 0, length: 1 }).collect();
    assert_eq!(extract_chunks("n.md", text, &too_many).len(), 1);
    let broken = extract_chunks("n.md", "é", &[ContentCut { offset: 1, length: 1 }]);
    assert_eq!(broken[0].content, "\u{fffd}");
}

#[test]
fn paths_enrich_what_is_indexed() {
    assert_eq!(
        enrich_for_bm25(&chunk("src/auth/handler.rs", "x", "body", 1, 1)),
        "body handler handler auth"
    );
    assert_eq!(enrich_for_bm25(&chunk("main.rs", "x", "body", 1, 1)), "body main main ");
    assert_eq!(enrich_for_bm25(&chunk("", "x", "body", 1, 1)), "body");
}

// --- the index ---

#[test]
fn bm25_search_finds_relevant() {
    let mut index = BM25Index::new();
    index.add_chunk(CodeChunk {
        file_path: "auth.rs".into(),
        symbol_name: "validate_token".into(),
        kind: ChunkKind::Function,
        start_line: 1,
        end_line: 10,
        content: "fn validate_token(token: &str) -> bool { check_jwt_expiry(token) }".into(),
        tokens: tokenize("fn validate_token token str bool check_jwt_expiry token"),
        token_count: 8,
    });
    index.add_chunk(CodeChunk {
        file_path: "db.rs".into(),
        symbol_name: "connect_database".into(),
        kind: ChunkKind::Function,
        start_line: 1,
        end_line: 5,
        content: "fn connect_database(url: &str) -> Pool { create_pool(url) }".into(),
        tokens: tokenize("fn connect_database url str Pool create_pool url"),
        token_count: 7,
    });
    index.finalize();

    let results = search(&index, "jwt token validation", 5);
    assert!(!results.is_empty());
    assert_eq!(results[0].symbol_name, "validate_token");
}

#[test]
fn bm25_search_sorts_ties_deterministically() {
    let mut index = BM25Index::new();

    // Insert in reverse path order to ensure the sort tie-break matters.
    index.add_chunk(CodeChunk {
        file_path: "b.rs".into(),
        symbol_name: "same".into(),
        kind: ChunkKind::Function,
        start_line: 1,
        end_line: 1,
        content: "fn same() {}".into(),
        tokens: tokenize("same token"),
        token_count: 2,
    });
    index.add_chunk(CodeChunk {
        file_path: "a.rs".into(),
        symbol_name: "same".into(),
        kind: ChunkKind::Function,
        start_line: 1,
        end_line: 1,
        content: "fn same() {}".into(),
        tokens: tokenize("same token"),
        token_count: 2,
    });
    index.finalize();

    let results = search(&index, "same", 10);
    assert!(results.len() >= 2);
    assert_eq!(results[0].file_path, "a.rs");
    assert_eq!(results[1].file_path, "b.rs");
}

#[test]
fn terms_are_counted() {
    let index = BM25Index::from_chunks_for_test(vec![
        chunk("x.rs", "f", "Foo foo bar", 1, 1),
        chunk("y.rs", "g", "foo", 1, 1),
    ]);
    assert_eq!(index.inverted.get("foo"), Some(&vec![0, 0, 1]));
    assert_eq!(index.doc_freqs.get("foo"), Some(&2));
    assert_eq!(index.doc_freqs.get("bar"), Some(&1));
    assert_eq!(index.doc_freqs.get("Foo"), None);
    assert_eq!(index.doc_count, 2);
    assert_eq!(index.chunks[0].token_count, 3);
    assert_eq!(index.total_len, 4);
    assert_eq!(
        index.score_terms("FOO nothing"),
        vec![
            ScoreTerm { chunk_idx: 0, doc_freq: 2, doc_len: 3 },
            ScoreTerm { chunk_idx: 0, doc_freq: 2, doc_len: 3 },
            ScoreTerm { chunk_idx: 1, doc_freq: 2, doc_len: 1 },
        ]
    );
}

#[test]
fn search_is_cut_off_and_ordered() {
    let index = BM25Index::from_chunks_for_test(vec![
        chunk("b.rs", "f", "foo", 1, 1),
        chunk("a.rs", "g", "foo", 5, 6),
        chunk("a.rs", "g", "foo", 2, 3),
        chunk("a.rs", "e", "foo", 9, 9),
        chunk("c.rs", "e", "bar\n2\n3\n4\n5\n6", 9, 9),
    ]);
    let found = index.search("foo bar", 3, &[4, 7, 7, 7, 0]);
    let at: Vec<usize> = found.iter().map(|r| r.chunk_idx).collect();
    assert_eq!(at, vec![3, 2, 1]);
    assert_eq!(index.search("foo", 0, &[4, 7, 7, 7, 0]).len(), 0);
    assert_eq!(index.search("foo", 9, &[0, 0, 0, 0, 0]).len(), 0);
    assert_eq!(index.search("a", 9, &[1, 1, 1, 1, 1]).len(), 0);
    let bar = index.search("bar", 9, &[1, 1, 1, 1, 1]);
    assert_eq!(bar.len(), 1);
    assert_eq!(bar[0].snippet, "bar\n2\n3\n4\n5");
    let unfinished = {
        let mut i = BM25Index::new();
        i.add_chunk(chunk("a.rs", "f", "foo", 1, 1));
        i
    };
    assert_eq!(unfinished.search("foo", 9, &[1]).len(), 0);
}

#[test]
fn memory_is_estimated_and_freed() {
    let mut index = BM25Index::from_chunks_for_test(vec![chunk("é.rs", "fn1", "ab", 1, 1)]);
    // chunk: 2 + 5 + 3 + 64; postings: "ab" and "é", one and two of them; counts.
    assert_eq!(
        index.memory_usage_bytes(),
        74 + (2 + 16 + 32) + (2 + 32 + 32) + (2 + 16) + (2 + 16)
    );
    index.files.insert("é.rs".to_string(), state(1, 2));
    assert_eq!(index.memory_usage_bytes(), 226 + 5 + 24);
    index.unload();
    assert_eq!(index.memory_usage_bytes(), 0);
    assert_eq!(index.chunks.len(), 0);
    assert_eq!(index.doc_count, 0);
    assert_eq!(BM25Index::default().chunks.len(), 0);
}

#[test]
fn results_are_printed() {
    let index = BM25Index::from_chunks_for_test(vec![chunk("a.rs", "f", "foo x", 3, 4)]);
    let found = index.search("foo", 5, &[1]);
    let shown = vec!["1.50".to_string()];
    assert_eq!(
        format_search_results(&found, &shown, true),
        "1. 1.50 a.rs:3-4 Function f\n"
    );
    assert_eq!(
        format_search_results(&found, &shown, false),
        "\n--- Result 1 (score: 1.50) ---\na.rs :: f [Function] (L3-4)\nfoo x\n"
    );
    assert_eq!(format_search_results(&[], &[], true), "No results found.");
}

// --- scanning ---

#[test]
fn code_files_by_extension() {
    assert!(is_code_file("src/Main.RS"));
    assert!(is_code_file("x.svelte"));
    assert!(!is_code_file("README.md"));
    assert!(!is_code_file("rs"));
}

fn walk(paths: &[&str]) -> Vec<WalkEntry> {
    paths
        .iter()
        .map(|p| WalkEntry {
            rel: p.to_string(),
            is_file: true,
        })
        .collect()
}

#[test]
fn list_code_files_skips_default_vendor_ignores() {
    let files = list_code_files(&walk(&["main.rs", "vendor/lib/dep.rs", "dist/bundle.js"]), &[]);
    assert!(
        files.iter().any(|f| f == "main.rs"),
        "main.rs should be included"
    );
    assert!(
        !files.iter().any(|f| f.starts_with("vendor/")),
        "vendor/ files should be excluded"
    );
    assert!(
        !files.iter().any(|f| f.starts_with("dist/")),
        "dist/ files should be excluded"
    );
}

#[test]
fn list_code_files_respects_max_files_cap() {
    let names: Vec<String> = (0..10).map(|i| format!("f{i}.rs")).collect();
    let names: Vec<&str> = names.iter().map(|s| s.as_str()).collect();
    let files = list_code_files(&walk(&names), &[]);
    assert!(
        files.len() <= MAX_BM25_FILES,
        "file count should not exceed MAX_BM25_FILES"
    );
    assert_eq!(files.len(), 10);
}

#[test]
fn listed_files_are_sorted_and_distinct() {
    let mut entries = walk(&["b.rs", "a.rs", "b.rs", "a.min.js", "gen/x.rs", "", "A.rs"]);
    entries.push(WalkEntry {
        rel: "dir.rs".to_string(),
        is_file: false,
    });
    assert_eq!(
        list_code_files(&entries, &["gen/**".to_string(), "[".to_string()]),
        vec!["A.rs", "a.rs", "b.rs"]
    );
}

#[test]
fn file_states_need_size_and_time() {
    assert_eq!(IndexedFileState::from_path(Some(3), Some(7)), Some(state(7, 3)));
    assert_eq!(
        IndexedFileState::from_path(Some(3), Some((1u128 << 64) + 5)),
        Some(state(5, 3))
    );
    assert_eq!(IndexedFileState::from_path(None, Some(7)), None);
    assert_eq!(IndexedFileState::from_path(Some(3), None), None);
}

#[test]
fn directories_are_indexed() {
    let files = vec![
        scanned("a.rs", state(1, 10), Some("pub fn a() {}\n")),
        scanned("big.rs", state(1, 2 * 1024 * 1024 + 1), Some("fn big() {}")),
        scanned("gone.rs", state(1, 10), None),
    ];
    let index = BM25Index::build_from_directory(true, &files);
    assert_eq!(index.doc_count, 1);
    assert_eq!(index.chunks[0].symbol_name, "a");
    assert_eq!(index.files.len(), 1);
    assert_eq!(index.files.get("a.rs"), Some(&state(1, 10)));
    assert_eq!(BM25Index::build_from_directory(false, &files).doc_count, 0);
}

#[test]
fn scans_stop_under_pressure() {
    let make = || {
        vec![
            scanned("a.rs", state(1, 1), Some("fn a() {}")),
            scanned("b.rs", state(1, 1), Some("fn b() {}")),
        ]
    };
    let mut files = make();
    files[1].under_pressure = true;
    assert_eq!(BM25Index::build_from_directory(true, &files).doc_count, 2);
    files[0].under_pressure = true;
    assert_eq!(BM25Index::build_from_directory(true, &files).doc_count, 0);
    let mut files = make();
    files[1].abort_requested = true;
    assert_eq!(BM25Index::build_from_directory(true, &files).doc_count, 1);
    assert_eq!(
        BM25Index::rebuild_incremental(&files, &BM25Index::new()).doc_count,
        2
    );
}

#[test]
fn bm25_incremental_rebuild_reuses_unchanged_files_without_reading() {
    let idx1 = BM25Index::build_from_directory(
        true,
        &[
            scanned("a.rs", state(1, 31), Some("pub fn a() { println!(\"A\"); }\n")),
            scanned("b.rs", state(1, 31), Some("pub fn b() { println!(\"B\"); }\n")),
        ],
    );
    assert!(idx1.files.contains_key("a.rs"));
    assert!(idx1.files.contains_key("b.rs"));

    // a.rs is unchanged and cannot be read; b.rs has another size.
    let groups = idx1.chunks_by_file();
    assert!(idx1.reusable(&groups, "a.rs", state(1, 31)).is_some());
    assert!(idx1.reusable(&groups, "b.rs", state(1, 32)).is_none());
    let idx2 = BM25Index::rebuild_incremental(
        &[
            scanned("a.rs", state(1, 31), None),
            scanned("b.rs", state(1, 32), Some("pub fn b() { println!(\"B2\"); }\n")),
        ],
        &idx1,
    );
    assert!(
        idx2.files.contains_key("a.rs"),
        "a.rs should be kept via reuse"
    );
    assert!(idx2.files.contains_key("b.rs"));

    let b_has_b2 = idx2
        .chunks
        .iter()
        .any(|c| c.file_path == "b.rs" && c.content.contains("B2"));
    assert!(b_has_b2, "b.rs should be re-read and re-chunked");
}

fn disk(files: &[(&str, Option<IndexedFileState>)]) -> StringTable<Option<IndexedFileState>> {
    let mut t = StringTable::new();
    for (path, state) in files {
        t.insert(path.to_string(), *state);
    }
    t
}

#[test]
fn bm25_index_is_stale_when_any_indexed_file_is_missing() {
    let idx = BM25Index::build_from_directory(
        true,
        &[scanned("a.rs", state(1, 14), Some("pub fn a() {}\n"))],
    );
    assert_eq!(paths_to_check(&idx), vec!["a.rs"]);
    let listed = vec!["a.rs".to_string()];
    let there = disk(&[("a.rs", Some(state(1, 14)))]);
    assert!(!bm25_index_looks_stale(&idx, &there, &listed));

    assert!(bm25_index_looks_stale(&idx, &disk(&[]), &[]));
}

#[test]
fn changed_and_new_files_make_an_index_stale() {
    let idx = BM25Index::build_from_directory(
        true,
        &[scanned("a.rs", state(1, 14), Some("pub fn a() {}\n"))],
    );
    let listed = vec!["a.rs".to_string()];
    assert!(bm25_index_looks_stale(&idx, &disk(&[("a.rs", Some(state(2, 14)))]), &listed));
    assert!(bm25_index_looks_stale(&idx, &disk(&[("a.rs", None)]), &listed));
    let more = vec!["a.rs".to_string(), "b.rs".to_string()];
    assert!(bm25_index_looks_stale(&idx, &disk(&[("a.rs", Some(state(1, 14)))]), &more));
    assert!(!bm25_index_looks_stale(&BM25Index::new(), &disk(&[]), &more));
}

#[test]
fn an_index_without_file_states_is_stale_by_missing_files() {
    let idx = BM25Index::from_chunks_for_test(vec![
        chunk("/a.rs", "a", "x", 1, 1),
        chunk("//", "b", "x", 1, 1),
    ]);
    assert_eq!(paths_to_check(&idx), vec!["a.rs", ""]);
    assert!(!bm25_index_looks_stale(&idx, &disk(&[("a.rs", None)]), &["new.rs".to_string()]));
    assert!(bm25_index_looks_stale(&idx, &disk(&[]), &[]));
}

// --- storage ---

#[test]
fn max_bm25_cache_bytes_reads_env() {
    let bytes = max_bm25_cache_bytes(Some("64"), 512, 512, 512);
    assert_eq!(bytes, 64 * 1024 * 1024);
}

#[test]
fn cache_limit_without_env() {
    assert_eq!(max_bm25_cache_mb(None, 128, 512, 512), 128);
    assert_eq!(max_bm25_cache_mb(None, 128, 256, 512), 256);
    assert_eq!(max_bm25_cache_mb(Some("many"), 128, 512, 512), 128);
    assert_eq!(max_bm25_cache_mb(Some("+7"), 128, 512, 512), 7);
}

fn absent() -> FileProbe {
    FileProbe {
        exists: false,
        size: None,
    }
}

fn present(size: u64) -> FileProbe {
    FileProbe {
        exists: true,
        size: Some(size),
    }
}

#[test]
fn load_quarantines_oversized_index() {
    let plan = BM25Index::load(absent(), absent(), present(13), 0);
    assert_eq!(plan, LoadPlan::Quarantine(IndexFile::Json));
    assert_eq!(IndexFile::Json.file_name(), "bm25_index.json");
    assert_eq!(IndexFile::Json.quarantine_name(), "bm25_index.json.quarantined");
    assert_eq!(
        IndexFile::Compressed.quarantine_name(),
        "bm25_index.bin.zst.quarantined"
    );
    assert_eq!(
        BM25Index::load(absent(), present(5), present(1), 4),
        LoadPlan::Quarantine(IndexFile::Plain)
    );
}

#[test]
fn load_takes_the_first_form_that_exists() {
    assert_eq!(
        BM25Index::load(present(4), present(4), present(4), 4),
        LoadPlan::Read(IndexFile::Compressed)
    );
    assert_eq!(
        BM25Index::load(absent(), present(4), present(4), 4),
        LoadPlan::Read(IndexFile::Plain)
    );
    assert_eq!(
        BM25Index::load(absent(), absent(), present(4), 4),
        LoadPlan::Read(IndexFile::Json)
    );
    assert_eq!(BM25Index::load(absent(), absent(), absent(), 4), LoadPlan::Nothing);
    let unknown = FileProbe {
        exists: true,
        size: None,
    };
    assert_eq!(BM25Index::load(unknown, present(1), absent(), 4), LoadPlan::Nothing);
}

#[test]
fn save_refuses_oversized_output() {
    assert!(matches!(BM25Index::save(b"fn a() {}", 0), Ok(SavePlan::Refuse)));
    assert!(matches!(save_packed(vec![1, 2], 1), Ok(SavePlan::Refuse)));
    assert!(matches!(save_packed(vec![1, 2], 2), Ok(SavePlan::Write(b)) if b == vec![1, 2]));
}

#[test]
fn save_load_roundtrip_uses_zstd() {
    let data: Vec<u8> = (0..10_000u32).map(|i| (i % 7) as u8).collect();
    match BM25Index::save(&data, 1 << 20) {
        Ok(SavePlan::Write(bytes)) => {
            assert!(bytes.len() < data.len());
            assert_ne!(bytes, data);
            let plan = BM25Index::load(present(bytes.len() as u64), absent(), absent(), 1 << 20);
            assert_eq!(plan, LoadPlan::Read(IndexFile::Compressed));
            assert_eq!(unpack(IndexFile::Compressed, bytes), Some(data));
        }
        _ => panic!("expected the packed index"),
    }
    assert_eq!(unpack(IndexFile::Compressed, vec![1, 2, 3]), None);
}

#[test]
fn auto_migrate_bin_to_zst() {
    let data = b"an index".to_vec();
    assert_eq!(unpack(IndexFile::Plain, data.clone()), Some(data.clone()));
    let packed = migrated(&data).expect("packed");
    assert_eq!(unpack(IndexFile::Compressed, packed), Some(data));
    assert_eq!(IndexFile::temporary_name(), "bm25_index.bin.zst.tmp");
    assert_eq!(replacement(Ok(vec![1, 2])), Some(vec![1, 2]));
    assert_eq!(replacement(Err("no memory".to_string())), None);
}

#[test]
fn index_file_is_the_first_that_exists() {
    assert_eq!(BM25Index::index_file_path(true, true), IndexFile::Compressed);
    assert_eq!(BM25Index::index_file_path(false, true), IndexFile::Plain);
    assert_eq!(BM25Index::index_file_path(false, false), IndexFile::Json);
}

#[test]
fn stale_indexes_are_rebuilt() {
    let with_states = BM25Index::build_from_directory(
        true,
        &[scanned("a.rs", state(1, 14), Some("pub fn a() {}\n"))],
    );
    let legacy = BM25Index::from_chunks_for_test(vec![chunk("a.rs", "a", "x", 1, 1)]);
    assert_eq!(BM25Index::load_or_build(false, Some(&with_states), true), IndexPlan::Empty);
    assert_eq!(BM25Index::load_or_build(true, None, false), IndexPlan::Build);
    assert_eq!(BM25Index::load_or_build(true, Some(&with_states), false), IndexPlan::Keep);
    assert_eq!(BM25Index::load_or_build(true, Some(&with_states), true), IndexPlan::Rebuild);
    assert_eq!(BM25Index::load_or_build(true, Some(&legacy), true), IndexPlan::Build);
}

#[test]
fn rebuild_of_unchanged_files_gives_the_same_index() {
    let files = vec![
        scanned("a.rs", state(1, 10), Some("pub fn a() {}\nstruct B {\n x: u8\n}\n")),
        scanned("notes.sql", state(1, 10), Some("select 1\n")),
        scanned("gone.rs", state(1, 10), None),
    ];
    let built = BM25Index::build_from_directory(true, &files);
    let rebuilt = BM25Index::rebuild_incremental(&files, &built);
    assert_eq!(rebuilt.chunks.len(), built.chunks.len());
    for (a, b) in rebuilt.chunks.iter().zip(&built.chunks) {
        assert_eq!(a.file_path, b.file_path);
        assert_eq!(a.symbol_name, b.symbol_name);
        assert_eq!(a.content, b.content);
        assert_eq!(a.token_count, b.token_count);
    }
    assert_eq!(rebuilt.files.len(), built.files.len());
    assert_eq!(rebuilt.total_len, built.total_len);
    assert_eq!(rebuilt.doc_freqs.get("notes"), built.doc_freqs.get("notes"));
}
