use lean_ctx::ctx_search::{
    finished_report, handle, is_binary_ext, is_generated_file, monorepo_scope_hint, report_body,
    EntryType, FoundEntry, SearchReport, SearchRun, ShownLine, SymbolReport, MAX_FILE_SIZE,
};

fn file(path: &str) -> FoundEntry {
    FoundEntry {
        path: path.to_string(),
        entry_type: EntryType::File,
        secret_like: false,
        size: Some(6),
    }
}

fn no_symbols() -> SymbolReport {
    SymbolReport {
        symbols: 0,
        compressed: String::new(),
        table: String::new(),
        original_tokens: 0,
        compressed_tokens: 0,
        table_tokens: 0,
    }
}

/// Runs a search over files with the given texts, as a caller does it.
fn run_over(mut run: SearchRun, entries: &[FoundEntry], texts: &[(&str, Option<&str>)]) -> String {
    for path in run.select(entries) {
        if !run.wants_more() {
            break;
        }
        let content = texts.iter().find(|t| t.0 == path).and_then(|t| t.1);
        match content {
            None => run.skip_unreadable(),
            Some(content) => {
                let shown: Vec<ShownLine> = run
                    .matching_lines(content)
                    .into_iter()
                    .map(|m| ShownLine {
                        line: m.line,
                        text: m.text,
                        redacted: None,
                        tokens: 1,
                    })
                    .collect();
                run.record(&path, &shown);
            }
        }
    }
    match run.report() {
        SearchReport::Empty(m) => m,
        SearchReport::Matches(m) => {
            let hint = monorepo_scope_hint(run.matches(), "");
            finished_report(report_body(m, &no_symbols(), hint), "[saved]")
        }
    }
}

#[test]
fn search_results_are_deterministically_ordered_by_path() {
    let run = handle("match", "d", Some("txt"), 10, true, true).ok().expect("run");
    let out = run_over(
        run,
        &[file("d/b.txt"), file("d/a.txt")],
        &[("d/a.txt", Some("match\n")), ("d/b.txt", Some("match\n"))],
    );

    let mut match_lines: Vec<&str> = out
        .lines()
        .filter(|l| l.contains(".txt:") && l.contains("match"))
        .collect();
    // Expect exactly the 2 match lines, ordered a.txt then b.txt.
    match_lines.truncate(2);
    assert_eq!(match_lines.len(), 2);
    assert!(
        match_lines[0].contains("a.txt:"),
        "first match should come from a.txt, got: {}",
        match_lines[0]
    );
    assert!(
        match_lines[1].contains("b.txt:"),
        "second match should come from b.txt, got: {}",
        match_lines[1]
    );
    assert_eq!(
        out,
        "2 matches in 2 files [d/a.txt, d/b.txt]:\nd/a.txt:1 match\nd/b.txt:1 match\n[saved]"
    );
}

#[test]
fn secret_like_files_are_skipped_by_default() {
    let mut secret = file("d/key.pem");
    secret.secret_like = true;
    let entries = [secret, file("d/ok.txt")];
    let texts = [("d/key.pem", Some("match\n")), ("d/ok.txt", Some("match\n"))];
    let run = handle("match", "d", None, 10, false, true).ok().expect("run");
    let out = run_over(run, &entries, &texts);

    assert!(out.contains("ok.txt:"), "expected ok.txt match, got: {out}");
    assert!(
        !out.contains("key.pem:"),
        "secret-like file should be skipped, got: {out}"
    );
    assert!(
        out.contains("secret-like files skipped"),
        "expected boundary skip note, got: {out}"
    );
    let allowed = handle("match", "d", None, 10, true, true).ok().expect("run");
    assert!(run_over(allowed, &entries, &texts).contains("key.pem:"));
}

#[test]
fn searches_that_do_not_start() {
    let long = "a".repeat(1025);
    assert_eq!(
        handle(&long, "d", None, 1, true, true).err(),
        Some("ERROR: pattern too long (1025 > 1024 chars)".to_string())
    );
    assert!(handle(&"a".repeat(1024), "d", None, 1, true, true).is_ok());
    let m = handle("(", "d", None, 1, true, true).err().expect("error");
    assert!(m.starts_with("ERROR: invalid regex: "));
    assert!(m.len() > "ERROR: invalid regex: ".len());
    assert_eq!(
        handle("a", "d", None, 1, true, false).err(),
        Some("ERROR: d does not exist".to_string())
    );
    assert!(handle("(a{1000}){1000}", "d", None, 1, true, true).is_err());
}

#[test]
fn entries_are_selected() {
    let with = |path: &str, entry_type: EntryType, size: Option<u64>| FoundEntry {
        path: path.to_string(),
        entry_type,
        secret_like: false,
        size,
    };
    let entries = [
        with("z.rs", EntryType::File, None),
        with("dir", EntryType::Directory, None),
        with("link.rs", EntryType::Symlink, Some(1)),
        with("odd.rs", EntryType::Unknown, Some(1)),
        with("pic.png", EntryType::File, Some(1)),
        with("x.d.ts", EntryType::File, Some(1)),
        with("big.rs", EntryType::File, Some(MAX_FILE_SIZE + 1)),
        with("fits.rs", EntryType::File, Some(MAX_FILE_SIZE)),
        with("other.py", EntryType::File, Some(1)),
    ];
    let mut run = handle("a", "d", Some("rs"), 1, true, true).ok().expect("run");
    assert_eq!(run.select(&entries), vec!["fits.rs", "z.rs"]);
    match run.report() {
        SearchReport::Empty(m) => {
            assert_eq!(m, "0 matches for 'a' in 0 files (1 large files skipped)")
        }
        _ => panic!("expected no match"),
    }
}

#[test]
fn matches_stop_at_the_limit() {
    let run = handle("x", "d", None, 2, true, true).ok().expect("run");
    let texts = [("a.rs", Some("x\ny\n  x  \nx")), ("b.rs", Some("x"))];
    assert_eq!(
        run_over(run, &[file("a.rs"), file("b.rs")], &texts),
        "2 matches in 1 files:\na.rs:1 x\na.rs:3 x\n[saved]"
    );
    let none = handle("x", "d", None, 0, true, true).ok().expect("run");
    assert_eq!(
        run_over(none, &[file("a.rs")], &texts),
        "0 matches for 'x' in 0 files"
    );
}

#[test]
fn unreadable_files_are_counted() {
    let run = handle("q", "d", None, 2, true, true).ok().expect("run");
    assert_eq!(
        run_over(run, &[file("a.rs"), file("b.rs")], &[("b.rs", Some("x"))]),
        "0 matches for 'q' in 1 files (1 files skipped: binary/encoding)"
    );
    let run = handle("x", "d", None, 2, true, true).ok().expect("run");
    assert_eq!(
        run_over(run, &[file("a.rs"), file("b.rs")], &[("b.rs", Some("x"))]),
        "1 matches in 1 files:\nb.rs:1 x\n(1 files skipped: binary/encoding)\n[saved]"
    );
}

#[test]
fn regular_expressions_match_lines() {
    let run = handle("^f[ou]+$", "d", None, 9, true, true).ok().expect("run");
    let found = run.matching_lines("foo\r\nxfoo\nfuu\n");
    let at: Vec<(usize, &str)> = found.iter().map(|m| (m.line, m.text.as_str())).collect();
    assert_eq!(at, vec![(1, "foo"), (3, "fuu")]);
}

#[test]
fn costs_add_up() {
    let mut run = handle("x", "d", None, 9, true, true).ok().expect("run");
    assert_eq!(run.native_cost(), 0);
    run.record(
        "p",
        &[
            ShownLine {
                line: 1,
                text: "a".to_string(),
                redacted: Some("***".to_string()),
                tokens: 3,
            },
            ShownLine {
                line: 2,
                text: "b".to_string(),
                redacted: None,
                tokens: 0,
            },
        ],
    );
    assert_eq!(run.raw_tokens(), 7);
    assert_eq!(run.native_cost(), 18);
    assert_eq!(run.matches(), &vec!["p:1 ***".to_string(), "p:2 b".to_string()]);
}

#[test]
fn symbols_are_used_where_they_pay() {
    let with = |symbols: usize, original: usize, compressed: usize, table: usize| SymbolReport {
        symbols,
        compressed: "C".to_string(),
        table: "T".to_string(),
        original_tokens: original,
        compressed_tokens: compressed,
        table_tokens: table,
    };
    let body = |s: SymbolReport| report_body("R".to_string(), &s, None);
    assert_eq!(body(with(3, 100, 90, 5)), "CT");
    assert_eq!(body(with(3, 100, 90, 6)), "R");
    assert_eq!(body(with(2, 100, 10, 5)), "R");
    assert_eq!(body(with(3, 0, 0, 0)), "R");
    assert_eq!(body(with(3, 10, 20, 0)), "R");
    assert_eq!(report_body("R".to_string(), &no_symbols(), Some("!".to_string())), "R!");
}

#[test]
fn hint_names_the_directories() {
    let of = |list: &[&str]| -> Vec<String> { list.iter().map(|m| format!("{m}:1 x")).collect() };
    assert_eq!(monorepo_scope_hint(&of(&["a/x", "b/x", "c/x"]), "."), None);
    assert_eq!(
        monorepo_scope_hint(&of(&["./r/d/x", "./r/b/x", "./r/c/x", "./r/a/x", "./r/a/y"]), "r"),
        Some("\n\nResults span 4 directories ('a', 'b', 'c', 'd'). Use the 'path' parameter to scope to a specific service, e.g. path=\"a/\".".to_string())
    );
    assert_eq!(
        monorepo_scope_hint(&of(&["1/", "2/", "3/", "4/", "5/", "6/", "7/", "8/"]), "r"),
        Some("\n\nResults span 8 directories ('1', '2', '3', '4', '5', '6', +2 more). Use the 'path' parameter to scope to a specific service, e.g. path=\"1/\".".to_string())
    );
}

#[test]
fn binary_and_generated_files() {
    assert!(is_binary_ext("a/b.png"));
    assert!(!is_binary_ext("a/b.PNG"));
    assert!(!is_binary_ext("png"));
    assert!(is_generated_file("a/app.min.js"));
    assert!(is_generated_file("types.d.ts"));
    assert!(!is_generated_file("a/app.js"));
}

#[test]
fn a_search_keeps_the_first_matches_in_path_order() {
    let run = handle("x", "d", None, 3, true, true).ok().expect("run");
    let texts = [
        ("c.rs", Some("x\nx\n")),
        ("b.rs", None),
        ("a.rs", Some("x\ny\nx\n")),
    ];
    assert_eq!(
        run_over(run, &[file("c.rs"), file("b.rs"), file("a.rs")], &texts),
        "3 matches in 2 files [a.rs, c.rs]:\na.rs:1 x\na.rs:3 x\nc.rs:1 x\n(1 files skipped: binary/encoding)\n[saved]"
    );
}
