use lean_ctx::hook_handlers::{
    extract_json_field, handle_codex_pretooluse, handle_codex_session_start, handle_copilot,
    handle_rewrite, handle_rewrite_inline, is_quiet, resolve_binary, should_passthrough,
    to_bash_compatible_path,
};
use lean_ctx::hook_output::{
    build_dual_allow_output, build_dual_deny_output, codex_reroute_message, emit_rewrite,
};
use lean_ctx::hook_redirect::{
    child_action, collected, handle_redirect, redirect_reply, redirect_temp_name, ChildAction,
    ChildState, RedirectStep,
};
use lean_ctx::hook_rewrite::{
    build_rewrite_compound, is_already_rewritten, is_rewritable, parse_head_tail_args,
    rewrite_candidate, rewrite_dir_list_command, rewrite_file_read_command,
    rewrite_search_command, wrap_single_command,
};
use lean_ctx::json::parse_json;

#[test]
fn is_rewritable_basic() {
    assert!(is_rewritable("git status"));
    assert!(is_rewritable("cargo test --lib"));
    assert!(is_rewritable("npm run build"));
    assert!(!is_rewritable("echo hello"));
    assert!(!is_rewritable("cd src"));
    assert!(!is_rewritable("cat file.rs"));
}

#[test]
fn file_read_rewrite_cat() {
    let r = rewrite_file_read_command("cat src/main.rs", "lean-ctx");
    assert_eq!(r, Some("lean-ctx read src/main.rs".to_string()));
}

#[test]
fn file_read_rewrite_head_with_n() {
    let r = rewrite_file_read_command("head -n 20 src/main.rs", "lean-ctx");
    assert_eq!(
        r,
        Some("lean-ctx read src/main.rs -m lines:1-20".to_string())
    );
}

#[test]
fn file_read_rewrite_head_short() {
    let r = rewrite_file_read_command("head -50 src/main.rs", "lean-ctx");
    assert_eq!(
        r,
        Some("lean-ctx read src/main.rs -m lines:1-50".to_string())
    );
}

#[test]
fn file_read_rewrite_tail() {
    let r = rewrite_file_read_command("tail -n 10 src/main.rs", "lean-ctx");
    assert_eq!(
        r,
        Some("lean-ctx read src/main.rs -m lines:-10".to_string())
    );
}

#[test]
fn file_read_rewrite_not_git() {
    assert_eq!(rewrite_file_read_command("git status", "lean-ctx"), None);
}

#[test]
fn parse_head_tail_args_basic() {
    let (n, path) = parse_head_tail_args(&["-n", "20", "file.rs"]);
    assert_eq!(n, Some(20));
    assert_eq!(path, Some("file.rs"));
}

#[test]
fn parse_head_tail_args_combined() {
    let (n, path) = parse_head_tail_args(&["-n20", "file.rs"]);
    assert_eq!(n, Some(20));
    assert_eq!(path, Some("file.rs"));
}

#[test]
fn parse_head_tail_args_short_flag() {
    let (n, path) = parse_head_tail_args(&["-50", "file.rs"]);
    assert_eq!(n, Some(50));
    assert_eq!(path, Some("file.rs"));
}

#[test]
fn should_passthrough_rules_files() {
    assert!(should_passthrough("/home/user/.cursorrules"));
    assert!(should_passthrough("/project/.cursor/rules/test.mdc"));
    assert!(should_passthrough("/home/.cursor/hooks/hooks.json"));
    assert!(should_passthrough("/project/SKILL.md"));
    assert!(should_passthrough("/project/AGENTS.md"));
    assert!(should_passthrough("/project/icon.png"));
    assert!(!should_passthrough("/project/src/main.rs"));
    assert!(!should_passthrough("/project/src/lib.ts"));
}

#[test]
fn wrap_single() {
    let r = wrap_single_command("git status", "lean-ctx");
    assert_eq!(r, "lean-ctx -c 'git status'");
}

#[test]
fn wrap_with_quotes() {
    let r = wrap_single_command(r#"curl -H "Auth" https://api.com"#, "lean-ctx");
    assert_eq!(r, r#"lean-ctx -c 'curl -H "Auth" https://api.com'"#);
}

#[test]
fn rewrite_candidate_returns_none_for_existing_lean_ctx_command() {
    assert_eq!(
        rewrite_candidate("lean-ctx -c git status", "lean-ctx"),
        None
    );
}

#[test]
fn rewrite_candidate_wraps_single_command() {
    assert_eq!(
        rewrite_candidate("git status", "lean-ctx"),
        Some("lean-ctx -c 'git status'".to_string())
    );
}

#[test]
fn rewrite_candidate_passes_through_heredoc() {
    assert_eq!(
        rewrite_candidate(
            "git commit -m \"$(cat <<'EOF'\nfix: something\nEOF\n)\"",
            "lean-ctx"
        ),
        None
    );
}

#[test]
fn rewrite_candidate_passes_through_heredoc_compound() {
    assert_eq!(
        rewrite_candidate(
            "git add . && git commit -m \"$(cat <<EOF\nfeat: add\nEOF\n)\"",
            "lean-ctx"
        ),
        None
    );
}

#[test]
fn codex_reroute_message_includes_exact_rewritten_command() {
    let message = codex_reroute_message("lean-ctx -c 'git status'");
    assert_eq!(
        message,
        "Command should run via lean-ctx for compact output. Do not retry the original command. Re-run with: lean-ctx -c 'git status'"
    );
}

#[test]
fn compound_rewrite_and_chain() {
    let result = build_rewrite_compound("cd src && git status && echo done", "lean-ctx");
    assert_eq!(
        result,
        Some("cd src && lean-ctx -c 'git status' && echo done".into())
    );
}

#[test]
fn compound_rewrite_pipe() {
    let result = build_rewrite_compound("git log --oneline | head -5", "lean-ctx");
    assert_eq!(
        result,
        Some("lean-ctx -c 'git log --oneline' | head -5".into())
    );
}

#[test]
fn compound_rewrite_no_match() {
    let result = build_rewrite_compound("cd src && echo done", "lean-ctx");
    assert_eq!(result, None);
}

#[test]
fn compound_rewrite_multiple_rewritable() {
    let result = build_rewrite_compound("git add . && cargo test && npm run lint", "lean-ctx");
    assert_eq!(
        result,
        Some(
            "lean-ctx -c 'git add .' && lean-ctx -c 'cargo test' && lean-ctx -c 'npm run lint'"
                .into()
        )
    );
}

#[test]
fn compound_rewrite_semicolons() {
    let result = build_rewrite_compound("git add .; git commit -m 'fix'", "lean-ctx");
    assert_eq!(
        result,
        Some("lean-ctx -c 'git add .' ; lean-ctx -c 'git commit -m '\\''fix'\\'''".into())
    );
}

#[test]
fn compound_rewrite_or_chain() {
    let result = build_rewrite_compound("git pull || echo failed", "lean-ctx");
    assert_eq!(result, Some("lean-ctx -c 'git pull' || echo failed".into()));
}

#[test]
fn compound_skips_already_rewritten() {
    let result = build_rewrite_compound("lean-ctx -c git status && git diff", "lean-ctx");
    assert_eq!(
        result,
        Some("lean-ctx -c git status && lean-ctx -c 'git diff'".into())
    );
}

#[test]
fn single_command_not_compound() {
    let result = build_rewrite_compound("git status", "lean-ctx");
    assert_eq!(result, None);
}

#[test]
fn extract_field_works() {
    let input = r#"{"tool_name":"Bash","command":"git status"}"#;
    assert_eq!(
        extract_json_field(input, "tool_name"),
        Some("Bash".to_string())
    );
    assert_eq!(
        extract_json_field(input, "command"),
        Some("git status".to_string())
    );
}

#[test]
fn extract_field_with_spaces_after_colon() {
    let input = r#"{"tool_name": "Bash", "tool_input": {"command": "git status"}}"#;
    assert_eq!(
        extract_json_field(input, "tool_name"),
        Some("Bash".to_string())
    );
    assert_eq!(
        extract_json_field(input, "command"),
        Some("git status".to_string())
    );
}

#[test]
fn extract_field_pretty_printed() {
    let input = "{\n  \"tool_name\": \"Bash\",\n  \"tool_input\": {\n    \"command\": \"npm test\"\n  }\n}";
    assert_eq!(
        extract_json_field(input, "tool_name"),
        Some("Bash".to_string())
    );
    assert_eq!(
        extract_json_field(input, "command"),
        Some("npm test".to_string())
    );
}

#[test]
fn extract_field_handles_escaped_quotes() {
    let input = r#"{"tool_name":"Bash","command":"grep -r \"TODO\" src/"}"#;
    assert_eq!(
        extract_json_field(input, "command"),
        Some(r#"grep -r "TODO" src/"#.to_string())
    );
}

#[test]
fn extract_field_handles_escaped_backslash() {
    let input = r#"{"tool_name":"Bash","command":"echo \\\"hello\\\""}"#;
    assert_eq!(
        extract_json_field(input, "command"),
        Some(r#"echo \"hello\""#.to_string())
    );
}

#[test]
fn extract_field_handles_complex_curl() {
    let input = r#"{"tool_name":"Bash","command":"curl -H \"Authorization: Bearer token\" https://api.com"}"#;
    assert_eq!(
        extract_json_field(input, "command"),
        Some(r#"curl -H "Authorization: Bearer token" https://api.com"#.to_string())
    );
}

#[test]
fn to_bash_compatible_path_windows_drive() {
    let p = to_bash_compatible_path(r"E:\packages\lean-ctx.exe");
    assert_eq!(p, "/e/packages/lean-ctx.exe");
}

#[test]
fn to_bash_compatible_path_backslashes() {
    let p = to_bash_compatible_path(r"C:\Users\test\bin\lean-ctx.exe");
    assert_eq!(p, "/c/Users/test/bin/lean-ctx.exe");
}

#[test]
fn to_bash_compatible_path_unix_unchanged() {
    let p = to_bash_compatible_path("/usr/local/bin/lean-ctx");
    assert_eq!(p, "/usr/local/bin/lean-ctx");
}

#[test]
fn to_bash_compatible_path_msys2_unchanged() {
    let p = to_bash_compatible_path("/e/packages/lean-ctx.exe");
    assert_eq!(p, "/e/packages/lean-ctx.exe");
}

#[test]
fn wrap_command_with_bash_path() {
    let binary = to_bash_compatible_path(r"E:\packages\lean-ctx.exe");
    let result = wrap_single_command("git status", &binary);
    assert!(
        !result.contains('\\'),
        "wrapped command must not contain backslashes, got: {result}"
    );
    assert!(
        result.starts_with("/e/packages/lean-ctx.exe"),
        "must use bash-compatible path, got: {result}"
    );
}

#[test]
fn wrap_single_command_em_dash() {
    let r = wrap_single_command("gh --comment \"closing — see #407\"", "lean-ctx");
    assert_eq!(r, "lean-ctx -c 'gh --comment \"closing — see #407\"'");
}

#[test]
fn wrap_single_command_dollar_sign() {
    let r = wrap_single_command("echo $HOME", "lean-ctx");
    assert_eq!(r, "lean-ctx -c 'echo $HOME'");
}

#[test]
fn wrap_single_command_backticks() {
    let r = wrap_single_command("echo `date`", "lean-ctx");
    assert_eq!(r, "lean-ctx -c 'echo `date`'");
}

#[test]
fn wrap_single_command_nested_single_quotes() {
    let r = wrap_single_command("echo 'hello world'", "lean-ctx");
    assert_eq!(r, r"lean-ctx -c 'echo '\''hello world'\'''");
}

#[test]
fn wrap_single_command_exclamation_mark() {
    let r = wrap_single_command("echo hello!", "lean-ctx");
    assert_eq!(r, "lean-ctx -c 'echo hello!'");
}

#[test]
fn wrap_single_command_find_with_many_excludes() {
    let r = wrap_single_command(
        "find . -not -path ./node_modules -not -path ./.git -not -path ./dist",
        "lean-ctx",
    );
    assert_eq!(
        r,
        "lean-ctx -c 'find . -not -path ./node_modules -not -path ./.git -not -path ./dist'"
    );
}

// --- hooks on whole payloads ---

#[test]
fn rewrite_hook_replaces_the_command() {
    let input = r#"{"tool_name":"Bash","tool_input":{"command":"git status","timeout":5}}"#;
    let out = handle_rewrite(false, Some(input), "lean-ctx").expect("reply");
    let v: serde_json::Value = serde_json::from_str(&out).expect("json");
    assert_eq!(v["permission"], "allow");
    assert_eq!(v["updated_input"]["command"], "lean-ctx -c 'git status'");
    assert_eq!(v["updated_input"]["timeout"], 5);
    assert_eq!(v["hookSpecificOutput"]["hookEventName"], "PreToolUse");
    assert_eq!(v["hookSpecificOutput"]["permissionDecision"], "allow");
    assert_eq!(
        v["hookSpecificOutput"]["updatedInput"]["command"],
        "lean-ctx -c 'git status'"
    );
}

#[test]
fn rewrite_hook_takes_a_command_beside_the_input() {
    let input = r#"{"tool_name":"Shell","command":"cargo test"}"#;
    let out = handle_rewrite(false, Some(input), "lean-ctx").expect("reply");
    let v: serde_json::Value = serde_json::from_str(&out).expect("json");
    assert_eq!(v["updated_input"]["command"], "lean-ctx -c 'cargo test'");
}

#[test]
fn rewrite_hook_allows_other_commands() {
    let input = r#"{"tool_name":"Bash","tool_input":{"command":"echo hi"}}"#;
    assert_eq!(
        handle_rewrite(false, Some(input), "lean-ctx"),
        Some(build_dual_allow_output())
    );
}

#[test]
fn rewrite_hook_is_silent_where_it_has_nothing_to_say() {
    let input = r#"{"tool_name":"Bash","tool_input":{"command":"git status"}}"#;
    assert_eq!(handle_rewrite(true, Some(input), "lean-ctx"), None);
    assert_eq!(handle_rewrite(false, None, "lean-ctx"), None);
    assert_eq!(handle_rewrite(false, Some(r#"{"tool_name":"Edit"}"#), "lean-ctx"), None);
    assert_eq!(handle_rewrite(false, Some(r#"{"tool_name":"Bash"}"#), "lean-ctx"), None);
    assert_eq!(handle_rewrite(false, Some("{}"), "lean-ctx"), None);
}

#[test]
fn rewrite_hook_denies_what_is_not_json() {
    assert_eq!(
        handle_rewrite(false, Some("not json"), "lean-ctx"),
        Some(build_dual_deny_output("invalid JSON hook payload"))
    );
}

#[test]
fn deny_and_allow_outputs() {
    let deny: serde_json::Value =
        serde_json::from_str(&build_dual_deny_output("why")).expect("json");
    assert_eq!(deny["permission"], "deny");
    assert_eq!(deny["reason"], "why");
    assert_eq!(deny["hookSpecificOutput"]["permissionDecision"], "deny");
    assert_eq!(
        build_dual_allow_output(),
        r#"{"hookSpecificOutput":{"hookEventName":"PreToolUse","permissionDecision":"allow"},"permission":"allow"}"#
    );
}

#[test]
fn emitted_rewrite_escapes_quotes_and_backslashes() {
    assert_eq!(
        emit_rewrite(r#"echo "a\b""#),
        r#"{"hookSpecificOutput":{"hookEventName":"PreToolUse","permissionDecision":"allow","updatedInput":{"command":"echo \"a\\b\""}}}"#
    );
}

#[test]
fn codex_hook_reroutes() {
    let input = r#"{"tool_name":"Bash","command":"git status"}"#;
    assert_eq!(
        handle_codex_pretooluse(false, Some(input), false, "lean-ctx"),
        Some(codex_reroute_message("lean-ctx -c 'git status'"))
    );
    assert_eq!(
        handle_codex_pretooluse(false, Some(input), true, "lean-ctx"),
        Some("Re-run: lean-ctx -c 'git status'".to_string())
    );
    assert_eq!(handle_codex_pretooluse(true, Some(input), false, "lean-ctx"), None);
    assert_eq!(handle_codex_pretooluse(false, None, false, "lean-ctx"), None);
    let shell = r#"{"tool_name":"shell","command":"git status"}"#;
    assert_eq!(handle_codex_pretooluse(false, Some(shell), false, "lean-ctx"), None);
}

#[test]
fn codex_session_start_message() {
    assert_eq!(
        handle_codex_session_start(false),
        Some("For shell commands matched by lean-ctx compression rules, prefer `lean-ctx -c \"<command>\"`. If a Bash call is blocked, rerun it with the exact command suggested by the hook.".to_string())
    );
    assert_eq!(handle_codex_session_start(true), None);
}

#[test]
fn copilot_hook_rewrites() {
    let input = r#"{"tool_name":"runInTerminal","command":"npm test"}"#;
    assert_eq!(
        handle_copilot(false, Some(input), "lean-ctx"),
        Some(emit_rewrite("lean-ctx -c 'npm test'"))
    );
    let other = r#"{"tool_name":"editFile","command":"npm test"}"#;
    assert_eq!(handle_copilot(false, Some(other), "lean-ctx"), None);
    assert_eq!(handle_copilot(true, Some(input), "lean-ctx"), None);
}

#[test]
fn inline_rewrite_prints_the_command() {
    let args = |list: &[&str]| -> Vec<String> { list.iter().map(|a| a.to_string()).collect() };
    assert_eq!(
        handle_rewrite_inline(
            false,
            &args(&["lean-ctx", "hook", "rewrite-inline", "git", "status"]),
            "lean-ctx"
        ),
        Some("lean-ctx -c 'git status'".to_string())
    );
    assert_eq!(
        handle_rewrite_inline(
            false,
            &args(&["lean-ctx", "hook", "rewrite-inline", "echo", "hi"]),
            "lean-ctx"
        ),
        Some("echo hi".to_string())
    );
    assert_eq!(
        handle_rewrite_inline(
            false,
            &args(&["lean-ctx", "hook", "rewrite-inline"]),
            "lean-ctx"
        ),
        None
    );
}

#[test]
fn quiet_setting_is_one() {
    assert!(is_quiet(Some(" 1 ")));
    assert!(!is_quiet(Some("0")));
    assert!(!is_quiet(None));
}

#[test]
fn binary_path_is_made_fit_for_bash() {
    assert_eq!(resolve_binary(r"D:\bin\lean-ctx.exe"), "/d/bin/lean-ctx.exe");
}

// --- rewriting ---

#[test]
fn search_commands_are_rewritten() {
    assert_eq!(
        rewrite_search_command("rg foo src", "lean-ctx"),
        Some("lean-ctx grep foo src".to_string())
    );
    assert_eq!(
        rewrite_search_command("rg foo", "lean-ctx"),
        Some("lean-ctx grep foo".to_string())
    );
    assert_eq!(rewrite_search_command("rg -n foo", "lean-ctx"), None);
    assert_eq!(rewrite_search_command("rg foo -n", "lean-ctx"), None);
    assert_eq!(rewrite_search_command("rg a b c", "lean-ctx"), None);
    assert_eq!(rewrite_search_command("rg", "lean-ctx"), None);
    assert_eq!(
        rewrite_candidate("rg -n foo", "lean-ctx"),
        Some("lean-ctx -c 'rg -n foo'".to_string())
    );
}

#[test]
fn directory_listings_are_rewritten() {
    assert_eq!(
        rewrite_dir_list_command("ls", "lean-ctx"),
        Some("lean-ctx ls".to_string())
    );
    assert_eq!(
        rewrite_dir_list_command("ls src", "lean-ctx"),
        Some("lean-ctx ls src".to_string())
    );
    assert_eq!(rewrite_dir_list_command("ls -la", "lean-ctx"), None);
    assert_eq!(
        rewrite_candidate("ls -la", "lean-ctx"),
        Some("lean-ctx -c 'ls -la'".to_string())
    );
}

#[test]
fn head_and_tail_without_a_count_take_ten_lines() {
    assert_eq!(
        rewrite_file_read_command("head a.rs", "lean-ctx"),
        Some("lean-ctx read a.rs -m lines:1-10".to_string())
    );
    assert_eq!(
        rewrite_file_read_command("tail a.rs", "lean-ctx"),
        Some("lean-ctx read a.rs -m lines:-10".to_string())
    );
    assert_eq!(rewrite_file_read_command("head -n 5", "lean-ctx"), None);
    assert_eq!(rewrite_file_read_command("cat", "lean-ctx"), None);
}

#[test]
fn rewritten_commands_are_left_alone() {
    let once = rewrite_candidate("git status", "lean-ctx").expect("rewritten");
    assert!(is_already_rewritten(&once, "lean-ctx"));
    assert_eq!(rewrite_candidate(&once, "lean-ctx"), None);
    assert_eq!(rewrite_candidate("/opt/lc ls", "/opt/lc"), None);
}

// --- redirecting ---

#[test]
fn reads_are_redirected() {
    let input = r#"{"tool_name":"Read","tool_input":{"path":"src/main.rs","limit":3}}"#;
    match handle_redirect(false, Some(input)) {
        RedirectStep::Run { args, key, tool_input } => {
            assert_eq!(args, vec!["read".to_string(), "src/main.rs".to_string()]);
            assert_eq!(key, "src/main.rs");
            let out = redirect_reply(tool_input, Some("/tmp/x.lctx"));
            let v: serde_json::Value = serde_json::from_str(&out).expect("json");
            assert_eq!(v["updated_input"]["path"], "/tmp/x.lctx");
            assert_eq!(v["updated_input"]["limit"], 3);
            assert_eq!(v["hookSpecificOutput"]["updatedInput"]["path"], "/tmp/x.lctx");
        }
        _ => panic!("expected a run"),
    }
}

#[test]
fn greps_are_redirected() {
    let input = r#"{"tool_name":"Grep","tool_input":{"pattern":"foo"}}"#;
    match handle_redirect(false, Some(input)) {
        RedirectStep::Run { args, key, .. } => {
            assert_eq!(args, vec!["grep".to_string(), "foo".to_string(), ".".to_string()]);
            assert_eq!(key, "grep:foo:.");
        }
        _ => panic!("expected a run"),
    }
}

#[test]
fn other_payloads_are_not_redirected() {
    let allowed = |step: RedirectStep| match step {
        RedirectStep::Reply(s) => s == build_dual_allow_output(),
        _ => false,
    };
    assert!(allowed(handle_redirect(true, None)));
    assert!(allowed(handle_redirect(false, Some(r#"{"tool_name":"Edit"}"#))));
    assert!(allowed(handle_redirect(
        false,
        Some(r#"{"tool_name":"Read","tool_input":{"path":"a/.env"}}"#)
    )));
    assert!(allowed(handle_redirect(
        false,
        Some(r#"{"tool_name":"Grep","tool_input":{}}"#)
    )));
    assert!(matches!(handle_redirect(false, None), RedirectStep::Silent));
    match handle_redirect(false, Some("nope")) {
        RedirectStep::Reply(s) => {
            assert_eq!(s, build_dual_deny_output("invalid JSON hook payload"))
        }
        _ => panic!("expected a reply"),
    }
    let input = parse_json(r#"{"path":"a"}"#).ok();
    assert_eq!(redirect_reply(input, None), build_dual_allow_output());
}

#[test]
fn child_process_decisions() {
    assert_eq!(child_action(ChildState::Succeeded, true), ChildAction::Collect);
    assert_eq!(child_action(ChildState::Failed, false), ChildAction::GiveUp);
    assert_eq!(child_action(ChildState::Running, true), ChildAction::Kill);
    assert_eq!(child_action(ChildState::Running, false), ChildAction::Wait);
    assert_eq!(collected(vec![]), None);
    assert_eq!(collected(vec![1, 2]), Some(vec![1, 2]));
}

#[test]
fn temporary_names_are_hexadecimal() {
    assert_eq!(redirect_temp_name(0x1a2b), "0000000000001a2b.lctx");
    assert_eq!(redirect_temp_name(u64::MAX), "ffffffffffffffff.lctx");
}

#[test]
fn passthrough_is_by_lower_case() {
    assert!(should_passthrough("/project/Icon.PNG"));
    assert!(should_passthrough("/p/node_modules/x.js"));
    assert!(should_passthrough("/p/Cargo.LOCK"));
    assert!(!should_passthrough("/p/lock"));
}

#[test]
fn quoted_searches_keep_their_blanks() {
    assert_eq!(
        rewrite_search_command("rg \"foo\" src", "lean-ctx"),
        Some("lean-ctx grep \"foo\" src".to_string())
    );
    assert_eq!(
        rewrite_search_command(r"rg  a\.b", "lean-ctx"),
        Some(r"lean-ctx grep a\.b".to_string())
    );
    assert_eq!(
        rewrite_search_command("rg 'a b'", "lean-ctx"),
        Some("lean-ctx grep 'a b'".to_string())
    );
    assert_eq!(rewrite_search_command("rg 'a  b'", "lean-ctx"), None);
    assert_eq!(rewrite_search_command("rg 'a\tb'", "lean-ctx"), None);
    assert_eq!(rewrite_search_command(r"rg a\  b", "lean-ctx"), None);
    assert_eq!(
        rewrite_candidate("rg 'a  b'", "lean-ctx"),
        Some(r"lean-ctx -c 'rg '\''a  b'\'''".to_string())
    );
}

#[test]
fn an_escaped_semicolon_does_not_tear_a_command() {
    assert_eq!(
        rewrite_candidate(r"find . -name x -exec rm {} \;", "lean-ctx"),
        Some(r"lean-ctx -c 'find . -name x -exec rm {} \;'".to_string())
    );
}

#[test]
fn emitted_command_is_read_back() {
    for command in [
        "",
        "git status",
        r#"echo "a\b""#,
        r#"\"\\""#,
        r"tail\",
        r#""command":"x""#,
    ] {
        assert_eq!(
            extract_json_field(&emit_rewrite(command), "command"),
            Some(command.to_string())
        );
    }
}

#[test]
fn numbers_in_the_input_are_kept() {
    let input =
        r#"{"tool_name":"Bash","tool_input":{"command":"git status","a":1.5,"b":-3,"c":7}}"#;
    let out = handle_rewrite(false, Some(input), "lean-ctx").expect("reply");
    assert!(out.contains(r#""updated_input":{"a":1.5,"b":-3,"c":7,"command":"#));
}

#[test]
fn rewritten_compounds_are_left_alone() {
    for command in [
        "cd x && git commit -m 'a; git b'",
        "; git status",
        r"echo \' ; git log | head",
        "git add . && cargo test",
    ] {
        let once = rewrite_candidate(command, "lean-ctx").expect("rewritten");
        assert_eq!(rewrite_candidate(&once, "lean-ctx"), None, "{once}");
    }
}
