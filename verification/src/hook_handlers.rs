//! The decisions of the hooks: what each replies to the payload that it reads.
use vstd::prelude::*;
use vstd::slice::slice_subrange;

use crate::hook_output;
use crate::hook_rewrite;
use crate::json;
use crate::json::{Json, JsonTree};
use crate::paths;
use crate::text;

verus! {

// ---------------------------------------------------------------- settings
/// Whether the setting asks for quiet hooks: it is `1` but for white space.
pub fn is_quiet(setting: Option<&str>) -> (r: bool)
    ensures
        r == (setting is Some && text::trim(setting->0@) == "1"@),
{
    match setting {
        Some(v) => {
            let chars = text::chars_of(v);
            text::spells(text::trimmed(chars.as_slice()), "1")
        },
        None => false,
    }
}

pub open spec fn is_drive(path: Seq<char>) -> bool {
    path.len() >= 2 && path[1] == ':' && ('a' <= path[0] <= 'z' || 'A' <= path[0] <= 'Z')
}

/// A path as bash writes it: slashes for backslashes, `/x` for the drive `X:`.
pub open spec fn bash_path(path: Seq<char>) -> Seq<char> {
    let p = text::replace(path, "\\"@, "/"@);
    if is_drive(p) {
        "/"@ + seq![text::ascii_lower_char(p[0])] + p.skip(2)
    } else {
        p
    }
}

/// A path as bash writes it.
pub fn to_bash_compatible_path(path: &str) -> (r: String)
    ensures
        r@ == bash_path(path@),
{
    let chars = text::chars_of(path);
    let p = text::replaced(chars.as_slice(), "\\", "/");
    if p.len() >= 2 && p[1] == ':' && (('a' <= p[0] && p[0] <= 'z') || ('A' <= p[0] && p[0]
        <= 'Z')) {
        let mut out = String::new();
        out.push_str("/");
        out.push(text::lower_char(p[0]));
        let rest = text::text_of(slice_subrange(p.as_slice(), 2, p.len()));
        out.push_str(rest.as_str());
        proof {
            assert(out@ =~= bash_path(path@));
        }
        out
    } else {
        text::text_of(p.as_slice())
    }
}

/// The binary that the hooks name, as bash writes its path.
pub fn resolve_binary(path: &str) -> (r: String)
    ensures
        r@ == bash_path(path@),
{
    to_bash_compatible_path(path)
}

// ---------------------------------------------------------------- fields by text
pub open spec fn field_key(field: Seq<char>) -> Seq<char> {
    "\""@ + field + "\":"@
}

/// The position of the quote that closes a JSON string, scanned from `i`; a
/// backslash takes the next character with it.
pub open spec fn closing_quote(s: Seq<char>, i: int) -> Option<int>
    decreases s.len() - i,
{
    if i >= s.len() {
        None
    } else if s[i] == '\\' && i + 1 < s.len() {
        closing_quote(s, i + 2)
    } else if s[i] == '"' {
        Some(i)
    } else {
        closing_quote(s, i + 1)
    }
}

/// The text with its escaped quotes and then its escaped backslashes undone.
pub open spec fn unescaped(raw: Seq<char>) -> Seq<char> {
    text::replace(text::replace(raw, "\\\""@, "\""@), "\\\\"@, "\\"@)
}

/// The string that follows a key at position `at` of `input`.
pub open spec fn field_value(input: Seq<char>, at: int, key_len: int) -> Option<Seq<char>> {
    let t = text::trim_start(input.skip(at + key_len));
    if t.len() == 0 || t[0] != '"' {
        None
    } else {
        match closing_quote(t.skip(1), 0) {
            Some(end) => Some(unescaped(t.skip(1).take(end))),
            None => None,
        }
    }
}

/// The string that stands behind the first occurrence of the quoted field name
/// and a colon.
pub open spec fn field_of(input: Seq<char>, field: Seq<char>) -> Option<Seq<char>> {
    let key = field_key(field);
    if text::occurs(input, key) {
        let at = choose|i: int| text::first_at(input, key, i);
        field_value(input, at, key.len() as int)
    } else {
        None
    }
}

proof fn lemma_first_at_unique(s: Seq<char>, pat: Seq<char>, i: int, j: int)
    requires
        text::first_at(s, pat, i),
        text::first_at(s, pat, j),
    ensures
        i == j,
{
}

/// The string that stands behind the first occurrence of the quoted field name
/// and a colon.
pub fn extract_json_field(input: &str, field: &str) -> (r: Option<String>)
    ensures
        text::opt_owned(r) == field_of(input@, field@),
{
    let chars = text::chars_of(input);
    let s = chars.as_slice();
    let mut key = String::new();
    key.push_str("\"");
    key.push_str(field);
    key.push_str("\":");
    let key_chars = text::chars_of(key.as_str());
    match text::position(s, key_chars.as_slice()) {
        None => None,
        Some(at) => {
            proof {
                let other = choose|i: int| text::first_at(input@, field_key(field@), i);
                lemma_first_at_unique(input@, field_key(field@), at as int, other);
            }
            let total: usize = s.len();
            let from: usize = at + key_chars.len();
            let after = slice_subrange(s, from, total);
            proof {
                assert(after@ =~= input@.skip(at + key_chars@.len()));
            }
            let t = text::trimmed_start(after);
            if t.len() == 0 || t[0] != '"' {
                return None;
            }
            let rest = slice_subrange(t, 1, t.len());
            proof {
                assert(rest@ =~= t@.skip(1));
            }
            let mut end: usize = 0;
            while end < rest.len()
                invariant
                    end <= rest.len(),
                    closing_quote(rest@, end as int) == closing_quote(rest@, 0),
                    field_of(input@, field@) == (match closing_quote(rest@, 0) {
                        Some(e) => Some(unescaped(rest@.take(e))),
                        None => None,
                    }),
                decreases rest.len() - end,
            {
                if rest[end] == '\\' && end + 1 < rest.len() {
                    end += 2;
                } else if rest[end] == '"' {
                    let raw = slice_subrange(rest, 0, end);
                    proof {
                        assert(raw@ =~= rest@.take(end as int));
                    }
                    let quotes = text::replaced(raw, "\\\"", "\"");
                    let slashes = text::replaced(quotes.as_slice(), "\\\\", "\\");
                    return Some(text::text_of(slashes.as_slice()));
                } else {
                    end += 1;
                }
            }
            None
        },
    }
}

// ---------------------------------------------------------------- passing through
pub open spec fn is_passthrough_text(p: Seq<char>) -> bool {
    ||| text::occurs(p, ".cursorrules"@)
    ||| text::occurs(p, ".cursor/rules"@)
    ||| text::occurs(p, ".cursor/hooks"@)
    ||| text::occurs(p, "skill.md"@)
    ||| text::occurs(p, "agents.md"@)
    ||| text::occurs(p, ".env"@)
    ||| text::occurs(p, "hooks.json"@)
    ||| text::occurs(p, "node_modules"@)
}

pub open spec fn is_passthrough_extension(ext: Seq<char>) -> bool {
    ||| ext == "lock"@
    ||| ext == "png"@
    ||| ext == "jpg"@
    ||| ext == "jpeg"@
    ||| ext == "gif"@
    ||| ext == "webp"@
    ||| ext == "pdf"@
    ||| ext == "ico"@
    ||| ext == "svg"@
    ||| ext == "woff"@
    ||| ext == "woff2"@
    ||| ext == "ttf"@
    ||| ext == "eot"@
}

/// Whether a path, in lower case, is read as it is: by what it holds or by its
/// extension.
pub open spec fn passes_through(p: Seq<char>) -> bool {
    ||| is_passthrough_text(p)
    ||| (paths::extension(p) is Some && is_passthrough_extension(
        text::ascii_lower(paths::extension(p)->0),
    ))
}

/// Whether a path that is in lower case already is read as it is.
pub fn lowered_passes_through(lowered: &str) -> (r: bool)
    ensures
        r == passes_through(lowered@),
{
    let chars = text::chars_of(lowered);
    let p = chars.as_slice();
    if text::has(p, ".cursorrules") || text::has(p, ".cursor/rules") || text::has(
        p,
        ".cursor/hooks",
    ) || text::has(p, "skill.md") || text::has(p, "agents.md") || text::has(p, ".env") || text::has(
        p,
        "hooks.json",
    ) || text::has(p, "node_modules") {
        return true;
    }
    match paths::extension_of(p) {
        Some(ext) => {
            let lower = text::ascii_lowered(ext);
            let e = lower.as_slice();
            text::spells(e, "lock") || text::spells(e, "png") || text::spells(e, "jpg")
                || text::spells(e, "jpeg") || text::spells(e, "gif") || text::spells(e, "webp")
                || text::spells(e, "pdf") || text::spells(e, "ico") || text::spells(e, "svg")
                || text::spells(e, "woff") || text::spells(e, "woff2") || text::spells(e, "ttf")
                || text::spells(e, "eot")
        },
        None => false,
    }
}

/// Whether a path is read as it is, whatever the case of its letters.
pub fn should_passthrough(path: &str) -> (r: bool)
    ensures
        r == passes_through(text::lowercase(path@)),
{
    let lowered = path.to_lowercase();
    lowered_passes_through(lowered.as_str())
}

// ---------------------------------------------------------------- rewriting hooks
/// The names under which hosts offer a shell.
pub open spec fn is_shell_tool(tool: Seq<char>) -> bool {
    ||| tool == "Bash"@
    ||| tool == "bash"@
    ||| tool == "Shell"@
    ||| tool == "shell"@
    ||| tool == "runInTerminal"@
    ||| tool == "run_in_terminal"@
    ||| tool == "terminal"@
}

/// The names of the shell tool that the Copilot hook answers to.
pub open spec fn is_copilot_shell(tool: Seq<char>) -> bool {
    is_shell_tool(tool) && tool != "Shell"@
}

fn shell_tool(tool: &str) -> (r: bool)
    ensures
        r == is_shell_tool(tool@),
{
    text::same_text(tool, "Bash") || text::same_text(tool, "bash") || text::same_text(
        tool,
        "Shell",
    ) || text::same_text(tool, "shell") || text::same_text(tool, "runInTerminal")
        || text::same_text(tool, "run_in_terminal") || text::same_text(tool, "terminal")
}

/// The command of a payload: that of the tool's input, else that of the payload.
pub open spec fn payload_command(payload: JsonTree) -> Option<Seq<char>> {
    let inner = json::text_of_tree(
        json::member_of(json::member(payload, "tool_input"@), "command"@),
    );
    match inner {
        Some(c) => Some(c),
        None => json::text_of_tree(json::member(payload, "command"@)),
    }
}

/// The reply to the payload of a tool call: none where it is no shell call with
/// a command.
pub open spec fn rewrite_reply_tree(payload: JsonTree, binary: Seq<char>) -> Option<JsonTree> {
    match json::text_of_tree(json::member(payload, "tool_name"@)) {
        Some(tool) => if is_shell_tool(tool) {
            match payload_command(payload) {
                Some(cmd) => match hook_rewrite::candidate(cmd, binary) {
                    Some(rewritten) => Some(
                        hook_output::update_tree(
                            json::member(payload, "tool_input"@),
                            "command"@,
                            rewritten,
                        ),
                    ),
                    None => Some(hook_output::allow_tree()),
                },
                None => None,
            }
        } else {
            None
        },
        None => None,
    }
}

pub open spec fn rendered(tree: Option<JsonTree>) -> Option<Seq<char>> {
    match tree {
        Some(t) => Some(json::json_text(t)),
        None => None,
    }
}

/// Member `key` of an object, taken out of it.
pub(crate) fn take_member(j: Json, key: &str) -> (r: Option<Json>)
    ensures
        hook_output::opt_json(r) == json::member(j.tree(), key@),
{
    match j {
        Json::Object(entries) => {
            let mut e = entries;
            let ghost all = e@;
            while e.len() > 0
                invariant
                    e@ == all.take(e@.len() as int),
                    e@.len() <= all.len(),
                    forall|k: int| e@.len() <= k < all.len() ==> (#[trigger] all[k]).0@ != key@,
                    j.tree() == JsonTree::Object(json::members(all)),
                decreases e@.len(),
            {
                let ghost n = e@.len() - 1;
                match e.pop() {
                    Some((k, v)) => {
                        proof {
                            assert(all[n] == (k, v));
                            assert(e@ =~= all.take(n));
                        }
                        if text::same_text(k.as_str(), key) {
                            proof {
                                json::lemma_member(all, key@, n + 1);
                                assert(all.take(n + 1).last() == (k, v));
                            }
                            return Some(v);
                        }
                    },
                    None => {},
                }
            }
            proof {
                json::lemma_member(all, key@, 0);
                assert(all.take(0) =~= Seq::<(String, Json)>::empty());
                assert(!json::members(all).contains_key(key@));
            }
            None
        },
        _ => None,
    }
}

/// The reply to the payload of a tool call, rewriting the command of a shell
/// call where it can be.
pub fn rewrite_reply(payload: Json, binary: &str) -> (r: Option<String>)
    ensures
        text::opt_owned(r) == rendered(rewrite_reply_tree(payload.tree(), binary@)),
{
    let tool = match json::as_text(json::get(Some(&payload), "tool_name")) {
        Some(t) => t.to_string(),
        None => {
            return None;
        },
    };
    if !shell_tool(tool.as_str()) {
        return None;
    }
    let inner = json::as_text(json::get(json::get(Some(&payload), "tool_input"), "command"));
    let cmd = match inner {
        Some(c) => c.to_string(),
        None => match json::as_text(json::get(Some(&payload), "command")) {
            Some(c) => c.to_string(),
            None => {
                return None;
            },
        },
    };
    match hook_rewrite::rewrite_candidate(cmd.as_str(), binary) {
        Some(rewritten) => {
            let tool_input = take_member(payload, "tool_input");
            Some(hook_output::build_dual_rewrite_output(tool_input, rewritten.as_str()))
        },
        None => Some(hook_output::build_dual_allow_output()),
    }
}

/// What the rewriting hook prints for the text that it read, if anything.
pub open spec fn rewrite_print(
    disabled: bool,
    input: Option<Seq<char>>,
    binary: Seq<char>,
) -> Option<Seq<char>> {
    match input {
        Some(text) => if disabled {
            None
        } else {
            match json::json_parse(text) {
                Ok(payload) => rendered(rewrite_reply_tree(payload, binary)),
                Err(_) => Some(
                    json::json_text(hook_output::deny_tree("invalid JSON hook payload"@)),
                ),
            }
        },
        None => None,
    }
}

/// What the rewriting hook prints for the text that it read, if anything.
pub fn handle_rewrite(disabled: bool, input: Option<&str>, binary: &str) -> (r: Option<String>)
    ensures
        text::opt_owned(r) == rewrite_print(disabled, text::opt_view(input), binary@),
{
    if disabled {
        return None;
    }
    match input {
        Some(text) => match json::parse_json(text) {
            Ok(payload) => rewrite_reply(payload, binary),
            Err(_) => Some(hook_output::build_dual_deny_output("invalid JSON hook payload")),
        },
        None => None,
    }
}

/// The command of a payload that names a tool, both found by text.
pub open spec fn text_command(input: Seq<char>, binary: Seq<char>) -> Option<Seq<char>> {
    match field_of(input, "command"@) {
        Some(cmd) => hook_rewrite::candidate(cmd, binary),
        None => None,
    }
}

fn rewritten_command(input: &str, binary: &str) -> (r: Option<String>)
    ensures
        text::opt_owned(r) == text_command(input@, binary@),
{
    match extract_json_field(input, "command") {
        Some(cmd) => hook_rewrite::rewrite_candidate(cmd.as_str(), binary),
        None => None,
    }
}

pub open spec fn codex_message(rewritten: Seq<char>, quiet: bool) -> Seq<char> {
    if quiet {
        "Re-run: "@ + rewritten
    } else {
        hook_output::reroute_message(rewritten)
    }
}

/// The message with which the Codex hook refuses a call, if it does.
pub open spec fn codex_refusal(
    disabled: bool,
    input: Option<Seq<char>>,
    quiet: bool,
    binary: Seq<char>,
) -> Option<Seq<char>> {
    if disabled || input is None {
        None
    } else {
        let tool = field_of(input->0, "tool_name"@);
        if tool == Some("Bash"@) || tool == Some("bash"@) {
            match text_command(input->0, binary) {
                Some(rewritten) => Some(codex_message(rewritten, quiet)),
                None => None,
            }
        } else {
            None
        }
    }
}

/// The message with which the Codex hook refuses a call; none where it lets the
/// call pass.
pub fn handle_codex_pretooluse(
    disabled: bool,
    input: Option<&str>,
    quiet: bool,
    binary: &str,
) -> (r: Option<String>)
    ensures
        text::opt_owned(r) == codex_refusal(disabled, text::opt_view(input), quiet, binary@),
{
    if disabled {
        return None;
    }
    match input {
        Some(text) => {
            let tool = match extract_json_field(text, "tool_name") {
                Some(t) => t,
                None => {
                    return None;
                },
            };
            if !text::same_text(tool.as_str(), "Bash") && !text::same_text(tool.as_str(), "bash") {
                return None;
            }
            match rewritten_command(text, binary) {
                Some(rewritten) => if quiet {
                    let mut m = String::new();
                    m.push_str("Re-run: ");
                    m.push_str(rewritten.as_str());
                    Some(m)
                } else {
                    Some(hook_output::codex_reroute_message(rewritten.as_str()))
                },
                None => None,
            }
        },
        None => None,
    }
}

/// The advice that a Codex session starts with, unless hooks are quiet.
pub fn handle_codex_session_start(quiet: bool) -> (r: Option<String>)
    ensures
        text::opt_owned(r) == (if quiet {
            None
        } else {
            Some(
                "For shell commands matched by lean-ctx compression rules, prefer `lean-ctx -c \"<command>\"`. If a Bash call is blocked, rerun it with the exact command suggested by the hook."@,
            )
        }),
{
    if quiet {
        None
    } else {
        Some(
            "For shell commands matched by lean-ctx compression rules, prefer `lean-ctx -c \"<command>\"`. If a Bash call is blocked, rerun it with the exact command suggested by the hook.".to_string(),
        )
    }
}

/// What the Copilot hook prints for the text that it read, if anything.
pub open spec fn copilot_print(
    disabled: bool,
    input: Option<Seq<char>>,
    binary: Seq<char>,
) -> Option<Seq<char>> {
    if disabled || input is None {
        None
    } else {
        match field_of(input->0, "tool_name"@) {
            Some(tool) => if is_copilot_shell(tool) {
                match text_command(input->0, binary) {
                    Some(rewritten) => Some(hook_output::emitted(rewritten)),
                    None => None,
                }
            } else {
                None
            },
            None => None,
        }
    }
}

/// What the Copilot hook prints for the text that it read, if anything.
pub fn handle_copilot(disabled: bool, input: Option<&str>, binary: &str) -> (r: Option<String>)
    ensures
        text::opt_owned(r) == copilot_print(disabled, text::opt_view(input), binary@),
{
    if disabled {
        return None;
    }
    match input {
        Some(text) => {
            let tool = match extract_json_field(text, "tool_name") {
                Some(t) => t,
                None => {
                    return None;
                },
            };
            if !shell_tool(tool.as_str()) || text::same_text(tool.as_str(), "Shell") {
                return None;
            }
            match rewritten_command(text, binary) {
                Some(rewritten) => Some(hook_output::emit_rewrite(rewritten.as_str())),
                None => None,
            }
        },
        None => None,
    }
}

/// What the inline hook prints for the arguments of its process: those from the
/// fourth on are the command, which is printed as it is where it is not
/// rewritten.
pub open spec fn inline_print(
    disabled: bool,
    args: Seq<Seq<char>>,
    binary: Seq<char>,
) -> Option<Seq<char>> {
    if disabled || args.len() < 4 {
        None
    } else {
        let cmd = text::join(args.skip(3), " "@);
        match hook_rewrite::candidate(cmd, binary) {
            Some(rewritten) => Some(rewritten),
            None => Some(cmd),
        }
    }
}

/// What the inline hook prints for the arguments of its process.
pub fn handle_rewrite_inline(disabled: bool, args: &[String], binary: &str) -> (r: Option<String>)
    ensures
        text::opt_owned(r) == inline_print(disabled, text::views(args@), binary@),
{
    if disabled || args.len() < 4 {
        return None;
    }
    let rest = slice_subrange(args, 3, args.len());
    proof {
        assert(text::views(rest@) =~= text::views(args@).skip(3));
    }
    let cmd = text::joined_text(rest, " ");
    match hook_rewrite::rewrite_candidate(cmd.as_str(), binary) {
        Some(rewritten) => Some(rewritten),
        None => Some(cmd),
    }
}

// ---------------------------------------------------------------- escaping and back
/// A text with a backslash ahead of each of its backslashes and quotes.
pub open spec fn escaped(s: Seq<char>) -> Seq<char>
    decreases s.len(),
{
    if s.len() == 0 {
        seq![]
    } else if s[0] == '\\' || s[0] == '"' {
        seq!['\\', s[0]] + escaped(s.skip(1))
    } else {
        seq![s[0]] + escaped(s.skip(1))
    }
}

/// A text with its backslashes doubled.
spec fn doubled(s: Seq<char>) -> Seq<char>
    decreases s.len(),
{
    if s.len() == 0 {
        seq![]
    } else if s[0] == '\\' {
        seq!['\\', '\\'] + doubled(s.skip(1))
    } else {
        seq![s[0]] + doubled(s.skip(1))
    }
}

proof fn lemma_replace_char(c: char, rest: Seq<char>, from: char, to: Seq<char>)
    ensures
        text::replace(seq![c] + rest, seq![from], to) == (if c == from {
            to
        } else {
            seq![c]
        }) + text::replace(rest, seq![from], to),
{
    let s = seq![c] + rest;
    assert(s.skip(1) =~= rest);
    assert(s.take(1) =~= seq![c]);
    assert(seq![c][0] == c && seq![from][0] == from);
}

proof fn lemma_replace_pair(s: Seq<char>, a: char, b: char, to: Seq<char>)
    requires
        s.len() > 0,
    ensures
        s.len() >= 2 && s[0] == a && s[1] == b ==> text::replace(s, seq![a, b], to) == to
            + text::replace(s.skip(2), seq![a, b], to),
        !(s.len() >= 2 && s[0] == a && s[1] == b) ==> text::replace(s, seq![a, b], to) == seq![s[0]]
            + text::replace(s.skip(1), seq![a, b], to),
{
    let pat = seq![a, b];
    if s.len() >= 2 {
        if s[0] == a && s[1] == b {
            assert(s.take(2) =~= pat);
        } else {
            assert(s.take(2)[0] == s[0] && s.take(2)[1] == s[1]);
            assert(pat[0] == a && pat[1] == b);
        }
    } else {
        assert(s =~= seq![s[0]] + s.skip(1));
    }
}

proof fn lemma_escaping(s: Seq<char>)
    ensures
        text::replace(text::replace(s, seq!['\\'], seq!['\\', '\\']), seq!['"'], seq!['\\', '"'])
            == escaped(s),
    decreases s.len(),
{
    let quote = seq!['\\', '"'];
    let slashes = seq!['\\', '\\'];
    if s.len() > 0 {
        let rest = s.skip(1);
        lemma_escaping(rest);
        assert(s =~= seq![s[0]] + rest);
        lemma_replace_char(s[0], rest, '\\', slashes);
        let inner = text::replace(rest, seq!['\\'], slashes);
        if s[0] == '\\' {
            let tail = seq!['\\'] + inner;
            assert(slashes + inner =~= seq!['\\'] + tail);
            lemma_replace_char('\\', tail, '"', quote);
            lemma_replace_char('\\', inner, '"', quote);
            assert(seq!['\\'] + (seq!['\\'] + escaped(rest)) =~= seq!['\\', '\\'] + escaped(rest));
        } else {
            lemma_replace_char(s[0], inner, '"', quote);
        }
    }
}

proof fn lemma_unescaping_quotes(s: Seq<char>)
    ensures
        text::replace(escaped(s), seq!['\\', '"'], seq!['"']) == doubled(s),
    decreases s.len(),
{
    let e = escaped(s);
    if s.len() > 0 {
        let rest = s.skip(1);
        let tail = escaped(rest);
        lemma_unescaping_quotes(rest);
        lemma_replace_pair(e, '\\', '"', seq!['"']);
        if s[0] == '\\' {
            let behind = seq!['\\'] + tail;
            assert(e.skip(1) =~= behind);
            assert(behind.skip(1) =~= tail);
            lemma_replace_pair(behind, '\\', '"', seq!['"']);
            assert(seq!['\\'] + (seq!['\\'] + doubled(rest)) =~= seq!['\\', '\\'] + doubled(rest));
        } else if s[0] == '"' {
            assert(e.skip(2) =~= tail);
        } else {
            assert(e.skip(1) =~= tail);
        }
    }
}

proof fn lemma_unescaping_slashes(s: Seq<char>)
    ensures
        text::replace(doubled(s), seq!['\\', '\\'], seq!['\\']) == s,
    decreases s.len(),
{
    let d = doubled(s);
    if s.len() > 0 {
        let rest = s.skip(1);
        let tail = doubled(rest);
        lemma_unescaping_slashes(rest);
        lemma_replace_pair(d, '\\', '\\', seq!['\\']);
        if s[0] == '\\' {
            assert(d.skip(2) =~= tail);
        } else {
            assert(d.skip(1) =~= tail);
        }
        assert(s =~= seq![s[0]] + rest);
    } else {
        assert(d =~= s);
    }
}

proof fn lemma_closing_quote(ahead: Seq<char>, s: Seq<char>, behind: Seq<char>)
    requires
        behind.len() > 0,
        behind[0] == '"',
    ensures
        closing_quote(ahead + escaped(s) + behind, ahead.len() as int) == Some(
            (ahead.len() + escaped(s).len()) as int,
        ),
    decreases s.len(),
{
    let all = ahead + escaped(s) + behind;
    let i = ahead.len() as int;
    if s.len() > 0 {
        let rest = s.skip(1);
        let tail = escaped(rest);
        if s[0] == '\\' || s[0] == '"' {
            let more = ahead + seq!['\\', s[0]];
            assert(all =~= more + tail + behind);
            assert(all[i] == '\\');
            lemma_closing_quote(more, rest, behind);
        } else {
            let more = ahead + seq![s[0]];
            assert(all =~= more + tail + behind);
            assert(all[i] == s[0]);
            lemma_closing_quote(more, rest, behind);
        }
    } else {
        assert(all[i] == '"');
    }
}

/// Whether no quote ahead of `n` is followed by a `c`.
spec fn no_quoted_c(s: Seq<char>, n: nat) -> bool
    decreases n,
{
    n == 0 || (no_quoted_c(s, (n - 1) as nat) && !(s[n - 1] == '"' && s[n as int] == 'c'))
}

proof fn lemma_no_quoted_c(s: Seq<char>, n: nat, i: int)
    requires
        no_quoted_c(s, n),
        0 <= i < n,
    ensures
        !(s[i] == '"' && s[i + 1] == 'c'),
    decreases n,
{
    if i < n - 1 {
        lemma_no_quoted_c(s, (n - 1) as nat, i);
    }
}

/// What the hook emits for a command is read back as the command.
pub proof fn law_emitted_command_is_read_back(command: Seq<char>)
    ensures
        field_of(hook_output::emitted(command), "command"@) == Some(command),
{
    let lead =
        "{\"hookSpecificOutput\":{\"hookEventName\":\"PreToolUse\",\"permissionDecision\":\"allow\",\"updatedInput\":{\"command\":\""@;
    let end = "\"}}}"@;
    let key = field_key("command"@);
    let input = hook_output::emitted(command);
    reveal_strlit(
        "{\"hookSpecificOutput\":{\"hookEventName\":\"PreToolUse\",\"permissionDecision\":\"allow\",\"updatedInput\":{\"command\":\"",
    );
    reveal_strlit("\"}}}");
    reveal_strlit("command");
    reveal_strlit("\"");
    reveal_strlit("\":");
    reveal_strlit("\\");
    reveal_strlit("\\\\");
    reveal_strlit("\\\"");
    assert("\\"@ =~= seq!['\\']);
    assert("\\\\"@ =~= seq!['\\', '\\']);
    assert("\""@ =~= seq!['"']);
    assert("\\\""@ =~= seq!['\\', '"']);
    lemma_escaping(command);
    let body = escaped(command);
    assert(input == lead + body + end);
    let at = lead.len() - 11;
    assert(key.len() == 10);
    assert(input.subrange(at, at + 10) =~= key);
    assert(no_quoted_c(lead, at as nat)) by {
        reveal_with_fuel(no_quoted_c, 120);
    }
    assert forall|j: int| 0 <= j < at implies !text::occurs_at(input, key, j) by {
        lemma_no_quoted_c(lead, at as nat, j);
        assert(key[0] == '"' && key[1] == 'c');
        let part = input.subrange(j, j + 10);
        assert(part[0] == lead[j] && part[1] == lead[j + 1]);
    }
    assert(text::first_at(input, key, at));
    let found = choose|i: int| text::first_at(input, key, i);
    lemma_first_at_unique(input, key, at, found);
    assert(text::occurs(input, key));
    let t = input.skip(at + 10);
    assert(t[0] == '"');
    text::lemma_run_len_is(t, text::spaces(), 0);
    assert(text::trim_start(t) =~= t);
    let rest = t.skip(1);
    assert(rest =~= Seq::<char>::empty() + body + end);
    lemma_closing_quote(Seq::<char>::empty(), command, end);
    assert(rest.take(body.len() as int) =~= body);
    lemma_unescaping_quotes(command);
    lemma_unescaping_slashes(command);
}

// ---------------------------------------------------------------- laws of paths and fields
proof fn lemma_replace_one(s: Seq<char>, a: char, b: char)
    ensures
        text::replace(s, seq![a], seq![b]) == Seq::new(
            s.len(),
            |i: int|
                if s[i] == a {
                    b
                } else {
                    s[i]
                },
        ),
    decreases s.len(),
{
    let r = Seq::new(
        s.len(),
        |i: int|
            if s[i] == a {
                b
            } else {
                s[i]
            },
    );
    if s.len() == 0 {
        assert(text::replace(s, seq![a], seq![b]) =~= r);
    } else {
        let rest = s.skip(1);
        lemma_replace_one(rest, a, b);
        lemma_replace_char(s[0], rest, a, seq![b]);
        assert(s =~= seq![s[0]] + rest);
        assert(text::replace(s, seq![a], seq![b]) =~= r);
    }
}

/// As bash writes a path each backslash is a slash; a drive letter and its colon become a
/// slash and the small letter, and nothing else changes.
pub proof fn law_bash_path(path: Seq<char>)
    ensures
        ({
            let p = Seq::new(
                path.len(),
                |i: int|
                    if path[i] == '\\' {
                        '/'
                    } else {
                        path[i]
                    },
            );
            let drive = path.len() >= 2 && path[1] == ':' && ('a' <= path[0] <= 'z' || 'A' <= path[0]
                <= 'Z');
            &&& !drive ==> bash_path(path) == p
            &&& drive ==> bash_path(path) == seq!['/'] + text::ascii_lower(path.take(1)) + p.skip(2)
        }),
{
    reveal_strlit("\\");
    reveal_strlit("/");
    assert("\\"@ =~= seq!['\\']);
    assert("/"@ =~= seq!['/']);
    lemma_replace_one(path, '\\', '/');
    let p = text::replace(path, "\\"@, "/"@);
    assert(is_drive(p) <==> is_drive(path));
    if is_drive(path) {
        assert(text::ascii_lower(path.take(1)) =~= seq![text::ascii_lower_char(p[0])]);
    }
}

/// A field is read where it stands first: the text between the quotes behind its name and
/// the colon, with its escapes undone, however many blanks stand between. It is not read
/// where something else than a text follows, or where it does not stand at all.
pub proof fn law_field_is_read(
    before: Seq<char>,
    field: Seq<char>,
    gap: Seq<char>,
    value: Seq<char>,
    rest: Seq<char>,
    other: Seq<char>,
)
    requires
        text::is_blank(gap),
        other.len() == 0 || (!text::is_space(other[0]) && other[0] != '"'),
    ensures
        ({
            let key = "\""@ + field + "\":"@;
            let input = before + key + gap + seq!['"'] + escaped(value) + seq!['"'] + rest;
            (forall|j: int| 0 <= j < before.len() ==> !text::occurs_at(input, key, j)) ==> field_of(
                input,
                field,
            ) == Some(value)
        }),
        ({
            let key = "\""@ + field + "\":"@;
            let input = before + key + gap + other;
            (forall|j: int| 0 <= j < before.len() ==> !text::occurs_at(input, key, j)) ==> field_of(
                input,
                field,
            ) is None
        }),
        !text::occurs(before, "\""@ + field + "\":"@) ==> field_of(before, field) is None,
{
    let key = "\""@ + field + "\":"@;
    let input = before + key + gap + seq!['"'] + escaped(value) + seq!['"'] + rest;
    let k = before.len() as int;
    reveal_strlit("\"");
    reveal_strlit("\\");
    reveal_strlit("\\\\");
    reveal_strlit("\\\"");
    assert("\\"@ =~= seq!['\\']);
    assert("\\\\"@ =~= seq!['\\', '\\']);
    assert("\""@ =~= seq!['"']);
    assert("\\\""@ =~= seq!['\\', '"']);
    if forall|j: int| 0 <= j < before.len() ==> !text::occurs_at(input, key, j) {
        assert(input.subrange(k, k + key.len()) =~= key);
        assert(text::first_at(input, key, k));
        let found = choose|i: int| text::first_at(input, key, i);
        lemma_first_at_unique(input, key, k, found);
        let t = input.skip(k + key.len());
        let body = escaped(value);
        let end = seq!['"'] + rest;
        let inner = seq!['"'] + body + end;
        assert(t =~= gap + inner);
        lemma_behind_gap(gap, inner);
        let u = inner.skip(1);
        assert(u =~= Seq::<char>::empty() + body + end);
        lemma_closing_quote(Seq::<char>::empty(), value, end);
        assert(u.take(body.len() as int) =~= body);
        lemma_unescaping_quotes(value);
        lemma_unescaping_slashes(value);
    }
    let bare = before + key + gap + other;
    if forall|j: int| 0 <= j < before.len() ==> !text::occurs_at(bare, key, j) {
        assert(bare.subrange(k, k + key.len()) =~= key);
        assert(text::first_at(bare, key, k));
        let found = choose|i: int| text::first_at(bare, key, i);
        lemma_first_at_unique(bare, key, k, found);
        assert(bare.skip(k + key.len()) =~= gap + other);
        lemma_behind_gap(gap, other);
    }
}

proof fn lemma_behind_gap(gap: Seq<char>, s: Seq<char>)
    requires
        text::is_blank(gap),
        s.len() > 0 ==> !text::is_space(s[0]),
    ensures
        text::trim_start(gap + s) == s,
{
    let t = gap + s;
    let n = gap.len() as int;
    assert forall|i: int| 0 <= i < n implies text::spaces()(#[trigger] t[i]) by {
        assert(t[i] == gap[i]);
    }
    if n < t.len() {
        assert(t[n] == s[0]);
    }
    text::lemma_run_len_is(t, text::spaces(), n);
    assert(t.skip(n) =~= s);
}

/// What passes through: a path that holds one of these names, or has one of these
/// extensions, and no other.
pub proof fn law_passes_through(p: Seq<char>)
    ensures
        passes_through(p) <==> {
            let holds = |name: Seq<char>|
                exists|k: int| #[trigger] text::occurs_at(p, name, k);
            let ends = |e: Seq<char>|
                match paths::extension(p) {
                    Some(x) => text::ascii_lower(x) == e,
                    None => false,
                };
            ||| holds(".cursorrules"@)
            ||| holds(".cursor/rules"@)
            ||| holds(".cursor/hooks"@)
            ||| holds("skill.md"@)
            ||| holds("agents.md"@)
            ||| holds(".env"@)
            ||| holds("hooks.json"@)
            ||| holds("node_modules"@)
            ||| ends("lock"@)
            ||| ends("png"@)
            ||| ends("jpg"@)
            ||| ends("jpeg"@)
            ||| ends("gif"@)
            ||| ends("webp"@)
            ||| ends("pdf"@)
            ||| ends("ico"@)
            ||| ends("svg"@)
            ||| ends("woff"@)
            ||| ends("woff2"@)
            ||| ends("ttf"@)
            ||| ends("eot"@)
        },
{
}

// ---------------------------------------------------------------- laws of the hooks
/// Whether a tool is a shell to the rewriting hook.
pub open spec fn names_shell(tool: Seq<char>) -> bool {
    tool == "Bash"@ || tool == "bash"@ || tool == "Shell"@ || tool == "shell"@ || tool
        == "runInTerminal"@ || tool == "run_in_terminal"@ || tool == "terminal"@
}

/// The rewriting hook answers a shell call with a command: with the command rewritten in
/// the tool's input, the rest of which stays as it is, or with leave to run it as it
/// stands. A call of another tool, and one without a command, it does not answer.
pub proof fn law_rewrite_reply(
    payload: Map<Seq<char>, JsonTree>,
    tool: Seq<char>,
    input: Map<Seq<char>, JsonTree>,
    cmd: Seq<char>,
    binary: Seq<char>,
)
    requires
        payload.contains_key("tool_name"@),
        payload["tool_name"@] == JsonTree::Text(tool),
        payload.contains_key("tool_input"@),
        payload["tool_input"@] == JsonTree::Object(input),
        input.contains_key("command"@),
        input["command"@] == JsonTree::Text(cmd),
    ensures
        ({
            let reply = rewrite_reply_tree(JsonTree::Object(payload), binary);
            let command = "command"@;
            let none = Map::<Seq<char>, JsonTree>::empty();
            let allowed = none.insert("hookEventName"@, JsonTree::Text("PreToolUse"@)).insert(
                "permissionDecision"@,
                JsonTree::Text("allow"@),
            );
            &&& !names_shell(tool) ==> reply is None
            &&& names_shell(tool) ==> match hook_rewrite::candidate(cmd, binary) {
                Some(rewritten) => reply == Some(
                    JsonTree::Object(
                        none.insert("permission"@, JsonTree::Text("allow"@)).insert(
                            "updated_input"@,
                            JsonTree::Object(input.insert(command, JsonTree::Text(rewritten))),
                        ).insert(
                            "hookSpecificOutput"@,
                            JsonTree::Object(
                                allowed.insert(
                                    "updatedInput"@,
                                    JsonTree::Object(
                                        none.insert(command, JsonTree::Text(rewritten)),
                                    ),
                                ),
                            ),
                        ),
                    ),
                ),
                None => reply == Some(
                    JsonTree::Object(
                        none.insert("permission"@, JsonTree::Text("allow"@)).insert(
                            "hookSpecificOutput"@,
                            JsonTree::Object(allowed),
                        ),
                    ),
                ),
            }
        }),
{
}

/// The command is that of the tool's input, and where that has none, that of the payload;
/// without one, or without the name of a tool, there is no answer.
pub proof fn law_payload_command(payload: JsonTree, cmd: Seq<char>, binary: Seq<char>)
    ensures
        json::text_of_tree(json::member_of(json::member(payload, "tool_input"@), "command"@))
            == Some(cmd) ==> payload_command(payload) == Some(cmd),
        json::text_of_tree(json::member_of(json::member(payload, "tool_input"@), "command"@)) is None
            ==> payload_command(payload) == json::text_of_tree(json::member(payload, "command"@)),
        payload_command(payload) is None ==> rewrite_reply_tree(payload, binary) is None,
        json::text_of_tree(json::member(payload, "tool_name"@)) is None ==> rewrite_reply_tree(
            payload,
            binary,
        ) is None,
{
}

/// The rewriting hook prints nothing where it is disabled or has no input, denies what is
/// no JSON, and else prints its answer to the payload.
pub proof fn law_rewrite_print(input: Seq<char>, binary: Seq<char>)
    ensures
        rewrite_print(true, Some(input), binary) is None,
        rewrite_print(true, None, binary) is None,
        rewrite_print(false, None, binary) is None,
        json::json_parse(input) is Err ==> rewrite_print(false, Some(input), binary) == Some(
            json::json_text(hook_output::deny_tree("invalid JSON hook payload"@)),
        ),
        json::json_parse(input) is Ok ==> (match rewrite_reply_tree(
            json::json_parse(input)->Ok_0,
            binary,
        ) {
            Some(t) => rewrite_print(false, Some(input), binary) == Some(json::json_text(t)),
            None => rewrite_print(false, Some(input), binary) is None,
        }),
{
}

/// The Codex hook refuses a call of `Bash` or `bash` whose command is rewritten, with the
/// command to run instead, and lets every other call pass.
pub proof fn law_codex(input: Seq<char>, tool: Seq<char>, cmd: Seq<char>, binary: Seq<char>)
    ensures
        codex_refusal(true, Some(input), true, binary) is None,
        codex_refusal(true, Some(input), false, binary) is None,
        codex_refusal(false, None, false, binary) is None,
        field_of(input, "tool_name"@) is None ==> codex_refusal(false, Some(input), false, binary) is None,
        field_of(input, "command"@) is None ==> codex_refusal(false, Some(input), false, binary) is None,
        field_of(input, "tool_name"@) == Some(tool) && tool != "Bash"@ && tool != "bash"@
            ==> codex_refusal(false, Some(input), false, binary) is None && codex_refusal(
            false,
            Some(input),
            true,
            binary,
        ) is None,
        (field_of(input, "tool_name"@) == Some("Bash"@) || field_of(input, "tool_name"@) == Some(
            "bash"@,
        )) && field_of(input, "command"@) == Some(cmd) ==> (match hook_rewrite::candidate(
            cmd,
            binary,
        ) {
            Some(rewritten) => codex_refusal(false, Some(input), false, binary) == Some(
                "Command should run via lean-ctx for compact output. Do not retry the original command. Re-run with: "@
                    + rewritten,
            ) && codex_refusal(false, Some(input), true, binary) == Some(
                "Re-run: "@ + rewritten,
            ),
            None => codex_refusal(false, Some(input), false, binary) is None && codex_refusal(
                false,
                Some(input),
                true,
                binary,
            ) is None,
        }),
{
}

/// The Copilot hook answers a shell call whose command is rewritten, and nothing else.
pub proof fn law_copilot(input: Seq<char>, tool: Seq<char>, cmd: Seq<char>, binary: Seq<char>)
    ensures
        copilot_print(true, Some(input), binary) is None,
        copilot_print(false, None, binary) is None,
        field_of(input, "tool_name"@) is None || field_of(input, "command"@) is None
            ==> copilot_print(false, Some(input), binary) is None,
        field_of(input, "tool_name"@) == Some(tool) && field_of(input, "command"@) == Some(cmd) ==> {
            let shell = tool == "Bash"@ || tool == "bash"@ || tool == "shell"@ || tool
                == "runInTerminal"@ || tool == "run_in_terminal"@ || tool == "terminal"@;
            match hook_rewrite::candidate(cmd, binary) {
                Some(rewritten) => copilot_print(false, Some(input), binary) == (if shell {
                    Some(
                        "{\"hookSpecificOutput\":{\"hookEventName\":\"PreToolUse\",\"permissionDecision\":\"allow\",\"updatedInput\":{\"command\":\""@
                            + escaped(rewritten) + "\"}}}"@,
                    )
                } else {
                    None
                }),
                None => copilot_print(false, Some(input), binary) is None,
            }
        },
{
    reveal_strlit("Shell");
    reveal_strlit("shell");
    reveal_strlit("Bash");
    reveal_strlit("bash");
    reveal_strlit("runInTerminal");
    reveal_strlit("run_in_terminal");
    reveal_strlit("terminal");
    assert("Shell"@.len() == 5 && "Shell"@[0] == 'S');
    assert("shell"@[0] == 's' && "Bash"@[0] == 'B' && "bash"@[0] == 'b');
    assert("runInTerminal"@[0] == 'r' && "run_in_terminal"@[0] == 'r' && "terminal"@[0] == 't');
    reveal_strlit("\\");
    reveal_strlit("\\\\");
    reveal_strlit("\"");
    reveal_strlit("\\\"");
    assert("\\"@ =~= seq!['\\']);
    assert("\\\\"@ =~= seq!['\\', '\\']);
    assert("\""@ =~= seq!['"']);
    assert("\\\""@ =~= seq!['\\', '"']);
    match field_of(input, "command"@) {
        Some(c) => match hook_rewrite::candidate(c, binary) {
            Some(rewritten) => lemma_escaping(rewritten),
            None => {},
        },
        None => {},
    }
}

/// The inline hook prints the command that its arguments from the fourth on make, set
/// apart by one space, rewritten where it can be and else as it stands.
pub proof fn law_inline(
    a: Seq<char>,
    b: Seq<char>,
    c: Seq<char>,
    words: Seq<Seq<char>>,
    binary: Seq<char>,
)
    ensures
        inline_print(true, seq![a, b, c] + words, binary) is None,
        words.len() == 0 ==> inline_print(false, seq![a, b, c] + words, binary) is None,
        inline_print(false, seq![a, b], binary) is None,
        words.len() > 0 ==> inline_print(false, seq![a, b, c] + words, binary) == (
        match hook_rewrite::candidate(text::join(words, " "@), binary) {
            Some(rewritten) => Some(rewritten),
            None => Some(text::join(words, " "@)),
        }),
{
    assert((seq![a, b, c] + words).skip(3) =~= words);
}

/// Escaping puts a backslash ahead of each backslash and quote, and changes nothing else.
pub proof fn law_escaped(s: Seq<char>, c: char)
    ensures
        escaped(Seq::<char>::empty()).len() == 0,
        c == '\\' || c == '"' ==> escaped(seq![c] + s) == seq!['\\', c] + escaped(s),
        c != '\\' && c != '"' ==> escaped(seq![c] + s) == seq![c] + escaped(s),
{
    assert((seq![c] + s).skip(1) =~= s);
}

} // verus!
