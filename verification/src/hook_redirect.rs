//! Redirects reads and searches of a host through the binary.
//!
//! The hook decides by [`handle_redirect`], runs the binary if it has to, and
//! replies by [`redirect_reply`].
use vstd::prelude::*;

use crate::hook_handlers;
use crate::hook_output;
use crate::json;
use crate::json::{Json, JsonTree};
use crate::text;

verus! {

/// What the redirecting hook does next.
pub enum RedirectStep {
    /// Print nothing.
    Silent,
    /// Print this reply.
    Reply(String),
    /// Run the binary with these arguments, keep its output under this key, and
    /// reply with the tool's input.
    Run { args: Vec<String>, key: String, tool_input: Option<Json> },
}

/// The meaning of a [`RedirectStep`].
pub enum RedirectPlan {
    Silent,
    Reply(Seq<char>),
    Run { args: Seq<Seq<char>>, key: Seq<char>, tool_input: Option<JsonTree> },
}

impl View for RedirectStep {
    type V = RedirectPlan;

    open spec fn view(&self) -> RedirectPlan {
        match *self {
            RedirectStep::Silent => RedirectPlan::Silent,
            RedirectStep::Reply(s) => RedirectPlan::Reply(s@),
            RedirectStep::Run { args, key, tool_input } => RedirectPlan::Run {
                args: text::views(args@),
                key: key@,
                tool_input: hook_output::opt_json(tool_input),
            },
        }
    }
}

pub open spec fn allow_plan() -> RedirectPlan {
    RedirectPlan::Reply(json::json_text(hook_output::allow_tree()))
}

pub open spec fn text_or(t: Option<Seq<char>>, default_text: Seq<char>) -> Seq<char> {
    match t {
        Some(s) => s,
        None => default_text,
    }
}

/// The text of a field of the tool's input, or the default.
pub open spec fn input_field(
    tool_input: Option<JsonTree>,
    field: Seq<char>,
    default_text: Seq<char>,
) -> Seq<char> {
    text_or(json::text_of_tree(json::member_of(tool_input, field)), default_text)
}

/// A read of a path, unless the path is read as it is.
pub open spec fn read_plan(tool_input: Option<JsonTree>) -> RedirectPlan {
    let path = input_field(tool_input, "path"@, Seq::<char>::empty());
    if path.len() == 0 || hook_handlers::passes_through(text::lowercase(path)) {
        allow_plan()
    } else {
        RedirectPlan::Run { args: seq!["read"@, path], key: path, tool_input }
    }
}

pub open spec fn grep_key(pattern: Seq<char>, path: Seq<char>) -> Seq<char> {
    "grep:"@ + pattern + ":"@ + path
}

/// A search for a pattern, by default in the current directory.
pub open spec fn grep_plan(tool_input: Option<JsonTree>) -> RedirectPlan {
    let pattern = input_field(tool_input, "pattern"@, Seq::<char>::empty());
    let path = input_field(tool_input, "path"@, "."@);
    if pattern.len() == 0 {
        allow_plan()
    } else {
        RedirectPlan::Run {
            args: seq!["grep"@, pattern, path],
            key: grep_key(pattern, path),
            tool_input,
        }
    }
}

pub open spec fn is_read_tool(tool: Seq<char>) -> bool {
    tool == "Read"@ || tool == "read"@ || tool == "read_file"@
}

pub open spec fn is_grep_tool(tool: Seq<char>) -> bool {
    tool == "Grep"@ || tool == "grep"@ || tool == "search"@ || tool == "ripgrep"@
}

/// What the hook does with a payload.
pub open spec fn payload_plan(payload: JsonTree) -> RedirectPlan {
    let tool = text_or(
        json::text_of_tree(json::member(payload, "tool_name"@)),
        Seq::<char>::empty(),
    );
    let tool_input = json::member(payload, "tool_input"@);
    if is_read_tool(tool) {
        read_plan(tool_input)
    } else if is_grep_tool(tool) {
        grep_plan(tool_input)
    } else {
        allow_plan()
    }
}

/// What the hook does with the text that it read.
pub open spec fn redirect_plan(disabled: bool, input: Option<Seq<char>>) -> RedirectPlan {
    if disabled {
        allow_plan()
    } else {
        match input {
            Some(s) => match json::json_parse(s) {
                Ok(payload) => payload_plan(payload),
                Err(_) => RedirectPlan::Reply(
                    json::json_text(hook_output::deny_tree("invalid JSON hook payload"@)),
                ),
            },
            None => RedirectPlan::Silent,
        }
    }
}

fn field_text(tool_input: Option<&Json>, field: &str, default_text: &str) -> (r: String)
    ensures
        r@ == input_field(json::opt_tree(tool_input), field@, default_text@),
{
    match json::as_text(json::get(tool_input, field)) {
        Some(s) => s.to_string(),
        None => default_text.to_string(),
    }
}

fn borrowed(j: &Option<Json>) -> (r: Option<&Json>)
    ensures
        json::opt_tree(r) == hook_output::opt_json(*j),
{
    match j {
        Some(v) => Some(v),
        None => None,
    }
}

/// A read of a path, unless the path is read as it is.
pub fn redirect_read(tool_input: Option<Json>) -> (r: RedirectStep)
    ensures
        r@ == read_plan(hook_output::opt_json(tool_input)),
{
    let path = field_text(borrowed(&tool_input), "path", "");
    proof {
        reveal_strlit("");
        assert(""@ =~= Seq::<char>::empty());
    }
    if path.as_str().is_empty() || hook_handlers::should_passthrough(path.as_str()) {
        return RedirectStep::Reply(hook_output::build_dual_allow_output());
    }
    let mut args: Vec<String> = Vec::new();
    args.push("read".to_string());
    args.push(path.clone());
    proof {
        assert(text::views(args@) =~= seq!["read"@, path@]);
    }
    RedirectStep::Run { args, key: path, tool_input }
}

/// A search for a pattern, by default in the current directory.
pub fn redirect_grep(tool_input: Option<Json>) -> (r: RedirectStep)
    ensures
        r@ == grep_plan(hook_output::opt_json(tool_input)),
{
    let pattern = field_text(borrowed(&tool_input), "pattern", "");
    let path = field_text(borrowed(&tool_input), "path", ".");
    proof {
        reveal_strlit("");
        assert(""@ =~= Seq::<char>::empty());
    }
    if pattern.as_str().is_empty() {
        return RedirectStep::Reply(hook_output::build_dual_allow_output());
    }
    let mut key = String::new();
    key.push_str("grep:");
    key.push_str(pattern.as_str());
    key.push_str(":");
    key.push_str(path.as_str());
    proof {
        assert(key@ =~= grep_key(pattern@, path@));
    }
    let ghost pattern_text = pattern@;
    let ghost path_text = path@;
    let mut args: Vec<String> = Vec::new();
    args.push("grep".to_string());
    args.push(pattern);
    args.push(path);
    proof {
        assert(text::views(args@) =~= seq!["grep"@, pattern_text, path_text]);
    }
    RedirectStep::Run { args, key, tool_input }
}

/// What the hook does with a payload.
pub fn redirect_payload(payload: Json) -> (r: RedirectStep)
    ensures
        r@ == payload_plan(payload.tree()),
{
    let tool = match json::as_text(json::get(Some(&payload), "tool_name")) {
        Some(t) => t.to_string(),
        None => String::new(),
    };
    let t = tool.as_str();
    if text::same_text(t, "Read") || text::same_text(t, "read") || text::same_text(t, "read_file") {
        redirect_read(hook_handlers::take_member(payload, "tool_input"))
    } else if text::same_text(t, "Grep") || text::same_text(t, "grep") || text::same_text(
        t,
        "search",
    ) || text::same_text(t, "ripgrep") {
        redirect_grep(hook_handlers::take_member(payload, "tool_input"))
    } else {
        RedirectStep::Reply(hook_output::build_dual_allow_output())
    }
}

/// What the hook does with the text that it read.
pub fn handle_redirect(disabled: bool, input: Option<&str>) -> (r: RedirectStep)
    ensures
        r@ == redirect_plan(disabled, text::opt_view(input)),
{
    if disabled {
        return RedirectStep::Reply(hook_output::build_dual_allow_output());
    }
    match input {
        Some(s) => match json::parse_json(s) {
            Ok(payload) => redirect_payload(payload),
            Err(_) => RedirectStep::Reply(
                hook_output::build_dual_deny_output("invalid JSON hook payload"),
            ),
        },
        None => RedirectStep::Silent,
    }
}

/// The reply once the binary has run: the tool's input with its path set to the
/// file that holds the output, or the plain permission where there is none.
pub fn redirect_reply(tool_input: Option<Json>, stored: Option<&str>) -> (r: String)
    ensures
        r@ == json::json_text(
            match stored {
                Some(path) => hook_output::update_tree(
                    hook_output::opt_json(tool_input),
                    "path"@,
                    path@,
                ),
                None => hook_output::allow_tree(),
            },
        ),
{
    match stored {
        Some(path) => hook_output::build_redirect_output(tool_input, "path", path),
        None => hook_output::build_dual_allow_output(),
    }
}

// ---------------------------------------------------------------- the child process
/// What a look at the child process showed.
#[derive(Clone, Copy, PartialEq, Eq, Debug, Structural)]
pub enum ChildState {
    Succeeded,
    Failed,
    Running,
}

/// What to do with the child process.
#[derive(Clone, Copy, PartialEq, Eq, Debug, Structural)]
pub enum ChildAction {
    /// Take its output.
    Collect,
    /// Give up on it.
    GiveUp,
    /// Kill it and give up on it.
    Kill,
    /// Look again a little later.
    Wait,
}

/// What to do with a child process: collect its output once it has succeeded,
/// give up once it has failed, and kill it where it runs past the deadline.
pub fn child_action(state: ChildState, past_deadline: bool) -> (r: ChildAction)
    ensures
        state == ChildState::Succeeded ==> r == ChildAction::Collect,
        state == ChildState::Failed ==> r == ChildAction::GiveUp,
        state == ChildState::Running && past_deadline ==> r == ChildAction::Kill,
        state == ChildState::Running && !past_deadline ==> r == ChildAction::Wait,
{
    match state {
        ChildState::Succeeded => ChildAction::Collect,
        ChildState::Failed => ChildAction::GiveUp,
        ChildState::Running => if past_deadline {
            ChildAction::Kill
        } else {
            ChildAction::Wait
        },
    }
}

/// The output of a child process, unless it printed nothing.
pub fn collected(stdout: Vec<u8>) -> (r: Option<Vec<u8>>)
    ensures
        r == (if stdout@.len() == 0 {
            None
        } else {
            Some(stdout)
        }),
{
    if stdout.len() == 0 {
        None
    } else {
        Some(stdout)
    }
}

// ---------------------------------------------------------------- the temporary file
pub open spec fn hex_digit(d: int) -> char {
    if d < 10 {
        ('0' as int + d) as char
    } else {
        ('a' as int + d - 10) as char
    }
}

/// The last `count` hexadecimal digits of `n`.
pub open spec fn hex_digits(n: nat, count: nat) -> Seq<char>
    decreases count,
{
    if count == 0 {
        seq![]
    } else {
        hex_digits(n / 16, (count - 1) as nat).push(hex_digit((n % 16) as int))
    }
}

fn hex_text(n: u64, count: usize) -> (r: String)
    ensures
        r@ == hex_digits(n as nat, count as nat),
    decreases count,
{
    if count == 0 {
        String::new()
    } else {
        let mut out = hex_text(n / 16, count - 1);
        let d = (n % 16) as u8;
        if d < 10 {
            out.push((48u8 + d) as char);
        } else {
            out.push((87u8 + d) as char);
        }
        out
    }
}

/// The name of the file that keeps the output under a key with this hash: its
/// hexadecimal digits, all of them, and the extension.
pub fn redirect_temp_name(hash: u64) -> (r: String)
    ensures
        r@ == hex_digits(hash as nat, 16) + ".lctx"@,
{
    let mut out = hex_text(hash, 16);
    out.push_str(".lctx");
    out
}

// ---------------------------------------------------------------- laws
/// A read of a path that does not pass through runs `read` on that path; without a path,
/// or with one that passes through, the call is allowed as it stands.
pub proof fn law_read_is_redirected(
    payload: Map<Seq<char>, JsonTree>,
    tool: Seq<char>,
    input: Map<Seq<char>, JsonTree>,
    path: Seq<char>,
)
    requires
        payload.contains_key("tool_name"@),
        payload["tool_name"@] == JsonTree::Text(tool),
        tool == "Read"@ || tool == "read"@ || tool == "read_file"@,
        payload.contains_key("tool_input"@),
        payload["tool_input"@] == JsonTree::Object(input),
    ensures
        input.contains_key("path"@) && input["path"@] == JsonTree::Text(path) && path.len() > 0
            && !hook_handlers::passes_through(text::lowercase(path)) ==> payload_plan(
            JsonTree::Object(payload),
        ) == (RedirectPlan::Run {
            args: seq!["read"@, path],
            key: path,
            tool_input: Some(JsonTree::Object(input)),
        }),
        input.contains_key("path"@) && input["path"@] == JsonTree::Text(path) && (path.len() == 0
            || hook_handlers::passes_through(text::lowercase(path))) ==> payload_plan(
            JsonTree::Object(payload),
        ) == RedirectPlan::Reply(json::json_text(hook_output::allow_tree())),
        !input.contains_key("path"@) ==> payload_plan(JsonTree::Object(payload))
            == RedirectPlan::Reply(json::json_text(hook_output::allow_tree())),
{
}

/// A search for a pattern runs `grep` for it in the path that is named or in the current
/// directory; its output is kept under both. Without a pattern the call is allowed as it
/// stands.
pub proof fn law_search_is_redirected(
    payload: Map<Seq<char>, JsonTree>,
    tool: Seq<char>,
    input: Map<Seq<char>, JsonTree>,
    pattern: Seq<char>,
    path: Seq<char>,
)
    requires
        payload.contains_key("tool_name"@),
        payload["tool_name"@] == JsonTree::Text(tool),
        tool == "Grep"@ || tool == "grep"@ || tool == "search"@ || tool == "ripgrep"@,
        payload.contains_key("tool_input"@),
        payload["tool_input"@] == JsonTree::Object(input),
        (input.contains_key("path"@) && input["path"@] == JsonTree::Text(path)) || (
        !input.contains_key("path"@) && path == "."@),
    ensures
        input.contains_key("pattern"@) && input["pattern"@] == JsonTree::Text(pattern)
            && pattern.len() > 0 ==> payload_plan(JsonTree::Object(payload)) == (RedirectPlan::Run {
            args: seq!["grep"@, pattern, path],
            key: "grep:"@ + pattern + ":"@ + path,
            tool_input: Some(JsonTree::Object(input)),
        }),
        !input.contains_key("pattern"@) ==> payload_plan(JsonTree::Object(payload))
            == RedirectPlan::Reply(json::json_text(hook_output::allow_tree())),
        input.contains_key("pattern"@) && input["pattern"@] == JsonTree::Text(pattern)
            && pattern.len() == 0 ==> payload_plan(JsonTree::Object(payload))
            == RedirectPlan::Reply(json::json_text(hook_output::allow_tree())),
{
    reveal_strlit("Read");
    reveal_strlit("read");
    reveal_strlit("read_file");
    reveal_strlit("Grep");
    reveal_strlit("grep");
    reveal_strlit("search");
    reveal_strlit("ripgrep");
    assert("Read"@.len() == 4 && "Read"@[0] == 'R' && "read"@.len() == 4 && "read"@[0] == 'r');
    assert("read_file"@.len() == 9);
    assert("Grep"@[0] == 'G' && "grep"@[0] == 'g' && "search"@.len() == 6 && "ripgrep"@.len() == 7);
}

/// Any other call is allowed as it stands; so is every call where the hook is disabled. What
/// is no JSON is denied, and where nothing was read nothing is printed.
pub proof fn law_other_calls(payload: JsonTree, tool: Seq<char>, input: Seq<char>)
    ensures
        json::text_of_tree(json::member(payload, "tool_name"@)) == Some(tool) && tool != "Read"@
            && tool != "read"@ && tool != "read_file"@ && tool != "Grep"@ && tool != "grep"@ && tool
            != "search"@ && tool != "ripgrep"@ ==> payload_plan(payload) == RedirectPlan::Reply(
            json::json_text(hook_output::allow_tree()),
        ),
        redirect_plan(true, Some(input)) == RedirectPlan::Reply(
            json::json_text(hook_output::allow_tree()),
        ),
        redirect_plan(true, None) == RedirectPlan::Reply(
            json::json_text(hook_output::allow_tree()),
        ),
        redirect_plan(false, None) == RedirectPlan::Silent,
        json::json_parse(input) is Err ==> redirect_plan(false, Some(input)) == RedirectPlan::Reply(
            json::json_text(hook_output::deny_tree("invalid JSON hook payload"@)),
        ),
        json::json_parse(input) is Ok ==> redirect_plan(false, Some(input)) == payload_plan(
            json::json_parse(input)->Ok_0,
        ),
{
}

/// The hexadecimal digits of a number: the last is the one of its remainder by sixteen, and
/// those ahead of it are the digits of the quotient; numbers with as many digits that
/// differ have different digits.
pub proof fn law_hex_digits(n: nat, count: nat, m: nat)
    ensures
        hex_digits(n, count).len() == count,
        hex_digits(n, 0).len() == 0,
        hex_digits(n, count + 1) == hex_digits(n / 16, count).push("0123456789abcdef"@[n as int % 16]),
        n < 0x1_0000_0000_0000_0000 && m < 0x1_0000_0000_0000_0000 && hex_digits(n, 16) == hex_digits(
            m,
            16,
        ) ==> n == m,
    decreases count,
{
    reveal_strlit("0123456789abcdef");
    if count > 0 {
        law_hex_digits(n / 16, (count - 1) as nat, m);
    }
    if n < 0x1_0000_0000_0000_0000 && m < 0x1_0000_0000_0000_0000 && hex_digits(n, 16)
        == hex_digits(m, 16) {
        assert(power_of_sixteen(16) == 0x1_0000_0000_0000_0000) by {
            reveal_with_fuel(power_of_sixteen, 17);
        }
        lemma_hex_apart(n, m, 16);
    }
}

/// Sixteen times itself, `count` times.
spec fn power_of_sixteen(count: nat) -> nat
    decreases count,
{
    if count == 0 {
        1
    } else {
        16 * power_of_sixteen((count - 1) as nat)
    }
}

proof fn lemma_hex_apart(n: nat, m: nat, count: nat)
    requires
        n < power_of_sixteen(count),
        m < power_of_sixteen(count),
        hex_digits(n, count) == hex_digits(m, count),
    ensures
        n == m,
    decreases count,
{
    if count > 0 {
        let a = hex_digits(n / 16, (count - 1) as nat);
        let b = hex_digits(m / 16, (count - 1) as nat);
        assert(hex_digits(n, count).drop_last() =~= a);
        assert(hex_digits(m, count).drop_last() =~= b);
        assert(hex_digits(n, count).last() == hex_digit((n % 16) as int));
        assert(hex_digits(m, count).last() == hex_digit((m % 16) as int));
        assert(n % 16 == m % 16);
        lemma_hex_apart(n / 16, m / 16, (count - 1) as nat);
    }
}

} // verus!
