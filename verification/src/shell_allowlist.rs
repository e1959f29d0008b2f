//! Shell allowlist over compound commands.
//!
//! - With a non-empty allowlist every segment of a compound command must be
//!   allowed, and `eval`, backticks, `$(...)` and subshells are refused.
//! - With an empty allowlist every command passes.
use vstd::prelude::*;
use vstd::slice::slice_subrange;
use vstd::string::StrSliceExecFns;

use crate::compound_lexer;
use crate::compound_lexer::{Backslash, Quote};
use crate::text;

verus! {

/// The segments of a command: its stretches between the operators.
pub open spec fn segments(command: Seq<char>) -> Seq<Seq<char>> {
    compound_lexer::piece_texts(compound_lexer::command_pieces(Backslash::Ignored, command))
}

/// Whether a word assigns an environment variable.
pub open spec fn is_assignment(word: Seq<char>) -> bool {
    &&& word.contains('=')
    &&& word[0] != '-'
    &&& word[0] != '/'
    &&& word[0] != '.'
}

/// `s` behind its leading assignments of environment variables.
pub open spec fn past_assignments(s: Seq<char>) -> Seq<char>
    decreases s.len(),
    when true
    via past_assignments_decreases
{
    let word = text::first_word(s);
    if is_assignment(word) {
        past_assignments(text::trim_start(text::trim_start(s).skip(word.len() as int)))
    } else {
        s
    }
}

#[via_fn]
proof fn past_assignments_decreases(s: Seq<char>) {
    lemma_past_word_shorter(s);
}

proof fn lemma_past_word_shorter(s: Seq<char>)
    ensures
        text::first_word(s).len() > 0 ==> text::trim_start(
            text::trim_start(s).skip(text::first_word(s).len() as int),
        ).len() < s.len(),
        is_assignment(text::first_word(s)) ==> text::first_word(s).len() > 0,
        text::first_word(s).len() <= text::trim_start(s).len() <= s.len(),
{
    text::lemma_run_len(s, text::spaces());
    let t = text::trim_start(s);
    text::lemma_run_len(t, text::non_spaces());
    let word = text::first_word(s);
    let u = t.skip(word.len() as int);
    text::lemma_run_len(u, text::spaces());
}

/// The word of a segment that names its command, empty where the segment holds
/// assignments alone.
pub open spec fn command_word(segment: Seq<char>) -> Seq<char> {
    text::first_word(past_assignments(text::trim(segment)))
}

/// The command that a segment runs: the last path component of the word that names
/// it.
pub open spec fn base_command(segment: Seq<char>) -> Seq<char> {
    text::split_on(command_word(segment), '/').last()
}

/// The command that the first segment of a command runs.
pub open spec fn first_command(command: Seq<char>) -> Seq<char> {
    if segments(command).len() > 0 {
        base_command(segments(command)[0])
    } else {
        base_command(command)
    }
}

/// Whether a segment holds `$(`: as its command, as an argument or in an
/// assignment.
pub open spec fn substitutes(segment: Seq<char>) -> bool {
    text::occurs(text::trim(segment), "$("@)
}

/// Whether a segment runs `eval`.
pub open spec fn runs_eval(segment: Seq<char>) -> bool {
    base_command(segment) == "eval"@
}

/// Whether a command holds a construct that an allowlist cannot vouch for.
pub open spec fn is_dangerous(command: Seq<char>) -> bool {
    let t = text::trim(command);
    ||| text::starts_with(t, "eval "@)
    ||| text::occurs(t, "; eval "@)
    ||| text::occurs(t, "&& eval "@)
    ||| t.contains('`')
    ||| exists|i: int| 0 <= i < segments(t).len() && runs_eval(#[trigger] segments(t)[i])
    ||| exists|i: int| 0 <= i < segments(t).len() && substitutes(#[trigger] segments(t)[i])
    ||| compound_lexer::opens_subshell(t)
}

/// Whether a segment runs a command that is not in the list.
pub open spec fn is_unlisted(segment: Seq<char>, allowed: Seq<Seq<char>>) -> bool {
    command_word(segment).len() > 0 && !allowed.contains(base_command(segment))
}

/// The first segment that is not allowed.
pub open spec fn first_unlisted(segs: Seq<Seq<char>>, allowed: Seq<Seq<char>>) -> Option<Seq<char>>
    decreases segs.len(),
{
    if segs.len() == 0 {
        None
    } else if is_unlisted(segs[0], allowed) {
        Some(segs[0])
    } else {
        first_unlisted(segs.skip(1), allowed)
    }
}

pub open spec fn dangerous_message(command: Seq<char>) -> Seq<char> {
    "[SHELL ALLOWLIST] Command contains dangerous patterns (eval, backticks, or $(...) substitution) which are blocked in restricted mode: "@
        + command
}

pub open spec fn unlisted_message(segment: Seq<char>, allowed: Seq<Seq<char>>) -> Seq<char> {
    "[SHELL ALLOWLIST] Command segment '"@ + segment + "' (base: '"@ + base_command(segment)
        + "') is not allowed. All segments must be in the allowlist. Allowed: "@ + text::join(
        allowed,
        ", "@,
    )
}

/// The decision on a command: `None` where it may run, else the message.
pub open spec fn verdict(command: Seq<char>, allowed: Seq<Seq<char>>) -> Option<Seq<char>> {
    let segs = text::trimmed_parts(segments(command));
    if allowed.len() == 0 {
        None
    } else if is_dangerous(command) {
        Some(dangerous_message(command))
    } else if segs.len() == 0 {
        Some("[SHELL ALLOWLIST] Empty command"@)
    } else {
        match first_unlisted(segs, allowed) {
            Some(seg) => Some(unlisted_message(seg, allowed)),
            None => None,
        }
    }
}

/// The list that applies: the entries of the override where one is set, else
/// the configured list.
pub open spec fn allowlist_of(
    override_list: Option<Seq<char>>,
    configured: Seq<Seq<char>>,
) -> Seq<Seq<char>> {
    match override_list {
        Some(list) => text::trimmed_parts(text::split_on(list, ',')),
        None => configured,
    }
}

/// Checks a command against the allowlist in force: the comma-separated
/// override where it is set, else the configured one.
///
/// With an empty list every command passes; with a non-empty one every segment
/// must match.
pub fn check_shell_allowlist(
    command: &str,
    override_list: Option<&str>,
    configured: &[String],
) -> (r: Result<(), String>)
    ensures
        match r {
            Ok(_) => verdict(
                command@,
                allowlist_of(text::opt_view(override_list), text::views(configured@)),
            ) is None,
            Err(m) => verdict(
                command@,
                allowlist_of(text::opt_view(override_list), text::views(configured@)),
            ) == Some(m@),
        },
{
    let allowlist = effective_allowlist(override_list, configured);
    if allowlist.len() == 0 {
        return Ok(());
    }
    check_all_segments(command, allowlist.as_slice())
}

/// The entries of the override where it is set, else the configured list.
pub fn effective_allowlist(override_list: Option<&str>, configured: &[String]) -> (r: Vec<String>)
    ensures
        text::views(r@) == allowlist_of(text::opt_view(override_list), text::views(configured@)),
{
    match override_list {
        Some(list) => {
            let chars = text::chars_of(list);
            let parts = text::pieces(chars.as_slice(), ',');
            text::trimmed_list(parts.as_slice())
        },
        None => {
            let mut out: Vec<String> = Vec::new();
            let mut i: usize = 0;
            while i < configured.len()
                invariant
                    i <= configured.len(),
                    text::views(out@) == text::views(configured@).take(i as int),
                decreases configured.len() - i,
            {
                proof {
                    text::lemma_views_push(out@, configured@[i as int]);
                    assert(text::views(configured@).take(i + 1) =~= text::views(configured@).take(
                        i as int,
                    ).push(configured@[i as int]@));
                }
                out.push(configured[i].clone());
                i += 1;
            }
            proof {
                assert(text::views(configured@).take(i as int) =~= text::views(configured@));
            }
            out
        },
    }
}

/// Whether the list holds the text.
fn listed(list: &[String], word: &str) -> (r: bool)
    ensures
        r == text::views(list@).contains(word@),
{
    let mut i: usize = 0;
    while i < list.len()
        invariant
            i <= list.len(),
            forall|j: int| 0 <= j < i ==> #[trigger] list@[j]@ != word@,
        decreases list.len() - i,
    {
        if text::same_text(list[i].as_str(), word) {
            proof {
                assert(text::views(list@)[i as int] == word@);
            }
            return true;
        }
        i += 1;
    }
    proof {
        if text::views(list@).contains(word@) {
            let j = choose|j: int| 0 <= j < text::views(list@).len() && text::views(list@)[j] == word@;
            assert(list@[j]@ == word@);
        }
    }
    false
}

/// Checks every segment of a command against a list.
pub fn check_all_segments(command: &str, allowlist: &[String]) -> (r: Result<(), String>)
    ensures
        match r {
            Ok(_) => verdict(command@, text::views(allowlist@)) is None,
            Err(m) => verdict(command@, text::views(allowlist@)) == Some(m@),
        },
{
    if allowlist.len() == 0 {
        return Ok(());
    }
    if has_dangerous_patterns(command) {
        let mut m = String::new();
        m.push_str(
            "[SHELL ALLOWLIST] Command contains dangerous patterns (eval, backticks, or $(...) substitution) which are blocked in restricted mode: ",
        );
        m.push_str(command);
        proof {
            assert(m@ =~= dangerous_message(command@));
        }
        return Err(m);
    }
    let segs = extract_all_commands(command);
    let ghost all = text::views(segs@);
    let ghost allowed = text::views(allowlist@);
    if segs.len() == 0 {
        return Err("[SHELL ALLOWLIST] Empty command".to_string());
    }
    let mut i: usize = 0;
    proof {
        assert(all.skip(0) =~= all);
    }
    while i < segs.len()
        invariant
            i <= segs.len(),
            segs.len() > 0,
            allowlist@.len() > 0,
            all == text::views(segs@),
            all == text::trimmed_parts(segments(command@)),
            allowed == text::views(allowlist@),
            !is_dangerous(command@),
            first_unlisted(all, allowed) == first_unlisted(all.skip(i as int), allowed),
        decreases segs.len() - i,
    {
        let seg = segs[i].as_str();
        let base = extract_base_from_segment(seg);
        proof {
            assert(all.skip(i as int)[0] == seg@);
            assert(all.skip(i as int).skip(1) =~= all.skip(i + 1));
        }
        if runs_command(seg) && !listed(allowlist, base.as_str()) {
            let mut m = String::new();
            m.push_str("[SHELL ALLOWLIST] Command segment '");
            m.push_str(seg);
            m.push_str("' (base: '");
            m.push_str(base.as_str());
            m.push_str("') is not allowed. All segments must be in the allowlist. Allowed: ");
            let names = text::joined_text(allowlist, ", ");
            m.push_str(names.as_str());
            proof {
                assert(m@ =~= unlisted_message(seg@, allowed));
            }
            return Err(m);
        }
        i += 1;
    }
    Ok(())
}

fn runs_command(segment: &str) -> (r: bool)
    ensures
        r == (command_word(segment@).len() > 0),
{
    let chars = text::chars_of(segment);
    let word = text::leading_token(skip_assignments(text::trimmed(chars.as_slice())));
    word.len() > 0
}

/// Whether a command holds `eval`, a backtick, a command substitution or a
/// subshell.
pub fn has_dangerous_patterns(command: &str) -> (r: bool)
    ensures
        r == is_dangerous(command@),
{
    let chars = text::chars_of(command);
    let t = text::trimmed(chars.as_slice());
    if text::begins(t, "eval ") || text::has(t, "; eval ") || text::has(t, "&& eval ") {
        return true;
    }
    if text::has_char(t, '`') {
        return true;
    }
    eval_in(t) || substitution_in(t) || compound_lexer::has_subshell(t)
}

fn eval_in(t: &[char]) -> (r: bool)
    ensures
        r == (exists|i: int|
            0 <= i < segments(t@).len() && runs_eval(#[trigger] segments(t@)[i])),
{
    let cuts = compound_lexer::cut_command(Backslash::Ignored, t);
    let mut i: usize = 0;
    while i < cuts.len()
        invariant
            i <= cuts.len(),
            compound_lexer::cut_pieces(cuts@, t@) == compound_lexer::command_pieces(
                Backslash::Ignored,
                t@,
            ),
            forall|k: int| 0 <= k < cuts@.len() ==> (#[trigger] cuts@[k]).within(t@),
            forall|j: int| 0 <= j < i ==> !runs_eval(#[trigger] segments(t@)[j]),
        decreases cuts.len() - i,
    {
        let cut = cuts[i];
        proof {
            assert(cuts@[i as int].within(t@));
            assert(compound_lexer::cut_pieces(cuts@, t@)[i as int] == cut.piece(t@));
        }
        let seg = text::text_of(slice_subrange(t, cut.start, cut.end));
        let base = extract_base_from_segment(seg.as_str());
        if text::same_text(base.as_str(), "eval") {
            proof {
                assert(runs_eval(segments(t@)[i as int]));
            }
            return true;
        }
        i += 1;
    }
    false
}

fn substitution_in(t: &[char]) -> (r: bool)
    ensures
        r == (exists|i: int|
            0 <= i < segments(t@).len() && substitutes(#[trigger] segments(t@)[i])),
{
    let cuts = compound_lexer::cut_command(Backslash::Ignored, t);
    let mut i: usize = 0;
    while i < cuts.len()
        invariant
            i <= cuts.len(),
            compound_lexer::cut_pieces(cuts@, t@) == compound_lexer::command_pieces(
                Backslash::Ignored,
                t@,
            ),
            forall|k: int| 0 <= k < cuts@.len() ==> (#[trigger] cuts@[k]).within(t@),
            forall|j: int| 0 <= j < i ==> !substitutes(#[trigger] segments(t@)[j]),
        decreases cuts.len() - i,
    {
        let cut = cuts[i];
        proof {
            assert(cuts@[i as int].within(t@));
            assert(compound_lexer::cut_pieces(cuts@, t@)[i as int] == cut.piece(t@));
        }
        let seg = slice_subrange(t, cut.start, cut.end);
        if text::has(text::trimmed(seg), "$(") {
            proof {
                assert(substitutes(segments(t@)[i as int]));
            }
            return true;
        }
        i += 1;
    }
    false
}

/// Whether `$(` stands in a segment of the command.
pub fn has_command_substitution_at_command_pos(command: &str) -> (r: bool)
    ensures
        r == (exists|i: int|
            0 <= i < segments(command@).len() && substitutes(#[trigger] segments(command@)[i])),
{
    let chars = text::chars_of(command);
    substitution_in(chars.as_slice())
}

/// The segments of a command, trimmed, without the empty ones.
pub fn extract_all_commands(command: &str) -> (r: Vec<String>)
    ensures
        text::views(r@) == text::trimmed_parts(segments(command@)),
{
    let chars = text::chars_of(command);
    let s = chars.as_slice();
    let cuts = compound_lexer::cut_command(Backslash::Ignored, s);
    let mut parts: Vec<&[char]> = Vec::new();
    let mut i: usize = 0;
    while i < cuts.len()
        invariant
            i <= cuts.len(),
            s@ == command@,
            compound_lexer::cut_pieces(cuts@, s@) == compound_lexer::command_pieces(
                Backslash::Ignored,
                s@,
            ),
            forall|k: int| 0 <= k < cuts@.len() ==> (#[trigger] cuts@[k]).within(s@),
            text::views(parts@) == segments(s@).take(i as int),
        decreases cuts.len() - i,
    {
        let cut = cuts[i];
        proof {
            assert(cuts@[i as int].within(s@));
            assert(compound_lexer::cut_pieces(cuts@, s@)[i as int] == cut.piece(s@));
        }
        let seg = slice_subrange(s, cut.start, cut.end);
        proof {
            text::lemma_views_push(parts@, seg);
            assert(segments(s@).take(i + 1) =~= segments(s@).take(i as int).push(seg@));
        }
        parts.push(seg);
        i += 1;
    }
    proof {
        assert(segments(s@).take(i as int) =~= segments(s@));
    }
    text::trimmed_list(parts.as_slice())
}

/// The segments of a command: its stretches between `;`, `&&`, `||` and `|`
/// outside quotes and parentheses.
pub fn split_on_operators<'a>(command: &'a str) -> (r: Vec<&'a str>)
    ensures
        text::views(r@) == segments(command@),
{
    let chars = text::chars_of(command);
    let cuts = compound_lexer::cut_command(Backslash::Ignored, chars.as_slice());
    let mut out: Vec<&'a str> = Vec::new();
    let mut i: usize = 0;
    while i < cuts.len()
        invariant
            i <= cuts.len(),
            compound_lexer::cut_pieces(cuts@, command@) == compound_lexer::command_pieces(
                Backslash::Ignored,
                command@,
            ),
            forall|k: int| 0 <= k < cuts@.len() ==> (#[trigger] cuts@[k]).within(command@),
            text::views(out@) == segments(command@).take(i as int),
        decreases cuts.len() - i,
    {
        let cut = cuts[i];
        proof {
            assert(cuts@[i as int].within(command@));
            assert(compound_lexer::cut_pieces(cuts@, command@)[i as int] == cut.piece(command@));
        }
        let seg = command.substring_char(cut.start, cut.end);
        proof {
            text::lemma_views_push(out@, seg);
            assert(segments(command@).take(i + 1) =~= segments(command@).take(i as int).push(seg@));
        }
        out.push(seg);
        i += 1;
    }
    proof {
        assert(segments(command@).take(i as int) =~= segments(command@));
    }
    out
}

/// The command that a segment runs, without its path.
pub fn extract_base_from_segment(segment: &str) -> (r: String)
    ensures
        r@ == base_command(segment@),
{
    let chars = text::chars_of(segment);
    let t = text::trimmed(chars.as_slice());
    let cmd = skip_assignments(t);
    let word = text::leading_token(cmd);
    let parts = text::pieces(word, '/');
    let last = parts[parts.len() - 1];
    proof {
        assert(text::views(parts@).last() == last@);
    }
    text::text_of(last)
}

fn skip_assignments<'a>(segment: &'a [char]) -> (r: &'a [char])
    ensures
        r@ == past_assignments(segment@),
        r@.len() <= segment@.len(),
{
    let mut rest: &'a [char] = segment;
    loop
        invariant
            past_assignments(rest@) == past_assignments(segment@),
            rest@.len() <= segment@.len(),
        decreases rest@.len(),
    {
        proof {
            lemma_past_word_shorter(rest@);
        }
        let word = text::leading_token(rest);
        if text::has_char(word, '=') && word[0] != '-' && word[0] != '/' && word[0] != '.' {
            let t = text::trimmed_start(rest);
            let after = slice_subrange(t, word.len(), t.len());
            proof {
                assert(after@ =~= t@.skip(word@.len() as int));
            }
            rest = text::trimmed_start(after);
        } else {
            return rest;
        }
    }
}

/// The segment behind its leading `KEY=VALUE` assignments.
pub fn skip_env_assignments<'a>(segment: &'a str) -> (r: &'a str)
    ensures
        r@ == past_assignments(segment@),
{
    let chars = text::chars_of(segment);
    let rest = skip_assignments(chars.as_slice());
    let skipped: usize = chars.len() - rest.len();
    proof {
        lemma_past_is_suffix(segment@);
        assert(segment@.subrange(skipped as int, segment@.len() as int) =~= segment@.skip(
            skipped as int,
        ));
    }
    segment.substring_char(skipped, chars.len())
}

proof fn lemma_past_is_suffix(s: Seq<char>)
    ensures
        past_assignments(s).len() <= s.len(),
        past_assignments(s) == s.skip(s.len() - past_assignments(s).len()),
    decreases s.len(),
{
    lemma_past_word_shorter(s);
    let word = text::first_word(s);
    if is_assignment(word) {
        let t = text::trim_start(s);
        let u = t.skip(word.len() as int);
        let v = text::trim_start(u);
        text::lemma_run_len(s, text::spaces());
        text::lemma_run_len(u, text::spaces());
        lemma_past_is_suffix(v);
        assert(v =~= s.skip(s.len() - v.len()));
        assert(past_assignments(s) =~= s.skip(s.len() - past_assignments(s).len()));
    } else {
        assert(s.skip(0) =~= s);
    }
}

/// The command that the first segment runs, without its path.
pub fn extract_base_command(command: &str) -> (r: String)
    ensures
        r@ == first_command(command@),
{
    let segs = split_on_operators(command);
    if segs.len() > 0 {
        proof {
            assert(text::views(segs@)[0] == segs@[0]@);
        }
        extract_base_from_segment(segs[0])
    } else {
        extract_base_from_segment(command)
    }
}

proof fn lemma_first_unlisted(segs: Seq<Seq<char>>, allowed: Seq<Seq<char>>)
    ensures
        first_unlisted(segs, allowed) is None <==> (forall|i: int|
            0 <= i < segs.len() ==> !is_unlisted(#[trigger] segs[i], allowed)),
    decreases segs.len(),
{
    if segs.len() > 0 {
        lemma_first_unlisted(segs.skip(1), allowed);
        if !is_unlisted(segs[0], allowed) {
            if first_unlisted(segs, allowed) is None {
                assert forall|i: int| 0 <= i < segs.len() implies !is_unlisted(
                    #[trigger] segs[i],
                    allowed,
                ) by {
                    if i > 0 {
                        assert(segs.skip(1)[i - 1] == segs[i]);
                    }
                }
            } else if forall|i: int|
                0 <= i < segs.len() ==> !is_unlisted(#[trigger] segs[i], allowed) {
                assert forall|i: int| 0 <= i < segs.skip(1).len() implies !is_unlisted(
                    #[trigger] segs.skip(1)[i],
                    allowed,
                ) by {
                    assert(segs.skip(1)[i] == segs[i + 1]);
                }
            }
        }
    }
}

/// With an empty allowlist every command passes.
pub proof fn law_empty_allowlist_passes(command: Seq<char>)
    ensures
        verdict(command, Seq::<Seq<char>>::empty()) is None,
{
}

/// With a non-empty allowlist a command passes exactly where it holds no
/// dangerous construct, has a segment, and every segment is allowed.
pub proof fn law_every_segment_must_be_allowed(command: Seq<char>, allowed: Seq<Seq<char>>)
    requires
        allowed.len() > 0,
    ensures
        verdict(command, allowed) is None <==> {
            let segs = text::trimmed_parts(segments(command));
            &&& !is_dangerous(command)
            &&& segs.len() > 0
            &&& forall|i: int| 0 <= i < segs.len() ==> !is_unlisted(#[trigger] segs[i], allowed)
        },
{
    lemma_first_unlisted(text::trimmed_parts(segments(command)), allowed);
}

/// Under an allowlist a command with a backtick is refused.
pub proof fn law_backtick_refused(command: Seq<char>, allowed: Seq<Seq<char>>)
    requires
        allowed.len() > 0,
        command.contains('`'),
    ensures
        verdict(command, allowed) == Some(dangerous_message(command)),
{
    text::lemma_trim_keeps_char(command, '`');
}

/// Under an allowlist a command with a segment that runs `eval` is refused,
/// whatever the list holds; so is one with `eval` behind `; ` or `&& `.
pub proof fn law_eval_refused(command: Seq<char>, allowed: Seq<Seq<char>>)
    requires
        allowed.len() > 0,
        (exists|i: int|
            0 <= i < segments(text::trim(command)).len() && runs_eval(
                #[trigger] segments(text::trim(command))[i],
            )) || text::starts_with(text::trim(command), "eval "@) || text::occurs(
            text::trim(command),
            "; eval "@,
        ) || text::occurs(text::trim(command), "&& eval "@),
    ensures
        verdict(command, allowed) == Some(dangerous_message(command)),
{
}

/// Under an allowlist a command that opens a subshell is refused.
pub proof fn law_subshell_refused(command: Seq<char>, allowed: Seq<Seq<char>>)
    requires
        allowed.len() > 0,
        compound_lexer::opens_subshell(text::trim(command)),
    ensures
        verdict(command, allowed) == Some(dangerous_message(command)),
{
}

/// Under an allowlist a command with `$(` is refused, wherever that stands.
pub proof fn law_substitution_refused(command: Seq<char>, allowed: Seq<Seq<char>>)
    requires
        allowed.len() > 0,
        text::occurs(command, "$("@),
    ensures
        verdict(command, allowed) == Some(dangerous_message(command)),
{
    reveal_strlit("$(");
    let pat = "$("@;
    assert(pat =~= seq!['$', '(']);
    text::lemma_trim_keeps(command, pat);
    let t = text::trim(command);
    let k = choose|k: int| text::occurs_at(t, pat, k);
    assert(t.subrange(k, k + 2)[0] == t[k]);
    assert(t.subrange(k, k + 2)[1] == t[k + 1]);
    compound_lexer::lemma_substitution_in_piece(
        Backslash::Ignored,
        t,
        0,
        0,
        Quote::Outside,
        0,
        k,
    );
    let p = compound_lexer::command_pieces(Backslash::Ignored, t);
    let j = choose|j: int|
        0 <= j < p.len() && text::occurs((#[trigger] p[j]).text, seq!['$', '(']);
    text::lemma_trim_keeps(p[j].text, pat);
    assert(segments(t)[j] == p[j].text);
    assert(substitutes(segments(t)[j]));
}

/// An assignment ahead of a segment makes no difference to what it runs.
proof fn lemma_assignment_ahead(kv: Seq<char>, x: Seq<char>)
    requires
        is_assignment(kv),
        forall|i: int| 0 <= i < kv.len() ==> !text::is_space(#[trigger] kv[i]),
    ensures
        base_command(kv + seq![' '] + x) == base_command(x),
{
    let s = kv + seq![' '] + x;
    let n = kv.len() as int;
    assert(n > 0);
    assert(s[0] == kv[0]);
    assert(s[n - 1] == kv[n - 1]);
    text::lemma_run_len(x, text::spaces());
    text::lemma_tail_len(x, text::spaces());
    let a = text::run_len(x, text::spaces()) as int;
    let b = x.len() - text::tail_len(x, text::spaces());
    if a == x.len() {
        assert forall|i: int| 0 <= i < x.len() implies text::is_space(#[trigger] x[i]) by {
            assert(text::spaces()(x[i]));
        }
        assert forall|i: int| n <= i < s.len() implies text::is_space(#[trigger] s[i]) by {
            if i > n {
                assert(s[i] == x[i - n - 1]);
            }
        }
        text::lemma_trim_is(s, 0, n);
        text::lemma_trim_blank(x);
        assert(s.subrange(0, n) =~= kv);
        assert(kv.take(n) =~= kv);
        assert(kv.skip(n) =~= Seq::<char>::empty());
        lemma_past_one(kv, kv, Seq::<char>::empty());
    } else {
        assert(!text::spaces()(x[a]));
        if b <= a {
            assert(text::spaces()(x[a]));
        }
        assert(!text::spaces()(x[b - 1]));
        assert forall|i: int| 0 <= i < a implies text::is_space(#[trigger] x[i]) by {
            assert(text::spaces()(x[i]));
        }
        assert forall|i: int| b <= i < x.len() implies text::is_space(#[trigger] x[i]) by {
            assert(text::spaces()(x[i]));
        }
        text::lemma_trim_is(x, a, b);
        assert forall|i: int| n + 1 + b <= i < s.len() implies text::is_space(#[trigger] s[i]) by {
            assert(s[i] == x[i - n - 1]);
        }
        assert(s[n + b] == x[b - 1]);
        text::lemma_trim_is(s, 0, n + 1 + b);
        let t = s.subrange(0, n + 1 + b);
        assert forall|i: int| n <= i < n + 1 + a implies text::is_space(#[trigger] t[i]) by {
            if i > n {
                assert(t[i] == x[i - n - 1]);
            }
        }
        assert(t[n + 1 + a] == x[a]);
        assert(t.take(n) =~= kv);
        assert(t.skip(n + 1 + a) =~= x.subrange(a, b));
        lemma_past_one(t, kv, x.subrange(a, b));
    }
}

/// Behind an assignment that starts a text, what is left starts behind the blanks.
proof fn lemma_past_one(t: Seq<char>, kv: Seq<char>, rest: Seq<char>)
    requires
        is_assignment(kv),
        kv.len() <= t.len(),
        t.take(kv.len() as int) == kv,
        forall|i: int| 0 <= i < kv.len() ==> !text::is_space(#[trigger] kv[i]),
        rest.len() <= t.len() - kv.len(),
        t.skip(t.len() - rest.len()) == rest,
        forall|i: int| kv.len() <= i < t.len() - rest.len() ==> text::is_space(#[trigger] t[i]),
        rest.len() > 0 ==> rest.len() < t.len() - kv.len() && !text::is_space(rest[0]),
    ensures
        past_assignments(t) == past_assignments(rest),
{
    let n = kv.len() as int;
    assert forall|i: int| 0 <= i < n implies text::non_spaces()(#[trigger] t[i]) by {
        assert(t[i] == t.take(n)[i]);
    }
    assert(n > 0);
    assert(text::non_spaces()(t[0]));
    text::lemma_run_len_is(t, text::spaces(), 0);
    assert(t.skip(0) =~= t);
    if n < t.len() {
        assert(text::is_space(t[n]));
    }
    text::lemma_run_len_is(t, text::non_spaces(), n);
    assert(text::first_word(t) == kv);
    let u = t.skip(n);
    let k = t.len() - rest.len() - n;
    assert forall|i: int| 0 <= i < k implies text::spaces()(#[trigger] u[i]) by {
        assert(u[i] == t[n + i]);
    }
    if k < u.len() {
        assert(u[k] == rest[0]);
    }
    text::lemma_run_len_is(u, text::spaces(), k);
    assert(text::trim_start(u) =~= rest);
}

/// A leading assignment makes no difference to the command that is found.
pub proof fn law_leading_assignment(kv: Seq<char>, command: Seq<char>)
    requires
        is_assignment(kv),
        forall|i: int|
            0 <= i < kv.len() ==> !text::is_space(#[trigger] kv[i]) && compound_lexer::is_plain(
                kv[i],
            ),
    ensures
        first_command(kv + " "@ + command) == first_command(command),
{
    reveal_strlit(" ");
    assert(" "@ =~= seq![' ']);
    let p = kv + seq![' '];
    assert forall|j: int| 0 <= j < p.len() implies compound_lexer::is_plain(#[trigger] p[j]) by {
        if j < kv.len() {
            assert(p[j] == kv[j]);
        }
    }
    compound_lexer::lemma_plain_prefix(Backslash::Ignored, p, command);
    let e = compound_lexer::first_end(Backslash::Ignored, command, 0, Quote::Outside, 0);
    lemma_assignment_ahead(kv, command.take(e));
    if command.len() == 0 {
        assert(command.take(e) =~= command);
    }
}

/// The command that a segment runs holds no white space and no slash.
pub proof fn law_base_command(segment: Seq<char>)
    ensures
        !base_command(segment).contains('/'),
        forall|i: int|
            0 <= i < base_command(segment).len() ==> !text::is_space(
                #[trigger] base_command(segment)[i],
            ),
{
    let t = text::trim_start(past_assignments(text::trim(segment)));
    let word = command_word(segment);
    text::lemma_run_len(t, text::non_spaces());
    text::lemma_last_piece(word, '/');
    let base = base_command(segment);
    assert forall|i: int| 0 <= i < base.len() implies !text::is_space(#[trigger] base[i]) by {
        assert(base.contains(base[i]));
        assert(word.contains(base[i]));
        let k = choose|k: int| 0 <= k < word.len() && word[k] == base[i];
        assert(text::non_spaces()(t[k]));
    }
}

/// Whether an operator stands at `i` of a text: `;`, `|` or `&&`, outside quotes and
/// parentheses.
pub open spec fn operator_stands(t: Seq<char>, i: int) -> bool {
    let q = compound_lexer::quote_over(t, 0, i, Quote::Outside);
    &&& t[i] == ';' || t[i] == '|' || (t[i] == '&' && i + 1 < t.len() && t[i + 1] == '&')
    &&& q != Quote::Single && q != Quote::Double && q != Quote::DoubleEscaped
    &&& compound_lexer::depth_over(t, 0, i, Quote::Outside, 0) == 0
}

/// Splitting loses nothing and misses no operator. The segments and the operators
/// between them, put together, are the command; each segment but for the last has an
/// operator behind it; no segment holds an operator outside quotes and parentheses;
/// and only the empty command has no segment.
pub proof fn law_segments(command: Seq<char>)
    ensures
        ({
            let p = compound_lexer::command_pieces(Backslash::Ignored, command);
            &&& segments(command) == compound_lexer::piece_texts(p)
            &&& compound_lexer::glued(p) == command
            &&& forall|k: int|
                #![trigger p[k]]
                0 <= k < p.len() ==> p[k].op.len() == 0 || compound_lexer::is_operator(p[k].op)
            &&& forall|k: int| #![trigger p[k]] 0 <= k < p.len() - 1 ==> p[k].op.len() > 0
        }),
        forall|k: int, i: int|
            #![trigger operator_stands(segments(command)[k], i)]
            0 <= k < segments(command).len() && 0 <= i < segments(command)[k].len()
                ==> !operator_stands(segments(command)[k], i),
        segments(command).len() == 0 <==> command.len() == 0,
{
    let m = Backslash::Ignored;
    let p = compound_lexer::command_pieces(m, command);
    compound_lexer::law_pieces_cover_command(m, command);
    compound_lexer::law_pieces_are_closed(m, command);
    compound_lexer::lemma_first_piece(m, command, 0, 0, Quote::Outside, 0);
    assert forall|k: int|
        #![trigger p[k]]
        0 <= k < p.len() implies p[k].op.len() == 0 || compound_lexer::is_operator(p[k].op) by {
        assert(compound_lexer::is_cut_piece(m, p[k]));
    }
    assert forall|k: int, i: int|
        #![trigger operator_stands(segments(command)[k], i)]
        0 <= k < segments(command).len() && 0 <= i < segments(command)[k].len()
            implies !operator_stands(segments(command)[k], i) by {
        let t = p[k].text;
        assert(segments(command)[k] == t);
        assert(compound_lexer::is_cut_piece(m, p[k]));
        compound_lexer::lemma_over_split(m, t, 0, i, t.len() as int, Quote::Outside, 0);
    }
}

// ---------------------------------------------------------------- what passes
/// What stands in a part of a text stands in the text.
proof fn lemma_occurs_in(s: Seq<char>, a: int, b: int, pat: Seq<char>)
    requires
        0 <= a <= b <= s.len(),
    ensures
        text::occurs(s.subrange(a, b), pat) ==> text::occurs(s, pat),
        forall|c: char| #[trigger] s.subrange(a, b).contains(c) ==> s.contains(c),
{
    let t = s.subrange(a, b);
    if text::occurs(t, pat) {
        let k = choose|k: int| text::occurs_at(t, pat, k);
        assert(s.subrange(a + k, a + k + pat.len()) =~= t.subrange(k, k + pat.len()));
        assert(text::occurs_at(s, pat, a + k));
    }
    assert forall|c: char| #[trigger] t.contains(c) implies s.contains(c) by {
        let i = choose|i: int| 0 <= i < t.len() && t[i] == c;
        assert(s[a + i] == c);
    }
}

proof fn lemma_occurs_trimmed(s: Seq<char>, pat: Seq<char>)
    ensures
        text::occurs(text::trim(s), pat) ==> text::occurs(s, pat),
        forall|c: char| #[trigger] text::trim(s).contains(c) ==> s.contains(c),
{
    text::lemma_run_len(s, text::spaces());
    let u = text::trim_start(s);
    text::lemma_tail_len(u, text::spaces());
    let a = text::run_len(s, text::spaces()) as int;
    let b = a + (u.len() - text::tail_len(u, text::spaces()));
    assert(text::trim(s) =~= s.subrange(a, b));
    lemma_occurs_in(s, a, b, pat);
}

/// A segment is a part of the command.
proof fn lemma_segment_within(command: Seq<char>, pat: Seq<char>, k: int)
    requires
        0 <= k < segments(command).len(),
    ensures
        text::occurs(segments(command)[k], pat) ==> text::occurs(command, pat),
        forall|c: char| #[trigger] segments(command)[k].contains(c) ==> command.contains(c),
{
    let m = Backslash::Ignored;
    let p = compound_lexer::command_pieces(m, command);
    compound_lexer::law_pieces_cover_command(m, command);
    lemma_glued_part(p, pat, k);
}

proof fn lemma_glued_part(p: Seq<compound_lexer::Piece>, pat: Seq<char>, k: int)
    requires
        0 <= k < p.len(),
    ensures
        text::occurs(p[k].text, pat) ==> text::occurs(compound_lexer::glued(p), pat),
        forall|c: char| #[trigger]
            p[k].text.contains(c) ==> compound_lexer::glued(p).contains(c),
    decreases p.len(),
{
    let s = compound_lexer::glued(p);
    let rest = compound_lexer::glued(p.skip(1));
    let n = p[0].text.len() as int;
    let e = n + p[0].op.len();
    if k == 0 {
        assert(s.subrange(0, n) =~= p[0].text);
        lemma_occurs_in(s, 0, n, pat);
    } else {
        lemma_glued_part(p.skip(1), pat, k - 1);
        assert(p.skip(1)[k - 1] == p[k]);
        assert(s.subrange(e, s.len() as int) =~= rest);
        lemma_occurs_in(s, e, s.len() as int, pat);
        assert forall|c: char| #[trigger] p[k].text.contains(c) implies s.contains(c) by {
            assert(rest.contains(c));
            assert(s.subrange(e, s.len() as int).contains(c));
        }
    }
}

proof fn lemma_last_piece_within(s: Seq<char>, c: char, pat: Seq<char>)
    ensures
        text::occurs(text::split_on(s, c).last(), pat) ==> text::occurs(s, pat),
    decreases s.len(),
{
    text::lemma_run_len(s, text::other_than(c));
    let n = text::run_len(s, text::other_than(c)) as int;
    if n >= s.len() {
        assert(text::split_on(s, c).last() == s);
    } else {
        let rest = s.skip(n + 1);
        text::lemma_last_piece(rest, c);
        lemma_last_piece_within(rest, c, pat);
        assert(text::split_on(s, c).last() == text::split_on(rest, c).last());
        assert(rest =~= s.subrange(n + 1, s.len() as int));
        lemma_occurs_in(s, n + 1, s.len() as int, pat);
    }
}

/// The name of what a segment runs stands in the segment.
proof fn lemma_base_within(segment: Seq<char>, pat: Seq<char>)
    ensures
        text::occurs(base_command(segment), pat) ==> text::occurs(segment, pat),
{
    let t = text::trim(segment);
    let s = past_assignments(t);
    let u = text::trim_start(s);
    let word = command_word(segment);
    text::lemma_run_len(s, text::spaces());
    text::lemma_run_len(u, text::non_spaces());
    let a = text::run_len(s, text::spaces()) as int;
    lemma_last_piece_within(word, '/', pat);
    assert(word =~= s.subrange(a, a + word.len()));
    lemma_occurs_in(s, a, a + word.len(), pat);
    lemma_past_is_suffix(t);
    let k = t.len() - s.len();
    assert(s =~= t.subrange(k, t.len() as int));
    lemma_occurs_in(t, k, t.len() as int, pat);
    lemma_occurs_trimmed(segment, pat);
}

/// Whether a command holds no backtick, no open parenthesis and no `eval`.
pub open spec fn is_harmless(command: Seq<char>) -> bool {
    !command.contains('`') && !command.contains('(') && !text::occurs(command, "eval"@)
}

proof fn lemma_longer_pattern(s: Seq<char>, a: Seq<char>, pat: Seq<char>, b: Seq<char>)
    requires
        text::occurs(s, a + pat + b),
    ensures
        text::occurs(s, pat),
{
    let k = choose|k: int| text::occurs_at(s, a + pat + b, k);
    let n = (a + pat + b).len() as int;
    let x = a.len() as int;
    assert(s.subrange(k + x, k + x + pat.len()) =~= s.subrange(k, k + n).subrange(
        x,
        x + pat.len(),
    ));
    assert((a + pat + b).subrange(x, x + pat.len()) =~= pat);
    assert(text::occurs_at(s, pat, k + x));
}

/// A command without a backtick, an open parenthesis and `eval` holds nothing dangerous,
/// whatever variables, redirections and quotes it holds.
pub proof fn law_harmless_is_not_dangerous(command: Seq<char>)
    requires
        is_harmless(command),
    ensures
        !is_dangerous(command),
{
    let t = text::trim(command);
    let pat = "eval"@;
    reveal_strlit("eval");
    reveal_strlit("eval ");
    reveal_strlit("; eval ");
    reveal_strlit("&& eval ");
    reveal_strlit("$(");
    lemma_occurs_trimmed(command, pat);
    let none = Seq::<char>::empty();
    if text::starts_with(t, "eval "@) {
        assert(t.subrange(0, 5) =~= t.take(5));
        assert(text::occurs_at(t, "eval "@, 0));
        assert("eval "@ =~= none + pat + seq![' ']);
        lemma_longer_pattern(t, none, pat, seq![' ']);
    }
    if text::occurs(t, "; eval "@) {
        assert("; eval "@ =~= seq![';', ' '] + pat + seq![' ']);
        lemma_longer_pattern(t, seq![';', ' '], pat, seq![' ']);
    }
    if text::occurs(t, "&& eval "@) {
        assert("&& eval "@ =~= seq!['&', '&', ' '] + pat + seq![' ']);
        lemma_longer_pattern(t, seq!['&', '&', ' '], pat, seq![' ']);
    }
    if exists|i: int| 0 <= i < segments(t).len() && runs_eval(#[trigger] segments(t)[i]) {
        let i = choose|i: int| 0 <= i < segments(t).len() && runs_eval(#[trigger] segments(t)[i]);
        let base = base_command(segments(t)[i]);
        assert(base.subrange(0, 4) =~= pat);
        assert(text::occurs_at(base, pat, 0));
        lemma_base_within(segments(t)[i], pat);
        lemma_segment_within(t, pat, i);
    }
    if exists|i: int| 0 <= i < segments(t).len() && substitutes(#[trigger] segments(t)[i]) {
        let i = choose|i: int| 0 <= i < segments(t).len() && substitutes(#[trigger] segments(t)[i]);
        let u = text::trim(segments(t)[i]);
        let k = choose|k: int| text::occurs_at(u, "$("@, k);
        assert(u.subrange(k, k + 2)[1] == u[k + 1]);
        assert(u.contains('('));
        lemma_occurs_trimmed(segments(t)[i], pat);
        lemma_segment_within(t, pat, i);
        assert(t.contains('('));
    }
    if compound_lexer::opens_subshell(t) {
        let i = choose|i: int| 0 <= i < t.len() && #[trigger] compound_lexer::subshell_at(t, i);
        assert(t.contains(t[i]));
    }
}

/// A command without a backtick, an open parenthesis and `eval`, each of whose segments
/// runs a listed command or none, passes, where it has a segment at all.
pub proof fn law_listed_commands_pass(command: Seq<char>, allowed: Seq<Seq<char>>)
    requires
        is_harmless(command),
        text::trimmed_parts(segments(command)).len() > 0,
        forall|i: int|
            #![trigger text::trimmed_parts(segments(command))[i]]
            0 <= i < text::trimmed_parts(segments(command)).len() ==> {
                let segment = text::trimmed_parts(segments(command))[i];
                command_word(segment).len() == 0 || allowed.contains(base_command(segment))
            },
    ensures
        verdict(command, allowed) is None,
{
    law_harmless_is_not_dangerous(command);
    lemma_first_unlisted(text::trimmed_parts(segments(command)), allowed);
}

/// Whether a text is a command and its arguments without quotes, parentheses,
/// backslashes and operators: the word, with blanks ahead, and what follows it.
pub open spec fn is_simple_command(
    command: Seq<char>,
    ahead: Seq<char>,
    word: Seq<char>,
    args: Seq<char>,
) -> bool {
    &&& command == ahead + word + args
    &&& text::is_blank(ahead)
    &&& text::is_word(word)
    &&& args.len() > 0 ==> text::is_space(args[0])
    &&& compound_lexer::is_simple(command)
}

/// The command that a segment runs is its first word, or what stands behind the last
/// slash of it, unless the word assigns a variable: then it is that of what follows. A
/// word assigns one where it holds `=` and starts with none of `-`, `/` and `.`.
pub proof fn law_command_word(
    ahead: Seq<char>,
    word: Seq<char>,
    args: Seq<char>,
    dir: Seq<char>,
    name: Seq<char>,
)
    requires
        text::is_blank(ahead),
        text::is_word(word),
        args.len() > 0 ==> text::is_space(args[0]),
        !name.contains('/'),
    ensures
        ({
            let segment = ahead + word + args;
            let assigns = word.contains('=') && word[0] != '-' && word[0] != '/' && word[0] != '.';
            &&& !assigns ==> command_word(segment) == word
            &&& !assigns && word == name ==> base_command(segment) == name
            &&& !assigns && word == dir + seq!['/'] + name ==> base_command(segment) == name
            &&& assigns ==> command_word(segment) == command_word(args)
            &&& assigns ==> base_command(segment) == base_command(args)
        }),
{
    let segment = ahead + word + args;
    let n = word.len() as int;
    text::lemma_tail_len(args, text::spaces());
    let k = args.len() - text::tail_len(args, text::spaces());
    let kept = args.take(k);
    let behind = args.skip(k);
    let t = word + kept;
    assert forall|i: int| 0 <= i < behind.len() implies text::is_space(#[trigger] behind[i]) by {
        assert(text::spaces()(args[k + i]));
    }
    assert(t[0] == word[0]);
    if k > 0 {
        assert(!text::spaces()(args[k - 1]));
        assert(t.last() == args[k - 1]);
    } else {
        assert(t.last() == word[n - 1]);
    }
    text::law_trim(ahead, t, behind);
    assert(ahead + t + behind =~= segment);
    assert(text::trim(segment) == t);
    let none = Seq::<char>::empty();
    assert(none + word + kept =~= t);
    assert(kept.len() > 0 ==> kept[0] == args[0]);
    text::law_words(none, word, kept);
    assert(text::first_word(t) == word);
    let assigns = word.contains('=') && word[0] != '-' && word[0] != '/' && word[0] != '.';
    assert(is_assignment(word) == assigns);
    if !assigns {
        assert(past_assignments(t) == t);
        if word == name {
            text::law_split_on(name, '/', none);
        }
        if word == dir + seq!['/'] + name {
            lemma_split_last(dir, name);
        }
    } else {
        lemma_past_one_step(t, word, kept);
        text::lemma_run_len(args, text::spaces());
        lemma_trim_both(args);
        assert(past_assignments(t) == past_assignments(text::trim_start(kept)));
        assert(text::trim(args) == text::trim_start(kept));
    }
}

proof fn lemma_split_last(dir: Seq<char>, name: Seq<char>)
    requires
        !name.contains('/'),
    ensures
        text::split_on(dir + seq!['/'] + name, '/').last() == name,
    decreases dir.len(),
{
    let f = text::other_than('/');
    text::lemma_run_len(dir, f);
    let n = text::run_len(dir, f) as int;
    let s = dir + seq!['/'] + name;
    text::law_split_on(name, '/', name);
    if n >= dir.len() {
        assert forall|i: int| 0 <= i < dir.len() implies dir[i] != '/' by {
            assert(f(dir[i]));
        }
        text::law_split_on(dir, '/', name);
    } else {
        let head = dir.take(n);
        let rest = dir.skip(n + 1);
        assert(dir[n] == '/');
        assert forall|i: int| 0 <= i < head.len() implies head[i] != '/' by {
            assert(f(dir[i]));
        }
        lemma_split_last(rest, name);
        text::law_split_on(head, '/', rest + seq!['/'] + name);
        assert(head + seq!['/'] + (rest + seq!['/'] + name) =~= s);
        text::lemma_last_piece(rest + seq!['/'] + name, '/');
    }
}

proof fn lemma_past_one_step(t: Seq<char>, word: Seq<char>, kept: Seq<char>)
    requires
        t == word + kept,
        text::is_word(word),
        text::first_word(t) == word,
        is_assignment(word),
    ensures
        past_assignments(t) == past_assignments(text::trim_start(kept)),
{
    assert(t[0] == word[0]);
    text::lemma_run_len_is(t, text::spaces(), 0);
    assert(t.skip(0) =~= t);
    assert(t.skip(word.len() as int) =~= kept);
}

/// Trimming at the end first and then at the front is trimming.
proof fn lemma_trim_both(s: Seq<char>)
    ensures
        text::trim_start(text::trim_end(s)) == text::trim(s),
{
    let sp = text::spaces();
    text::lemma_run_len(s, sp);
    text::lemma_tail_len(s, sp);
    let a = text::run_len(s, sp) as int;
    let b = s.len() - text::tail_len(s, sp);
    let kept = s.take(b);
    assert forall|i: int| 0 <= i < a implies text::is_space(#[trigger] s[i]) by {
        assert(sp(s[i]));
    }
    assert forall|i: int| b <= i < s.len() implies text::is_space(#[trigger] s[i]) by {
        assert(sp(s[i]));
    }
    if a == s.len() {
        text::lemma_trim_blank(s);
        if b > 0 {
            assert(!sp(s[b - 1]));
        }
        assert(kept =~= Seq::<char>::empty());
        assert(text::trim_start(kept) =~= Seq::<char>::empty());
    } else {
        assert(!sp(s[a]));
        if b <= a {
            assert(sp(s[a]));
        }
        assert(!sp(s[b - 1]));
        text::lemma_trim_is(s, a, b);
        text::lemma_trim_is(kept, a, b);
        assert(kept.skip(a) =~= s.subrange(a, b));
    }
}

/// A simple command passes where its name is listed, and else is refused by its name;
/// `eval` is refused in any case.
pub proof fn law_simple_command(
    command: Seq<char>,
    ahead: Seq<char>,
    name: Seq<char>,
    args: Seq<char>,
    allowed: Seq<Seq<char>>,
)
    requires
        allowed.len() > 0,
        is_simple_command(command, ahead, name, args),
        is_harmless(command),
        !name.contains('/'),
        !name.contains('='),
    ensures
        allowed.contains(name) ==> verdict(command, allowed) is None,
        !allowed.contains(name) ==> verdict(command, allowed) == Some(
            "[SHELL ALLOWLIST] Command segment '"@ + text::trim(command) + "' (base: '"@ + name
                + "') is not allowed. All segments must be in the allowlist. Allowed: "@
                + text::join(allowed, ", "@),
        ),
{
    let none = Seq::<char>::empty();
    compound_lexer::law_cuts(Backslash::Ignored, command, none, none, none, none);
    assert(command + none + none =~= command);
    let segs = segments(command);
    assert(segs =~= seq![command]);
    assert(!text::is_blank(command)) by {
        assert(command[ahead.len() as int] == name[0]);
    }
    text::law_trimmed_parts(Seq::<Seq<char>>::empty(), command);
    assert(segs =~= Seq::<Seq<char>>::empty().push(command));
    let t = text::trim(command);
    let parts = text::trimmed_parts(segs);
    assert(parts =~= seq![t]);
    law_harmless_is_not_dangerous(command);
    law_command_word(ahead, name, args, none, name);
    text::lemma_trim_ends(command);
    text::law_trim(none, t, none);
    assert(none + t + none =~= t);
    assert(command_word(t) == command_word(command));
    assert(parts.skip(1) =~= Seq::<Seq<char>>::empty());
    reveal_with_fuel(first_unlisted, 2);
}

proof fn lemma_trimmed_sum(a: Seq<Seq<char>>, b: Seq<Seq<char>>)
    ensures
        text::trimmed_parts(a + b) == text::trimmed_parts(a) + text::trimmed_parts(b),
    decreases b.len(),
{
    if b.len() == 0 {
        assert(a + b =~= a);
        assert(text::trimmed_parts(a) + text::trimmed_parts(b) =~= text::trimmed_parts(a));
    } else {
        lemma_trimmed_sum(a, b.drop_last());
        assert((a + b).drop_last() =~= a + b.drop_last());
        assert(text::trimmed_parts(a + b) =~= text::trimmed_parts(a) + text::trimmed_parts(b));
    }
}

/// A compound passes exactly where what stands on either side of an operator does,
/// whichever operator it is.
pub proof fn law_compound_passes(
    a: Seq<char>,
    op: Seq<char>,
    rest: Seq<char>,
    allowed: Seq<Seq<char>>,
)
    requires
        allowed.len() > 0,
        compound_lexer::is_simple(a),
        op == seq![';'] || op == seq!['&', '&'] || op == seq!['|', '|'] || (op == seq!['|'] && (
        rest.len() == 0 || rest[0] != '|')),
        is_harmless(a + op + rest),
        !text::is_blank(a),
        text::trimmed_parts(segments(rest)).len() > 0,
    ensures
        verdict(a + op + rest, allowed) is None <==> verdict(a, allowed) is None && verdict(
            rest,
            allowed,
        ) is None,
{
    let s = a + op + rest;
    let none = Seq::<char>::empty();
    let m = Backslash::Ignored;
    let n = a.len() as int;
    let e = n + op.len();
    compound_lexer::law_cuts(m, a, none, none, op, rest);
    assert(a + none + none =~= a);
    assert(segments(s) =~= seq![a] + segments(rest));
    assert(segments(a) =~= seq![a]);
    lemma_trimmed_sum(seq![a], segments(rest));
    text::law_trimmed_parts(Seq::<Seq<char>>::empty(), a);
    assert(seq![a] =~= Seq::<Seq<char>>::empty().push(a));
    let one = text::trimmed_parts(seq![a]);
    let more = text::trimmed_parts(segments(rest));
    let all = text::trimmed_parts(segments(s));
    assert(all == one + more);
    assert(one.len() == 1);
    assert(s.subrange(0, n) =~= a);
    assert(s.subrange(e, s.len() as int) =~= rest);
    lemma_occurs_in(s, 0, n, "eval"@);
    lemma_occurs_in(s, e, s.len() as int, "eval"@);
    law_harmless_is_not_dangerous(s);
    law_harmless_is_not_dangerous(a);
    law_harmless_is_not_dangerous(rest);
    lemma_first_unlisted(one, allowed);
    lemma_first_unlisted(more, allowed);
    lemma_first_unlisted(all, allowed);
    if verdict(s, allowed) is None {
        assert forall|i: int| 0 <= i < one.len() implies !is_unlisted(
            #[trigger] one[i],
            allowed,
        ) by {
            assert(all[i] == one[i]);
        }
        assert forall|i: int| 0 <= i < more.len() implies !is_unlisted(
            #[trigger] more[i],
            allowed,
        ) by {
            assert(all[i + 1] == more[i]);
        }
    }
    if verdict(a, allowed) is None && verdict(rest, allowed) is None {
        assert forall|i: int| 0 <= i < all.len() implies !is_unlisted(
            #[trigger] all[i],
            allowed,
        ) by {
            if i == 0 {
                assert(all[i] == one[0]);
            } else {
                assert(all[i] == more[i - 1]);
            }
        }
    }
}

/// The list in force: the entries of the override between its commas, trimmed and
/// without blank ones, where it is set; else the configured list.
pub proof fn law_allowlist(entry: Seq<char>, rest: Seq<char>, configured: Seq<Seq<char>>)
    requires
        !entry.contains(','),
    ensures
        allowlist_of(None, configured) == configured,
        allowlist_of(Some(entry), configured) == (if text::is_blank(entry) {
            seq![]
        } else {
            seq![text::trim(entry)]
        }),
        allowlist_of(Some(entry + seq![','] + rest), configured) == allowlist_of(
            Some(entry),
            configured,
        ) + allowlist_of(Some(rest), configured),
{
    text::law_split_on(entry, ',', rest);
    lemma_trimmed_sum(seq![entry], text::split_on(rest, ','));
    text::law_trimmed_parts(Seq::<Seq<char>>::empty(), entry);
    assert(seq![entry] =~= Seq::<Seq<char>>::empty().push(entry));
    assert(Seq::<Seq<char>>::empty().push(text::trim(entry)) =~= seq![text::trim(entry)]);
}

/// What is refused is refused with its reason: a command with something dangerous in it
/// as such, whatever the list holds, and a blank one as empty.
pub proof fn law_refusals(command: Seq<char>, allowed: Seq<Seq<char>>)
    requires
        allowed.len() > 0,
    ensures
        command.contains('`') || text::occurs(command, "$("@) ==> verdict(command, allowed)
            == Some(
            "[SHELL ALLOWLIST] Command contains dangerous patterns (eval, backticks, or $(...) substitution) which are blocked in restricted mode: "@
                + command,
        ),
        text::is_blank(command) ==> verdict(command, allowed) == Some(
            "[SHELL ALLOWLIST] Empty command"@,
        ),
{
    if command.contains('`') {
        law_backtick_refused(command, allowed);
    }
    if text::occurs(command, "$("@) {
        law_substitution_refused(command, allowed);
    }
    if text::is_blank(command) {
        reveal_strlit("eval");
        assert(!command.contains('`') && !command.contains('('));
        if text::occurs(command, "eval"@) {
            let k = choose|k: int| text::occurs_at(command, "eval"@, k);
            assert(command.subrange(k, k + 4)[0] == command[k]);
        }
        law_harmless_is_not_dangerous(command);
        let none = Seq::<char>::empty();
        compound_lexer::law_cuts(Backslash::Ignored, command, none, none, none, none);
        assert(command + none + none =~= command);
        text::law_trimmed_parts(Seq::<Seq<char>>::empty(), command);
        if command.len() > 0 {
            assert(segments(command) =~= Seq::<Seq<char>>::empty().push(command));
        } else {
            assert(command =~= none);
            assert(segments(command) =~= Seq::<Seq<char>>::empty());
        }
    }
}

/// A segment that runs `eval` is refused, whatever stands around it: behind blanks, as
/// the last part of a path, or behind an operator.
pub proof fn law_eval_segment(
    a: Seq<char>,
    op: Seq<char>,
    rest: Seq<char>,
    allowed: Seq<Seq<char>>,
)
    requires
        allowed.len() > 0,
        compound_lexer::is_simple(a),
        op == seq![';'] || op == seq!['&', '&'] || op == seq!['|', '|'] || op == seq!['|'],
        rest.len() > 0,
        text::is_space(rest[0]),
        compound_lexer::is_simple(rest),
        a.len() > 0,
        !text::is_space(a[0]),
        !text::is_blank(rest),
        !text::is_space(rest.last()),
    ensures
        verdict(a + op + " eval"@ + rest, allowed) == Some(
            dangerous_message(a + op + " eval"@ + rest),
        ),
{
    reveal_strlit(" eval");
    reveal_strlit("eval");
    let none = Seq::<char>::empty();
    let eval = " eval"@;
    let tail = eval + rest;
    let s = a + op + tail;
    assert(s =~= a + op + eval + rest);
    assert forall|i: int| 0 <= i < tail.len() implies {
        let c = #[trigger] tail[i];
        c != '\'' && c != '"' && c != '(' && c != ')' && c != '\\' && c != ';' && c != '&' && c
            != '|'
    } by {
        if i < 5 {
            assert(tail[i] == eval[i]);
        } else {
            assert(tail[i] == rest[i - 5]);
        }
    }
    assert(tail[0] == ' ');
    compound_lexer::law_cuts(Backslash::Ignored, a, none, none, op, tail);
    compound_lexer::law_cuts(Backslash::Ignored, tail, none, none, op, none);
    assert(a + none + none =~= a);
    assert(tail + none + none =~= tail);
    assert(segments(s) =~= seq![a, tail]);
    text::law_trim(none, s, none);
    assert(none + s + none =~= s);
    assert(s[0] == a[0]);
    assert(s.last() == rest.last());
    assert(text::trim(s) == s);
    let word = "eval"@;
    assert(tail =~= seq![' '] + word + rest);
    assert(!word.contains('/') && !word.contains('='));
    assert(text::is_word(word));
    law_command_word(seq![' '], word, rest, none, word);
    assert(runs_eval(segments(s)[1]));
}

/// What is dangerous: a backtick anywhere; `$(` in a segment; a segment that runs `eval`;
/// `eval ` at the start or behind `; ` or `&& `; and a subshell. Nothing else is.
pub proof fn law_dangerous(command: Seq<char>)
    ensures
        is_dangerous(command) <==> {
            let t = text::trim(command);
            ||| exists|i: int| 0 <= i < t.len() && #[trigger] t[i] == '`'
            ||| text::starts_with(t, "eval "@)
            ||| text::occurs(t, "; eval "@)
            ||| text::occurs(t, "&& eval "@)
            ||| exists|i: int|
                0 <= i < segments(t).len() && base_command(#[trigger] segments(t)[i]) == "eval"@
            ||| text::occurs(t, "$("@)
            ||| compound_lexer::opens_subshell(t)
        },
{
    let t = text::trim(command);
    reveal_strlit("$(");
    if t.contains('`') {
        let i = choose|i: int| 0 <= i < t.len() && t[i] == '`';
        assert(t[i] == '`');
    }
    if exists|i: int| 0 <= i < t.len() && #[trigger] t[i] == '`' {
        let i = choose|i: int| 0 <= i < t.len() && #[trigger] t[i] == '`';
        assert(t.contains(t[i]));
    }
    if exists|i: int|
        0 <= i < segments(t).len() && base_command(#[trigger] segments(t)[i]) == "eval"@ {
        let i = choose|i: int|
            0 <= i < segments(t).len() && base_command(#[trigger] segments(t)[i]) == "eval"@;
        assert(runs_eval(segments(t)[i]));
    }
    if exists|i: int| 0 <= i < segments(t).len() && runs_eval(#[trigger] segments(t)[i]) {
        let i = choose|i: int| 0 <= i < segments(t).len() && runs_eval(#[trigger] segments(t)[i]);
        assert(base_command(segments(t)[i]) == "eval"@);
    }
    if exists|i: int| 0 <= i < segments(t).len() && substitutes(#[trigger] segments(t)[i]) {
        let i = choose|i: int| 0 <= i < segments(t).len() && substitutes(#[trigger] segments(t)[i]);
        lemma_occurs_trimmed(segments(t)[i], "$("@);
        lemma_segment_within(t, "$("@, i);
    }
    if text::occurs(t, "$("@) {
        let allowed = seq![Seq::<char>::empty()];
        text::lemma_trim_ends(command);
        let none = Seq::<char>::empty();
        text::law_trim(none, t, none);
        assert(none + t + none =~= t);
        law_substitution_refused(t, allowed);
        assert(is_dangerous(t)) by {
            if !is_dangerous(t) {
                reveal_strlit("[SHELL ALLOWLIST] Empty command");
                lemma_messages_differ(t, allowed);
            }
        }
    }
}

/// The message for something dangerous is no other.
proof fn lemma_messages_differ(command: Seq<char>, allowed: Seq<Seq<char>>)
    requires
        allowed.len() > 0,
        verdict(command, allowed) == Some(dangerous_message(command)),
    ensures
        is_dangerous(command),
{
    let m = dangerous_message(command);
    reveal_strlit(
        "[SHELL ALLOWLIST] Command contains dangerous patterns (eval, backticks, or $(...) substitution) which are blocked in restricted mode: ",
    );
    reveal_strlit("[SHELL ALLOWLIST] Empty command");
    reveal_strlit("[SHELL ALLOWLIST] Command segment '");
    assert(m[18] == 'C');
    assert("[SHELL ALLOWLIST] Empty command"@[18] == 'E');
    assert(m[26] == 'c');
    match first_unlisted(text::trimmed_parts(segments(command)), allowed) {
        Some(seg) => {
            let u = unlisted_message(seg, allowed);
            assert(u[26] == "[SHELL ALLOWLIST] Command segment '"@[26]);
            assert(u[26] == 's');
        },
        None => {},
    }
}

proof fn lemma_first_unlisted_at(segs: Seq<Seq<char>>, allowed: Seq<Seq<char>>, k: int)
    requires
        0 <= k < segs.len(),
        is_unlisted(segs[k], allowed),
        forall|i: int| 0 <= i < k ==> !is_unlisted(#[trigger] segs[i], allowed),
    ensures
        first_unlisted(segs, allowed) == Some(segs[k]),
    decreases segs.len(),
{
    if k > 0 {
        assert(!is_unlisted(segs[0], allowed));
        let rest = segs.skip(1);
        assert forall|i: int| 0 <= i < k - 1 implies !is_unlisted(#[trigger] rest[i], allowed) by {
            assert(rest[i] == segs[i + 1]);
        }
        lemma_first_unlisted_at(rest, allowed, k - 1);
    }
}

/// The first segment whose command is not listed is the one that is named, with its
/// command and the list.
pub proof fn law_first_unlisted_is_named(command: Seq<char>, allowed: Seq<Seq<char>>, k: int)
    requires
        allowed.len() > 0,
        !is_dangerous(command),
        0 <= k < text::trimmed_parts(segments(command)).len(),
        command_word(text::trimmed_parts(segments(command))[k]).len() > 0,
        !allowed.contains(base_command(text::trimmed_parts(segments(command))[k])),
        forall|i: int|
            #![trigger text::trimmed_parts(segments(command))[i]]
            0 <= i < k ==> {
                let segment = text::trimmed_parts(segments(command))[i];
                command_word(segment).len() == 0 || allowed.contains(base_command(segment))
            },
    ensures
        ({
            let segment = text::trimmed_parts(segments(command))[k];
            verdict(command, allowed) == Some(
                "[SHELL ALLOWLIST] Command segment '"@ + segment + "' (base: '"@ + base_command(
                    segment,
                ) + "') is not allowed. All segments must be in the allowlist. Allowed: "@
                    + text::join(allowed, ", "@),
            )
        }),
{
    lemma_first_unlisted_at(text::trimmed_parts(segments(command)), allowed, k);
}

/// The command that is found in a command is that of its first segment.
pub proof fn law_first_command(a: Seq<char>, op: Seq<char>, rest: Seq<char>)
    requires
        compound_lexer::is_simple(a),
        op == seq![';'] || op == seq!['&', '&'] || op == seq!['|', '|'] || (op == seq!['|'] && (
        rest.len() == 0 || rest[0] != '|')),
    ensures
        first_command(a + op + rest) == base_command(a),
        first_command(a) == base_command(a),
        segments(a + op + rest) == seq![a] + segments(rest),
        a.len() > 0 ==> segments(a) == seq![a],
{
    let none = Seq::<char>::empty();
    compound_lexer::law_cuts(Backslash::Ignored, a, none, none, op, rest);
    assert(a + none + none =~= a);
    assert(segments(a + op + rest) =~= seq![a] + segments(rest));
    if a.len() > 0 {
        assert(segments(a) =~= seq![a]);
    }
}

} // verus!
