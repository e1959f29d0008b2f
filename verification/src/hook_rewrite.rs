//! Rewrites shell commands so that they run through the binary.
use vstd::prelude::*;
use vstd::slice::slice_subrange;

use crate::compound_lexer;
use crate::compound_lexer::{Backslash, Quote};
use crate::rewrite_registry;
use crate::text;

verus! {

/// Whether a command runs the binary already.
pub open spec fn runs_binary(cmd: Seq<char>, binary: Seq<char>) -> bool {
    text::starts_with(cmd, "lean-ctx "@) || text::starts_with(cmd, binary + " "@)
}

/// `cmd` as one single-quoted argument of the binary.
pub open spec fn wrapped(cmd: Seq<char>, binary: Seq<char>) -> Seq<char> {
    binary + " -c '"@ + text::replace(cmd, "'"@, "'\\''"@) + "'"@
}

/// The line count and the path that the arguments `i` and on of `head` or
/// `tail` give, where those before gave `n` and `path`.
pub open spec fn head_tail_from(
    args: Seq<Seq<char>>,
    i: int,
    n: Option<nat>,
    path: Option<Seq<char>>,
) -> (Option<nat>, Option<Seq<char>>)
    decreases args.len() - i,
{
    if i >= args.len() {
        (n, path)
    } else if args[i] == "-n"@ && i + 1 < args.len() {
        head_tail_from(args, i + 2, text::parse_number(args[i + 1], usize::MAX as nat), path)
    } else if text::starts_with(args[i], "-n"@) {
        head_tail_from(args, i + 1, text::parse_number(args[i].skip(2), usize::MAX as nat), path)
    } else if text::starts_with(args[i], "-"@) && args[i].len() > 1 {
        match text::parse_number(args[i].skip(1), usize::MAX as nat) {
            Some(v) => head_tail_from(args, i + 1, Some(v), path),
            None => head_tail_from(args, i + 1, n, path),
        }
    } else {
        head_tail_from(args, i + 1, n, Some(args[i]))
    }
}

/// The line count and the path that the arguments of `head` or `tail` give.
pub open spec fn head_tail(args: Seq<Seq<char>>) -> (Option<nat>, Option<Seq<char>>) {
    head_tail_from(args, 0, None, None)
}

pub open spec fn or_ten(n: Option<nat>) -> nat {
    match n {
        Some(v) => v,
        None => 10,
    }
}

/// `cat`, `head` and `tail` as a read through the binary.
pub open spec fn file_read(cmd: Seq<char>, binary: Seq<char>) -> Option<Seq<char>> {
    let parts = text::words(cmd);
    if !rewrite_registry::is_file_read_spec(cmd) || parts.len() < 2 {
        None
    } else if parts[0] == "cat"@ {
        Some(binary + " read "@ + text::join(parts.skip(1), " "@))
    } else if parts[0] == "head"@ {
        let (n, path) = head_tail(parts.skip(1));
        match path {
            Some(p) => Some(binary + " read "@ + p + " -m lines:1-"@ + text::decimal(or_ten(n))),
            None => None,
        }
    } else if parts[0] == "tail"@ {
        let (n, path) = head_tail(parts.skip(1));
        match path {
            Some(p) => Some(binary + " read "@ + p + " -m lines:-"@ + text::decimal(or_ten(n))),
            None => None,
        }
    } else {
        None
    }
}

/// `rg <pattern> [path]` as a search through the binary, without flags and where the
/// words can be set apart by one space.
pub open spec fn search_read(cmd: Seq<char>, binary: Seq<char>) -> Option<Seq<char>> {
    let parts = text::words(cmd);
    if compound_lexer::loses_blanks(cmd) || parts.len() < 2 || parts.len() > 3 || parts[0]
        != "rg"@ || text::starts_with(parts[1], "-"@) {
        None
    } else if parts.len() == 2 {
        Some(binary + " grep "@ + parts[1])
    } else if text::starts_with(parts[2], "-"@) {
        None
    } else {
        Some(binary + " grep "@ + parts[1] + " "@ + parts[2])
    }
}

/// `ls [path]` without flags as a listing through the binary.
pub open spec fn dir_list(cmd: Seq<char>, binary: Seq<char>) -> Option<Seq<char>> {
    let parts = text::words(cmd);
    if parts.len() == 0 || parts[0] != "ls"@ {
        None
    } else if parts.len() == 1 {
        Some(binary + " ls"@)
    } else if parts.len() == 2 && !text::starts_with(parts[1], "-"@) {
        Some(binary + " ls "@ + parts[1])
    } else {
        None
    }
}

/// Whether a segment is rewritten: it is rewritable and does not run the
/// binary yet.
pub open spec fn rewrites(segment: Seq<char>, binary: Seq<char>) -> bool {
    !runs_binary(segment, binary) && rewrite_registry::is_rewritable_spec(segment)
}

/// A segment as it stands in a rewritten compound command.
pub open spec fn segment_text(segment: Seq<char>, binary: Seq<char>) -> Seq<char> {
    if rewrites(segment, binary) {
        wrapped(segment, binary)
    } else {
        segment
    }
}

/// The segments and operators of a rewritten compound command.
pub open spec fn compound_tokens(
    pieces: Seq<compound_lexer::Piece>,
    binary: Seq<char>,
) -> Seq<Seq<char>>
    decreases pieces.len(),
{
    if pieces.len() == 0 {
        seq![]
    } else {
        let before = compound_tokens(pieces.drop_last(), binary);
        let segment = text::trim(pieces.last().text);
        let with_segment = if segment.len() > 0 {
            before.push(segment_text(segment, binary))
        } else {
            before
        };
        if pieces.last().op.len() > 0 {
            with_segment.push(pieces.last().op)
        } else {
            with_segment
        }
    }
}

/// Whether some segment of the pieces is rewritten.
pub open spec fn some_rewritten(
    pieces: Seq<compound_lexer::Piece>,
    binary: Seq<char>,
) -> bool {
    exists|i: int|
        0 <= i < pieces.len() && text::trim((#[trigger] pieces[i]).text).len() > 0 && rewrites(
            text::trim(pieces[i].text),
            binary,
        )
}

/// Whether the pieces hold an operator.
pub open spec fn some_operator(pieces: Seq<compound_lexer::Piece>) -> bool {
    exists|i: int| 0 <= i < pieces.len() && (#[trigger] pieces[i]).op.len() > 0
}

/// A compound command with its rewritable segments wrapped and its parts set
/// apart by one space; nothing where it is no compound or nothing is rewritten.
pub open spec fn compound(cmd: Seq<char>, binary: Seq<char>) -> Option<Seq<char>> {
    let pieces = compound_lexer::command_pieces(Backslash::Shields, cmd);
    if some_operator(pieces) && some_rewritten(pieces, binary) {
        Some(text::join(compound_tokens(pieces, binary), " "@))
    } else {
        None
    }
}

/// What a command is rewritten to, if it is.
pub open spec fn candidate(cmd: Seq<char>, binary: Seq<char>) -> Option<Seq<char>> {
    if runs_binary(cmd, binary) || text::occurs(cmd, "<<"@) {
        None
    } else if file_read(cmd, binary) is Some {
        file_read(cmd, binary)
    } else if search_read(cmd, binary) is Some {
        search_read(cmd, binary)
    } else if dir_list(cmd, binary) is Some {
        dir_list(cmd, binary)
    } else if compound(cmd, binary) is Some {
        compound(cmd, binary)
    } else if rewrite_registry::is_rewritable_spec(cmd) {
        Some(wrapped(cmd, binary))
    } else {
        None
    }
}

/// Whether a command runs one of the rewritable commands.
pub fn is_rewritable(cmd: &str) -> (r: bool)
    ensures
        r == rewrite_registry::is_rewritable_spec(cmd@),
{
    rewrite_registry::is_rewritable_command(cmd)
}

/// Whether a command runs the binary already.
pub fn is_already_rewritten(cmd: &str, binary: &str) -> (r: bool)
    ensures
        r == runs_binary(cmd@, binary@),
{
    let chars = text::chars_of(cmd);
    let mut prefix = String::new();
    prefix.push_str(binary);
    prefix.push_str(" ");
    text::begins(chars.as_slice(), "lean-ctx ") || text::begins(chars.as_slice(), prefix.as_str())
}

/// `cmd` as one single-quoted argument of the binary.
pub fn wrap_single_command(cmd: &str, binary: &str) -> (r: String)
    ensures
        r@ == wrapped(cmd@, binary@),
{
    let chars = text::chars_of(cmd);
    let escaped = text::replaced(chars.as_slice(), "'", "'\\''");
    let escaped_text = text::text_of(escaped.as_slice());
    let mut out = String::new();
    out.push_str(binary);
    out.push_str(" -c '");
    out.push_str(escaped_text.as_str());
    out.push_str("'");
    out
}

/// What a command is rewritten to. A command that runs the binary already or
/// holds a here-document is left alone.
pub fn rewrite_candidate(cmd: &str, binary: &str) -> (r: Option<String>)
    ensures
        text::opt_owned(r) == candidate(cmd@, binary@),
{
    if is_already_rewritten(cmd, binary) {
        return None;
    }
    let chars = text::chars_of(cmd);
    if text::has(chars.as_slice(), "<<") {
        return None;
    }
    let read = rewrite_file_read_command(cmd, binary);
    if read.is_some() {
        return read;
    }
    let search = rewrite_search_command(cmd, binary);
    if search.is_some() {
        return search;
    }
    let list = rewrite_dir_list_command(cmd, binary);
    if list.is_some() {
        return list;
    }
    let parts = build_rewrite_compound(cmd, binary);
    if parts.is_some() {
        return parts;
    }
    if is_rewritable(cmd) {
        return Some(wrap_single_command(cmd, binary));
    }
    None
}

/// Rewrites `cat`, `head` and `tail` to a read through the binary.
pub fn rewrite_file_read_command(cmd: &str, binary: &str) -> (r: Option<String>)
    ensures
        text::opt_owned(r) == file_read(cmd@, binary@),
{
    if !rewrite_registry::is_file_read_command(cmd) {
        return None;
    }
    let chars = text::chars_of(cmd);
    let parts = text::word_list(chars.as_slice());
    if parts.len() < 2 {
        return None;
    }
    let ghost all = text::views(parts@);
    let rest = slice_subrange(parts.as_slice(), 1, parts.len());
    proof {
        assert(text::views(rest@) =~= all.skip(1));
        assert(all[0] == parts@[0]@);
    }
    let mut out = String::new();
    out.push_str(binary);
    out.push_str(" read ");
    if text::spells(parts[0], "cat") {
        let path = text::text_of(text::joined(rest, " ").as_slice());
        out.push_str(path.as_str());
        return Some(out);
    }
    let head = text::spells(parts[0], "head");
    if !head && !text::spells(parts[0], "tail") {
        return None;
    }
    let (n, path) = head_tail_args(rest);
    match path {
        Some(k) => {
            proof {
                assert(text::views(rest@)[k as int] == rest@[k as int]@);
            }
            let path_text = text::text_of(rest[k]);
            out.push_str(path_text.as_str());
            if head {
                out.push_str(" -m lines:1-");
            } else {
                out.push_str(" -m lines:-");
            }
            let lines: usize = match n {
                Some(v) => v,
                None => 10,
            };
            text::push_number(&mut out, lines);
            Some(out)
        },
        None => None,
    }
}

/// Rewrites `rg <pattern> [path]` without flags, and without quotes around more than
/// single spaces, to a search through the binary.
pub fn rewrite_search_command(cmd: &str, binary: &str) -> (r: Option<String>)
    ensures
        text::opt_owned(r) == search_read(cmd@, binary@),
{
    let chars = text::chars_of(cmd);
    if compound_lexer::breaks_quotation(chars.as_slice()) {
        return None;
    }
    let parts = text::word_list(chars.as_slice());
    let ghost all = text::views(parts@);
    if parts.len() < 2 || parts.len() > 3 {
        return None;
    }
    proof {
        assert(all[0] == parts@[0]@);
        assert(all[1] == parts@[1]@);
    }
    if !text::spells(parts[0], "rg") || text::begins(parts[1], "-") {
        return None;
    }
    let mut out = String::new();
    out.push_str(binary);
    out.push_str(" grep ");
    let pattern = text::text_of(parts[1]);
    out.push_str(pattern.as_str());
    if parts.len() == 3 {
        proof {
            assert(all[2] == parts@[2]@);
        }
        if text::begins(parts[2], "-") {
            return None;
        }
        out.push_str(" ");
        let path = text::text_of(parts[2]);
        out.push_str(path.as_str());
    }
    Some(out)
}

/// Rewrites `ls [path]` without flags to a listing through the binary.
pub fn rewrite_dir_list_command(cmd: &str, binary: &str) -> (r: Option<String>)
    ensures
        text::opt_owned(r) == dir_list(cmd@, binary@),
{
    let chars = text::chars_of(cmd);
    let parts = text::word_list(chars.as_slice());
    let ghost all = text::views(parts@);
    if parts.len() == 0 {
        return None;
    }
    proof {
        assert(all[0] == parts@[0]@);
    }
    if !text::spells(parts[0], "ls") {
        return None;
    }
    let mut out = String::new();
    out.push_str(binary);
    if parts.len() == 1 {
        out.push_str(" ls");
        return Some(out);
    }
    if parts.len() == 2 {
        proof {
            assert(all[1] == parts@[1]@);
        }
        if !text::begins(parts[1], "-") {
            out.push_str(" ls ");
            let path = text::text_of(parts[1]);
            out.push_str(path.as_str());
            return Some(out);
        }
    }
    None
}

pub open spec fn opt_nat(n: Option<usize>) -> Option<nat> {
    match n {
        Some(v) => Some(v as nat),
        None => None,
    }
}

/// The argument that is the path, if one is.
spec fn path_at(args: Seq<Seq<char>>, at: Option<usize>) -> Option<Seq<char>> {
    match at {
        Some(k) => Some(args[k as int]),
        None => None,
    }
}

/// The line count and the position of the path among the arguments.
fn head_tail_args(args: &[&[char]]) -> (r: (Option<usize>, Option<usize>))
    ensures
        (opt_nat(r.0), path_at(text::views(args@), r.1)) == head_tail(text::views(args@)),
        r.1 matches Some(k) ==> k < args@.len(),
{
    let mut n: Option<usize> = None;
    let mut path: Option<usize> = None;
    let mut i: usize = 0;
    let ghost all = text::views(args@);
    while i < args.len()
        invariant
            i <= args.len(),
            all == text::views(args@),
            path matches Some(k) ==> k < args@.len(),
            head_tail_from(all, i as int, opt_nat(n), path_at(all, path)) == head_tail(all),
        decreases args.len() - i,
    {
        let arg = args[i];
        proof {
            reveal_strlit("-n");
            reveal_strlit("-");
            assert(all[i as int] == arg@);
            if i + 1 < args@.len() {
                assert(all[i + 1] == args@[i + 1]@);
            }
        }
        if text::spells(arg, "-n") && i + 1 < args.len() {
            n = text::number_usize(args[i + 1]);
            i += 2;
        } else if text::begins(arg, "-n") {
            let digits = slice_subrange(arg, 2, arg.len());
            proof {
                assert(digits@ =~= arg@.skip(2));
            }
            n = text::number_usize(digits);
            i += 1;
        } else if text::begins(arg, "-") && arg.len() > 1 {
            let digits = slice_subrange(arg, 1, arg.len());
            proof {
                assert(digits@ =~= arg@.skip(1));
            }
            match text::number_usize(digits) {
                Some(v) => {
                    n = Some(v);
                },
                None => {},
            }
            i += 1;
        } else {
            path = Some(i);
            i += 1;
        }
    }
    (n, path)
}

/// The line count and the path that the arguments of `head` or `tail` give.
pub fn parse_head_tail_args<'a>(args: &[&'a str]) -> (r: (Option<usize>, Option<&'a str>))
    ensures
        (opt_nat(r.0), text::opt_view(r.1)) == head_tail(text::views(args@)),
{
    let lists = text::char_lists(args);
    let slices = text::slices_of(lists.as_slice());
    let (n, at) = head_tail_args(slices.as_slice());
    match at {
        Some(k) => {
            proof {
                assert(text::views(args@)[k as int] == args@[k as int]@);
            }
            (n, Some(args[k]))
        },
        None => (n, None),
    }
}

/// Wraps the rewritable segments of a compound command; nothing where it is no
/// compound or no segment is rewritten.
pub fn build_rewrite_compound(cmd: &str, binary: &str) -> (r: Option<String>)
    ensures
        text::opt_owned(r) == compound(cmd@, binary@),
{
    let chars = text::chars_of(cmd);
    let s = chars.as_slice();
    let cuts = compound_lexer::cut_command(Backslash::Shields, s);
    let ghost pieces = compound_lexer::command_pieces(Backslash::Shields, cmd@);
    let mut tokens: Vec<String> = Vec::new();
    let mut any = false;
    let mut operators = false;
    let mut i: usize = 0;
    proof {
        assert(text::views(tokens@) =~= compound_tokens(pieces.take(0), binary@));
    }
    while i < cuts.len()
        invariant
            i <= cuts.len(),
            s@ == cmd@,
            pieces == compound_lexer::command_pieces(Backslash::Shields, cmd@),
            compound_lexer::cut_pieces(cuts@, s@) == pieces,
            forall|k: int| 0 <= k < cuts@.len() ==> (#[trigger] cuts@[k]).within(s@),
            text::views(tokens@) == compound_tokens(pieces.take(i as int), binary@),
            any == some_rewritten(pieces.take(i as int), binary@),
            operators == some_operator(pieces.take(i as int)),
        decreases cuts.len() - i,
    {
        let cut = cuts[i];
        let ghost before = pieces.take(i as int);
        let ghost now = pieces.take(i + 1);
        proof {
            assert(cuts@[i as int].within(s@));
            assert(compound_lexer::cut_pieces(cuts@, s@)[i as int] == cut.piece(s@));
            assert(now.drop_last() =~= before);
            assert(now.last() == pieces[i as int]);
            assert(forall|k: int| 0 <= k < i ==> now[k] == #[trigger] before[k]);
        }
        let total = s.len();
        let stretch = slice_subrange(s, cut.start, cut.end);
        let segment = text::trimmed(stretch);
        let mut wrapped_here = false;
        if segment.len() > 0 {
            let seg = text::text_of(segment);
            if !is_already_rewritten(seg.as_str(), binary) && is_rewritable(seg.as_str()) {
                wrapped_here = true;
                let w = wrap_single_command(seg.as_str(), binary);
                proof {
                    text::lemma_views_push(tokens@, w);
                }
                tokens.push(w);
            } else {
                proof {
                    text::lemma_views_push(tokens@, seg);
                }
                tokens.push(seg);
            }
        }
        proof {
            if wrapped_here {
                assert(some_rewritten(now, binary@)) by {
                    assert(text::trim(now[i as int].text).len() > 0);
                }
            } else if some_rewritten(now, binary@) {
                let k = choose|k: int|
                    0 <= k < now.len() && text::trim((#[trigger] now[k]).text).len() > 0
                        && rewrites(text::trim(now[k].text), binary@);
                assert(k < i);
                assert(before[k] == now[k]);
            }
            if any {
                let k = choose|k: int|
                    0 <= k < before.len() && text::trim((#[trigger] before[k]).text).len() > 0
                        && rewrites(text::trim(before[k].text), binary@);
                assert(now[k] == before[k]);
            }
        }
        any = any || wrapped_here;
        if cut.op > 0 {
            assert(cut.within(s@));
            let op_end: usize = cut.end + cut.op;
            let op = text::text_of(slice_subrange(s, cut.end, op_end));
            proof {
                text::lemma_views_push(tokens@, op);
                assert(now[i as int].op.len() > 0);
            }
            tokens.push(op);
        }
        proof {
            if cut.op == 0 && some_operator(now) {
                let k = choose|k: int| 0 <= k < now.len() && (#[trigger] now[k]).op.len() > 0;
                assert(k < i);
                assert(before[k] == now[k]);
            }
            if operators {
                let k = choose|k: int|
                    0 <= k < before.len() && (#[trigger] before[k]).op.len() > 0;
                assert(now[k] == before[k]);
            }
        }
        operators = operators || cut.op > 0;
        i += 1;
    }
    proof {
        assert(pieces.take(i as int) =~= pieces);
    }
    if any && operators {
        Some(text::joined_text(tokens.as_slice(), " "))
    } else {
        None
    }
}

/// A command that runs the binary already is left alone.
pub proof fn law_binary_left_alone(cmd: Seq<char>, binary: Seq<char>)
    requires
        runs_binary(cmd, binary),
    ensures
        candidate(cmd, binary) is None,
{
}

/// A command with a here-document is left alone.
pub proof fn law_heredoc_left_alone(cmd: Seq<char>, binary: Seq<char>)
    requires
        text::occurs(cmd, "<<"@),
    ensures
        candidate(cmd, binary) is None,
{
}

proof fn lemma_runs_binary(binary: Seq<char>, rest: Seq<char>)
    requires
        rest.len() > 0,
        rest[0] == ' ',
    ensures
        runs_binary(binary + rest, binary),
{
    reveal_strlit(" ");
    let prefix = binary + " "@;
    assert((binary + rest).take(prefix.len() as int) =~= prefix);
}

/// The text that a POSIX shell reads from a word of single-quoted stretches
/// and escaped characters; `quoted` tells whether a stretch is open.
pub open spec fn word_value(s: Seq<char>, quoted: bool) -> Option<Seq<char>>
    decreases s.len(),
{
    if s.len() == 0 {
        if quoted {
            None
        } else {
            Some(seq![])
        }
    } else if s[0] == '\'' {
        word_value(s.skip(1), !quoted)
    } else if quoted {
        match word_value(s.skip(1), true) {
            Some(v) => Some(seq![s[0]] + v),
            None => None,
        }
    } else if s[0] == '\\' && s.len() >= 2 {
        match word_value(s.skip(2), false) {
            Some(v) => Some(seq![s[1]] + v),
            None => None,
        }
    } else {
        None
    }
}

proof fn lemma_quoted_value(cmd: Seq<char>)
    ensures
        word_value(text::replace(cmd, "'"@, "'\\''"@) + "'"@, true) == Some(cmd),
    decreases cmd.len(),
{
    reveal_strlit("'");
    reveal_strlit("'\\''");
    let q = "'"@;
    let esc = "'\\''"@;
    let body = text::replace(cmd, q, esc);
    if cmd.len() == 0 {
        let s = body + q;
        assert(s =~= q);
        assert(s.skip(1) =~= Seq::<char>::empty());
        assert(word_value(s.skip(1), false) == Some(Seq::<char>::empty()));
        assert(cmd =~= Seq::<char>::empty());
    } else {
        let rest = text::replace(cmd.skip(1), q, esc);
        lemma_quoted_value(cmd.skip(1));
        let tail = rest + q;
        assert(cmd =~= seq![cmd[0]] + cmd.skip(1));
        if cmd[0] == '\'' {
            assert(cmd.take(1) =~= q);
            assert(body == esc + rest);
            let s = body + q;
            assert(s.skip(1)[0] == '\\');
            assert(s.skip(1)[1] == '\'');
            assert(s.skip(1).skip(2)[0] == '\'');
            assert(s.skip(1).skip(2).skip(1) =~= tail);
            assert(word_value(s.skip(1).skip(2), false) == word_value(tail, true));
            assert(word_value(s.skip(1), false) == Some(seq!['\''] + cmd.skip(1)));
        } else {
            assert(cmd.take(1)[0] != q[0]);
            assert(body == seq![cmd[0]] + rest);
            let s = body + q;
            assert(s.skip(1) =~= tail);
        }
    }
}

/// The shell hands the wrapped command to the binary unchanged, as one
/// argument behind `-c`.
pub proof fn law_wrapped_is_one_argument(cmd: Seq<char>, binary: Seq<char>)
    ensures
        exists|word: Seq<char>|
            #![trigger word_value(word, false)]
            wrapped(cmd, binary) == binary + " -c "@ + word && word_value(word, false) == Some(cmd),
{
    reveal_strlit("'");
    reveal_strlit(" -c '");
    reveal_strlit(" -c ");
    let body = text::replace(cmd, "'"@, "'\\''"@);
    let word = "'"@ + body + "'"@;
    lemma_quoted_value(cmd);
    assert(word.skip(1) =~= body + "'"@);
    assert(word_value(word, false) == Some(cmd));
    assert(" -c '"@ =~= " -c "@ + "'"@);
    assert(wrapped(cmd, binary) =~= binary + " -c "@ + word);
}

// ---------------------------------------------------------------- rewriting once
/// Whether a binary is named without blanks ahead, quotes, parentheses, operators
/// and backslashes.
pub open spec fn is_plain_name(binary: Seq<char>) -> bool {
    &&& binary.len() > 0
    &&& !text::is_space(binary[0])
    &&& forall|i: int|
        0 <= i < binary.len() ==> compound_lexer::is_plain(#[trigger] binary[i]) && binary[i]
            != '\\'
}

/// The inside of a single-quoted word is scanned within quotes to its end.
proof fn lemma_quoted_body(s: Seq<char>, a: int, cmd: Seq<char>)
    requires
        0 <= a,
        a + text::replace(cmd, "'"@, "'\\''"@).len() <= s.len(),
        s.subrange(a, a + text::replace(cmd, "'"@, "'\\''"@).len()) == text::replace(
            cmd,
            "'"@,
            "'\\''"@,
        ),
    ensures
        compound_lexer::is_calm(
            Backslash::Shields,
            s,
            a,
            a + text::replace(cmd, "'"@, "'\\''"@).len(),
            Quote::Single,
            0,
        ),
        compound_lexer::quote_over(
            s,
            a,
            a + text::replace(cmd, "'"@, "'\\''"@).len(),
            Quote::Single,
        ) == Quote::Single,
        compound_lexer::depth_over(
            s,
            a,
            a + text::replace(cmd, "'"@, "'\\''"@).len(),
            Quote::Single,
            0,
        ) == 0,
    decreases cmd.len(),
{
    reveal_strlit("'");
    reveal_strlit("'\\''");
    let q = "'"@;
    let esc = "'\\''"@;
    let body = text::replace(cmd, q, esc);
    let e = a + body.len();
    if cmd.len() > 0 {
        let rest = text::replace(cmd.skip(1), q, esc);
        let single = Quote::Single;
        if cmd[0] == '\'' {
            assert(cmd.take(1) =~= q);
            assert(body == esc + rest);
            let part = s.subrange(a, e);
            assert(s[a] == part[0] && s[a + 1] == part[1] && s[a + 2] == part[2] && s[a + 3]
                == part[3]);
            assert(body.skip(4) =~= rest);
            assert(s.subrange(a + 4, a + 4 + rest.len()) =~= s.subrange(a, e).skip(4));
            lemma_quoted_body(s, a + 4, cmd.skip(1));
            reveal_with_fuel(compound_lexer::is_calm, 5);
            reveal_with_fuel(compound_lexer::quote_over, 5);
            reveal_with_fuel(compound_lexer::depth_over, 5);
        } else {
            assert(cmd.take(1)[0] != q[0]);
            assert(body == seq![cmd[0]] + rest);
            assert(s[a] == s.subrange(a, e)[0]);
            assert(body.skip(1) =~= rest);
            assert(s.subrange(a + 1, a + 1 + rest.len()) =~= s.subrange(a, e).skip(1));
            lemma_quoted_body(s, a + 1, cmd.skip(1));
        }
    }
}

/// A wrapped command is a closed segment that runs the binary.
proof fn lemma_wrapped(cmd: Seq<char>, binary: Seq<char>)
    requires
        is_plain_name(binary),
    ensures
        compound_lexer::is_closed(Backslash::Shields, wrapped(cmd, binary)),
        runs_binary(wrapped(cmd, binary), binary),
        wrapped(cmd, binary).len() > 0,
        !text::is_space(wrapped(cmd, binary)[0]),
        wrapped(cmd, binary).last() == '\'',
{
    reveal_strlit("'");
    reveal_strlit(" -c '");
    let body = text::replace(cmd, "'"@, "'\\''"@);
    let w = wrapped(cmd, binary);
    let n = binary.len() as int;
    let outside = Quote::Outside;
    assert(w[0] == binary[0]);
    assert forall|i: int| 0 <= i < n + 4 implies compound_lexer::is_plain(#[trigger] w[i]) && w[i]
        != '\\' by {
        if i < n {
            assert(w[i] == binary[i]);
        } else {
            assert(w[i] == " -c '"@[i - n]);
        }
    }
    compound_lexer::lemma_plain_stretch(Backslash::Shields, w, 0, n + 4, 0);
    assert(w[n + 4] == '\'');
    let m = n + 5 + body.len();
    assert(w.subrange(n + 5, m) =~= body);
    lemma_quoted_body(w, n + 5, cmd);
    assert(w[m] == '\'');
    assert(w.len() == m + 1);
    compound_lexer::lemma_over_split(Backslash::Shields, w, 0, n + 4, m + 1, outside, 0);
    compound_lexer::lemma_over_split(Backslash::Shields, w, n + 5, m, m + 1, Quote::Single, 0);
    reveal_with_fuel(compound_lexer::is_calm, 2);
    reveal_with_fuel(compound_lexer::quote_over, 2);
    reveal_with_fuel(compound_lexer::depth_over, 2);
    let rest = w.skip(n);
    assert(w =~= binary + rest);
    lemma_runs_binary(binary, rest);
}

/// Whether the segment that a text holds is left as it is.
spec fn stays(t: Seq<char>, binary: Seq<char>) -> bool {
    text::trim(t).len() == 0 || !rewrites(text::trim(t), binary)
}

spec fn all_stay(p: Seq<compound_lexer::Piece>, binary: Seq<char>) -> bool {
    forall|j: int| 0 <= j < p.len() ==> stays((#[trigger] p[j]).text, binary)
}

/// The token of a piece's segment: it is the segment between blanks, holds no
/// operator and stays as it is.
proof fn lemma_token(t: Seq<char>, binary: Seq<char>, sep: Seq<char>)
    requires
        is_plain_name(binary),
        compound_lexer::is_calm(Backslash::Shields, t, 0, t.len() as int, Quote::Outside, 0),
        text::trim(t).len() > 0,
        sep == Seq::<char>::empty() || sep == seq![' '],
    ensures
        ({
            let x = segment_text(text::trim(t), binary);
            let alone = sep + x;
            let full = sep + x + seq![' '];
            &&& x.len() > 0
            &&& !text::is_space(x[0])
            &&& stays(alone, binary)
            &&& stays(full, binary)
            &&& compound_lexer::is_calm(
                Backslash::Shields,
                alone,
                0,
                alone.len() as int,
                Quote::Outside,
                0,
            )
            &&& compound_lexer::is_closed(Backslash::Shields, t) ==> compound_lexer::is_closed(
                Backslash::Shields,
                full,
            )
        }),
{
    let u = text::trim(t);
    let x = segment_text(u, binary);
    let alone = sep + x;
    let full = sep + x + seq![' '];
    let k = sep.len() as int;
    compound_lexer::lemma_blank_closed(Backslash::Shields);
    text::lemma_trim_ends(t);
    if rewrites(u, binary) {
        lemma_wrapped(u, binary);
        compound_lexer::lemma_closed_ahead(Backslash::Shields, x, seq![' ']);
    } else {
        compound_lexer::lemma_trimmed_piece(Backslash::Shields, t);
        if u[0] == '&' && k > 0 {
            assert(x[0] == '&');
        }
    }
    assert(!text::is_space(x.last()));
    assert(x[x.len() - 1] == x.last());
    assert(alone[k] == x[0] && alone[k + x.len() - 1] == x.last());
    assert(full[k] == x[0] && full[k + x.len() - 1] == x.last());
    text::lemma_trim_is(alone, k, k + x.len());
    text::lemma_trim_is(full, k, k + x.len());
    assert(alone.subrange(k, k + x.len()) =~= x);
    assert(full.subrange(k, k + x.len()) =~= x);
    assert(sep + x + seq![' '] =~= sep + (x + seq![' ']));
    if k > 0 {
        lemma_blank_ahead(x);
        lemma_blank_ahead(x + seq![' ']);
    } else {
        assert(alone =~= x);
        assert(full =~= x + seq![' ']);
    }
}

/// A blank ahead of a text changes nothing for the scan.
proof fn lemma_blank_ahead(b: Seq<char>)
    ensures
        compound_lexer::is_calm(
            Backslash::Shields,
            b,
            0,
            b.len() as int,
            Quote::Outside,
            0,
        ) ==> compound_lexer::is_calm(
            Backslash::Shields,
            seq![' '] + b,
            0,
            (b.len() + 1) as int,
            Quote::Outside,
            0,
        ),
        compound_lexer::is_closed(Backslash::Shields, b) ==> compound_lexer::is_closed(
            Backslash::Shields,
            seq![' '] + b,
        ),
{
    let s = seq![' '] + b;
    let outside = Quote::Outside;
    assert(s.subrange(1, (1 + b.len()) as int) =~= b);
    compound_lexer::lemma_over_moved(Backslash::Shields, s, b, 1, 0, outside, 0);
    assert(s[0] == ' ');
    compound_lexer::lemma_over_split(Backslash::Shields, s, 0, 1, s.len() as int, outside, 0);
    reveal_with_fuel(compound_lexer::is_calm, 2);
    reveal_with_fuel(compound_lexer::quote_over, 2);
    reveal_with_fuel(compound_lexer::depth_over, 2);
}

spec fn separator(tokens: Seq<Seq<char>>) -> Seq<char> {
    if tokens.len() == 0 {
        seq![]
    } else {
        seq![' ']
    }
}

proof fn lemma_join_push(tokens: Seq<Seq<char>>, x: Seq<char>)
    ensures
        text::join(tokens.push(x), " "@) == text::join(tokens, " "@) + separator(tokens) + x,
{
    reveal_strlit(" ");
    assert(" "@ =~= seq![' ']);
    let all = tokens.push(x);
    assert(all.drop_last() =~= tokens);
    if tokens.len() == 0 {
        assert(text::join(tokens, " "@) + separator(tokens) + x =~= x);
        assert(all[0] == x);
    }
}

/// The text that a piece with an operator adds to a rewritten compound: its segment
/// between blanks.
spec fn piece_text(piece: compound_lexer::Piece, binary: Seq<char>, sep: Seq<char>) -> Seq<char> {
    let u = text::trim(piece.text);
    if u.len() > 0 {
        sep + segment_text(u, binary) + seq![' ']
    } else {
        sep
    }
}

proof fn lemma_tokens_push(pieces: Seq<compound_lexer::Piece>, binary: Seq<char>)
    requires
        pieces.len() > 0,
        pieces.last().op.len() > 0,
    ensures
        compound_tokens(pieces, binary).len() > 0,
        text::join(compound_tokens(pieces, binary), " "@) == text::join(
            compound_tokens(pieces.drop_last(), binary),
            " "@,
        ) + piece_text(
            pieces.last(),
            binary,
            separator(compound_tokens(pieces.drop_last(), binary)),
        ) + pieces.last().op,
{
    let before = compound_tokens(pieces.drop_last(), binary);
    let x = pieces.last();
    let u = text::trim(x.text);
    let r = text::join(before, " "@);
    let sep = separator(before);
    if u.len() > 0 {
        let seg = segment_text(u, binary);
        let with = before.push(seg);
        lemma_join_push(before, seg);
        lemma_join_push(with, x.op);
        assert(r + sep + seg + seq![' '] + x.op =~= r + (sep + seg + seq![' ']) + x.op);
    } else {
        lemma_join_push(before, x.op);
    }
}

/// Cut again, the rewritten pieces are pieces that stay as they are, wherever the
/// rest of the text goes on with a blank.
proof fn lemma_prefix_stays(
    pieces: Seq<compound_lexer::Piece>,
    binary: Seq<char>,
    more: Seq<char>,
)
    requires
        is_plain_name(binary),
        compound_lexer::are_cut_pieces(Backslash::Shields, pieces),
        pieces.len() > 0 ==> pieces.last().op.len() > 0,
        pieces.len() > 0 && more.len() > 0 ==> more[0] == ' ',
        ({
            let r = text::join(compound_tokens(pieces, binary), " "@);
            all_stay(
                compound_lexer::pieces_from(
                    Backslash::Shields,
                    r + more,
                    r.len() as int,
                    r.len() as int,
                    Quote::Outside,
                    0,
                ),
                binary,
            )
        }),
    ensures
        all_stay(
            compound_lexer::command_pieces(
                Backslash::Shields,
                text::join(compound_tokens(pieces, binary), " "@) + more,
            ),
            binary,
        ),
    decreases pieces.len(),
{
    let r = text::join(compound_tokens(pieces, binary), " "@);
    let outside = Quote::Outside;
    let s = r + more;
    if pieces.len() == 0 {
        assert(r =~= Seq::<char>::empty());
    } else {
        let fewer = pieces.drop_last();
        let x = pieces.last();
        assert(x == pieces[pieces.len() - 1]);
        let before = compound_tokens(fewer, binary);
        let r0 = text::join(before, " "@);
        let sep = separator(before);
        let t = piece_text(x, binary, sep);
        lemma_tokens_push(pieces, binary);
        let rest = t + x.op + more;
        assert(s =~= r0 + rest);
        let a = r0.len() as int;
        assert(s.subrange(a, a + t.len()) =~= t);
        assert(s.subrange(a + t.len(), a + t.len() + x.op.len()) =~= x.op);
        compound_lexer::lemma_blank_closed(Backslash::Shields);
        assert(compound_lexer::is_cut_piece(Backslash::Shields, x));
        if text::trim(x.text).len() > 0 {
            lemma_token(x.text, binary, sep);
            assert(t.last() == ' ');
        } else {
            text::lemma_trim_blank(t);
        }
        if a + t.len() + x.op.len() < s.len() {
            assert(s[a + t.len() + x.op.len()] == more[0]);
        }
        compound_lexer::lemma_next_piece(Backslash::Shields, s, a, t, x.op);
        let tail = compound_lexer::pieces_from(
            Backslash::Shields,
            s,
            r.len() as int,
            r.len() as int,
            outside,
            0,
        );
        let all = compound_lexer::pieces_from(Backslash::Shields, s, a, a, outside, 0);
        assert(r.len() == a + t.len() + x.op.len());
        assert(stays(t, binary));
        assert forall|j: int| 0 <= j < all.len() implies stays(
            (#[trigger] all[j]).text,
            binary,
        ) by {
            if j > 0 {
                assert(all[j] == tail[j - 1]);
            }
        }
        if fewer.len() > 0 {
            assert(fewer.last() == pieces[fewer.len() - 1]);
            lemma_tokens_push(fewer, binary);
            assert(sep =~= seq![' ']);
            assert(rest[0] == ' ');
        }
        assert(compound_lexer::are_cut_pieces(Backslash::Shields, fewer)) by {
            assert forall|j: int| #![trigger fewer[j]] 0 <= j < fewer.len() implies fewer[j]
                == pieces[j] by {}
        }
        lemma_prefix_stays(fewer, binary, rest);
    }
}

/// A rewritten compound, cut again, holds only segments that stay as they are.
proof fn lemma_rewritten_stays(pieces: Seq<compound_lexer::Piece>, binary: Seq<char>)
    requires
        is_plain_name(binary),
        compound_lexer::are_cut_pieces(Backslash::Shields, pieces),
    ensures
        all_stay(
            compound_lexer::command_pieces(
                Backslash::Shields,
                text::join(compound_tokens(pieces, binary), " "@),
            ),
            binary,
        ),
{
    let r = text::join(compound_tokens(pieces, binary), " "@);
    let outside = Quote::Outside;
    let none = Seq::<char>::empty();
    if pieces.len() == 0 || pieces.last().op.len() > 0 {
        assert(r + none =~= r);
        lemma_prefix_stays(pieces, binary, none);
    } else {
        let fewer = pieces.drop_last();
        let x = pieces.last();
        assert(x == pieces[pieces.len() - 1]);
        assert(compound_lexer::is_cut_piece(Backslash::Shields, x));
        let before = compound_tokens(fewer, binary);
        let r0 = text::join(before, " "@);
        let sep = separator(before);
        let u = text::trim(x.text);
        assert(compound_lexer::are_cut_pieces(Backslash::Shields, fewer)) by {
            assert forall|j: int| #![trigger fewer[j]] 0 <= j < fewer.len() implies fewer[j]
                == pieces[j] by {}
        }
        if fewer.len() > 0 {
            assert(fewer.last() == pieces[fewer.len() - 1]);
            lemma_tokens_push(fewer, binary);
        }
        let more = if u.len() > 0 {
            sep + segment_text(u, binary)
        } else {
            none
        };
        if u.len() > 0 {
            lemma_join_push(before, segment_text(u, binary));
            lemma_token(x.text, binary, sep);
        }
        assert(r =~= r0 + more);
        let a = r0.len() as int;
        assert(r.skip(a) =~= more);
        compound_lexer::lemma_last_piece(Backslash::Shields, r, a);
        lemma_prefix_stays(fewer, binary, more);
    }
}

/// The operators of a compound stand in its rewritten form.
proof fn lemma_operator_shown(pieces: Seq<compound_lexer::Piece>, binary: Seq<char>, j: int)
    requires
        0 <= j < pieces.len(),
        pieces[j].op.len() > 0,
    ensures
        text::join(compound_tokens(pieces, binary), " "@).contains(pieces[j].op[0]),
    decreases pieces.len(),
{
    let fewer = pieces.drop_last();
    let x = pieces.last();
    let before = compound_tokens(fewer, binary);
    let r0 = text::join(before, " "@);
    let r = text::join(compound_tokens(pieces, binary), " "@);
    let c = pieces[j].op[0];
    if x.op.len() > 0 {
        lemma_tokens_push(pieces, binary);
    } else if text::trim(x.text).len() > 0 {
        lemma_join_push(before, segment_text(text::trim(x.text), binary));
    }
    if j == pieces.len() - 1 {
        assert(r[r.len() - x.op.len()] == c);
    } else {
        assert(fewer[j] == pieces[j]);
        lemma_operator_shown(fewer, binary, j);
        let k = choose|k: int| 0 <= k < r0.len() && r0[k] == c;
        assert(r[k] == c);
    }
}

/// A rewritten compound starts without a blank.
proof fn lemma_rewritten_start(pieces: Seq<compound_lexer::Piece>, binary: Seq<char>)
    requires
        is_plain_name(binary),
        compound_lexer::are_cut_pieces(Backslash::Shields, pieces),
        compound_tokens(pieces, binary).len() > 0,
    ensures
        text::join(compound_tokens(pieces, binary), " "@).len() > 0,
        !text::is_space(text::join(compound_tokens(pieces, binary), " "@)[0]),
    decreases pieces.len(),
{
    let fewer = pieces.drop_last();
    let x = pieces.last();
    assert(x == pieces[pieces.len() - 1]);
    assert(compound_lexer::is_cut_piece(Backslash::Shields, x));
    assert(compound_lexer::are_cut_pieces(Backslash::Shields, fewer)) by {
        assert forall|j: int| #![trigger fewer[j]] 0 <= j < fewer.len() implies fewer[j]
            == pieces[j] by {}
    }
    let before = compound_tokens(fewer, binary);
    let r0 = text::join(before, " "@);
    let r = text::join(compound_tokens(pieces, binary), " "@);
    let u = text::trim(x.text);
    if u.len() > 0 {
        lemma_token(x.text, binary, separator(before));
        lemma_join_push(before, segment_text(u, binary));
    }
    if x.op.len() > 0 {
        lemma_tokens_push(pieces, binary);
    }
    if before.len() > 0 {
        lemma_rewritten_start(fewer, binary);
        assert(r[0] == r0[0]);
    } else {
        assert(r0 =~= Seq::<char>::empty());
        if u.len() > 0 {
            assert(r[0] == segment_text(u, binary)[0]);
        } else {
            assert(r[0] == x.op[0]);
        }
    }
}

proof fn lemma_names(name: Seq<char>)
    requires
        rewrite_registry::is_rewritable_name(name),
    ensures
        name.len() > 0,
        forall|i: int|
            0 <= i < name.len() ==> #[trigger] name[i] != ';' && name[i] != '&' && name[i] != '|',
{
    reveal_strlit("git");
    reveal_strlit("gh");
    reveal_strlit("cargo");
    reveal_strlit("npm");
    reveal_strlit("curl");
    reveal_strlit("find");
    reveal_strlit("rg");
    reveal_strlit("ls");
}

/// A command all of whose segments stay as they are does not start with a rewritable
/// one.
proof fn lemma_start_stays(r: Seq<char>, binary: Seq<char>)
    requires
        all_stay(compound_lexer::command_pieces(Backslash::Shields, r), binary),
        r.len() > 0,
        !text::is_space(r[0]),
        !runs_binary(r, binary),
    ensures
        !rewrite_registry::is_rewritable_spec(r),
{
    if rewrite_registry::is_rewritable_spec(r) {
        text::lemma_run_len_is(r, text::spaces(), 0);
        assert(text::trim_start(r) =~= r);
        text::lemma_run_len(r, text::non_spaces());
        let n = text::run_len(r, text::non_spaces()) as int;
        let w = text::first_word(r);
        assert(w == r.take(n));
        lemma_names(w);
        let p = compound_lexer::command_pieces(Backslash::Shields, r);
        compound_lexer::lemma_first_piece(Backslash::Shields, r, 0, 0, Quote::Outside, 0);
        compound_lexer::law_pieces_are_closed(Backslash::Shields, r);
        compound_lexer::law_pieces_cover_command(Backslash::Shields, r);
        let t = p[0].text;
        let op = p[0].op;
        let m = t.len() as int;
        assert(compound_lexer::is_cut_piece(Backslash::Shields, p[0]));
        assert(r == t + op + compound_lexer::glued(p.skip(1)));
        assert(t =~= r.take(m));
        if op.len() > 0 {
            assert(r[m] == op[0]);
            if m < n {
                assert(w[m] == r[m]);
            }
            if m == n {
                assert(!text::non_spaces()(r[n]));
            }
        } else {
            assert(p.len() == 1);
            assert(compound_lexer::glued(p.skip(1)) =~= Seq::<char>::empty());
            assert(t =~= r);
        }
        text::lemma_tail_len(t, text::spaces());
        let b = m - text::tail_len(t, text::spaces());
        assert(text::non_spaces()(r[n - 1]));
        assert(t[n - 1] == r[n - 1]);
        if b < n {
            assert(text::spaces()(t[n - 1]));
        }
        assert(!text::spaces()(t[b - 1]));
        assert forall|i: int| b <= i < m implies text::is_space(#[trigger] t[i]) by {
            assert(text::spaces()(t[i]));
        }
        text::lemma_trim_is(t, 0, b);
        let u = t.subrange(0, b);
        assert forall|i: int| 0 <= i < n implies text::non_spaces()(#[trigger] u[i]) by {
            assert(text::non_spaces()(r[i]));
        }
        assert(u[0] == r[0]);
        text::lemma_run_len_is(u, text::spaces(), 0);
        assert(text::trim_start(u) =~= u);
        if n < u.len() {
            assert(u[n] == r[n]);
        }
        text::lemma_run_len_is(u, text::non_spaces(), n);
        assert(text::first_word(u) =~= w);
        assert(stays(p[0].text, binary));
        assert(runs_binary(u, binary));
        let one = "lean-ctx "@;
        let two = binary + " "@;
        if text::starts_with(u, one) {
            assert(r.take(one.len() as int) =~= u.take(one.len() as int));
        }
        if text::starts_with(u, two) {
            assert(r.take(two.len() as int) =~= u.take(two.len() as int));
        }
    }
}

/// What a command is rewritten to is not rewritten again; for a compound this is
/// said of a binary with a plain name.
pub proof fn law_rewriting_stops(cmd: Seq<char>, binary: Seq<char>)
    requires
        candidate(cmd, binary) is Some,
        compound(cmd, binary) is Some ==> is_plain_name(binary),
    ensures
        candidate(candidate(cmd, binary)->0, binary) is None,
{
    let r = candidate(cmd, binary)->0;
    if file_read(cmd, binary) is None && search_read(cmd, binary) is None && dir_list(
        cmd,
        binary,
    ) is None && compound(cmd, binary) is Some {
        let pieces = compound_lexer::command_pieces(Backslash::Shields, cmd);
        compound_lexer::law_pieces_are_closed(Backslash::Shields, cmd);
        let j = choose|j: int| 0 <= j < pieces.len() && (#[trigger] pieces[j]).op.len() > 0;
        assert(compound_lexer::is_cut_piece(Backslash::Shields, pieces[j]));
        lemma_operator_shown(pieces, binary, j);
        let c = pieces[j].op[0];
        let k = choose|k: int| 0 <= k < r.len() && r[k] == c;
        assert(rewrite_registry::is_shell_control(r[k]));
        assert(file_read(r, binary) is None);
        if compound_tokens(pieces, binary).len() == 0 {
            assert(r =~= Seq::<char>::empty());
        }
        lemma_rewritten_start(pieces, binary);
        lemma_rewritten_stays(pieces, binary);
        assert(!some_rewritten(compound_lexer::command_pieces(Backslash::Shields, r), binary)) by {
            let again = compound_lexer::command_pieces(Backslash::Shields, r);
            assert forall|i: int| 0 <= i < again.len() && text::trim(
                (#[trigger] again[i]).text,
            ).len() > 0 implies !rewrites(text::trim(again[i].text), binary) by {
                assert(stays(again[i].text, binary));
            }
        }
        if !runs_binary(r, binary) {
            lemma_start_stays(r, binary);
            text::lemma_run_len(r, text::spaces());
            assert(text::words(r).len() > 0 ==> text::words(r)[0] == text::first_word(r));
            assert(search_read(r, binary) is None);
            assert(dir_list(r, binary) is None);
        }
    } else {
        reveal_strlit(" read ");
        reveal_strlit(" grep ");
        reveal_strlit(" ls");
        reveal_strlit(" ls ");
        reveal_strlit(" -c '");
        let rest = r.skip(binary.len() as int);
        assert(r =~= binary + rest);
        assert(rest[0] == ' ');
        lemma_runs_binary(binary, rest);
    }
}

// ---------------------------------------------------------------- laws of rewriting
/// Whether a text holds no character that joins commands or redirects them.
pub open spec fn no_control(s: Seq<char>) -> bool {
    !s.contains('|') && !s.contains('&') && !s.contains(';') && !s.contains('<') && !s.contains('>')
}

/// Whether a command is no compound and has no here-document.
pub open spec fn is_single(s: Seq<char>) -> bool {
    !s.contains('|') && !s.contains('&') && !s.contains(';') && !text::occurs(s, "<<"@)
}

/// Whether a command neither runs the binary nor `lean-ctx`.
pub open spec fn runs_other(cmd: Seq<char>, binary: Seq<char>) -> bool {
    !text::starts_with(cmd, "lean-ctx "@) && !text::starts_with(cmd, binary + " "@)
}

proof fn lemma_first_of_words(cmd: Seq<char>)
    requires
        text::words(cmd).len() > 0,
    ensures
        text::first_word(cmd) == text::words(cmd)[0],
        cmd.len() > 0,
{
    let t = text::trim_start(cmd);
    text::lemma_run_len(cmd, text::spaces());
}

proof fn lemma_no_control(cmd: Seq<char>)
    requires
        no_control(cmd),
    ensures
        forall|i: int|
            0 <= i < cmd.len() ==> !rewrite_registry::is_shell_control(#[trigger] cmd[i]),
        !text::occurs(cmd, "<<"@),
{
    reveal_strlit("<<");
    assert forall|i: int| 0 <= i < cmd.len() implies !rewrite_registry::is_shell_control(
        #[trigger] cmd[i],
    ) by {
        assert(cmd.contains(cmd[i]));
    }
    if text::occurs(cmd, "<<"@) {
        let k = choose|k: int| text::occurs_at(cmd, "<<"@, k);
        assert(cmd.subrange(k, k + 2)[0] == cmd[k]);
        assert(cmd.contains(cmd[k]));
    }
}

/// Whether the words of a command name a number of lines and a path, in one of the ways
/// that `head` and `tail` take them.
pub open spec fn names_lines(
    words: Seq<Seq<char>>,
    tool: Seq<char>,
    n: nat,
    path: Seq<char>,
) -> bool {
    ||| words == seq![tool, "-n"@, text::decimal(n), path]
    ||| words == seq![tool, "-n"@ + text::decimal(n), path]
    ||| words == seq![tool, "-"@ + text::decimal(n), path]
    ||| words == seq![tool, path, "-n"@, text::decimal(n)]
    ||| words == seq![tool, path, "-n"@ + text::decimal(n)]
    ||| words == seq![tool, path, "-"@ + text::decimal(n)]
}

proof fn lemma_counted_args(words: Seq<Seq<char>>, tool: Seq<char>, n: nat, path: Seq<char>)
    requires
        n <= usize::MAX,
        path.len() > 0,
        path[0] != '-',
        names_lines(words, tool, n, path),
    ensures
        head_tail(words.skip(1)) == (Some(n), Some(path)),
{
    reveal_strlit("-n");
    reveal_strlit("-");
    let d = text::decimal(n);
    let max = usize::MAX as nat;
    text::law_decimal(n);
    text::law_parse_number(n, d, max);
    let args = words.skip(1);
    let long = "-n"@ + d;
    let short = "-"@ + d;
    assert(long.take(2) =~= "-n"@);
    assert(long.skip(2) =~= d);
    assert(short.take(1) =~= "-"@);
    assert(short.skip(1) =~= d);
    assert(short[1] == d[0]);
    if text::starts_with(short, "-n"@) {
        assert(short.take(2)[1] == short[1]);
    }
    if text::starts_with(path, "-n"@) {
        assert(path.take(2)[0] == path[0]);
    }
    if text::starts_with(path, "-"@) {
        assert(path.take(1)[0] == path[0]);
    }
    assert(path != "-n"@);
    assert(long.len() > 2);
    assert(short != "-n"@) by {
        assert(short[1] == d[0]);
    }
    if words == seq![tool, "-n"@, d, path] {
        assert(args =~= seq!["-n"@, d, path]);
    } else if words == seq![tool, long, path] {
        assert(args =~= seq![long, path]);
    } else if words == seq![tool, short, path] {
        assert(args =~= seq![short, path]);
    } else if words == seq![tool, path, "-n"@, d] {
        assert(args =~= seq![path, "-n"@, d]);
    } else if words == seq![tool, path, long] {
        assert(args =~= seq![path, long]);
    } else {
        assert(args =~= seq![path, short]);
    }
    reveal_with_fuel(head_tail_from, 4);
}

/// `tail` with a number of lines and a path is a read of that path's last lines, as many
/// as were asked for, and `head` one of its first; the number may stand in each way that
/// the tools take it, ahead of the path or behind it.
pub proof fn law_counted_lines(cmd: Seq<char>, binary: Seq<char>, n: nat, path: Seq<char>)
    requires
        n <= usize::MAX,
        path.len() > 0,
        path[0] != '-',
        no_control(cmd),
        runs_other(cmd, binary),
    ensures
        names_lines(text::words(cmd), "tail"@, n, path) ==> candidate(cmd, binary) == Some(
            binary + " read "@ + path + " -m lines:-"@ + text::decimal(n),
        ),
        names_lines(text::words(cmd), "head"@, n, path) ==> candidate(cmd, binary) == Some(
            binary + " read "@ + path + " -m lines:1-"@ + text::decimal(n),
        ),
{
    reveal_strlit("cat");
    reveal_strlit("head");
    reveal_strlit("tail");
    assert("head"@[0] != "tail"@[0]);
    lemma_no_control(cmd);
    let words = text::words(cmd);
    if names_lines(words, "tail"@, n, path) {
        lemma_first_of_words(cmd);
        lemma_counted_args(words, "tail"@, n, path);
    }
    if names_lines(words, "head"@, n, path) {
        lemma_first_of_words(cmd);
        lemma_counted_args(words, "head"@, n, path);
    }
}

/// Without a number `tail` is a read of the last ten lines and `head` of the first ten;
/// `cat` is a read of all that it names.
pub proof fn law_plain_reads(
    cmd: Seq<char>,
    binary: Seq<char>,
    path: Seq<char>,
    args: Seq<Seq<char>>,
)
    requires
        path.len() > 0,
        path[0] != '-',
        no_control(cmd),
        runs_other(cmd, binary),
        args.len() > 0,
    ensures
        text::words(cmd) == seq!["tail"@, path] ==> candidate(cmd, binary) == Some(
            binary + " read "@ + path + " -m lines:-10"@,
        ),
        text::words(cmd) == seq!["head"@, path] ==> candidate(cmd, binary) == Some(
            binary + " read "@ + path + " -m lines:1-10"@,
        ),
        text::words(cmd) == seq!["cat"@] + args ==> candidate(cmd, binary) == Some(
            binary + " read "@ + text::join(args, " "@),
        ),
{
    reveal_strlit("cat");
    reveal_strlit("head");
    reveal_strlit("tail");
    reveal_strlit("-n");
    reveal_strlit("-");
    reveal_strlit(" -m lines:-");
    reveal_strlit(" -m lines:-10");
    reveal_strlit(" -m lines:1-");
    reveal_strlit(" -m lines:1-10");
    lemma_no_control(cmd);
    let words = text::words(cmd);
    let rest = words.skip(1);
    if text::starts_with(path, "-n"@) {
        assert(path.take(2)[0] == path[0]);
    }
    if text::starts_with(path, "-"@) {
        assert(path.take(1)[0] == path[0]);
    }
    assert(text::decimal(1) =~= seq!['1']);
    assert(text::decimal(10) =~= seq!['1', '0']);
    assert(" -m lines:-10"@ =~= " -m lines:-"@ + seq!['1', '0']);
    assert(" -m lines:1-10"@ =~= " -m lines:1-"@ + seq!['1', '0']);
    assert(binary + " read "@ + path + " -m lines:-10"@ =~= binary + " read "@ + path
        + " -m lines:-"@ + seq!['1', '0']);
    assert(binary + " read "@ + path + " -m lines:1-10"@ =~= binary + " read "@ + path
        + " -m lines:1-"@ + seq!['1', '0']);
    assert("head"@[0] != "tail"@[0]);
    reveal_with_fuel(head_tail_from, 3);
    if words == seq!["tail"@, path] || words == seq!["head"@, path] {
        assert(rest =~= seq![path]);
        lemma_first_of_words(cmd);
    }
    if words == seq!["cat"@] + args {
        assert(rest =~= args);
        lemma_first_of_words(cmd);
        assert(words[0] == "cat"@);
    }
}

/// A search with `rg` for a pattern, and one for a pattern in a path, is one through the
/// binary; with a flag, with more words, or where it quotes blanks that would be lost, it
/// is run through it as it stands. The listing of `ls` is one through the binary, and with
/// a flag or more words it is run through it as it stands.
pub proof fn law_searches_and_listings(
    cmd: Seq<char>,
    binary: Seq<char>,
    a: Seq<char>,
    b: Seq<char>,
)
    requires
        is_single(cmd),
        runs_other(cmd, binary),
        a.len() > 0,
        b.len() > 0,
    ensures
        text::words(cmd) == seq!["rg"@, a] && a[0] != '-' && !compound_lexer::loses_blanks(cmd)
            ==> candidate(cmd, binary) == Some(binary + " grep "@ + a),
        text::words(cmd) == seq!["rg"@, a, b] && a[0] != '-' && b[0] != '-'
            && !compound_lexer::loses_blanks(cmd) ==> candidate(cmd, binary) == Some(
            binary + " grep "@ + a + " "@ + b,
        ),
        text::words(cmd).len() > 0 && text::words(cmd)[0] == "rg"@ && compound_lexer::loses_blanks(
            cmd,
        ) ==> candidate(cmd, binary) == Some(wrapped(cmd, binary)),
        text::words(cmd) == seq!["rg"@] || (text::words(cmd) == seq!["rg"@, a] && a[0] == '-')
            ==> candidate(cmd, binary) == Some(wrapped(cmd, binary)),
        text::words(cmd) == seq!["rg"@, a, b] && (a[0] == '-' || b[0] == '-') ==> candidate(
            cmd,
            binary,
        ) == Some(wrapped(cmd, binary)),
        text::words(cmd) == seq!["ls"@] ==> candidate(cmd, binary) == Some(binary + " ls"@),
        text::words(cmd) == seq!["ls"@, a] && a[0] != '-' ==> candidate(cmd, binary) == Some(
            binary + " ls "@ + a,
        ),
        text::words(cmd) == seq!["ls"@, a] && a[0] == '-' ==> candidate(cmd, binary)
            == Some(wrapped(cmd, binary)),
        text::words(cmd).len() > 3 && text::words(cmd)[0] == "rg"@ ==> candidate(cmd, binary)
            == Some(wrapped(cmd, binary)),
        text::words(cmd).len() > 2 && text::words(cmd)[0] == "ls"@ ==> candidate(cmd, binary)
            == Some(wrapped(cmd, binary)),
{
    reveal_strlit("cat");
    reveal_strlit("head");
    reveal_strlit("tail");
    reveal_strlit("rg");
    reveal_strlit("ls");
    reveal_strlit("-");
    lemma_dash(a);
    lemma_dash(b);
    let words = text::words(cmd);
    assert("rg"@[0] != "ls"@[0]);
    if words.len() > 0 {
        lemma_first_of_words(cmd);
        lemma_plain_wrapped(cmd, binary);
    }
}

proof fn lemma_dash(a: Seq<char>)
    requires
        a.len() > 0,
    ensures
        text::starts_with(a, "-"@) <==> a[0] == '-',
{
    reveal_strlit("-");
    assert(a.take(1)[0] == a[0]);
    if a[0] == '-' {
        assert(a.take(1) =~= "-"@);
    }
}

/// A command without operators is no compound, and one without quotes is wrapped as it
/// stands.
proof fn lemma_plain_wrapped(cmd: Seq<char>, binary: Seq<char>)
    requires
        is_single(cmd),
        cmd.len() > 0,
    ensures
        compound(cmd, binary) is None,
        !cmd.contains('\'') ==> wrapped(cmd, binary) == binary + " -c '"@ + cmd + "'"@,
{
    compound_lexer::law_plain_command_is_one_piece(Backslash::Shields, cmd);
    let p = compound_lexer::command_pieces(Backslash::Shields, cmd);
    assert forall|i: int| 0 <= i < p.len() implies (#[trigger] p[i]).op.len() == 0 by {
        assert(p[i] == p[0]);
    }
    if !cmd.contains('\'') {
        reveal_strlit("'");
        if text::occurs(cmd, "'"@) {
            let k = choose|k: int| text::occurs_at(cmd, "'"@, k);
            assert(cmd.subrange(k, k + 1)[0] == cmd[k]);
            assert(cmd.contains(cmd[k]));
        }
        text::law_replace(cmd, "'"@, "'\\''"@);
    }
}

/// Whether a name is that of a command that is run through the binary.
pub open spec fn is_run_through(name: Seq<char>) -> bool {
    name == "git"@ || name == "gh"@ || name == "cargo"@ || name == "npm"@ || name == "curl"@ || name
        == "find"@
}

/// A single `git`, `gh`, `cargo`, `npm`, `curl` or `find` is run through the binary as
/// one argument, whatever its own arguments are; a single command of another name is
/// left alone, unless it is a read, a search or a listing.
pub proof fn law_single_commands(cmd: Seq<char>, binary: Seq<char>, name: Seq<char>)
    requires
        is_single(cmd),
        runs_other(cmd, binary),
        text::words(cmd).len() > 0,
        name == text::words(cmd)[0],
    ensures
        is_run_through(name) ==> candidate(cmd, binary) == Some(wrapped(cmd, binary)),
        !is_run_through(name) && name != "cat"@ && name != "head"@ && name != "tail"@ && name
            != "rg"@ && name != "ls"@ ==> candidate(cmd, binary) is None,
{
    reveal_strlit("cat");
    reveal_strlit("head");
    reveal_strlit("tail");
    reveal_strlit("rg");
    reveal_strlit("ls");
    reveal_strlit("git");
    reveal_strlit("gh");
    reveal_strlit("cargo");
    reveal_strlit("npm");
    reveal_strlit("curl");
    reveal_strlit("find");
    lemma_first_of_words(cmd);
    lemma_plain_wrapped(cmd, binary);
    if name == "git"@ {
        assert(name.len() == 3 && name[0] == 'g');
    }
    if name == "gh"@ {
        assert(name.len() == 2 && name[0] == 'g');
    }
    if name == "cargo"@ {
        assert(name.len() == 5 && name[0] == 'c');
    }
    if name == "npm"@ {
        assert(name.len() == 3 && name[0] == 'n');
    }
    if name == "curl"@ {
        assert(name.len() == 4 && name[0] == 'c');
    }
    if name == "find"@ {
        assert(name.len() == 4 && name[0] == 'f');
    }
    assert("cat"@[0] == 'c' && "head"@[0] == 'h' && "tail"@[0] == 't' && "rg"@[0] == 'r' && "ls"@[0]
        == 'l');
}

/// A segment of a compound command: run through the binary where its name is one of
/// these and it does not run it yet, else as it stands.
pub proof fn law_segment(segment: Seq<char>, binary: Seq<char>, name: Seq<char>)
    requires
        name == text::first_word(segment),
    ensures
        runs_other(segment, binary) && (is_run_through(name) || name == "rg"@ || name == "ls"@)
            ==> segment_text(segment, binary) == wrapped(segment, binary),
        !runs_other(segment, binary) || !(is_run_through(name) || name == "rg"@ || name == "ls"@)
            ==> segment_text(segment, binary) == segment,
{
}

/// Two commands around an operator: where one of them is run through the binary, the
/// compound is the two, each as a segment, around that operator.
pub proof fn law_two_commands(
    a: Seq<char>,
    op: Seq<char>,
    b: Seq<char>,
    binary: Seq<char>,
)
    requires
        compound_lexer::is_simple(a),
        compound_lexer::is_simple(b),
        text::trim(a).len() > 0,
        text::trim(b).len() > 0,
        op == seq![';'] || op == seq!['&', '&'] || op == seq!['|', '|'] || op == seq!['|'],
    ensures
        ({
            let one = segment_text(text::trim(a), binary);
            let two = segment_text(text::trim(b), binary);
            let changed = one != text::trim(a) || two != text::trim(b);
            &&& changed ==> compound(a + op + b, binary) == Some(
                one + " "@ + op + " "@ + two,
            )
            &&& changed && runs_other(a + op + b, binary) && !text::occurs(a + op + b, "<<"@)
                && text::first_word(a + op + b) != "rg"@ && text::first_word(a + op + b) != "ls"@
                ==> candidate(a + op + b, binary) == Some(one + " "@ + op + " "@ + two)
            &&& !rewrites(text::trim(a), binary) && !rewrites(text::trim(b), binary) ==> compound(
                a + op + b,
                binary,
            ) is None
        }),
{
    let m = Backslash::Shields;
    let none = Seq::<char>::empty();
    assert(b.len() > 0) by {
        if b.len() == 0 {
            text::lemma_trim_blank(b);
        }
    }
    compound_lexer::law_cuts(m, a, none, none, op, b);
    compound_lexer::law_cuts(m, b, none, none, op, none);
    assert(a + none + none =~= a);
    assert(b + none + none =~= b);
    let first = compound_lexer::Piece { text: a, op };
    let last = compound_lexer::Piece { text: b, op: none };
    let s = a + op + b;
    let p = compound_lexer::command_pieces(m, s);
    assert(b[0] == b[0]);
    assert(p =~= seq![first, last]);
    let one = segment_text(text::trim(a), binary);
    let two = segment_text(text::trim(b), binary);
    assert(p.drop_last() =~= seq![first]);
    assert(seq![first].drop_last() =~= Seq::<compound_lexer::Piece>::empty());
    reveal_with_fuel(compound_tokens, 3);
    assert(compound_tokens(p, binary) =~= seq![one, op, two]);
    assert(seq![one, op, two].drop_last() =~= seq![one, op]);
    assert(seq![one, op].drop_last() =~= seq![one]);
    reveal_with_fuel(text::join, 4);
    assert(text::join(seq![one, op, two], " "@) =~= one + " "@ + op + " "@ + two);
    assert(p[0].op.len() > 0);
    assert(some_operator(p));
    assert(s[a.len() as int] == op[0]);
    assert(rewrite_registry::is_shell_control(s[a.len() as int]));
    if text::words(s).len() > 0 {
        lemma_first_of_words(s);
    }
    if rewrites(text::trim(a), binary) {
        assert(text::trim(p[0].text).len() > 0);
        assert(some_rewritten(p, binary));
    }
    if rewrites(text::trim(b), binary) {
        assert(text::trim(p[1].text).len() > 0);
        assert(some_rewritten(p, binary));
    }
}

/// What the binary runs already is left alone, and so is what prints a file and does more:
/// `cat`, `head` and `tail` with a redirection are neither read nor run through it.
pub proof fn law_left_alone(cmd: Seq<char>, binary: Seq<char>)
    ensures
        text::starts_with(cmd, "lean-ctx "@) ==> candidate(cmd, binary) is None,
        text::starts_with(cmd, binary + " "@) ==> candidate(cmd, binary) is None,
        is_single(cmd) && (cmd.contains('<') || cmd.contains('>')) && text::words(cmd).len() > 0 && (
        text::words(cmd)[0] == "cat"@ || text::words(cmd)[0] == "head"@ || text::words(cmd)[0]
            == "tail"@) ==> candidate(cmd, binary) is None,
        cmd.contains('|') || cmd.contains('&') || cmd.contains(';') || cmd.contains('<')
            || cmd.contains('>') ==> file_read(cmd, binary) is None,
{
    reveal_strlit("cat");
    reveal_strlit("head");
    reveal_strlit("tail");
    reveal_strlit("rg");
    reveal_strlit("ls");
    reveal_strlit("git");
    reveal_strlit("gh");
    reveal_strlit("cargo");
    reveal_strlit("npm");
    reveal_strlit("curl");
    reveal_strlit("find");
    if cmd.contains('|') || cmd.contains('&') || cmd.contains(';') || cmd.contains('<')
        || cmd.contains('>') {
        let i = choose|i: int|
            0 <= i < cmd.len() && (cmd[i] == '|' || cmd[i] == '&' || cmd[i] == ';' || cmd[i] == '<'
                || cmd[i] == '>');
        assert(rewrite_registry::is_shell_control(cmd[i]));
    }
    if is_single(cmd) && text::words(cmd).len() > 0 {
        lemma_first_of_words(cmd);
        lemma_plain_wrapped(cmd, binary);
        let name = text::words(cmd)[0];
        if name == "cat"@ {
            assert(name.len() == 3 && name[0] == 'c');
        }
        if name == "head"@ {
            assert(name.len() == 4 && name[0] == 'h');
        }
        if name == "tail"@ {
            assert(name.len() == 4 && name[0] == 't');
        }
        assert("git"@[0] == 'g' && "npm"@[0] == 'n' && "cargo"@.len() == 5 && "gh"@.len() == 2);
        assert("curl"@[0] == 'c' && "find"@[0] == 'f' && "rg"@.len() == 2 && "ls"@.len() == 2);
    }
}

/// A compound command is rewritten where it has an operator and a segment of it is run
/// through the binary, and only there: then each such segment is, whatever its place, and
/// the segments and operators stand in their order, set apart by one space.
pub proof fn law_compound(
    cmd: Seq<char>,
    binary: Seq<char>,
    pieces: Seq<compound_lexer::Piece>,
    piece: compound_lexer::Piece,
)
    ensures
        ({
            let p = compound_lexer::command_pieces(Backslash::Shields, cmd);
            let cut = exists|i: int| 0 <= i < p.len() && (#[trigger] p[i]).op.len() > 0;
            let changed = exists|i: int|
                0 <= i < p.len() && {
                    let t = text::trim((#[trigger] p[i]).text);
                    t.len() > 0 && runs_other(t, binary) && (is_run_through(text::first_word(t))
                        || text::first_word(t) == "rg"@ || text::first_word(t) == "ls"@)
                };
            &&& cut && changed ==> compound(cmd, binary) == Some(
                text::join(compound_tokens(p, binary), " "@),
            )
            &&& !cut || !changed ==> compound(cmd, binary) is None
        }),
        compound_tokens(Seq::<compound_lexer::Piece>::empty(), binary).len() == 0,
        ({
            let t = text::trim(piece.text);
            let before = compound_tokens(pieces, binary);
            let with_segment = if t.len() == 0 {
                before
            } else {
                before.push(segment_text(t, binary))
            };
            compound_tokens(pieces.push(piece), binary) == (if piece.op.len() == 0 {
                with_segment
            } else {
                with_segment.push(piece.op)
            })
        }),
{
    assert(pieces.push(piece).drop_last() =~= pieces);
    let p = compound_lexer::command_pieces(Backslash::Shields, cmd);
    if some_rewritten(p, binary) {
        let i = choose|i: int|
            0 <= i < p.len() && text::trim((#[trigger] p[i]).text).len() > 0 && rewrites(
                text::trim(p[i].text),
                binary,
            );
        assert(text::trim(p[i].text).len() > 0);
    }
    if exists|i: int|
        0 <= i < p.len() && {
            let t = text::trim((#[trigger] p[i]).text);
            t.len() > 0 && runs_other(t, binary) && (is_run_through(text::first_word(t))
                || text::first_word(t) == "rg"@ || text::first_word(t) == "ls"@)
        } {
        let i = choose|i: int|
            0 <= i < p.len() && {
                let t = text::trim((#[trigger] p[i]).text);
                t.len() > 0 && runs_other(t, binary) && (is_run_through(text::first_word(t))
                    || text::first_word(t) == "rg"@ || text::first_word(t) == "ls"@)
            };
        assert(rewrites(text::trim(p[i].text), binary));
    }
}

/// What the arguments of `head` and `tail` give: the last path and the last number count. A
/// word that starts with `-` and is no number is passed over, but for `-` itself, which is
/// a path; the word behind `-n` is a number or none.
pub proof fn law_head_tail_args(
    args: Seq<Seq<char>>,
    i: int,
    n: Option<nat>,
    path: Option<Seq<char>>,
)
    requires
        0 <= i < args.len(),
        args[i].len() > 0,
    ensures
        head_tail_from(args, args.len() as int, n, path) == (n, path),
        args[i][0] != '-' || args[i].len() == 1 ==> head_tail_from(args, i, n, path)
            == head_tail_from(args, i + 1, n, Some(args[i])),
        args[i] == seq!['-', 'n'] && i + 1 < args.len() ==> head_tail_from(args, i, n, path)
            == head_tail_from(
            args,
            i + 2,
            text::parse_number(args[i + 1], usize::MAX as nat),
            path,
        ),
        args[i].len() > 2 && args[i][0] == '-' && args[i][1] == 'n' ==> head_tail_from(
            args,
            i,
            n,
            path,
        ) == head_tail_from(
            args,
            i + 1,
            text::parse_number(args[i].skip(2), usize::MAX as nat),
            path,
        ),
        args[i].len() > 1 && args[i][0] == '-' && args[i][1] != 'n' && text::parse_number(
            args[i].skip(1),
            usize::MAX as nat,
        ) is Some ==> head_tail_from(args, i, n, path) == head_tail_from(
            args,
            i + 1,
            text::parse_number(args[i].skip(1), usize::MAX as nat),
            path,
        ),
        args[i].len() > 1 && args[i][0] == '-' && args[i][1] != 'n' && text::parse_number(
            args[i].skip(1),
            usize::MAX as nat,
        ) is None ==> head_tail_from(args, i, n, path) == head_tail_from(args, i + 1, n, path),
{
    reveal_strlit("-n");
    reveal_strlit("-");
    assert("-n"@ =~= seq!['-', 'n']);
    let a = args[i];
    lemma_dash(a);
    if a.len() >= 2 {
        assert(a.take(2)[0] == a[0] && a.take(2)[1] == a[1]);
        if a[0] == '-' && a[1] == 'n' {
            assert(a.take(2) =~= "-n"@);
        }
    }
}

} // verus!
