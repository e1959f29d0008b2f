//! The tokens of source text: its identifiers and words, and the parts of those
//! in camel case.
use vstd::prelude::*;

use crate::text;

verus! {

// ---------------------------------------------------------------- words
pub open spec fn is_token_char(c: char) -> bool {
    text::alphanumeric(c) || c == '_'
}

pub open spec fn token_chars() -> spec_fn(char) -> bool {
    |c: char| is_token_char(c)
}

/// `s` alone where it takes at least two bytes, else nothing.
pub open spec fn kept(s: Seq<char>) -> Seq<Seq<char>> {
    if text::byte_len(s) >= 2 {
        seq![s]
    } else {
        seq![]
    }
}

/// The longest runs of token characters of at least two bytes.
pub open spec fn raw_tokens(s: Seq<char>) -> Seq<Seq<char>>
    decreases s.len(),
{
    if s.len() == 0 {
        seq![]
    } else {
        let n = text::run_len(s, token_chars()) as int;
        if n <= 0 || n > s.len() {
            raw_tokens(s.skip(1))
        } else {
            kept(s.take(n)) + raw_tokens(s.skip(n))
        }
    }
}

// ---------------------------------------------------------------- camel case
/// Whether a part starts at an upper-case letter: where the next character is
/// not one too.
pub open spec fn is_cut(t: Seq<char>, i: int) -> bool {
    text::uppercase(t[i]) && (i + 1 >= t.len() || !text::uppercase(t[i + 1]))
}

/// The parts of a token from `start` on, with no cut before `i`.
pub open spec fn camel_parts(t: Seq<char>, start: int, i: int) -> Seq<Seq<char>>
    decreases t.len() - i,
{
    if i >= t.len() {
        if start > 0 {
            kept(t.skip(start))
        } else {
            seq![]
        }
    } else if is_cut(t, i) {
        kept(t.subrange(start, i)) + camel_parts(t, i, i + 1)
    } else {
        camel_parts(t, start, i + 1)
    }
}

/// Each token followed by its parts.
pub open spec fn split_camel(tokens: Seq<Seq<char>>) -> Seq<Seq<char>>
    decreases tokens.len(),
{
    if tokens.len() == 0 {
        seq![]
    } else {
        let t = tokens.last();
        split_camel(tokens.drop_last()) + (seq![t] + camel_parts(t, 0, 1))
    }
}

/// The tokens of a text.
pub open spec fn tokens_of(s: Seq<char>) -> Seq<Seq<char>> {
    split_camel(raw_tokens(s))
}

// ---------------------------------------------------------------- laws
/// Whether every text takes at least two bytes.
pub open spec fn all_sized(a: Seq<Seq<char>>) -> bool {
    forall|k: int| 0 <= k < a.len() ==> text::byte_len(#[trigger] a[k]) >= 2
}

proof fn lemma_sized_sum(a: Seq<Seq<char>>, b: Seq<Seq<char>>)
    requires
        all_sized(a),
        all_sized(b),
    ensures
        all_sized(a + b),
{
    assert forall|k: int| 0 <= k < (a + b).len() implies text::byte_len(#[trigger] (a + b)[k])
        >= 2 by {
        if k < a.len() {
            assert((a + b)[k] == a[k]);
        } else {
            assert((a + b)[k] == b[k - a.len()]);
        }
    }
}

proof fn lemma_camel_sizes(t: Seq<char>, start: int, i: int)
    ensures
        all_sized(camel_parts(t, start, i)),
    decreases t.len() - i,
{
    if i < t.len() {
        if is_cut(t, i) {
            lemma_camel_sizes(t, i, i + 1);
            lemma_sized_sum(kept(t.subrange(start, i)), camel_parts(t, i, i + 1));
        } else {
            lemma_camel_sizes(t, start, i + 1);
        }
    }
}

proof fn lemma_raw_sizes(s: Seq<char>)
    ensures
        all_sized(raw_tokens(s)),
    decreases s.len(),
{
    if s.len() > 0 {
        let n = text::run_len(s, token_chars()) as int;
        if n <= 0 || n > s.len() {
            lemma_raw_sizes(s.skip(1));
        } else {
            lemma_raw_sizes(s.skip(n));
            lemma_sized_sum(kept(s.take(n)), raw_tokens(s.skip(n)));
        }
    }
}

proof fn lemma_split_sizes(tokens: Seq<Seq<char>>)
    requires
        all_sized(tokens),
    ensures
        all_sized(split_camel(tokens)),
        forall|k: int|
            0 <= k < tokens.len() ==> split_camel(tokens).contains(#[trigger] tokens[k]),
    decreases tokens.len(),
{
    if tokens.len() > 0 {
        let before = tokens.drop_last();
        let t = tokens.last();
        assert(all_sized(before)) by {
            assert forall|k: int| 0 <= k < before.len() implies text::byte_len(
                #[trigger] before[k],
            ) >= 2 by {
                assert(before[k] == tokens[k]);
            }
        }
        lemma_split_sizes(before);
        lemma_camel_sizes(t, 0, 1);
        let head = split_camel(before);
        let all = split_camel(tokens);
        assert(text::byte_len(tokens[tokens.len() - 1]) >= 2);
        lemma_sized_sum(seq![t], camel_parts(t, 0, 1));
        lemma_sized_sum(head, seq![t] + camel_parts(t, 0, 1));
        assert forall|k: int| 0 <= k < tokens.len() implies all.contains(#[trigger] tokens[k]) by {
            if k < before.len() {
                assert(head.contains(before[k]));
                let j = choose|j: int| 0 <= j < head.len() && head[j] == before[k];
                assert(all[j] == tokens[k]);
            } else {
                assert(all[head.len() as int] == t);
            }
        }
    }
}

/// Every token takes at least two bytes, and splitting camel case loses no word.
pub proof fn law_tokens(s: Seq<char>)
    ensures
        all_sized(tokens_of(s)),
        forall|k: int|
            0 <= k < raw_tokens(s).len() ==> tokens_of(s).contains(#[trigger] raw_tokens(s)[k]),
{
    lemma_raw_sizes(s);
    lemma_split_sizes(raw_tokens(s));
}

// ---------------------------------------------------------------- tokenizing
/// The length of the run of token characters that starts `s`.
pub fn token_run(s: &[char]) -> (n: usize)
    ensures
        n == text::run_len(s@, token_chars()),
        n <= s@.len(),
{
    let mut n: usize = 0;
    while n < s.len() && (s[n].is_alphanumeric() || s[n] == '_')
        invariant
            n <= s@.len(),
            forall|j: int| 0 <= j < n ==> is_token_char(#[trigger] s@[j]),
        decreases s@.len() - n,
    {
        n += 1;
    }
    proof {
        text::lemma_run_len_is(s@, token_chars(), n as int);
    }
    n
}

fn push_kept(out: &mut Vec<String>, part: &[char])
    ensures
        text::views(final(out)@) == text::views(old(out)@) + kept(part@),
{
    if text::two_bytes(part) {
        let t = text::text_of(part);
        proof {
            text::lemma_views_push(out@, t);
            assert(text::views(out@).push(t@) =~= text::views(out@) + seq![t@]);
        }
        out.push(t);
    } else {
        proof {
            assert(text::views(out@) + seq![] =~= text::views(out@));
        }
    }
}

fn push_camel_parts(out: &mut Vec<String>, token: &[char])
    ensures
        text::views(final(out)@) == text::views(old(out)@) + camel_parts(token@, 0, 1),
{
    let total: usize = token.len();
    let mut start: usize = 0;
    let mut i: usize = 1;
    let ghost before = text::views(out@);
    let ghost all = camel_parts(token@, 0, 1);
    while i < total
        invariant
            total == token@.len(),
            start <= total,
            start < i,
            i <= total || (i == 1 && total == 0),
            text::views(out@) + camel_parts(token@, start as int, i as int) == before + all,
        decreases total - i,
    {
        if token[i].is_uppercase() && (i + 1 >= total || !token[i + 1].is_uppercase()) {
            let ghost sofar = text::views(out@);
            let part = vstd::slice::slice_subrange(token, start, i);
            push_kept(out, part);
            proof {
                let rest = camel_parts(token@, i as int, i + 1);
                assert(sofar + (kept(part@) + rest) =~= (sofar + kept(part@)) + rest);
            }
            start = i;
        }
        i += 1;
    }
    if start > 0 {
        let part = vstd::slice::slice_subrange(token, start, total);
        proof {
            assert(part@ =~= token@.skip(start as int));
        }
        push_kept(out, part);
    }
    proof {
        assert(text::views(out@) =~= before + all);
    }
}

/// Each token followed by its parts in camel case.
pub fn split_camel_case_tokens(tokens: &[String]) -> (r: Vec<String>)
    ensures
        text::views(r@) == split_camel(text::views(tokens@)),
{
    let mut out: Vec<String> = Vec::new();
    let ghost all = text::views(tokens@);
    let mut i: usize = 0;
    proof {
        assert(text::views(out@) =~= split_camel(all.take(0)));
    }
    while i < tokens.len()
        invariant
            i <= tokens@.len(),
            all == text::views(tokens@),
            text::views(out@) == split_camel(all.take(i as int)),
        decreases tokens@.len() - i,
    {
        let token = tokens[i].clone();
        let chars = text::chars_of(token.as_str());
        let ghost sofar = text::views(out@);
        proof {
            text::lemma_views_push(out@, token);
            assert(all.take(i + 1).drop_last() =~= all.take(i as int));
            assert(all.take(i + 1).last() == token@);
        }
        out.push(token);
        push_camel_parts(&mut out, chars.as_slice());
        proof {
            let parts = camel_parts(chars@, 0, 1);
            assert(sofar.push(chars@) + parts =~= sofar + (seq![chars@] + parts));
        }
        i += 1;
    }
    proof {
        assert(all.take(i as int) =~= all);
    }
    out
}

/// The tokens of a text.
pub fn tokenize(s: &str) -> (r: Vec<String>)
    ensures
        text::views(r@) == tokens_of(s@),
{
    let chars = text::chars_of(s);
    let total: usize = chars.len();
    let mut tokens: Vec<String> = Vec::new();
    let mut i: usize = 0;
    proof {
        assert(chars@.skip(0) =~= chars@);
        assert(text::views(tokens@) + raw_tokens(chars@) =~= raw_tokens(chars@));
    }
    while i < total
        invariant
            i <= total,
            total == chars@.len(),
            text::views(tokens@) + raw_tokens(chars@.skip(i as int)) == raw_tokens(chars@),
        decreases total - i,
    {
        let rest = vstd::slice::slice_subrange(chars.as_slice(), i, total);
        proof {
            assert(rest@ =~= chars@.skip(i as int));
        }
        let n = token_run(rest);
        if n == 0 {
            proof {
                assert(rest@.skip(1) =~= chars@.skip(i + 1));
            }
            i += 1;
        } else {
            let ghost sofar = text::views(tokens@);
            let part = vstd::slice::slice_subrange(rest, 0, n);
            push_kept(&mut tokens, part);
            proof {
                assert(part@ =~= rest@.take(n as int));
                assert(rest@.skip(n as int) =~= chars@.skip(i + n));
                let more = raw_tokens(rest@.skip(n as int));
                assert(sofar + (kept(part@) + more) =~= (sofar + kept(part@)) + more);
            }
            i += n;
        }
    }
    proof {
        assert(chars@.skip(i as int) =~= Seq::<char>::empty());
        assert(text::views(tokens@) + raw_tokens(chars@.skip(i as int)) =~= text::views(tokens@));
    }
    split_camel_case_tokens(tokens.as_slice())
}

/// The tokens of a text, for other indexes.
pub fn tokenize_for_index(s: &str) -> (r: Vec<String>)
    ensures
        text::views(r@) == tokens_of(s@),
{
    tokenize(s)
}

// ---------------------------------------------------------------- what the tokens are
/// Whether a text holds letters, digits and underscores alone, and at least one.
pub open spec fn is_token(s: Seq<char>) -> bool {
    &&& s.len() > 0
    &&& forall|i: int| 0 <= i < s.len() ==> text::alphanumeric(#[trigger] s[i]) || s[i] == '_'
}

/// Whether a text holds no letter, digit or underscore.
pub open spec fn is_gap(s: Seq<char>) -> bool {
    forall|i: int| 0 <= i < s.len() ==> !text::alphanumeric(#[trigger] s[i]) && s[i] != '_'
}

proof fn lemma_gap(gap: Seq<char>, s: Seq<char>)
    requires
        is_gap(gap),
    ensures
        raw_tokens(gap + s) == raw_tokens(s),
    decreases gap.len(),
{
    if gap.len() == 0 {
        assert(gap + s =~= s);
    } else {
        let t = gap + s;
        let rest = gap.skip(1);
        assert(is_gap(rest)) by {
            assert forall|i: int| 0 <= i < rest.len() implies !text::alphanumeric(
                #[trigger] rest[i],
            ) && rest[i] != '_' by {
                assert(rest[i] == gap[i + 1]);
            }
        }
        lemma_gap(rest, s);
        assert(t[0] == gap[0]);
        assert(!token_chars()(t[0]));
        assert(t.skip(1) =~= rest + s);
    }
}

proof fn lemma_split_sum(a: Seq<Seq<char>>, b: Seq<Seq<char>>)
    ensures
        split_camel(a + b) == split_camel(a) + split_camel(b),
    decreases b.len(),
{
    if b.len() == 0 {
        assert(a + b =~= a);
        assert(split_camel(a) + split_camel(b) =~= split_camel(a));
    } else {
        lemma_split_sum(a, b.drop_last());
        assert((a + b).drop_last() =~= a + b.drop_last());
        let own = seq![b.last()] + camel_parts(b.last(), 0, 1);
        assert((split_camel(a) + split_camel(b.drop_last())) + own =~= split_camel(a) + (
        split_camel(b.drop_last()) + own));
    }
}

/// The tokens of a text are its longest runs of letters, digits and underscores, but
/// for those of one byte, each followed by its parts in camel case.
pub proof fn law_tokens_of(gap: Seq<char>, t: Seq<char>, rest: Seq<char>)
    requires
        is_gap(gap),
        is_token(t),
        rest.len() > 0 ==> !text::alphanumeric(rest[0]) && rest[0] != '_',
    ensures
        tokens_of(gap) == Seq::<Seq<char>>::empty(),
        text::byte_len(t) >= 2 ==> tokens_of(gap + t + rest) == seq![t] + camel_parts(t, 0, 1)
            + tokens_of(rest),
        text::byte_len(t) < 2 ==> tokens_of(gap + t + rest) == tokens_of(rest),
{
    let empty = Seq::<char>::empty();
    lemma_gap(gap, empty);
    assert(gap + empty =~= gap);
    lemma_gap(gap, t + rest);
    assert(gap + (t + rest) =~= gap + t + rest);
    let s = t + rest;
    let n = t.len() as int;
    assert forall|i: int| 0 <= i < n implies token_chars()(#[trigger] s[i]) by {
        assert(s[i] == t[i]);
    }
    if n < s.len() {
        assert(s[n] == rest[0]);
    }
    text::lemma_run_len_is(s, token_chars(), n);
    assert(s.take(n) =~= t);
    assert(s.skip(n) =~= rest);
    lemma_split_sum(kept(t), raw_tokens(rest));
    if text::byte_len(t) >= 2 {
        assert(seq![t].drop_last() =~= Seq::<Seq<char>>::empty());
        assert(split_camel(seq![t].drop_last()) =~= Seq::<Seq<char>>::empty());
        assert(split_camel(seq![t]) =~= seq![t] + camel_parts(t, 0, 1));
    } else {
        assert(split_camel(kept(t)) + tokens_of(rest) =~= tokens_of(rest));
    }
}

/// Whether an upper-case letter stands at `i` that no upper-case letter follows.
pub open spec fn starts_part(t: Seq<char>, i: int) -> bool {
    text::uppercase(t[i]) && (i + 1 == t.len() || !text::uppercase(t[i + 1]))
}

/// Whether a part of a token starts behind its first character.
pub open spec fn has_parts(t: Seq<char>) -> bool {
    exists|i: int| 1 <= i < t.len() && #[trigger] starts_part(t, i)
}

/// The parts from a start on are those of the rest of the token.
proof fn lemma_camel_moved(t: Seq<char>, i: int, start: int, j: int)
    requires
        0 <= i,
        0 < start <= j,
        i + start <= t.len(),
    ensures
        camel_parts(t, i + start, i + j) == camel_parts(t.skip(i), start, j),
    decreases t.len() - j,
{
    let u = t.skip(i);
    if i + j >= t.len() {
        assert(t.skip(i + start) =~= u.skip(start));
    } else {
        assert(u[j] == t[i + j]);
        assert(is_cut(u, j) == is_cut(t, i + j));
        if is_cut(t, i + j) {
            lemma_camel_moved(t, i, j, j + 1);
            assert(t.subrange(i + start, i + j) =~= u.subrange(start, j));
        } else {
            lemma_camel_moved(t, i, start, j + 1);
        }
    }
}

/// The parts behind the start of the last part or of the next.
proof fn lemma_camel_rest(t: Seq<char>, i: int, j: int)
    requires
        0 < i < t.len(),
        1 <= j,
        forall|k: int| 1 <= k < j && k < t.skip(i).len() ==> !#[trigger] starts_part(t.skip(i), k),
    ensures
        camel_parts(t, i, i + j) == (if has_parts(t.skip(i)) {
            camel_parts(t.skip(i), 0, j)
        } else {
            kept(t.skip(i))
        }),
    decreases t.len() - j,
{
    let u = t.skip(i);
    if i + j < t.len() {
        assert(u[j] == t[i + j]);
        assert(is_cut(u, j) == is_cut(t, i + j));
        assert(is_cut(u, j) == starts_part(u, j));
        if is_cut(t, i + j) {
            assert(has_parts(u));
            lemma_camel_moved(t, i, j, j + 1);
            assert(t.subrange(i, i + j) =~= u.subrange(0, j));
        } else {
            lemma_camel_rest(t, i, j + 1);
        }
    }
}

proof fn lemma_camel_none(t: Seq<char>, j: int)
    requires
        1 <= j,
        forall|k: int| j <= k < t.len() ==> !#[trigger] starts_part(t, k),
    ensures
        camel_parts(t, 0, j) == Seq::<Seq<char>>::empty(),
    decreases t.len() - j,
{
    if j < t.len() {
        assert(is_cut(t, j) == starts_part(t, j));
        lemma_camel_none(t, j + 1);
    }
}

proof fn lemma_camel_first(t: Seq<char>, i: int, j: int)
    requires
        1 <= j <= i < t.len(),
        starts_part(t, i),
        forall|k: int| 1 <= k < i ==> !#[trigger] starts_part(t, k),
    ensures
        camel_parts(t, 0, j) == kept(t.take(i)) + camel_parts(t, i, i + 1),
    decreases i - j,
{
    assert(is_cut(t, j) == starts_part(t, j));
    if j < i {
        lemma_camel_first(t, i, j + 1);
    } else {
        assert(t.subrange(0, i) =~= t.take(i));
    }
}

/// A token falls into parts at each upper-case letter that no upper-case letter
/// follows: it has none without such a letter behind its first character; else the
/// first part ends at the first such letter, and the others are those of the rest,
/// which is one part where it has none. Parts of one byte are left out.
pub proof fn law_camel_case(t: Seq<char>, i: int)
    ensures
        !has_parts(t) ==> camel_parts(t, 0, 1) == Seq::<Seq<char>>::empty(),
        1 <= i < t.len() && starts_part(t, i) && (forall|k: int|
            1 <= k < i ==> !#[trigger] starts_part(t, k)) ==> camel_parts(t, 0, 1) == (
        if text::byte_len(t.take(i)) >= 2 {
            seq![t.take(i)]
        } else {
            seq![]
        }) + (if has_parts(t.skip(i)) {
            camel_parts(t.skip(i), 0, 1)
        } else if text::byte_len(t.skip(i)) >= 2 {
            seq![t.skip(i)]
        } else {
            seq![]
        }),
{
    if !has_parts(t) {
        lemma_camel_none(t, 1);
    }
    if 1 <= i < t.len() && starts_part(t, i) && (forall|k: int|
        1 <= k < i ==> !#[trigger] starts_part(t, k)) {
        lemma_camel_first(t, i, 1);
        lemma_camel_rest(t, i, 1);
    }
}

} // verus!
