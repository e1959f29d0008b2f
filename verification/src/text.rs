//! Text as sequences of characters: the vocabulary that the contracts of the
//! other modules are written in, and the executable functions that meet it.
use vstd::prelude::*;
use vstd::slice::slice_subrange;
use vstd::utf8::encode_utf8;

verus! {

/// `String::push` appends the character to the end of the string.
pub assume_specification[ String::push ](s: &mut String, c: char)
    ensures
        final(s)@ == old(s)@.push(c),
;

/// `String::push_str` appends the given text to the end of the string.
pub assume_specification[ String::push_str ](s: &mut String, t: &str)
    ensures
        final(s)@ == old(s)@ + t@,
;

// ---------------------------------------------------------------- views
/// The views of the elements, in order.
pub open spec fn views<T: View>(s: Seq<T>) -> Seq<T::V> {
    Seq::new(s.len(), |i: int| s[i]@)
}

pub proof fn lemma_views_push<T: View>(s: Seq<T>, x: T)
    ensures
        views(s.push(x)) == views(s).push(x@),
{
    assert(views(s.push(x)) =~= views(s).push(x@));
}

/// The view of a value that may be missing.
pub open spec fn opt_view<T: View + ?Sized>(s: Option<&T>) -> Option<T::V> {
    match s {
        Some(t) => Some(t@),
        None => None,
    }
}

/// The view of an owned value that may be missing.
pub open spec fn opt_owned<T: View>(s: Option<T>) -> Option<T::V> {
    match s {
        Some(t) => Some(t@),
        None => None,
    }
}

/// The characters of `s`.
pub fn chars_of(s: &str) -> (r: Vec<char>)
    ensures
        r@ == s@,
{
    let mut out: Vec<char> = Vec::new();
    for c in it: s.chars()
        invariant
            it.seq() == s@,
            out@ == it.seq().take(it.index()),
    {
        out.push(c);
    }
    out
}

/// The string with the given characters.
pub fn text_of(chars: &[char]) -> (r: String)
    ensures
        r@ == chars@,
{
    let mut out = String::new();
    let mut i: usize = 0;
    while i < chars.len()
        invariant
            i <= chars.len(),
            out@ == chars@.take(i as int),
        decreases chars.len() - i,
    {
        out.push(chars[i]);
        i += 1;
    }
    out
}

/// Whether two character slices hold the same characters.
pub fn same(a: &[char], b: &[char]) -> (r: bool)
    ensures
        r == (a@ == b@),
{
    if a.len() != b.len() {
        return false;
    }
    let mut i: usize = 0;
    while i < a.len()
        invariant
            i <= a.len(),
            a.len() == b.len(),
            forall|j: int| 0 <= j < i ==> a@[j] == b@[j],
        decreases a.len() - i,
    {
        if a[i] != b[i] {
            return false;
        }
        i += 1;
    }
    assert(a@ =~= b@);
    true
}

/// Whether the characters spell `s`.
pub fn spells(a: &[char], s: &str) -> (r: bool)
    ensures
        r == (a@ == s@),
{
    let b = chars_of(s);
    same(a, b.as_slice())
}

/// Whether two strings are the same text.
pub fn same_text(a: &str, b: &str) -> (r: bool)
    ensures
        r == (a@ == b@),
{
    let x = chars_of(a);
    spells(x.as_slice(), b)
}

/// Whether a text is among others.
pub fn listed(list: &[&str], s: &str) -> (r: bool)
    ensures
        r == views(list@).contains(s@),
{
    let chars = chars_of(s);
    let ghost all = views(list@);
    let mut i: usize = 0;
    while i < list.len()
        invariant
            i <= list@.len(),
            all == views(list@),
            chars@ == s@,
            forall|j: int| 0 <= j < i ==> #[trigger] all[j] != s@,
        decreases list@.len() - i,
    {
        proof {
            assert(all[i as int] == list@[i as int]@);
        }
        if spells(chars.as_slice(), list[i]) {
            return true;
        }
        i += 1;
    }
    false
}

// ---------------------------------------------------------------- runs
/// The length of the longest prefix of `s` whose characters all satisfy `f`.
pub open spec fn run_len(s: Seq<char>, f: spec_fn(char) -> bool) -> nat
    decreases s.len(),
{
    if s.len() > 0 && f(s[0]) {
        1 + run_len(s.skip(1), f)
    } else {
        0
    }
}

/// The length of the longest suffix of `s` whose characters all satisfy `f`.
pub open spec fn tail_len(s: Seq<char>, f: spec_fn(char) -> bool) -> nat
    decreases s.len(),
{
    if s.len() > 0 && f(s.last()) {
        1 + tail_len(s.drop_last(), f)
    } else {
        0
    }
}

pub proof fn lemma_run_len(s: Seq<char>, f: spec_fn(char) -> bool)
    ensures
        run_len(s, f) <= s.len(),
        forall|i: int| 0 <= i < run_len(s, f) ==> f(#[trigger] s[i]),
        run_len(s, f) < s.len() ==> !f(s[run_len(s, f) as int]),
    decreases s.len(),
{
    if s.len() > 0 && f(s[0]) {
        lemma_run_len(s.skip(1), f);
        assert forall|i: int| 0 <= i < run_len(s, f) implies f(#[trigger] s[i]) by {
            if i > 0 {
                assert(s[i] == s.skip(1)[i - 1]);
            }
        }
    }
}

pub proof fn lemma_run_len_is(s: Seq<char>, f: spec_fn(char) -> bool, n: int)
    requires
        0 <= n <= s.len(),
        forall|i: int| 0 <= i < n ==> f(#[trigger] s[i]),
        n < s.len() ==> !f(s[n]),
    ensures
        run_len(s, f) == n,
{
    lemma_run_len(s, f);
    let m = run_len(s, f) as int;
    if m < n {
        assert(f(s[m]));
    }
    if n < m {
        assert(f(s[n]));
    }
}

pub proof fn lemma_tail_len(s: Seq<char>, f: spec_fn(char) -> bool)
    ensures
        tail_len(s, f) <= s.len(),
        forall|i: int| s.len() - tail_len(s, f) <= i < s.len() ==> f(#[trigger] s[i]),
        tail_len(s, f) < s.len() ==> !f(s[s.len() - tail_len(s, f) - 1]),
    decreases s.len(),
{
    if s.len() > 0 && f(s.last()) {
        lemma_tail_len(s.drop_last(), f);
        assert forall|i: int| s.len() - tail_len(s, f) <= i < s.len() implies f(
            #[trigger] s[i],
        ) by {
            if i < s.len() - 1 {
                assert(s[i] == s.drop_last()[i]);
            }
        }
    }
}

pub proof fn lemma_tail_len_is(s: Seq<char>, f: spec_fn(char) -> bool, n: int)
    requires
        0 <= n <= s.len(),
        forall|i: int| s.len() - n <= i < s.len() ==> f(#[trigger] s[i]),
        n < s.len() ==> !f(s[s.len() - n - 1]),
    ensures
        tail_len(s, f) == n,
{
    lemma_tail_len(s, f);
    let m = tail_len(s, f) as int;
    if m < n {
        assert(f(s[s.len() - m - 1]));
    }
    if n < m {
        assert(f(s[s.len() - n - 1]));
    }
}

// ---------------------------------------------------------------- white space
/// The characters with the Unicode property `White_Space`.
pub open spec fn is_space(c: char) -> bool {
    ||| '\u{9}' <= c <= '\u{d}'
    ||| c == ' '
    ||| c == '\u{85}'
    ||| c == '\u{a0}'
    ||| c == '\u{1680}'
    ||| '\u{2000}' <= c <= '\u{200a}'
    ||| c == '\u{2028}'
    ||| c == '\u{2029}'
    ||| c == '\u{202f}'
    ||| c == '\u{205f}'
    ||| c == '\u{3000}'
}

pub open spec fn spaces() -> spec_fn(char) -> bool {
    |c: char| is_space(c)
}

pub open spec fn non_spaces() -> spec_fn(char) -> bool {
    |c: char| !is_space(c)
}

/// `s` without its leading white space.
pub open spec fn trim_start(s: Seq<char>) -> Seq<char> {
    s.skip(run_len(s, spaces()) as int)
}

/// `s` without its trailing white space.
pub open spec fn trim_end(s: Seq<char>) -> Seq<char> {
    s.take(s.len() - tail_len(s, spaces()))
}

/// `s` without white space at either end.
pub open spec fn trim(s: Seq<char>) -> Seq<char> {
    trim_end(trim_start(s))
}

/// Whether `c` is white space.
pub fn white_space(c: char) -> (r: bool)
    ensures
        r == is_space(c),
{
    ('\u{9}' <= c && c <= '\u{d}') || c == ' ' || c == '\u{85}' || c == '\u{a0}' || c == '\u{1680}'
        || ('\u{2000}' <= c && c <= '\u{200a}') || c == '\u{2028}' || c == '\u{2029}' || c
        == '\u{202f}' || c == '\u{205f}' || c == '\u{3000}'
}

/// The number of leading white-space characters.
pub fn leading_space(s: &[char]) -> (n: usize)
    ensures
        n == run_len(s@, spaces()),
        n <= s@.len(),
{
    let mut i: usize = 0;
    while i < s.len() && white_space(s[i])
        invariant
            i <= s.len(),
            forall|j: int| 0 <= j < i ==> is_space(#[trigger] s@[j]),
        decreases s.len() - i,
    {
        i += 1;
    }
    proof {
        lemma_run_len_is(s@, spaces(), i as int);
    }
    i
}

/// The number of leading characters that are not white space.
pub fn leading_word(s: &[char]) -> (n: usize)
    ensures
        n == run_len(s@, non_spaces()),
        n <= s@.len(),
{
    let mut i: usize = 0;
    while i < s.len() && !white_space(s[i])
        invariant
            i <= s.len(),
            forall|j: int| 0 <= j < i ==> !is_space(#[trigger] s@[j]),
        decreases s.len() - i,
    {
        i += 1;
    }
    proof {
        lemma_run_len_is(s@, non_spaces(), i as int);
    }
    i
}

/// `s` without its leading white space.
pub fn trimmed_start(s: &[char]) -> (r: &[char])
    ensures
        r@ == trim_start(s@),
{
    let n = leading_space(s);
    slice_subrange(s, n, s.len())
}

/// `s` without its trailing white space.
pub fn trimmed_end(s: &[char]) -> (r: &[char])
    ensures
        r@ == trim_end(s@),
{
    let mut k: usize = s.len();
    while k > 0 && white_space(s[k - 1])
        invariant
            k <= s.len(),
            forall|j: int| k <= j < s.len() ==> is_space(#[trigger] s@[j]),
        decreases k,
    {
        k -= 1;
    }
    proof {
        lemma_tail_len_is(s@, spaces(), s@.len() - k);
    }
    slice_subrange(s, 0, k)
}

/// `s` without white space at either end.
pub fn trimmed(s: &[char]) -> (r: &[char])
    ensures
        r@ == trim(s@),
{
    trimmed_end(trimmed_start(s))
}

// ---------------------------------------------------------------- words
/// The maximal pieces of `s` without white space, in order.
pub open spec fn words(s: Seq<char>) -> Seq<Seq<char>>
    decreases s.len(),
    when true
    via words_decreases
{
    let t = trim_start(s);
    if t.len() == 0 {
        seq![]
    } else {
        let n = run_len(t, non_spaces()) as int;
        seq![t.take(n)] + words(t.skip(n))
    }
}

#[via_fn]
proof fn words_decreases(s: Seq<char>) {
    lemma_run_len(s, spaces());
    let t = trim_start(s);
    lemma_run_len(t, non_spaces());
    if t.len() > 0 {
        assert(t[0] == s[run_len(s, spaces()) as int]);
        assert(run_len(t, non_spaces()) > 0);
    }
}

/// The first word of `s`, or nothing where `s` has no word.
pub open spec fn first_word(s: Seq<char>) -> Seq<char> {
    let t = trim_start(s);
    t.take(run_len(t, non_spaces()) as int)
}

/// The maximal pieces of `s` without white space, in order.
pub fn word_list<'a>(s: &'a [char]) -> (r: Vec<&'a [char]>)
    ensures
        views(r@) == words(s@),
{
    let mut out: Vec<&'a [char]> = Vec::new();
    let mut rest: &'a [char] = s;
    proof {
        assert(views(out@) + words(rest@) =~= words(s@));
    }
    loop
        invariant
            views(out@) + words(rest@) == words(s@),
        decreases rest@.len(),
    {
        proof {
            lemma_run_len(rest@, spaces());
        }
        let t = trimmed_start(rest);
        if t.len() == 0 {
            proof {
                assert(words(rest@) =~= Seq::<Seq<char>>::empty());
                assert(views(out@) + words(rest@) =~= views(out@));
            }
            return out;
        }
        let n = leading_word(t);
        proof {
            lemma_run_len(t@, non_spaces());
            assert(t@[0] == rest@[run_len(rest@, spaces()) as int]);
        }
        let ghost before = out@;
        let w = slice_subrange(t, 0, n);
        let next = slice_subrange(t, n, t.len());
        proof {
            lemma_views_push(before, w);
            assert(w@ =~= t@.take(n as int));
            assert(next@ =~= t@.skip(n as int));
            assert(words(rest@) == seq![t@.take(n as int)] + words(t@.skip(n as int)));
            assert(views(before) + words(rest@) =~= views(before).push(w@) + words(next@));
        }
        out.push(w);
        rest = next;
    }
}

/// The first word of `s`, or nothing where `s` has no word.
pub fn leading_token(s: &[char]) -> (r: &[char])
    ensures
        r@ == first_word(s@),
{
    let t = trimmed_start(s);
    let n = leading_word(t);
    slice_subrange(t, 0, n)
}

// ---------------------------------------------------------------- splitting
pub open spec fn other_than(c: char) -> spec_fn(char) -> bool {
    |x: char| x != c
}

/// The pieces of `s` between the occurrences of `c`; always at least one.
pub open spec fn split_on(s: Seq<char>, c: char) -> Seq<Seq<char>>
    decreases s.len(),
{
    let n = run_len(s, other_than(c)) as int;
    if n >= s.len() {
        seq![s]
    } else {
        seq![s.take(n)] + split_on(s.skip(n + 1), c)
    }
}

/// The number of leading characters other than `c`.
pub fn until(s: &[char], c: char) -> (n: usize)
    ensures
        n == run_len(s@, other_than(c)),
        n <= s@.len(),
{
    let mut i: usize = 0;
    while i < s.len() && s[i] != c
        invariant
            i <= s.len(),
            forall|j: int| 0 <= j < i ==> #[trigger] s@[j] != c,
        decreases s.len() - i,
    {
        i += 1;
    }
    proof {
        lemma_run_len_is(s@, other_than(c), i as int);
    }
    i
}

/// The pieces of `s` between the occurrences of `c`; always at least one.
pub fn pieces<'a>(s: &'a [char], c: char) -> (r: Vec<&'a [char]>)
    ensures
        views(r@) == split_on(s@, c),
        r@.len() > 0,
{
    let mut out: Vec<&'a [char]> = Vec::new();
    let mut rest: &'a [char] = s;
    proof {
        assert(views(out@) + split_on(rest@, c) =~= split_on(s@, c));
    }
    loop
        invariant
            views(out@) + split_on(rest@, c) == split_on(s@, c),
        decreases rest@.len(),
    {
        let n = until(rest, c);
        let ghost before = out@;
        if n >= rest.len() {
            out.push(rest);
            proof {
                lemma_views_push(before, rest);
                assert(views(before) + split_on(rest@, c) =~= views(before).push(rest@));
            }
            return out;
        }
        let piece = slice_subrange(rest, 0, n);
        let next = slice_subrange(rest, n + 1, rest.len());
        proof {
            lemma_views_push(before, piece);
            assert(piece@ =~= rest@.take(n as int));
            assert(next@ =~= rest@.skip(n + 1));
            assert(views(before) + split_on(rest@, c) =~= views(before).push(piece@) + split_on(
                next@,
                c,
            ));
        }
        out.push(piece);
        rest = next;
    }
}

/// A line without the carriage return that belongs to its line end.
pub open spec fn strip_cr(s: Seq<char>) -> Seq<char> {
    if s.len() > 0 && s.last() == '\r' {
        s.drop_last()
    } else {
        s
    }
}

/// The lines of `s` without their ends; a line ends in `\n` or `\r\n`, the last
/// one may lack an end, and nothing follows a final line end.
pub open spec fn lines(s: Seq<char>) -> Seq<Seq<char>>
    decreases s.len(),
{
    let n = run_len(s, other_than('\n')) as int;
    if s.len() == 0 {
        seq![]
    } else if n >= s.len() {
        seq![s]
    } else {
        seq![strip_cr(s.take(n))] + lines(s.skip(n + 1))
    }
}

/// The lines of `s` without their ends.
pub fn line_list<'a>(s: &'a [char]) -> (r: Vec<&'a [char]>)
    ensures
        views(r@) == lines(s@),
{
    let mut out: Vec<&'a [char]> = Vec::new();
    let mut rest: &'a [char] = s;
    proof {
        assert(views(out@) + lines(rest@) =~= lines(s@));
    }
    while rest.len() > 0
        invariant
            views(out@) + lines(rest@) == lines(s@),
        decreases rest@.len(),
    {
        let n = until(rest, '\n');
        let ghost before = out@;
        if n >= rest.len() {
            out.push(rest);
            proof {
                lemma_views_push(before, rest);
                assert(views(before) + lines(rest@) =~= views(before).push(rest@));
            }
            return out;
        }
        let end: usize = if n > 0 && rest[n - 1] == '\r' {
            n - 1
        } else {
            n
        };
        let line = slice_subrange(rest, 0, end);
        let next = slice_subrange(rest, n + 1, rest.len());
        proof {
            lemma_views_push(before, line);
            assert(line@ =~= strip_cr(rest@.take(n as int)));
            assert(next@ =~= rest@.skip(n + 1));
            assert(views(before) + lines(rest@) =~= views(before).push(line@) + lines(next@));
        }
        out.push(line);
        rest = next;
    }
    proof {
        assert(views(out@) + lines(rest@) =~= views(out@));
    }
    out
}

// ---------------------------------------------------------------- substrings
/// Whether `pat` stands in `s` at position `i`.
pub open spec fn occurs_at(s: Seq<char>, pat: Seq<char>, i: int) -> bool {
    0 <= i && i + pat.len() <= s.len() && s.subrange(i, i + pat.len()) == pat
}

/// Whether `pat` stands anywhere in `s`.
pub open spec fn occurs(s: Seq<char>, pat: Seq<char>) -> bool {
    exists|i: int| occurs_at(s, pat, i)
}

/// Whether `i` is the first position at which `pat` stands in `s`.
pub open spec fn first_at(s: Seq<char>, pat: Seq<char>, i: int) -> bool {
    occurs_at(s, pat, i) && forall|j: int| 0 <= j < i ==> !occurs_at(s, pat, j)
}

pub open spec fn starts_with(s: Seq<char>, pat: Seq<char>) -> bool {
    pat.len() <= s.len() && s.take(pat.len() as int) == pat
}

pub open spec fn ends_with(s: Seq<char>, pat: Seq<char>) -> bool {
    pat.len() <= s.len() && s.skip(s.len() - pat.len()) == pat
}

/// Whether `pat` stands in `s` at position `i`.
pub fn stands_at(s: &[char], pat: &[char], i: usize) -> (r: bool)
    ensures
        r == occurs_at(s@, pat@, i as int),
{
    if i > s.len() || pat.len() > s.len() - i {
        return false;
    }
    let part = slice_subrange(s, i, i + pat.len());
    same(part, pat)
}

/// The first position at which `pat` stands in `s`.
pub fn position(s: &[char], pat: &[char]) -> (r: Option<usize>)
    ensures
        match r {
            Some(i) => first_at(s@, pat@, i as int),
            None => !occurs(s@, pat@),
        },
{
    if pat.len() > s.len() {
        return None;
    }
    let last: usize = s.len() - pat.len();
    let mut i: usize = 0;
    loop
        invariant
            i <= last,
            last == s@.len() - pat@.len(),
            forall|j: int| 0 <= j < i ==> !occurs_at(s@, pat@, j),
        decreases last - i,
    {
        if stands_at(s, pat, i) {
            return Some(i);
        }
        if i == last {
            return None;
        }
        i += 1;
    }
}

/// Whether `pat` stands anywhere in `s`.
pub fn has(s: &[char], pat: &str) -> (r: bool)
    ensures
        r == occurs(s@, pat@),
{
    let p = chars_of(pat);
    position(s, p.as_slice()).is_some()
}

/// Whether `s` begins with `pat`.
pub fn begins(s: &[char], pat: &str) -> (r: bool)
    ensures
        r == starts_with(s@, pat@),
{
    let p = chars_of(pat);
    proof {
        if pat@.len() <= s@.len() {
            assert(s@.take(pat@.len() as int) =~= s@.subrange(0, pat@.len() as int));
        }
    }
    stands_at(s, p.as_slice(), 0)
}

/// Whether `s` ends with `pat`.
pub fn finishes(s: &[char], pat: &str) -> (r: bool)
    ensures
        r == ends_with(s@, pat@),
{
    let p = chars_of(pat);
    if p.len() > s.len() {
        return false;
    }
    proof {
        assert(s@.skip(s@.len() - pat@.len()) =~= s@.subrange(
            s@.len() - pat@.len(),
            s@.len() as int,
        ));
    }
    stands_at(s, p.as_slice(), s.len() - p.len())
}

/// Whether the character occurs in `s`.
pub fn has_char(s: &[char], c: char) -> (r: bool)
    ensures
        r == s@.contains(c),
{
    let n = until(s, c);
    proof {
        lemma_run_len(s@, other_than(c));
        if n < s@.len() {
            assert(s@[n as int] == c);
        } else if s@.contains(c) {
            let i = choose|i: int| 0 <= i < s@.len() && s@[i] == c;
            assert(other_than(c)(s@[i]));
        }
    }
    n < s.len()
}

/// `s` with every occurrence of `from`, found from the left and without
/// overlap, replaced by `to`. With an empty `from` it is `s` itself.
pub open spec fn replace(s: Seq<char>, from: Seq<char>, to: Seq<char>) -> Seq<char>
    decreases s.len(),
{
    if from.len() == 0 || s.len() < from.len() {
        s
    } else if starts_with(s, from) {
        to + replace(s.skip(from.len() as int), from, to)
    } else {
        seq![s[0]] + replace(s.skip(1), from, to)
    }
}

/// Appends the characters of `t` to `out`.
pub fn extend(out: &mut Vec<char>, t: &[char])
    ensures
        final(out)@ == old(out)@ + t@,
{
    let ghost start = out@;
    let mut i: usize = 0;
    proof {
        assert(out@ =~= start + t@.take(0));
    }
    while i < t.len()
        invariant
            i <= t.len(),
            out@ == start + t@.take(i as int),
        decreases t.len() - i,
    {
        out.push(t[i]);
        i += 1;
        proof {
            assert(out@ =~= start + t@.take(i as int));
        }
    }
    proof {
        assert(t@.take(i as int) =~= t@);
    }
}

/// Every occurrence of `from` replaced by `to`.
pub fn replaced(s: &[char], from: &str, to: &str) -> (r: Vec<char>)
    ensures
        r@ == replace(s@, from@, to@),
{
    let f = chars_of(from);
    let t = chars_of(to);
    let mut out: Vec<char> = Vec::new();
    let mut i: usize = 0;
    if f.len() == 0 {
        extend(&mut out, s);
        proof {
            assert(out@ =~= s@);
        }
        return out;
    }
    proof {
        assert(s@.skip(0) =~= s@);
        assert(out@ + replace(s@, from@, to@) =~= replace(s@, from@, to@));
    }
    while i < s.len()
        invariant
            i <= s.len(),
            f@ == from@,
            t@ == to@,
            f@.len() > 0,
            out@ + replace(s@.skip(i as int), from@, to@) == replace(s@, from@, to@),
        decreases s.len() - i,
    {
        let ghost rest = s@.skip(i as int);
        let ghost before = out@;
        if stands_at(s, f.as_slice(), i) {
            extend(&mut out, t.as_slice());
            proof {
                assert(rest.take(from@.len() as int) =~= s@.subrange(i as int, i + from@.len()));
                assert(rest.skip(from@.len() as int) =~= s@.skip(i + from@.len()));
                assert(before + (to@ + replace(s@.skip(i + from@.len()), from@, to@)) =~= out@
                    + replace(s@.skip(i + from@.len()), from@, to@));
            }
            i += f.len();
        } else {
            out.push(s[i]);
            proof {
                assert(rest.skip(1) =~= s@.skip(i + 1));
                if rest.len() >= from@.len() {
                    assert(rest.take(from@.len() as int) =~= s@.subrange(
                        i as int,
                        i + from@.len(),
                    ));
                } else {
                    assert(replace(rest.skip(1), from@, to@) == rest.skip(1));
                    assert(rest =~= seq![rest[0]] + rest.skip(1));
                }
                assert(before + (seq![s@[i as int]] + replace(s@.skip(i + 1), from@, to@))
                    =~= out@ + replace(s@.skip(i + 1), from@, to@));
            }
            i += 1;
        }
    }
    proof {
        assert(s@.skip(i as int) =~= Seq::<char>::empty());
        assert(out@ + replace(s@.skip(i as int), from@, to@) =~= out@);
    }
    out
}

// ---------------------------------------------------------------- joining
/// The parts one after another, with `sep` between each two.
pub open spec fn join(parts: Seq<Seq<char>>, sep: Seq<char>) -> Seq<char>
    decreases parts.len(),
{
    if parts.len() == 0 {
        seq![]
    } else if parts.len() == 1 {
        parts[0]
    } else {
        join(parts.drop_last(), sep) + sep + parts.last()
    }
}

/// The slices one after another, with `sep` between each two.
pub fn joined(parts: &[&[char]], sep: &str) -> (r: Vec<char>)
    ensures
        r@ == join(views(parts@), sep@),
{
    let sp = chars_of(sep);
    let mut out: Vec<char> = Vec::new();
    let mut i: usize = 0;
    let ghost all = views(parts@);
    proof {
        assert(out@ =~= join(all.take(0), sep@));
    }
    while i < parts.len()
        invariant
            i <= parts.len(),
            all == views(parts@),
            sp@ == sep@,
            out@ == join(all.take(i as int), sep@),
        decreases parts.len() - i,
    {
        proof {
            assert(all.take(i + 1).drop_last() =~= all.take(i as int));
            assert(all.take(i + 1).last() == parts@[i as int]@);
        }
        if i > 0 {
            extend(&mut out, sp.as_slice());
        }
        extend(&mut out, parts[i]);
        proof {
            if i == 0 {
                assert(out@ =~= parts@[0]@);
            }
        }
        i += 1;
    }
    proof {
        assert(all.take(i as int) =~= all);
    }
    out
}

/// The strings one after another, with `sep` between each two.
pub fn joined_text(parts: &[String], sep: &str) -> (r: String)
    ensures
        r@ == join(views(parts@), sep@),
{
    let mut out = String::new();
    let mut i: usize = 0;
    let ghost all = views(parts@);
    proof {
        assert(out@ =~= join(all.take(0), sep@));
    }
    while i < parts.len()
        invariant
            i <= parts.len(),
            all == views(parts@),
            out@ == join(all.take(i as int), sep@),
        decreases parts.len() - i,
    {
        proof {
            assert(all.take(i + 1).drop_last() =~= all.take(i as int));
            assert(all.take(i + 1).last() == parts@[i as int]@);
        }
        if i > 0 {
            out.push_str(sep);
        }
        out.push_str(parts[i].as_str());
        proof {
            if i == 0 {
                assert(out@ =~= parts@[0]@);
            }
        }
        i += 1;
    }
    proof {
        assert(all.take(i as int) =~= all);
    }
    out
}

/// The parts, trimmed, without those of which nothing is left.
pub open spec fn trimmed_parts(parts: Seq<Seq<char>>) -> Seq<Seq<char>>
    decreases parts.len(),
{
    if parts.len() == 0 {
        seq![]
    } else {
        let rest = trimmed_parts(parts.drop_last());
        let t = trim(parts.last());
        if t.len() > 0 {
            rest.push(t)
        } else {
            rest
        }
    }
}

/// The parts, trimmed, without those of which nothing is left.
pub fn trimmed_list(parts: &[&[char]]) -> (r: Vec<String>)
    ensures
        views(r@) == trimmed_parts(views(parts@)),
{
    let mut out: Vec<String> = Vec::new();
    let mut i: usize = 0;
    let ghost all = views(parts@);
    proof {
        assert(views(out@) =~= trimmed_parts(all.take(0)));
    }
    while i < parts.len()
        invariant
            i <= parts.len(),
            all == views(parts@),
            views(out@) == trimmed_parts(all.take(i as int)),
        decreases parts.len() - i,
    {
        let t = trimmed(parts[i]);
        proof {
            assert(all.take(i + 1).drop_last() =~= all.take(i as int));
            assert(all.take(i + 1).last() == parts@[i as int]@);
        }
        if t.len() > 0 {
            let owned = text_of(t);
            proof {
                lemma_views_push(out@, owned);
            }
            out.push(owned);
        }
        i += 1;
    }
    proof {
        assert(all.take(i as int) =~= all);
    }
    out
}

// ---------------------------------------------------------------- numbers
/// The decimal digit of value `d`.
pub open spec fn digit(d: int) -> char {
    ('0' as int + d) as char
}

pub open spec fn is_digit(c: char) -> bool {
    '0' <= c <= '9'
}

/// `n` in decimal, without leading zeros.
pub open spec fn decimal(n: nat) -> Seq<char>
    decreases n,
{
    if n < 10 {
        seq![digit(n as int)]
    } else {
        decimal(n / 10).push(digit((n % 10) as int))
    }
}

/// The value of a sequence of decimal digits.
pub open spec fn digits_value(s: Seq<char>) -> nat
    decreases s.len(),
{
    if s.len() == 0 {
        0
    } else {
        (10 * digits_value(s.drop_last()) + (s.last() as int - '0' as int)) as nat
    }
}

pub open spec fn all_digits(s: Seq<char>) -> bool {
    forall|i: int| 0 <= i < s.len() ==> is_digit(#[trigger] s[i])
}

/// The number that `s` spells: digits, at least one, after an optional `+`,
/// with a value of at most `max`.
pub open spec fn parse_number(s: Seq<char>, max: nat) -> Option<nat> {
    let digits = if s.len() > 0 && s[0] == '+' {
        s.skip(1)
    } else {
        s
    };
    if digits.len() > 0 && all_digits(digits) && digits_value(digits) <= max {
        Some(digits_value(digits))
    } else {
        None
    }
}

proof fn lemma_digits_value_grows(s: Seq<char>, k: int)
    requires
        all_digits(s),
        0 <= k <= s.len(),
    ensures
        digits_value(s.take(k)) <= digits_value(s),
    decreases s.len(),
{
    if k == s.len() {
        assert(s.take(k) =~= s);
    } else {
        assert(all_digits(s.drop_last())) by {
            assert forall|i: int| 0 <= i < s.drop_last().len() implies is_digit(
                #[trigger] s.drop_last()[i],
            ) by {
                assert(is_digit(s[i]));
            }
        }
        lemma_digits_value_grows(s.drop_last(), k);
        assert(s.drop_last().take(k) =~= s.take(k));
        assert(is_digit(s[s.len() - 1]));
    }
}

/// The number that `s` spells, where it is at most `max`.
pub fn number(s: &[char], max: u64) -> (r: Option<u64>)
    ensures
        match r {
            Some(v) => parse_number(s@, max as nat) == Some(v as nat),
            None => parse_number(s@, max as nat) is None,
        },
{
    let start: usize = if s.len() > 0 && s[0] == '+' {
        1
    } else {
        0
    };
    let ghost digits = if s@.len() > 0 && s@[0] == '+' {
        s@.skip(1)
    } else {
        s@
    };
    proof {
        assert(digits =~= s@.skip(start as int));
    }
    if start >= s.len() {
        return None;
    }
    let mut v: u64 = 0;
    let mut i: usize = start;
    proof {
        assert(digits.take(0) =~= Seq::<char>::empty());
    }
    while i < s.len()
        invariant
            start <= i <= s.len(),
            digits == s@.skip(start as int),
            digits.len() > 0,
            parse_number(s@, max as nat) == (if all_digits(digits) && digits_value(digits) <= max {
                Some(digits_value(digits))
            } else {
                None
            }),
            forall|j: int| 0 <= j < i - start ==> is_digit(#[trigger] digits[j]),
            v == digits_value(digits.take(i - start)),
            v <= max,
        decreases s.len() - i,
    {
        let c = s[i];
        proof {
            assert(c == digits[i - start]);
        }
        if !('0' <= c && c <= '9') {
            proof {
                assert(!is_digit(digits[i - start]));
            }
            return None;
        }
        let d: u64 = c as u64 - '0' as u64;
        let ghost next = digits.take(i - start + 1);
        proof {
            assert(next.drop_last() =~= digits.take(i - start));
            assert(next.last() == c);
            assert(digits_value(next) == 10 * v + d);
            if all_digits(digits) {
                lemma_digits_value_grows(digits, i - start + 1);
            }
        }
        if v > (u64::MAX - d) / 10 || 10 * v + d > max {
            return None;
        }
        v = 10 * v + d;
        i += 1;
    }
    proof {
        assert(digits.take(i - start) =~= digits);
    }
    Some(v)
}

/// The number that `s` spells, where it fits a `usize`.
pub fn number_usize(s: &[char]) -> (r: Option<usize>)
    ensures
        match r {
            Some(v) => parse_number(s@, usize::MAX as nat) == Some(v as nat),
            None => parse_number(s@, usize::MAX as nat) is None,
        },
{
    match number(s, usize::MAX as u64) {
        Some(v) => Some(v as usize),
        None => None,
    }
}

/// `n` in decimal.
pub fn decimal_chars(n: u64) -> (r: Vec<char>)
    ensures
        r@ == decimal(n as nat),
    decreases n,
{
    if n < 10 {
        let mut out: Vec<char> = Vec::new();
        out.push((48u8 + n as u8) as char);
        proof {
            assert(out@ =~= decimal(n as nat));
        }
        out
    } else {
        let mut out = decimal_chars(n / 10);
        out.push((48u8 + (n % 10) as u8) as char);
        out
    }
}

/// Appends `n` in decimal to `out`.
pub fn push_number(out: &mut String, n: usize)
    ensures
        final(out)@ == old(out)@ + decimal(n as nat),
{
    let digits = decimal_chars(n as u64);
    let t = text_of(digits.as_slice());
    out.push_str(t.as_str());
}

// ---------------------------------------------------------------- character classes
pub open spec fn is_ascii_char(c: char) -> bool {
    c < '\u{80}'
}

pub open spec fn is_ascii_alphanumeric(c: char) -> bool {
    is_digit(c) || 'a' <= c <= 'z' || 'A' <= c <= 'Z'
}

/// What `char::is_alphanumeric` returns.
pub uninterp spec fn alphanumeric(c: char) -> bool;

/// What `char::is_uppercase` returns.
pub uninterp spec fn uppercase(c: char) -> bool;

/// What `str::to_lowercase` returns.
pub uninterp spec fn lowercase(s: Seq<char>) -> Seq<char>;

/// `char::is_alphanumeric` decides by the character alone, through Unicode's
/// tables; among the ASCII characters it takes the letters and the digits.
pub assume_specification[ char::is_alphanumeric ](c: char) -> (r: bool)
    ensures
        r == alphanumeric(c),
        is_ascii_char(c) ==> r == is_ascii_alphanumeric(c),
;

/// `char::is_uppercase` decides by the character alone, through Unicode's
/// tables; among the ASCII characters it takes `A` to `Z`.
pub assume_specification[ char::is_uppercase ](c: char) -> (r: bool)
    ensures
        r == uppercase(c),
        is_ascii_char(c) ==> r == ('A' <= c <= 'Z'),
;

/// `str::to_lowercase` is a function of the text; on ASCII text it maps each
/// letter and keeps everything else.
pub assume_specification[ str::to_lowercase ](s: &str) -> (r: String)
    ensures
        r@ == lowercase(s@),
        (forall|i: int| 0 <= i < s@.len() ==> is_ascii_char(#[trigger] s@[i])) ==> r@
            == ascii_lower(s@),
;

/// The lower-case form of an ASCII letter; any other character itself.
pub open spec fn ascii_lower_char(c: char) -> char {
    if 'A' <= c <= 'Z' {
        (c as int + 32) as char
    } else {
        c
    }
}

/// `s` with each ASCII letter in lower case.
pub open spec fn ascii_lower(s: Seq<char>) -> Seq<char> {
    Seq::new(s.len(), |i: int| ascii_lower_char(s[i]))
}

/// The lower-case form of an ASCII letter; any other character itself.
pub fn lower_char(c: char) -> (r: char)
    ensures
        r == ascii_lower_char(c),
{
    if 'A' <= c && c <= 'Z' {
        (c as u8 + 32) as char
    } else {
        c
    }
}

/// `s` with each ASCII letter in lower case.
pub fn ascii_lowered(s: &[char]) -> (r: Vec<char>)
    ensures
        r@ == ascii_lower(s@),
{
    let mut out: Vec<char> = Vec::new();
    let mut i: usize = 0;
    while i < s.len()
        invariant
            i <= s.len(),
            out@ == ascii_lower(s@).take(i as int),
        decreases s.len() - i,
    {
        out.push(lower_char(s[i]));
        i += 1;
        proof {
            assert(out@ =~= ascii_lower(s@).take(i as int));
        }
    }
    proof {
        assert(ascii_lower(s@).take(i as int) =~= ascii_lower(s@));
    }
    out
}

// ---------------------------------------------------------------- bytes
/// The number of bytes that `s` takes in UTF-8.
pub open spec fn byte_len(s: Seq<char>) -> nat {
    encode_utf8(s).len()
}

proof fn lemma_scalar_bytes(c: char)
    ensures
        vstd::utf8::encode_scalar(c as u32).len() >= 1,
        vstd::utf8::encode_scalar(c as u32).len() >= 2 <==> !is_ascii_char(c),
{
}

/// Text takes at least two bytes exactly where it has two characters or one
/// outside ASCII.
pub proof fn lemma_two_bytes(s: Seq<char>)
    ensures
        byte_len(s) >= 2 <==> (s.len() >= 2 || (s.len() == 1 && !is_ascii_char(s[0]))),
{
    if s.len() >= 1 {
        let rest = s.drop_first();
        assert(encode_utf8(s) == vstd::utf8::encode_scalar(s[0] as u32) + encode_utf8(rest));
        lemma_scalar_bytes(s[0]);
        if s.len() == 1 {
            assert(encode_utf8(rest) =~= Seq::<u8>::empty());
        } else {
            assert(encode_utf8(rest) == vstd::utf8::encode_scalar(rest[0] as u32) + encode_utf8(
                rest.drop_first(),
            ));
            lemma_scalar_bytes(rest[0]);
        }
    }
}

/// The number of bytes that `s` takes in UTF-8.
pub fn byte_length(s: &str) -> (r: usize)
    ensures
        r == byte_len(s@),
{
    s.as_bytes().len()
}

/// Whether `s` takes at least two bytes in UTF-8.
pub fn two_bytes(s: &[char]) -> (r: bool)
    ensures
        r == (byte_len(s@) >= 2),
{
    proof {
        lemma_two_bytes(s@);
    }
    s.len() >= 2 || (s.len() == 1 && !(s[0] < '\u{80}'))
}

// ---------------------------------------------------------------- facts about trimming
/// Text that begins and ends outside white space survives trimming.
pub proof fn lemma_trim_keeps(s: Seq<char>, pat: Seq<char>)
    requires
        occurs(s, pat),
        pat.len() > 0,
        !is_space(pat[0]),
        !is_space(pat.last()),
    ensures
        occurs(trim(s), pat),
{
    let i = choose|i: int| occurs_at(s, pat, i);
    let last = i + pat.len() - 1;
    lemma_run_len(s, spaces());
    let lead = run_len(s, spaces()) as int;
    let t = trim_start(s);
    assert(s.subrange(i, i + pat.len())[0] == s[i]);
    assert(s.subrange(i, i + pat.len())[pat.len() - 1] == s[last]);
    if i < lead {
        assert(spaces()(s[i]));
    }
    lemma_tail_len(t, spaces());
    let keep = t.len() - tail_len(t, spaces());
    if last - lead >= keep {
        assert(spaces()(t[last - lead]));
    }
    assert(trim(s).subrange(i - lead, i - lead + pat.len()) =~= s.subrange(i, i + pat.len()));
    assert(occurs_at(trim(s), pat, i - lead));
}

/// A character outside white space survives trimming.
pub proof fn lemma_trim_keeps_char(s: Seq<char>, c: char)
    requires
        s.contains(c),
        !is_space(c),
    ensures
        trim(s).contains(c),
{
    let i = choose|i: int| 0 <= i < s.len() && s[i] == c;
    assert(s.subrange(i, i + 1) =~= seq![c]);
    assert(occurs_at(s, seq![c], i));
    lemma_trim_keeps(s, seq![c]);
    let j = choose|j: int| occurs_at(trim(s), seq![c], j);
    assert(trim(s).subrange(j, j + 1)[0] == trim(s)[j]);
}

/// The characters of each string.
pub fn char_lists(parts: &[&str]) -> (r: Vec<Vec<char>>)
    ensures
        views(r@) == views(parts@),
{
    let mut out: Vec<Vec<char>> = Vec::new();
    let mut i: usize = 0;
    while i < parts.len()
        invariant
            i <= parts.len(),
            views(out@) == views(parts@).take(i as int),
        decreases parts.len() - i,
    {
        let c = chars_of(parts[i]);
        proof {
            lemma_views_push(out@, c);
            assert(views(parts@).take(i + 1) =~= views(parts@).take(i as int).push(c@));
        }
        out.push(c);
        i += 1;
    }
    proof {
        assert(views(parts@).take(i as int) =~= views(parts@));
    }
    out
}

/// The lists of characters as slices.
pub fn slices_of<'a>(lists: &'a [Vec<char>]) -> (r: Vec<&'a [char]>)
    ensures
        views(r@) == views(lists@),
{
    let mut out: Vec<&'a [char]> = Vec::new();
    let mut i: usize = 0;
    while i < lists.len()
        invariant
            i <= lists.len(),
            views(out@) == views(lists@).take(i as int),
        decreases lists.len() - i,
    {
        let c = lists[i].as_slice();
        proof {
            lemma_views_push(out@, c);
            assert(views(lists@).take(i + 1) =~= views(lists@).take(i as int).push(c@));
        }
        out.push(c);
        i += 1;
    }
    proof {
        assert(views(lists@).take(i as int) =~= views(lists@));
    }
    out
}

/// A text between two stretches of white space is what trimming leaves.
pub proof fn lemma_trim_is(s: Seq<char>, a: int, b: int)
    requires
        0 <= a < b <= s.len(),
        forall|i: int| 0 <= i < a ==> is_space(#[trigger] s[i]),
        forall|i: int| b <= i < s.len() ==> is_space(#[trigger] s[i]),
        !is_space(s[a]),
        !is_space(s[b - 1]),
    ensures
        trim_start(s) == s.skip(a),
        trim(s) == s.subrange(a, b),
{
    lemma_run_len_is(s, spaces(), a);
    let t = s.skip(a);
    assert forall|i: int| t.len() - (s.len() - b) <= i < t.len() implies spaces()(
        #[trigger] t[i],
    ) by {
        assert(t[i] == s[a + i]);
    }
    assert(t[b - a - 1] == s[b - 1]);
    lemma_tail_len_is(t, spaces(), s.len() - b);
    assert(trim(s) =~= s.subrange(a, b));
}

/// Nothing is left of white space.
pub proof fn lemma_trim_blank(s: Seq<char>)
    requires
        forall|i: int| 0 <= i < s.len() ==> is_space(#[trigger] s[i]),
    ensures
        trim(s) == Seq::<char>::empty(),
{
    lemma_run_len_is(s, spaces(), s.len() as int);
    assert(s.skip(s.len() as int) =~= Seq::<char>::empty());
    assert(trim(s) =~= Seq::<char>::empty());
}

/// The last piece of a text cut at a character is a stretch of it without that
/// character.
pub proof fn lemma_last_piece(s: Seq<char>, c: char)
    ensures
        split_on(s, c).len() > 0,
        !split_on(s, c).last().contains(c),
        forall|x: char| #[trigger] split_on(s, c).last().contains(x) ==> s.contains(x),
    decreases s.len(),
{
    lemma_run_len(s, other_than(c));
    let n = run_len(s, other_than(c)) as int;
    if n >= s.len() {
        assert forall|i: int| 0 <= i < s.len() implies s[i] != c by {
            assert(other_than(c)(s[i]));
        }
        assert(split_on(s, c).last() == s);
    } else {
        let rest = s.skip(n + 1);
        lemma_last_piece(rest, c);
        assert(split_on(s, c).last() == split_on(rest, c).last());
        assert forall|x: char| #[trigger] split_on(s, c).last().contains(x) implies s.contains(
            x,
        ) by {
            assert(rest.contains(x));
            let i = choose|i: int| 0 <= i < rest.len() && rest[i] == x;
            assert(s[n + 1 + i] == x);
        }
    }
}

/// What trimming leaves has no white space at its ends.
pub proof fn lemma_trim_ends(t: Seq<char>)
    ensures
        trim(t).len() > 0 ==> !is_space(trim(t)[0]) && !is_space(trim(t).last()),
{
    lemma_run_len(t, spaces());
    lemma_tail_len(t, spaces());
    let a = run_len(t, spaces()) as int;
    let b = t.len() - tail_len(t, spaces());
    assert forall|i: int| 0 <= i < a implies is_space(#[trigger] t[i]) by {
        assert(spaces()(t[i]));
    }
    if a < t.len() {
        assert(!spaces()(t[a]));
        if b <= a {
            assert(spaces()(t[a]));
        }
        assert(!spaces()(t[b - 1]));
        assert forall|i: int| b <= i < t.len() implies is_space(#[trigger] t[i]) by {
            assert(spaces()(t[i]));
        }
        lemma_trim_is(t, a, b);
    } else {
        lemma_trim_blank(t);
    }
}

// ---------------------------------------------------------------- laws
/// Whether a text holds nothing but white space.
pub open spec fn is_blank(s: Seq<char>) -> bool {
    forall|i: int| 0 <= i < s.len() ==> is_space(#[trigger] s[i])
}

/// Whether a text is not empty and holds no white space.
pub open spec fn is_word(s: Seq<char>) -> bool {
    &&& s.len() > 0
    &&& forall|i: int| 0 <= i < s.len() ==> !is_space(#[trigger] s[i])
}

/// White space is tab, line feed, vertical tab, form feed, carriage return, space and
/// the blanks of Unicode outside ASCII; nothing else is.
pub proof fn law_white_space(c: char)
    ensures
        is_space(c) <==> {
            let n = c as u32;
            ||| n == 9 || n == 10 || n == 11 || n == 12 || n == 13
            ||| n == 32 || n == 133 || n == 160 || n == 5760
            ||| n == 8192 || n == 8193 || n == 8194 || n == 8195 || n == 8196 || n == 8197
            ||| n == 8198 || n == 8199 || n == 8200 || n == 8201 || n == 8202
            ||| n == 8232 || n == 8233 || n == 8239 || n == 8287 || n == 12288
        },
{
}

/// Trimming takes away the blanks around a text and nothing within it.
pub proof fn law_trim(ahead: Seq<char>, s: Seq<char>, behind: Seq<char>)
    requires
        is_blank(ahead),
        is_blank(behind),
        s.len() > 0 ==> !is_space(s[0]) && !is_space(s.last()),
    ensures
        trim(ahead + s + behind) == s,
        s.len() > 0 ==> trim_start(ahead + s + behind) == s + behind,
{
    let t = ahead + s + behind;
    if s.len() == 0 {
        assert forall|i: int| 0 <= i < t.len() implies is_space(#[trigger] t[i]) by {
            if i < ahead.len() {
                assert(t[i] == ahead[i]);
            } else {
                assert(t[i] == behind[i - ahead.len()]);
            }
        }
        lemma_trim_blank(t);
        assert(s =~= Seq::<char>::empty());
    } else {
        let a = ahead.len() as int;
        let b = a + s.len();
        assert forall|i: int| 0 <= i < a implies is_space(#[trigger] t[i]) by {
            assert(t[i] == ahead[i]);
        }
        assert forall|i: int| b <= i < t.len() implies is_space(#[trigger] t[i]) by {
            assert(t[i] == behind[i - b]);
        }
        assert(t[a] == s[0]);
        assert(t[b - 1] == s.last());
        lemma_trim_is(t, a, b);
        assert(t.subrange(a, b) =~= s);
        assert(t.skip(a) =~= s + behind);
    }
}

/// The words of a text: none in a blank one; else the first, and then those of what
/// stands behind it.
pub proof fn law_words(gap: Seq<char>, word: Seq<char>, rest: Seq<char>)
    requires
        is_blank(gap),
        is_word(word),
        rest.len() > 0 ==> is_space(rest[0]),
    ensures
        words(gap) == Seq::<Seq<char>>::empty(),
        first_word(gap) == Seq::<char>::empty(),
        words(gap + word + rest) == seq![word] + words(rest),
        first_word(gap + word + rest) == word,
{
    lemma_run_len_is(gap, spaces(), gap.len() as int);
    assert(trim_start(gap) =~= Seq::<char>::empty());
    assert(words(gap) =~= Seq::<Seq<char>>::empty());
    assert(first_word(gap) =~= Seq::<char>::empty());
    let s = gap + word + rest;
    let n = word.len() as int;
    assert forall|i: int| 0 <= i < gap.len() implies spaces()(#[trigger] s[i]) by {
        assert(s[i] == gap[i]);
    }
    assert(s[gap.len() as int] == word[0]);
    lemma_run_len_is(s, spaces(), gap.len() as int);
    let t = word + rest;
    assert(trim_start(s) =~= t);
    assert forall|i: int| 0 <= i < n implies non_spaces()(#[trigger] t[i]) by {
        assert(t[i] == word[i]);
    }
    if n < t.len() {
        assert(t[n] == rest[0]);
    }
    lemma_run_len_is(t, non_spaces(), n);
    assert(t.take(n) =~= word);
    assert(t.skip(n) =~= rest);
}

/// The pieces of a text cut at a character: the text itself where the character does
/// not occur; else what stands ahead of it, and the pieces of what stands behind.
pub proof fn law_split_on(a: Seq<char>, c: char, b: Seq<char>)
    requires
        !a.contains(c),
    ensures
        split_on(a, c) == seq![a],
        split_on(a + seq![c] + b, c) == seq![a] + split_on(b, c),
{
    let s = a + seq![c] + b;
    let n = a.len() as int;
    assert forall|i: int| 0 <= i < n implies other_than(c)(#[trigger] a[i]) by {
        assert(a.contains(a[i]));
    }
    assert forall|i: int| 0 <= i < n implies other_than(c)(#[trigger] s[i]) by {
        assert(s[i] == a[i]);
    }
    assert(s[n] == c);
    lemma_run_len_is(a, other_than(c), n);
    lemma_run_len_is(s, other_than(c), n);
    assert(s.take(n) =~= a);
    assert(s.skip(n + 1) =~= b);
}

/// The lines of a text: none in an empty one; a text without a line end is one line;
/// a line ends in `\n` or `\r\n`, and the lines of what stands behind follow.
pub proof fn law_lines(a: Seq<char>, b: Seq<char>)
    requires
        !a.contains('\n'),
    ensures
        lines(Seq::<char>::empty()) == Seq::<Seq<char>>::empty(),
        a.len() > 0 ==> lines(a) == seq![a],
        (a.len() > 0 ==> a.last() != '\r') ==> lines(a + seq!['\n'] + b) == seq![a] + lines(b),
        lines(a + seq!['\r', '\n'] + b) == seq![a] + lines(b),
{
    let s = a + seq!['\n'] + b;
    let r = a + seq!['\r', '\n'] + b;
    let n = a.len() as int;
    let f = other_than('\n');
    assert forall|i: int| 0 <= i < n implies f(#[trigger] a[i]) by {
        assert(a.contains(a[i]));
    }
    assert forall|i: int| 0 <= i < n implies f(#[trigger] s[i]) by {
        assert(s[i] == a[i]);
    }
    assert forall|i: int| 0 <= i < n + 1 implies f(#[trigger] r[i]) by {
        if i < n {
            assert(r[i] == a[i]);
        } else {
            assert(r[i] == '\r');
        }
    }
    assert(s[n] == '\n');
    assert(r[n + 1] == '\n');
    lemma_run_len_is(a, f, n);
    lemma_run_len_is(s, f, n);
    lemma_run_len_is(r, f, n + 1);
    assert(s.take(n) =~= a);
    assert(s.skip(n + 1) =~= b);
    assert(r.take(n + 1) =~= a.push('\r'));
    assert(strip_cr(a.push('\r')) =~= a);
    assert(r.skip(n + 2) =~= b);
}

/// Joining: nothing gives the empty text, one part itself, and one more part stands
/// behind the others and the separator.
pub proof fn law_join(parts: Seq<Seq<char>>, part: Seq<char>, sep: Seq<char>)
    ensures
        join(Seq::<Seq<char>>::empty(), sep) == Seq::<char>::empty(),
        join(seq![part], sep) == part,
        parts.len() > 0 ==> join(parts.push(part), sep) == join(parts, sep) + sep + part,
{
    assert(parts.push(part).drop_last() =~= parts);
}

/// Replacing: an occurrence at the front is replaced, and what stands behind it is
/// gone on with; a text without an occurrence stays as it is.
pub proof fn law_replace(s: Seq<char>, from: Seq<char>, to: Seq<char>)
    requires
        from.len() > 0,
    ensures
        replace(from + s, from, to) == to + replace(s, from, to),
        !occurs(s, from) ==> replace(s, from, to) == s,
        s.len() > 0 && !occurs_at(s, from, 0) ==> replace(s, from, to) == s.take(1) + replace(
            s.skip(1),
            from,
            to,
        ),
    decreases s.len(),
{
    assert((from + s).take(from.len() as int) =~= from);
    assert((from + s).skip(from.len() as int) =~= s);
    if s.len() > 0 {
        law_replace(s.skip(1), from, to);
        assert(s.take(1) =~= seq![s[0]]);
        assert(s =~= seq![s[0]] + s.skip(1));
        if from.len() <= s.len() {
            assert(s.take(from.len() as int) =~= s.subrange(0, from.len() as int));
        }
        if !occurs(s, from) {
            assert(!occurs_at(s, from, 0));
            assert forall|i: int| !occurs_at(s.skip(1), from, i) by {
                if occurs_at(s.skip(1), from, i) {
                    assert(s.subrange(i + 1, i + 1 + from.len()) =~= s.skip(1).subrange(
                        i,
                        i + from.len(),
                    ));
                    assert(occurs_at(s, from, i + 1));
                }
            }
        }
        if s.len() < from.len() {
            assert(s.take(1) + s.skip(1) =~= s);
        }
    }
}

/// What it is to start with, to end with and to hold a text.
pub proof fn law_substrings(a: Seq<char>, pat: Seq<char>, b: Seq<char>, s: Seq<char>)
    ensures
        starts_with(pat + b, pat),
        ends_with(a + pat, pat),
        occurs(a + pat + b, pat),
        starts_with(s, pat) ==> s == pat + s.skip(pat.len() as int),
        ends_with(s, pat) ==> s == s.take(s.len() - pat.len()) + pat,
        occurs(s, pat) ==> exists|k: int|
            0 <= k <= s.len() - pat.len() && s == #[trigger] s.take(k) + pat + s.skip(k + pat.len()),
{
    assert((pat + b).take(pat.len() as int) =~= pat);
    assert((a + pat).skip(a.len() as int) =~= pat);
    assert((a + pat + b).subrange(a.len() as int, (a.len() + pat.len()) as int) =~= pat);
    assert(occurs_at(a + pat + b, pat, a.len() as int));
    if starts_with(s, pat) {
        assert(s =~= s.take(pat.len() as int) + s.skip(pat.len() as int));
    }
    if ends_with(s, pat) {
        assert(s =~= s.take(s.len() - pat.len()) + s.skip(s.len() - pat.len()));
    }
    if occurs(s, pat) {
        let k = choose|k: int| occurs_at(s, pat, k);
        assert(s =~= s.take(k) + s.subrange(k, k + pat.len()) + s.skip(k + pat.len()));
    }
}

/// A number in decimal is spelled in digits, without a leading zero, and the digits
/// have the value of the number: each is worth ten times the one behind it.
pub proof fn law_decimal(n: nat)
    ensures
        decimal(n).len() > 0,
        forall|i: int| 0 <= i < decimal(n).len() ==> '0' <= #[trigger] decimal(n)[i] <= '9',
        decimal(n)[0] == '0' <==> n == 0,
        digits_value(decimal(n)) == n,
        n < 10 ==> decimal(n) == seq![(48 + n) as char],
        forall|d: nat|
            #![trigger decimal(10 * n + d)]
            n > 0 && d < 10 ==> decimal(10 * n + d) == decimal(n) + decimal(d),
    decreases n,
{
    let s = decimal(n);
    if n >= 10 {
        law_decimal(n / 10);
        let rest = decimal(n / 10);
        assert(s.drop_last() =~= rest);
        assert forall|i: int| 0 <= i < s.len() implies '0' <= #[trigger] s[i] <= '9' by {
            if i < rest.len() {
                assert(s[i] == rest[i]);
            }
        }
        assert(s[0] == rest[0]);
    } else {
        assert(s =~= seq![digit(n as int)]);
        assert(s.drop_last() =~= Seq::<char>::empty());
        assert(digits_value(s.drop_last()) == 0);
        assert(s.last() as int == '0' as int + n);
    }
    assert forall|d: nat| #![trigger decimal(10 * n + d)] n > 0 && d < 10 implies decimal(
        10 * n + d,
    ) == decimal(n) + decimal(d) by {
        assert((10 * n + d) / 10 == n);
        assert((10 * n + d) % 10 == d);
        assert(decimal(n).push(digit(d as int)) =~= decimal(n) + decimal(d));
    }
}

/// Reading a number gives back the number that was written in decimal, also with `+`
/// or a zero ahead, where it is not too large; nothing else than digits is read.
pub proof fn law_parse_number(n: nat, s: Seq<char>, max: nat)
    ensures
        parse_number(decimal(n), max) == (if n <= max {
            Some(n)
        } else {
            None
        }),
        parse_number(seq!['+'] + decimal(n), max) == parse_number(decimal(n), max),
        parse_number(seq!['0'] + decimal(n), max) == parse_number(decimal(n), max),
        parse_number(Seq::<char>::empty(), max) is None,
        parse_number(seq!['+'], max) is None,
        (exists|i: int|
            1 <= i < s.len() && !('0' <= #[trigger] s[i] <= '9')) ==> parse_number(s, max) is None,
        s.len() > 0 && s[0] != '+' && !('0' <= s[0] <= '9') ==> parse_number(s, max) is None,
{
    law_decimal(n);
    let d = decimal(n);
    assert(d[0] != '+');
    assert(all_digits(d));
    let p = seq!['+'] + d;
    assert(p.skip(1) =~= d);
    let z = seq!['0'] + d;
    assert forall|i: int| 0 <= i < z.len() implies is_digit(#[trigger] z[i]) by {
        if i > 0 {
            assert(z[i] == d[i - 1]);
        }
    }
    lemma_zero_ahead(d);
    assert(seq!['+'].skip(1) =~= Seq::<char>::empty());
    if exists|i: int| 1 <= i < s.len() && !('0' <= #[trigger] s[i] <= '9') {
        let i = choose|i: int| 1 <= i < s.len() && !('0' <= #[trigger] s[i] <= '9');
        assert(s.skip(1)[i - 1] == s[i]);
        assert(!is_digit(s[i]));
        assert(!is_digit(s.skip(1)[i - 1]));
    }
}

proof fn lemma_zero_ahead(d: Seq<char>)
    ensures
        digits_value(seq!['0'] + d) == digits_value(d),
    decreases d.len(),
{
    let z = seq!['0'] + d;
    if d.len() == 0 {
        assert(z.drop_last() =~= Seq::<char>::empty());
        assert(z.last() == '0');
        assert(digits_value(z.drop_last()) == 0);
    } else {
        lemma_zero_ahead(d.drop_last());
        assert(z.drop_last() =~= seq!['0'] + d.drop_last());
    }
}

/// Lowering changes the capital letters of ASCII, each to the small one, and nothing
/// else.
pub proof fn law_ascii_lower(s: Seq<char>)
    ensures
        ascii_lower(s).len() == s.len(),
        forall|i: int|
            #![trigger ascii_lower(s)[i]]
            0 <= i < s.len() ==> if 'A' <= s[i] <= 'Z' {
                ascii_lower(s)[i] as u32 - 'a' as u32 == s[i] as u32 - 'A' as u32
            } else {
                ascii_lower(s)[i] == s[i]
            },
        ascii_lower("ABCDEFGHIJKLMNOPQRSTUVWXYZ"@) == "abcdefghijklmnopqrstuvwxyz"@,
{
    reveal_strlit("ABCDEFGHIJKLMNOPQRSTUVWXYZ");
    reveal_strlit("abcdefghijklmnopqrstuvwxyz");
    assert(ascii_lower("ABCDEFGHIJKLMNOPQRSTUVWXYZ"@) =~= "abcdefghijklmnopqrstuvwxyz"@);
}

/// Trimming a list of parts trims each, keeps the order and leaves out the blank ones.
pub proof fn law_trimmed_parts(parts: Seq<Seq<char>>, part: Seq<char>)
    ensures
        trimmed_parts(Seq::<Seq<char>>::empty()) == Seq::<Seq<char>>::empty(),
        is_blank(part) ==> trimmed_parts(parts.push(part)) == trimmed_parts(parts),
        !is_blank(part) ==> trimmed_parts(parts.push(part)) == trimmed_parts(parts).push(
            trim(part),
        ),
{
    assert(parts.push(part).drop_last() =~= parts);
    if is_blank(part) {
        lemma_trim_blank(part);
    } else {
        let i = choose|i: int| 0 <= i < part.len() && !is_space(#[trigger] part[i]);
        assert(part.contains(part[i]));
        lemma_trim_keeps_char(part, part[i]);
    }
}

} // verus!
