//! Cuts a compound shell command at its operators `;`, `&&`, `||` and `|`.
//!
//! Operators inside quotes or parentheses do not cut. A quote or a parenthesis
//! behind a backslash opens and closes nothing; whether an operator behind one cuts
//! is up to the caller.
use vstd::prelude::*;

verus! {

/// Whether a backslash keeps an operator behind it from cutting.
#[derive(Clone, Copy, PartialEq, Eq, Debug, Structural)]
pub enum Backslash {
    Shields,
    Ignored,
}

/// The quotation that a position of a command stands in; a position behind a
/// backslash, other than in single quotes, is escaped.
#[derive(Clone, Copy, PartialEq, Eq, Debug, Structural)]
pub enum Quote {
    Outside,
    Escaped,
    Single,
    Double,
    DoubleEscaped,
}

/// The quotation after the character at `i`, where `q` is that before it. An
/// escaped character neither opens nor closes one.
pub open spec fn quote_after(s: Seq<char>, i: int, q: Quote) -> Quote {
    match q {
        Quote::Single => if s[i] == '\'' {
            Quote::Outside
        } else {
            q
        },
        Quote::Double => if s[i] == '"' {
            Quote::Outside
        } else if s[i] == '\\' {
            Quote::DoubleEscaped
        } else {
            q
        },
        Quote::DoubleEscaped => Quote::Double,
        Quote::Outside => if s[i] == '\'' {
            Quote::Single
        } else if s[i] == '"' {
            Quote::Double
        } else if s[i] == '\\' {
            Quote::Escaped
        } else {
            q
        },
        Quote::Escaped => Quote::Outside,
    }
}

/// The number of open parentheses after the character at `i`.
pub open spec fn depth_after(s: Seq<char>, i: int, q: Quote, depth: nat) -> nat {
    if q != Quote::Outside {
        depth
    } else if s[i] == '(' {
        depth + 1
    } else if s[i] == ')' && depth > 0 {
        (depth - 1) as nat
    } else {
        depth
    }
}

/// Whether an operator cuts in a quotation: outside of all, and behind a backslash
/// where that does not shield it.
pub open spec fn may_cut(m: Backslash, q: Quote) -> bool {
    q == Quote::Outside || (q == Quote::Escaped && m == Backslash::Ignored)
}

/// The length of the operator that stands at `i`, zero where none does.
pub open spec fn operator_len(m: Backslash, s: Seq<char>, i: int, q: Quote, depth: nat) -> nat {
    if !may_cut(m, q) || depth > 0 {
        0
    } else if s[i] == ';' {
        1
    } else if s[i] == '&' && i + 1 < s.len() && s[i + 1] == '&' {
        2
    } else if s[i] == '|' {
        if i + 1 < s.len() && s[i + 1] == '|' {
            2
        } else {
            1
        }
    } else {
        0
    }
}

/// A stretch of a command, `start` to `end`, with the operator of length `op`
/// that follows it; the last stretch may have none.
#[derive(Clone, Copy, PartialEq, Eq, Debug, Structural)]
pub struct Cut {
    pub start: usize,
    pub end: usize,
    pub op: usize,
}

/// The stretch and the operator behind it, as text.
pub struct Piece {
    pub text: Seq<char>,
    pub op: Seq<char>,
}

impl Cut {
    pub open spec fn within(self, s: Seq<char>) -> bool {
        self.start <= self.end && self.end + self.op <= s.len()
    }

    pub open spec fn piece(self, s: Seq<char>) -> Piece {
        Piece {
            text: s.subrange(self.start as int, self.end as int),
            op: s.subrange(self.end as int, self.end + self.op),
        }
    }
}

/// The pieces of `s` from `start` on, where the scan has come to `i`.
pub open spec fn pieces_from(
    m: Backslash,
    s: Seq<char>,
    start: int,
    i: int,
    q: Quote,
    depth: nat,
) -> Seq<Piece>
    decreases s.len() - i,
{
    if i >= s.len() {
        if start < s.len() {
            seq![Piece { text: s.subrange(start, s.len() as int), op: seq![] }]
        } else {
            seq![]
        }
    } else {
        let n = operator_len(m, s, i, q, depth) as int;
        if n > 0 {
            seq![Piece { text: s.subrange(start, i), op: s.subrange(i, i + n) }] + pieces_from(
                m,
                s,
                i + n,
                i + n,
                Quote::Outside,
                0,
            )
        } else {
            pieces_from(m, s, start, i + 1, quote_after(s, i, q), depth_after(s, i, q, depth))
        }
    }
}

/// The pieces of a command, in order.
pub open spec fn command_pieces(m: Backslash, s: Seq<char>) -> Seq<Piece> {
    pieces_from(m, s, 0, 0, Quote::Outside, 0)
}

/// The pieces that the cuts describe.
pub open spec fn cut_pieces(cuts: Seq<Cut>, s: Seq<char>) -> Seq<Piece> {
    Seq::new(cuts.len(), |i: int| cuts[i].piece(s))
}

/// The texts of the pieces.
pub open spec fn piece_texts(p: Seq<Piece>) -> Seq<Seq<char>> {
    Seq::new(p.len(), |i: int| p[i].text)
}

fn quote_step(s: &[char], i: usize, q: Quote) -> (r: Quote)
    requires
        i < s.len(),
    ensures
        r == quote_after(s@, i as int, q),
{
    match q {
        Quote::Single => if s[i] == '\'' {
            Quote::Outside
        } else {
            q
        },
        Quote::Double => if s[i] == '"' {
            Quote::Outside
        } else if s[i] == '\\' {
            Quote::DoubleEscaped
        } else {
            q
        },
        Quote::DoubleEscaped => Quote::Double,
        Quote::Outside => if s[i] == '\'' {
            Quote::Single
        } else if s[i] == '"' {
            Quote::Double
        } else if s[i] == '\\' {
            Quote::Escaped
        } else {
            q
        },
        Quote::Escaped => Quote::Outside,
    }
}

fn operator_at(m: Backslash, s: &[char], i: usize, q: Quote, depth: usize) -> (r: usize)
    requires
        i < s.len(),
    ensures
        r == operator_len(m, s@, i as int, q, depth as nat),
        i + r <= s@.len(),
{
    if !(q == Quote::Outside || (q == Quote::Escaped && m == Backslash::Ignored)) || depth > 0 {
        0
    } else if s[i] == ';' {
        1
    } else if s[i] == '&' && i + 1 < s.len() && s[i + 1] == '&' {
        2
    } else if s[i] == '|' {
        if i + 1 < s.len() && s[i + 1] == '|' {
            2
        } else {
            1
        }
    } else {
        0
    }
}

/// Cuts a command at its operators.
pub fn cut_command(m: Backslash, s: &[char]) -> (r: Vec<Cut>)
    ensures
        cut_pieces(r@, s@) == command_pieces(m, s@),
        forall|k: int| 0 <= k < r@.len() ==> (#[trigger] r@[k]).within(s@),
{
    let mut out: Vec<Cut> = Vec::new();
    let mut start: usize = 0;
    let mut i: usize = 0;
    let mut q = Quote::Outside;
    let mut depth: usize = 0;
    proof {
        assert(cut_pieces(out@, s@) + command_pieces(m, s@) =~= command_pieces(m, s@));
    }
    while i < s.len()
        invariant
            start <= i <= s.len(),
            depth <= i,
            forall|k: int| 0 <= k < out@.len() ==> (#[trigger] out@[k]).within(s@),
            cut_pieces(out@, s@) + pieces_from(m, s@, start as int, i as int, q, depth as nat)
                == command_pieces(m, s@),
        decreases s.len() - i,
    {
        let n = operator_at(m, s, i, q, depth);
        if n > 0 {
            let cut = Cut { start, end: i, op: n };
            let ghost before = out@;
            out.push(cut);
            proof {
                let tail = pieces_from(m, s@, i + n, i + n, Quote::Outside, 0);
                assert(cut_pieces(out@, s@) + tail =~= cut_pieces(before, s@) + pieces_from(
                    m,
                    s@,
                    start as int,
                    i as int,
                    q,
                    depth as nat,
                ));
            }
            i += n;
            start = i;
            q = Quote::Outside;
            depth = 0;
        } else {
            let next = quote_step(s, i, q);
            if q == Quote::Outside {
                if s[i] == '(' {
                    depth += 1;
                } else if s[i] == ')' && depth > 0 {
                    depth -= 1;
                }
            }
            q = next;
            i += 1;
        }
    }
    let ghost before = out@;
    if start < s.len() {
        let cut = Cut { start, end: s.len(), op: 0 };
        out.push(cut);
    }
    proof {
        assert(cut_pieces(out@, s@) =~= cut_pieces(before, s@) + pieces_from(
            m,
            s@,
            start as int,
            i as int,
            q,
            depth as nat,
        )) by {
            assert(s@.subrange(s@.len() as int, s@.len() as int) =~= Seq::<char>::empty());
        }
    }
    out
}

/// The quotation that the character at `i` stands in.
pub open spec fn quote_at(s: Seq<char>, i: int) -> Quote
    decreases i,
{
    if i <= 0 {
        Quote::Outside
    } else {
        quote_after(s, i - 1, quote_at(s, i - 1))
    }
}

/// Whether the blank at `i` is part of a quotation or escaped, and is lost where
/// words are set apart by one space: it is no space, or not alone.
pub open spec fn blank_lost(s: Seq<char>, i: int) -> bool {
    &&& crate::text::is_space(s[i])
    &&& quote_at(s, i) != Quote::Outside
    &&& s[i] != ' ' || i + 1 >= s.len() || crate::text::is_space(s[i + 1]) || i == 0
        || crate::text::is_space(s[i - 1])
}

/// Whether setting the words of a command apart by one space changes what it
/// quotes.
pub open spec fn loses_blanks(s: Seq<char>) -> bool {
    exists|i: int| 0 <= i < s.len() && #[trigger] blank_lost(s, i)
}

/// Whether setting the words of a command apart by one space changes what it
/// quotes.
pub fn breaks_quotation(s: &[char]) -> (r: bool)
    ensures
        r == loses_blanks(s@),
{
    let total: usize = s.len();
    let mut q = Quote::Outside;
    let mut i: usize = 0;
    while i < total
        invariant
            i <= total,
            total == s@.len(),
            q == quote_at(s@, i as int),
            forall|j: int| 0 <= j < i ==> !#[trigger] blank_lost(s@, j),
        decreases total - i,
    {
        if q != Quote::Outside && crate::text::white_space(s[i]) && (s[i] != ' ' || i + 1 >= total
            || crate::text::white_space(s[i + 1]) || i == 0 || crate::text::white_space(s[i - 1])) {
            proof {
                assert(blank_lost(s@, i as int));
            }
            return true;
        }
        q = quote_step(s, i, q);
        i += 1;
    }
    false
}

/// Whether a subshell may open behind a character: behind a blank, an operator, an
/// open parenthesis or a redirection.
pub open spec fn admits_subshell(c: char) -> bool {
    crate::text::is_space(c) || c == ';' || c == '&' || c == '|' || c == '(' || c == '<' || c == '>'
}

/// Whether a subshell opens at `i`.
pub open spec fn subshell_at(s: Seq<char>, i: int) -> bool {
    s[i] == '(' && quote_at(s, i) == Quote::Outside && (i == 0 || admits_subshell(s[i - 1]))
}

/// Whether a command opens a subshell: at its start or behind a character that
/// admits one, outside quotes.
pub open spec fn opens_subshell(s: Seq<char>) -> bool {
    exists|i: int| 0 <= i < s.len() && #[trigger] subshell_at(s, i)
}

/// Whether a command opens a subshell.
pub fn has_subshell(s: &[char]) -> (r: bool)
    ensures
        r == opens_subshell(s@),
{
    let total: usize = s.len();
    let mut q = Quote::Outside;
    let mut i: usize = 0;
    while i < total
        invariant
            i <= total,
            total == s@.len(),
            q == quote_at(s@, i as int),
            forall|j: int| 0 <= j < i ==> !#[trigger] subshell_at(s@, j),
        decreases total - i,
    {
        if s[i] == '(' && q == Quote::Outside && (i == 0 || crate::text::white_space(s[i - 1])
            || s[i - 1] == ';' || s[i - 1] == '&' || s[i - 1] == '|' || s[i - 1] == '(' || s[i - 1]
            == '<' || s[i - 1] == '>') {
            proof {
                assert(subshell_at(s@, i as int));
            }
            return true;
        }
        q = quote_step(s, i, q);
        i += 1;
    }
    false
}

/// The pieces put back together.
pub open spec fn glued(p: Seq<Piece>) -> Seq<char>
    decreases p.len(),
{
    if p.len() == 0 {
        seq![]
    } else {
        p[0].text + p[0].op + glued(p.skip(1))
    }
}

proof fn lemma_glued(m: Backslash, s: Seq<char>, start: int, i: int, q: Quote, depth: nat)
    requires
        0 <= start <= i <= s.len(),
    ensures
        glued(pieces_from(m, s, start, i, q, depth)) == s.skip(start),
    decreases s.len() - i,
{
    let p = pieces_from(m, s, start, i, q, depth);
    if i >= s.len() {
        if start < s.len() {
            assert(p.skip(1) =~= Seq::<Piece>::empty());
            assert(glued(p.skip(1)) =~= Seq::<char>::empty());
        }
        assert(glued(p) =~= s.skip(start));
    } else {
        let n = operator_len(m, s, i, q, depth) as int;
        if n > 0 {
            lemma_glued(m, s, i + n, i + n, Quote::Outside, 0);
            assert(p.skip(1) =~= pieces_from(m, s, i + n, i + n, Quote::Outside, 0));
            assert(glued(p) =~= s.skip(start));
        } else {
            lemma_glued(m, s, start, i + 1, quote_after(s, i, q), depth_after(s, i, q, depth));
        }
    }
}

/// Cutting loses nothing: the pieces and their operators, put back together,
/// are the command.
pub proof fn law_pieces_cover_command(m: Backslash, s: Seq<char>)
    ensures
        glued(command_pieces(m, s)) == s,
{
    lemma_glued(m, s, 0, 0, Quote::Outside, 0);
    assert(s.skip(0) =~= s);
}

proof fn lemma_one_piece(m: Backslash, s: Seq<char>, i: int, q: Quote, depth: nat)
    requires
        0 <= i <= s.len(),
        s.len() > 0,
        !s.contains(';'),
        !s.contains('&'),
        !s.contains('|'),
    ensures
        pieces_from(m, s, 0, i, q, depth) == seq![Piece { text: s, op: seq![] }],
    decreases s.len() - i,
{
    if i >= s.len() {
        assert(s.subrange(0, s.len() as int) =~= s);
    } else {
        assert(s.contains(s[i]));
        lemma_one_piece(m, s, i + 1, quote_after(s, i, q), depth_after(s, i, q, depth));
    }
}

/// A command without `;`, `&` and `|` is one piece.
pub proof fn law_plain_command_is_one_piece(m: Backslash, s: Seq<char>)
    requires
        s.len() > 0,
        !s.contains(';'),
        !s.contains('&'),
        !s.contains('|'),
    ensures
        command_pieces(m, s) == seq![Piece { text: s, op: seq![] }],
{
    lemma_one_piece(m, s, 0, Quote::Outside, 0);
}

/// A `$(` of the command stands in one piece as a whole.
pub proof fn lemma_substitution_in_piece(
    m: Backslash,
    s: Seq<char>,
    start: int,
    i: int,
    q: Quote,
    depth: nat,
    k: int,
)
    requires
        0 <= start <= i <= s.len(),
        start <= k,
        k + 2 <= s.len(),
        s[k] == '$',
        s[k + 1] == '(',
    ensures
        exists|j: int|
            0 <= j < pieces_from(m, s, start, i, q, depth).len() && crate::text::occurs(
                (#[trigger] pieces_from(m, s, start, i, q, depth)[j]).text,
                seq!['$', '('],
            ),
    decreases s.len() - i,
{
    let p = pieces_from(m, s, start, i, q, depth);
    let pat = seq!['$', '('];
    if i >= s.len() {
        assert(p[0].text.subrange(k - start, k - start + 2) =~= pat);
        assert(crate::text::occurs_at(p[0].text, pat, k - start));
    } else {
        let n = operator_len(m, s, i, q, depth) as int;
        if n > 0 {
            if k < i {
                assert(p[0].text.subrange(k - start, k - start + 2) =~= pat);
                assert(crate::text::occurs_at(p[0].text, pat, k - start));
            } else {
                let rest = pieces_from(m, s, i + n, i + n, Quote::Outside, 0);
                lemma_substitution_in_piece(m, s, i + n, i + n, Quote::Outside, 0, k);
                let j = choose|j: int|
                    0 <= j < rest.len() && crate::text::occurs((#[trigger] rest[j]).text, pat);
                assert(p[j + 1] == rest[j]);
            }
        } else {
            lemma_substitution_in_piece(
                m,
                s,
                start,
                i + 1,
                quote_after(s, i, q),
                depth_after(s, i, q, depth),
                k,
            );
        }
    }
}

/// Where the first operator from `i` on stands, or the end of the command.
pub open spec fn first_end(m: Backslash, s: Seq<char>, i: int, q: Quote, depth: nat) -> int
    decreases s.len() - i,
{
    if i >= s.len() {
        s.len() as int
    } else if operator_len(m, s, i, q, depth) > 0 {
        i
    } else {
        first_end(m, s, i + 1, quote_after(s, i, q), depth_after(s, i, q, depth))
    }
}

/// The first piece ends at the first operator; there is none where nothing is
/// left.
pub proof fn lemma_first_piece(m: Backslash, s: Seq<char>, start: int, i: int, q: Quote, depth: nat)
    requires
        0 <= start <= i <= s.len(),
    ensures
        i <= first_end(m, s, i, q, depth) <= s.len(),
        pieces_from(m, s, start, i, q, depth).len() == 0 <==> start == s.len(),
        start < s.len() ==> pieces_from(m, s, start, i, q, depth)[0].text == s.subrange(
            start,
            first_end(m, s, i, q, depth),
        ),
    decreases s.len() - i,
{
    if i < s.len() && operator_len(m, s, i, q, depth) == 0 {
        lemma_first_piece(m, s, start, i + 1, quote_after(s, i, q), depth_after(s, i, q, depth));
    }
}

proof fn lemma_first_end_behind(
    m: Backslash,
    p: Seq<char>,
    c: Seq<char>,
    i: int,
    q: Quote,
    depth: nat,
)
    requires
        0 <= i <= c.len(),
    ensures
        first_end(m, p + c, p.len() + i, q, depth) == p.len() + first_end(m, c, i, q, depth),
    decreases c.len() - i,
{
    let s = p + c;
    let k = p.len() + i;
    if i < c.len() {
        assert(s[k] == c[i]);
        if i + 1 < c.len() {
            assert(s[k + 1] == c[i + 1]);
        }
        assert(operator_len(m, s, k, q, depth) == operator_len(m, c, i, q, depth));
        if operator_len(m, c, i, q, depth) == 0 {
            lemma_first_end_behind(
                m,
                p,
                c,
                i + 1,
                quote_after(c, i, q),
                depth_after(c, i, q, depth),
            );
        }
    }
}

/// Whether a character is neither a quote, a parenthesis nor part of an operator.
pub open spec fn is_plain(c: char) -> bool {
    c != '\'' && c != '"' && c != '(' && c != ')' && c != ';' && c != '&' && c != '|'
}

proof fn lemma_first_end_past(m: Backslash, p: Seq<char>, c: Seq<char>, i: int, q: Quote)
    requires
        0 <= i < p.len(),
        q == Quote::Outside || q == Quote::Escaped,
        forall|j: int| 0 <= j < p.len() ==> is_plain(#[trigger] p[j]),
        p.last() == ' ',
    ensures
        first_end(m, p + c, i, q, 0) == first_end(m, p + c, p.len() as int, Quote::Outside, 0),
    decreases p.len() - i,
{
    let s = p + c;
    assert(s[i] == p[i]);
    assert(is_plain(p[i]));
    if i + 1 < p.len() {
        lemma_first_end_past(m, p, c, i + 1, quote_after(s, i, q));
    } else {
        assert(s[i] == ' ');
    }
}

/// Plain characters and a blank ahead of a command are part of its first piece.
pub proof fn lemma_plain_prefix(m: Backslash, p: Seq<char>, c: Seq<char>)
    requires
        p.len() > 0,
        forall|j: int| 0 <= j < p.len() ==> is_plain(#[trigger] p[j]),
        p.last() == ' ',
    ensures
        0 <= first_end(m, c, 0, Quote::Outside, 0) <= c.len(),
        command_pieces(m, p + c).len() > 0,
        command_pieces(m, p + c)[0].text == p + c.take(first_end(m, c, 0, Quote::Outside, 0)),
        command_pieces(m, c).len() == 0 <==> c.len() == 0,
        c.len() > 0 ==> command_pieces(m, c)[0].text == c.take(
            first_end(m, c, 0, Quote::Outside, 0),
        ),
{
    let e = first_end(m, c, 0, Quote::Outside, 0);
    lemma_first_piece(m, c, 0, 0, Quote::Outside, 0);
    lemma_first_piece(m, p + c, 0, 0, Quote::Outside, 0);
    lemma_first_end_past(m, p, c, 0, Quote::Outside);
    lemma_first_end_behind(m, p, c, 0, Quote::Outside, 0);
    assert((p + c).subrange(0, p.len() + e) =~= p + c.take(e));
    assert(c.subrange(0, e) =~= c.take(e));
}

// ---------------------------------------------------------------- stretches without operators
/// The quotation after the characters from `a` to `b`, where `q` is that before
/// them.
pub open spec fn quote_over(s: Seq<char>, a: int, b: int, q: Quote) -> Quote
    decreases b - a,
{
    if a >= b {
        q
    } else {
        quote_over(s, a + 1, b, quote_after(s, a, q))
    }
}

/// The number of open parentheses after the characters from `a` to `b`.
pub open spec fn depth_over(s: Seq<char>, a: int, b: int, q: Quote, depth: nat) -> nat
    decreases b - a,
{
    if a >= b {
        depth
    } else {
        depth_over(s, a + 1, b, quote_after(s, a, q), depth_after(s, a, q, depth))
    }
}

/// Whether no operator stands from `a` to `b`.
pub open spec fn is_calm(m: Backslash, s: Seq<char>, a: int, b: int, q: Quote, depth: nat) -> bool
    decreases b - a,
{
    a >= b || (operator_len(m, s, a, q, depth) == 0 && is_calm(
        m,
        s,
        a + 1,
        b,
        quote_after(s, a, q),
        depth_after(s, a, q, depth),
    ))
}

/// A text is a closed segment where it holds no operator and leaves no quotation
/// and no parenthesis open.
pub open spec fn is_closed(m: Backslash, t: Seq<char>) -> bool {
    &&& is_calm(m, t, 0, t.len() as int, Quote::Outside, 0)
    &&& quote_over(t, 0, t.len() as int, Quote::Outside) == Quote::Outside
    &&& depth_over(t, 0, t.len() as int, Quote::Outside, 0) == 0
}

/// Two stretches in a row are scanned one after the other.
pub proof fn lemma_over_split(
    m: Backslash,
    s: Seq<char>,
    a: int,
    b: int,
    c: int,
    q: Quote,
    depth: nat,
)
    requires
        a <= b <= c,
    ensures
        quote_over(s, a, c, q) == quote_over(s, b, c, quote_over(s, a, b, q)),
        depth_over(s, a, c, q, depth) == depth_over(
            s,
            b,
            c,
            quote_over(s, a, b, q),
            depth_over(s, a, b, q, depth),
        ),
        is_calm(m, s, a, c, q, depth) <==> is_calm(m, s, a, b, q, depth) && is_calm(
            m,
            s,
            b,
            c,
            quote_over(s, a, b, q),
            depth_over(s, a, b, q, depth),
        ),
    decreases b - a,
{
    if a < b {
        lemma_over_split(
            m,
            s,
            a + 1,
            b,
            c,
            quote_after(s, a, q),
            depth_after(s, a, q, depth),
        );
    }
}

/// A stretch is scanned alike wherever it stands; an operator in it would be one
/// where it stands too, and the other way round where no `&` follows.
pub proof fn lemma_over_moved(
    m: Backslash,
    s: Seq<char>,
    t: Seq<char>,
    a: int,
    k: int,
    q: Quote,
    depth: nat,
)
    requires
        0 <= a,
        0 <= k <= t.len(),
        a + t.len() <= s.len(),
        s.subrange(a, a + t.len()) == t,
    ensures
        quote_over(s, a + k, a + t.len(), q) == quote_over(t, k, t.len() as int, q),
        depth_over(s, a + k, a + t.len(), q, depth) == depth_over(t, k, t.len() as int, q, depth),
        is_calm(m, s, a + k, a + t.len(), q, depth) ==> is_calm(m, t, k, t.len() as int, q, depth),
        is_calm(m, t, k, t.len() as int, q, depth) && (a + t.len() < s.len() ==> s[a
            + t.len() as int] != '&') ==> is_calm(m, s, a + k, a + t.len(), q, depth),
    decreases t.len() - k,
{
    if k < t.len() {
        assert(s[a + k] == s.subrange(a, a + t.len())[k]);
        if k + 1 < t.len() {
            assert(s[a + k + 1] == s.subrange(a, a + t.len())[k + 1]);
        }
        lemma_over_moved(m, s, t, a, k + 1, quote_after(t, k, q), depth_after(t, k, q, depth));
    }
}

/// Scanning passes over a stretch without operators.
pub proof fn lemma_pieces_past(
    m: Backslash,
    s: Seq<char>,
    start: int,
    a: int,
    b: int,
    q: Quote,
    depth: nat,
)
    requires
        a <= b <= s.len(),
        is_calm(m, s, a, b, q, depth),
    ensures
        pieces_from(m, s, start, a, q, depth) == pieces_from(
            m,
            s,
            start,
            b,
            quote_over(s, a, b, q),
            depth_over(s, a, b, q, depth),
        ),
    decreases b - a,
{
    if a < b {
        lemma_pieces_past(
            m,
            s,
            start,
            a + 1,
            b,
            quote_after(s, a, q),
            depth_after(s, a, q, depth),
        );
    }
}

/// Whether a text is an operator.
pub open spec fn is_operator(op: Seq<char>) -> bool {
    op == seq![';'] || op == seq!['&', '&'] || op == seq!['|', '|'] || op == seq!['|']
}

/// Whether a piece is what cutting gives: its text holds no operator, and where an
/// operator follows, the text ends where one may cut.
pub open spec fn is_cut_piece(m: Backslash, p: Piece) -> bool {
    let n = p.text.len() as int;
    &&& is_calm(m, p.text, 0, n, Quote::Outside, 0)
    &&& p.op.len() > 0 ==> is_operator(p.op) && may_cut(
        m,
        quote_over(p.text, 0, n, Quote::Outside),
    ) && depth_over(p.text, 0, n, Quote::Outside, 0) == 0
}

/// Whether the pieces are what cutting gives: an operator follows each of them but
/// the last.
pub open spec fn are_cut_pieces(m: Backslash, p: Seq<Piece>) -> bool {
    &&& forall|j: int| #![trigger p[j]] 0 <= j < p.len() ==> is_cut_piece(m, p[j])
    &&& forall|j: int| #![trigger p[j]] 0 <= j < p.len() - 1 ==> p[j].op.len() > 0
}

proof fn lemma_cut_pieces(m: Backslash, s: Seq<char>, start: int, i: int, q: Quote, depth: nat)
    requires
        0 <= start <= i <= s.len(),
        is_calm(m, s, start, i, Quote::Outside, 0),
        q == quote_over(s, start, i, Quote::Outside),
        depth == depth_over(s, start, i, Quote::Outside, 0),
    ensures
        are_cut_pieces(m, pieces_from(m, s, start, i, q, depth)),
    decreases s.len() - i,
{
    let p = pieces_from(m, s, start, i, q, depth);
    let t = s.subrange(start, i);
    lemma_over_moved(m, s, t, start, 0, Quote::Outside, 0);
    if i < s.len() {
        let n = operator_len(m, s, i, q, depth) as int;
        if n > 0 {
            let rest = pieces_from(m, s, i + n, i + n, Quote::Outside, 0);
            lemma_cut_pieces(m, s, i + n, i + n, Quote::Outside, 0);
            let op = s.subrange(i, i + n);
            if s[i] == ';' {
                assert(op =~= seq![';']);
            } else if s[i] == '&' {
                assert(op =~= seq!['&', '&']);
            } else if n == 2 {
                assert(op =~= seq!['|', '|']);
            } else {
                assert(op =~= seq!['|']);
            }
            assert(p == seq![Piece { text: t, op }] + rest);
            assert(is_cut_piece(m, p[0]));
            assert forall|j: int| #![trigger p[j]] 0 <= j < p.len() implies is_cut_piece(
                m,
                p[j],
            ) by {
                if j > 0 {
                    assert(p[j] == rest[j - 1]);
                }
            }
            assert forall|j: int| #![trigger p[j]] 0 <= j < p.len() - 1 implies p[j].op.len()
                > 0 by {
                if j > 0 {
                    assert(p[j] == rest[j - 1]);
                }
            }
        } else {
            lemma_over_split(m, s, start, i, i + 1, Quote::Outside, 0);
            assert(quote_over(s, i, i + 1, q) == quote_after(s, i, q)) by {
                reveal_with_fuel(quote_over, 2);
            }
            assert(depth_over(s, i, i + 1, q, depth) == depth_after(s, i, q, depth)) by {
                reveal_with_fuel(depth_over, 2);
            }
            assert(is_calm(m, s, i, i + 1, q, depth)) by {
                reveal_with_fuel(is_calm, 2);
            }
            lemma_cut_pieces(m, s, start, i + 1, quote_after(s, i, q), depth_after(s, i, q, depth));
        }
    } else if start < s.len() {
        assert(s.subrange(start, s.len() as int) == t);
    }
}

/// No piece of a command holds an operator, and every piece but for the last ends
/// outside quotes and parentheses and has an operator behind it.
pub proof fn law_pieces_are_closed(m: Backslash, s: Seq<char>)
    ensures
        are_cut_pieces(m, command_pieces(m, s)),
{
    lemma_cut_pieces(m, s, 0, 0, Quote::Outside, 0);
}

/// Blanks open nothing and close only an escape.
proof fn lemma_blanks(m: Backslash, s: Seq<char>, a: int, b: int, q: Quote, depth: nat)
    requires
        0 <= a <= b <= s.len(),
        forall|i: int| a <= i < b ==> crate::text::is_space(#[trigger] s[i]),
    ensures
        is_calm(m, s, a, b, q, depth),
        depth_over(s, a, b, q, depth) == depth,
        quote_over(s, a, b, q) == (if a == b {
            q
        } else if q == Quote::Escaped {
            Quote::Outside
        } else if q == Quote::DoubleEscaped {
            Quote::Double
        } else {
            q
        }),
    decreases b - a,
{
    if a < b {
        assert(crate::text::is_space(s[a]));
        lemma_blanks(m, s, a + 1, b, quote_after(s, a, q), depth_after(s, a, q, depth));
    }
}

/// A text between blanks: what holds of a piece holds of its trimmed text with a
/// blank on either side.
pub proof fn lemma_trimmed_piece(m: Backslash, t: Seq<char>)
    requires
        is_calm(m, t, 0, t.len() as int, Quote::Outside, 0),
    ensures
        is_calm(
            m,
            crate::text::trim(t),
            0,
            crate::text::trim(t).len() as int,
            Quote::Outside,
            0,
        ),
        is_closed(m, t) ==> is_closed(m, crate::text::trim(t) + seq![' ']),
{
    let sp = crate::text::spaces();
    crate::text::lemma_run_len(t, sp);
    crate::text::lemma_tail_len(t, sp);
    let n = t.len() as int;
    let a = crate::text::run_len(t, sp) as int;
    let b = n - crate::text::tail_len(t, sp);
    let u = crate::text::trim(t);
    let v = u + seq![' '];
    let z = u.len() as int;
    assert forall|i: int| 0 <= i < a implies crate::text::is_space(#[trigger] t[i]) by {
        assert(sp(t[i]));
    }
    assert forall|i: int| b <= i < n implies crate::text::is_space(#[trigger] t[i]) by {
        assert(sp(t[i]));
    }
    if a == n {
        crate::text::lemma_trim_blank(t);
        lemma_blanks(m, v, 0, 1, Quote::Outside, 0);
    } else {
        assert(!sp(t[a]));
        if b <= a {
            assert(sp(t[a]));
        }
        assert(!sp(t[b - 1]));
        crate::text::lemma_trim_is(t, a, b);
        lemma_blanks(m, t, 0, a, Quote::Outside, 0);
        lemma_over_split(m, t, 0, a, n, Quote::Outside, 0);
        lemma_over_split(m, t, a, b, n, Quote::Outside, 0);
        lemma_over_moved(m, t, u, a, 0, Quote::Outside, 0);
        let q = quote_over(t, a, b, Quote::Outside);
        let d = depth_over(t, a, b, Quote::Outside, 0);
        lemma_blanks(m, t, b, n, q, d);
        lemma_over_split(m, v, 0, z, z + 1, Quote::Outside, 0);
        assert(v.subrange(0, z) =~= u);
        lemma_over_moved(m, v, u, 0, 0, Quote::Outside, 0);
        lemma_blanks(m, v, z, z + 1, q, d);
    }
}

/// A blank is a closed text, and so is none.
pub proof fn lemma_blank_closed(m: Backslash)
    ensures
        is_closed(m, seq![' ']),
        is_closed(m, Seq::<char>::empty()),
{
    lemma_blanks(m, seq![' '], 0, 1, Quote::Outside, 0);
}

/// What follows a closed text is scanned as if it stood alone.
pub proof fn lemma_closed_ahead(m: Backslash, a: Seq<char>, b: Seq<char>)
    requires
        is_closed(m, a),
        b.len() == 0 || b[0] != '&',
    ensures
        is_calm(m, a + b, 0, (a + b).len() as int, Quote::Outside, 0) <==> is_calm(
            m,
            b,
            0,
            b.len() as int,
            Quote::Outside,
            0,
        ),
        is_closed(m, a + b) <==> is_closed(m, b),
{
    let s = a + b;
    let n = a.len() as int;
    assert(s.subrange(0, n) =~= a);
    assert(s.subrange(n, n + b.len()) =~= b);
    lemma_over_moved(m, s, a, 0, 0, Quote::Outside, 0);
    lemma_over_moved(m, s, b, n, 0, Quote::Outside, 0);
    lemma_over_split(m, s, 0, n, s.len() as int, Quote::Outside, 0);
}

/// Plain characters other than a backslash open and close nothing.
pub proof fn lemma_plain_stretch(m: Backslash, s: Seq<char>, a: int, b: int, depth: nat)
    requires
        0 <= a <= b <= s.len(),
        forall|i: int| a <= i < b ==> is_plain(#[trigger] s[i]) && s[i] != '\\',
    ensures
        is_calm(m, s, a, b, Quote::Outside, depth),
        quote_over(s, a, b, Quote::Outside) == Quote::Outside,
        depth_over(s, a, b, Quote::Outside, depth) == depth,
    decreases b - a,
{
    if a < b {
        assert(is_plain(s[a]));
        lemma_plain_stretch(m, s, a + 1, b, depth);
    }
}

/// A closed stretch and an operator behind it are the next piece.
pub proof fn lemma_next_piece(m: Backslash, s: Seq<char>, a: int, t: Seq<char>, op: Seq<char>)
    requires
        0 <= a,
        a + t.len() + op.len() <= s.len(),
        s.subrange(a, a + t.len()) == t,
        s.subrange(a + t.len(), a + t.len() + op.len()) == op,
        is_closed(m, t),
        is_operator(op),
        op[0] == '&' ==> t.len() == 0 || t.last() != '&',
        a + t.len() + op.len() < s.len() ==> s[a + t.len() + op.len()] == ' ',
    ensures
        pieces_from(m, s, a, a, Quote::Outside, 0) == seq![Piece { text: t, op }] + pieces_from(
            m,
            s,
            a + t.len() + op.len(),
            a + t.len() + op.len(),
            Quote::Outside,
            0,
        ),
{
    let b = a + t.len();
    let n = op.len() as int;
    assert(s[b] == s.subrange(b, b + n)[0]);
    if n == 2 {
        assert(s[b + 1] == s.subrange(b, b + n)[1]);
    }
    lemma_over_moved(m, s, t, a, 0, Quote::Outside, 0);
    if s[b] == '&' {
        lemma_calm_ahead_of(m, s, a, t, 0, Quote::Outside, 0);
    }
    lemma_pieces_past(m, s, a, a, b, Quote::Outside, 0);
    assert(operator_len(m, s, b, Quote::Outside, 0) == n);
}

proof fn lemma_calm_ahead_of(
    m: Backslash,
    s: Seq<char>,
    a: int,
    t: Seq<char>,
    k: int,
    q: Quote,
    depth: nat,
)
    requires
        0 <= a,
        0 <= k <= t.len(),
        a + t.len() <= s.len(),
        s.subrange(a, a + t.len()) == t,
        is_calm(m, t, k, t.len() as int, q, depth),
        t.len() == 0 || t.last() != '&',
    ensures
        is_calm(m, s, a + k, a + t.len(), q, depth),
    decreases t.len() - k,
{
    if k < t.len() {
        assert(s[a + k] == s.subrange(a, a + t.len())[k]);
        if k + 1 < t.len() {
            assert(s[a + k + 1] == s.subrange(a, a + t.len())[k + 1]);
        }
        lemma_calm_ahead_of(m, s, a, t, k + 1, quote_after(t, k, q), depth_after(t, k, q, depth));
    }
}

/// A stretch without operators up to the end is the last piece.
pub proof fn lemma_last_piece(m: Backslash, s: Seq<char>, a: int)
    requires
        0 <= a <= s.len(),
        is_calm(m, s.skip(a), 0, s.len() - a, Quote::Outside, 0),
    ensures
        pieces_from(m, s, a, a, Quote::Outside, 0) == (if a < s.len() {
            seq![Piece { text: s.skip(a), op: Seq::<char>::empty() }]
        } else {
            Seq::<Piece>::empty()
        }),
{
    let t = s.skip(a);
    assert(s.subrange(a, a + t.len()) =~= t);
    lemma_over_moved(m, s, t, a, 0, Quote::Outside, 0);
    lemma_pieces_past(m, s, a, a, s.len() as int, Quote::Outside, 0);
    assert(s.subrange(a, s.len() as int) =~= t);
}

// ---------------------------------------------------------------- laws of cutting
/// What stands behind the front of a command is cut as if it stood alone.
proof fn lemma_pieces_moved(
    m: Backslash,
    p: Seq<char>,
    c: Seq<char>,
    start: int,
    i: int,
    q: Quote,
    depth: nat,
)
    requires
        0 <= start <= i <= c.len(),
    ensures
        pieces_from(m, p + c, p.len() + start, p.len() + i, q, depth) == pieces_from(
            m,
            c,
            start,
            i,
            q,
            depth,
        ),
    decreases c.len() - i,
{
    let s = p + c;
    let k = p.len() + i;
    if i >= c.len() {
        assert(s.subrange(p.len() + start, s.len() as int) =~= c.subrange(start, c.len() as int));
    } else {
        assert(s[k] == c[i]);
        if i + 1 < c.len() {
            assert(s[k + 1] == c[i + 1]);
        }
        let n = operator_len(m, c, i, q, depth) as int;
        assert(operator_len(m, s, k, q, depth) == n);
        if n > 0 {
            assert(s.subrange(p.len() + start, k) =~= c.subrange(start, i));
            assert(s.subrange(k, k + n) =~= c.subrange(i, i + n));
            lemma_pieces_moved(m, p, c, i + n, i + n, Quote::Outside, 0);
        } else {
            lemma_pieces_moved(
                m,
                p,
                c,
                start,
                i + 1,
                quote_after(c, i, q),
                depth_after(c, i, q, depth),
            );
        }
    }
}

/// Whether a text holds no quote, parenthesis, backslash or character of an operator.
pub open spec fn is_simple(s: Seq<char>) -> bool {
    forall|i: int|
        0 <= i < s.len() ==> {
            let c = #[trigger] s[i];
            c != '\'' && c != '"' && c != '(' && c != ')' && c != '\\' && c != ';' && c != '&' && c
                != '|'
        }
}

/// Whether a text is one in which no operator cuts: text between single quotes, text
/// without a backslash between double quotes, text without quotes, backslashes and
/// parentheses between parentheses, or a character behind a backslash, unless it is of
/// an operator and the backslash does not shield it.
pub open spec fn is_shielded(m: Backslash, u: Seq<char>) -> bool {
    let w = u.subrange(1, u.len() - 1);
    &&& u.len() >= 2
    &&& {
        ||| u[0] == '\'' && u.last() == '\'' && !w.contains('\'')
        ||| u[0] == '"' && u.last() == '"' && !w.contains('"') && !w.contains('\\')
        ||| u[0] == '(' && u.last() == ')' && !w.contains('(') && !w.contains(')') && !w.contains(
            '\'',
        ) && !w.contains('"') && !w.contains('\\')
        ||| u[0] == '\\' && u.len() == 2 && (m == Backslash::Shields || (u[1] != ';' && u[1] != '&'
            && u[1] != '|'))
    }
}

/// The inside of a stretch in which nothing ends it.
proof fn lemma_inside(m: Backslash, s: Seq<char>, a: int, b: int, q: Quote, depth: nat)
    requires
        0 <= a <= b <= s.len(),
        q == Quote::Single || q == Quote::Double || (q == Quote::Outside && depth > 0),
        forall|i: int|
            #![trigger s[i]]
            a <= i < b ==> {
                &&& q == Quote::Single ==> s[i] != '\''
                &&& q == Quote::Double ==> s[i] != '"' && s[i] != '\\'
                &&& q == Quote::Outside ==> s[i] != '(' && s[i] != ')' && s[i] != '\'' && s[i]
                    != '"' && s[i] != '\\'
            },
    ensures
        is_calm(m, s, a, b, q, depth),
        quote_over(s, a, b, q) == q,
        depth_over(s, a, b, q, depth) == depth,
    decreases b - a,
{
    if a < b {
        assert(s[a] == s[a]);
        lemma_inside(m, s, a + 1, b, q, depth);
    }
}

proof fn lemma_shielded_is_closed(m: Backslash, u: Seq<char>)
    requires
        is_shielded(m, u),
    ensures
        is_closed(m, u),
{
    let w = u.subrange(1, u.len() - 1);
    let n = u.len() as int;
    assert forall|i: int| 1 <= i < n - 1 implies w.contains(#[trigger] u[i]) by {
        assert(w[i - 1] == u[i]);
    }
    reveal_with_fuel(is_calm, 3);
    reveal_with_fuel(quote_over, 3);
    reveal_with_fuel(depth_over, 3);
    if u[0] == '\\' {
        assert(u.len() == 2);
    } else {
        let q = quote_after(u, 0, Quote::Outside);
        let d = depth_after(u, 0, Quote::Outside, 0);
        lemma_inside(m, u, 1, n - 1, q, d);
        lemma_over_split(m, u, 1, n - 1, n, q, d);
        lemma_over_split(m, u, 0, 1, n, Quote::Outside, 0);
    }
}

proof fn lemma_simple_is_closed(m: Backslash, a: Seq<char>)
    requires
        is_simple(a),
    ensures
        is_closed(m, a),
{
    assert forall|i: int| 0 <= i < a.len() implies is_plain(#[trigger] a[i]) && a[i] != '\\' by {}
    lemma_plain_stretch(m, a, 0, a.len() as int, 0);
}

proof fn lemma_stretch_is_closed(m: Backslash, a: Seq<char>, u: Seq<char>, b: Seq<char>)
    requires
        is_simple(a),
        u.len() == 0 || is_shielded(m, u),
        is_simple(b),
    ensures
        is_closed(m, a + u + b),
{
    lemma_simple_is_closed(m, a);
    lemma_simple_is_closed(m, b);
    let v = u + b;
    assert(a + v =~= a + u + b);
    if u.len() > 0 {
        lemma_shielded_is_closed(m, u);
        assert(b.len() > 0 ==> b[0] != '&');
        lemma_closed_ahead(m, u, b);
        assert(v[0] == u[0]);
        lemma_closed_ahead(m, a, v);
    } else {
        assert(v =~= b);
        assert(b.len() > 0 ==> b[0] != '&');
        lemma_closed_ahead(m, a, b);
    }
}

/// Where a command is cut: at the first operator that stands outside quotes and
/// parentheses. What stands ahead of it is one piece, and what stands behind it is cut
/// as if it stood alone. A command without such an operator is one piece.
pub proof fn law_cuts(
    m: Backslash,
    a: Seq<char>,
    u: Seq<char>,
    b: Seq<char>,
    op: Seq<char>,
    rest: Seq<char>,
)
    requires
        is_simple(a),
        u.len() == 0 || is_shielded(m, u),
        is_simple(b),
        b.len() > 0 || u.len() == 0 || u.last() != '&',
    ensures
        op == seq![';'] || op == seq!['&', '&'] || op == seq!['|', '|'] || (op == seq!['|'] && (
        rest.len() == 0 || rest[0] != '|')) ==> command_pieces(m, a + u + b + op + rest) == seq![
            Piece { text: a + u + b, op },
        ] + command_pieces(m, rest),
        (a + u + b).len() > 0 ==> command_pieces(m, a + u + b) == seq![
            Piece { text: a + u + b, op: seq![] },
        ],
        command_pieces(m, Seq::<char>::empty()).len() == 0,
{
    let t = a + u + b;
    lemma_stretch_is_closed(m, a, u, b);
    assert(t.skip(0) =~= t);
    lemma_last_piece(m, t, 0);
    if t.len() > 0 && t.last() == '&' {
        if b.len() > 0 {
            assert(t.last() == b[b.len() - 1]);
        } else if u.len() > 0 {
            assert(t.last() == u.last());
        } else {
            assert(t.last() == a[a.len() - 1]);
        }
    }
    if op == seq![';'] || op == seq!['&', '&'] || op == seq!['|', '|'] || (op == seq!['|'] && (
    rest.len() == 0 || rest[0] != '|')) {
        law_cut_behind_closed(m, t, op, rest);
    }
}

/// A backslash that does not shield an operator changes nothing about where it cuts.
pub proof fn law_backslash_ignored(a: Seq<char>, op: Seq<char>, rest: Seq<char>)
    requires
        is_simple(a),
        op == seq![';'] || op == seq!['&', '&'] || op == seq!['|', '|'] || (op == seq!['|'] && (
        rest.len() == 0 || rest[0] != '|')),
    ensures
        command_pieces(Backslash::Ignored, a + seq!['\\'] + op + rest) == seq![
            Piece { text: a + seq!['\\'], op },
        ] + command_pieces(Backslash::Ignored, rest),
{
    let m = Backslash::Ignored;
    let t = a + seq!['\\'];
    let s = t + op + rest;
    let k = t.len() as int;
    let n = op.len() as int;
    lemma_simple_is_closed(m, a);
    assert(s.subrange(0, k - 1) =~= a);
    lemma_over_moved(m, s, a, 0, 0, Quote::Outside, 0);
    assert(s[k - 1] == '\\');
    lemma_pieces_past(m, s, 0, 0, k - 1, Quote::Outside, 0);
    assert(pieces_from(m, s, 0, k - 1, Quote::Outside, 0) == pieces_from(
        m,
        s,
        0,
        k,
        Quote::Escaped,
        0,
    ));
    assert(s.subrange(0, k) =~= t);
    assert(s.subrange(k, k + n) =~= op);
    assert(s[k] == op[0]);
    if n == 2 {
        assert(s[k + 1] == op[1]);
    } else if rest.len() > 0 {
        assert(s[k + 1] == rest[0]);
    }
    assert(operator_len(m, s, k, Quote::Escaped, 0) == n);
    let p = t + op;
    assert(p + rest =~= s);
    lemma_pieces_moved(m, p, rest, 0, 0, Quote::Outside, 0);
}

proof fn lemma_quote_is_over(s: Seq<char>, a: int, b: int)
    requires
        0 <= a <= b,
    ensures
        quote_at(s, b) == quote_over(s, a, b, quote_at(s, a)),
    decreases b - a,
{
    if a < b {
        lemma_quote_is_over(s, a + 1, b);
        assert(quote_at(s, a + 1) == quote_after(s, a, quote_at(s, a)));
    }
}

/// A text without quotes and backslashes has nothing quoted or escaped: no blank of it
/// is lost where its words are set apart by one space, and a parenthesis opens a
/// subshell at its start and behind a blank, an operator, an open parenthesis or a
/// redirection, and nowhere else.
pub proof fn law_unquoted(s: Seq<char>)
    requires
        !s.contains('\''),
        !s.contains('"'),
        !s.contains('\\'),
    ensures
        !loses_blanks(s),
        opens_subshell(s) <==> exists|i: int|
            0 <= i < s.len() && #[trigger] s[i] == '(' && (i == 0 || crate::text::is_space(s[i - 1])
                || s[i - 1] == ';' || s[i - 1] == '&' || s[i - 1] == '|' || s[i - 1] == '(' || s[i
                - 1] == '<' || s[i - 1] == '>'),
{
    assert forall|i: int| 0 <= i <= s.len() implies #[trigger] quote_at(s, i)
        == Quote::Outside by {
        lemma_unquoted(s, i);
    }
    if opens_subshell(s) {
        let i = choose|i: int| 0 <= i < s.len() && #[trigger] subshell_at(s, i);
        assert(s[i] == '(');
    }
    if exists|i: int|
        0 <= i < s.len() && #[trigger] s[i] == '(' && (i == 0 || crate::text::is_space(s[i - 1])
            || s[i - 1] == ';' || s[i - 1] == '&' || s[i - 1] == '|' || s[i - 1] == '(' || s[i - 1]
            == '<' || s[i - 1] == '>') {
        let i = choose|i: int|
            0 <= i < s.len() && #[trigger] s[i] == '(' && (i == 0 || crate::text::is_space(s[i - 1])
                || s[i - 1] == ';' || s[i - 1] == '&' || s[i - 1] == '|' || s[i - 1] == '(' || s[i
                - 1] == '<' || s[i - 1] == '>');
        assert(quote_at(s, i) == Quote::Outside);
        assert(subshell_at(s, i));
    }
}

proof fn lemma_unquoted(s: Seq<char>, i: int)
    requires
        !s.contains('\''),
        !s.contains('"'),
        !s.contains('\\'),
        0 <= i <= s.len(),
    ensures
        quote_at(s, i) == Quote::Outside,
    decreases i,
{
    if i > 0 {
        lemma_unquoted(s, i - 1);
        assert(s.contains(s[i - 1]));
    }
}

/// A blank between quotes is lost exactly where it is no space or does not stand alone.
pub proof fn law_quoted_blanks(a: Seq<char>, w: Seq<char>, b: Seq<char>, quote: char)
    requires
        is_simple(a),
        is_simple(b),
        quote == '\'' || quote == '"',
        !w.contains(quote),
        quote == '"' ==> !w.contains('\\'),
    ensures
        loses_blanks(a + seq![quote] + w + seq![quote] + b) <==> exists|i: int|
            0 <= i < w.len() && crate::text::is_space(#[trigger] w[i]) && (w[i] != ' ' || (i + 1
                < w.len() && crate::text::is_space(w[i + 1])) || (i > 0 && crate::text::is_space(
                w[i - 1],
            ))),
{
    let s = a + seq![quote] + w + seq![quote] + b;
    let n = a.len() as int;
    let e = n + 1 + w.len();
    let m = Backslash::Shields;
    let q = if quote == '\'' {
        Quote::Single
    } else {
        Quote::Double
    };
    assert forall|i: int| 0 <= i < n implies s[i] == a[i] by {}
    assert(s[n] == quote && s[e] == quote);
    assert forall|i: int| n < i < e implies #[trigger] s[i] == w[i - n - 1] by {}
    assert forall|i: int| e < i < s.len() implies #[trigger] s[i] == b[i - e - 1] by {}
    assert forall|i: int| 0 <= i < s.len() implies quote_at(s, i) == (if n < i <= e {
        q
    } else {
        Quote::Outside
    }) by {
        if i <= n {
            assert forall|j: int| 0 <= j < i implies is_plain(#[trigger] s[j]) && s[j] != '\\' by {
                assert(s[j] == a[j]);
            }
            lemma_plain_stretch(m, s, 0, i, 0);
            lemma_quote_is_over(s, 0, i);
        } else {
            assert forall|j: int| 0 <= j < n implies is_plain(#[trigger] s[j]) && s[j] != '\\' by {
                assert(s[j] == a[j]);
            }
            lemma_plain_stretch(m, s, 0, n, 0);
            lemma_quote_is_over(s, 0, n);
            assert(quote_at(s, n + 1) == q);
            let x = if i <= e {
                i
            } else {
                e
            };
            assert forall|j: int| #![trigger s[j]] n + 1 <= j < x implies {
                &&& q == Quote::Single ==> s[j] != '\''
                &&& q == Quote::Double ==> s[j] != '"' && s[j] != '\\'
            } by {
                assert(w.contains(w[j - n - 1]));
            }
            lemma_inside(m, s, n + 1, x, q, 0);
            lemma_quote_is_over(s, n + 1, x);
            if i > e {
                assert(quote_at(s, e + 1) == Quote::Outside);
                assert forall|j: int| e + 1 <= j < i implies is_plain(#[trigger] s[j]) && s[j]
                    != '\\' by {
                    assert(s[j] == b[j - e - 1]);
                }
                lemma_plain_stretch(m, s, e + 1, i, 0);
                lemma_quote_is_over(s, e + 1, i);
            }
        }
    }
    if loses_blanks(s) {
        let i = choose|i: int| 0 <= i < s.len() && #[trigger] blank_lost(s, i);
        assert(n < i <= e);
        assert(i < e);
        let k = i - n - 1;
        assert(s[i] == w[k]);
        if k > 0 {
            assert(s[i - 1] == w[k - 1]);
        } else {
            assert(s[i - 1] == quote);
        }
        if k + 1 < w.len() {
            assert(s[i + 1] == w[k + 1]);
        } else {
            assert(s[i + 1] == quote);
        }
        assert(crate::text::is_space(w[k]));
    }
    if exists|i: int|
        0 <= i < w.len() && crate::text::is_space(#[trigger] w[i]) && (w[i] != ' ' || (i + 1
            < w.len() && crate::text::is_space(w[i + 1])) || (i > 0 && crate::text::is_space(
            w[i - 1],
        ))) {
        let i = choose|i: int|
            0 <= i < w.len() && crate::text::is_space(#[trigger] w[i]) && (w[i] != ' ' || (i + 1
                < w.len() && crate::text::is_space(w[i + 1])) || (i > 0 && crate::text::is_space(
                w[i - 1],
            )));
        let k = i + n + 1;
        assert(s[k] == w[i]);
        if i > 0 {
            assert(s[k - 1] == w[i - 1]);
        }
        if i + 1 < w.len() {
            assert(s[k + 1] == w[i + 1]);
        }
        assert(quote_at(s, k) == q);
        assert(blank_lost(s, k));
    }
}

/// How a quotation opens and closes: outside, `'` and `"` open one, and a backslash takes
/// the next character with it; in single quotes only `'` counts, in double quotes `"` and
/// the backslash. Parentheses count outside quotations alone, and none closes that is not
/// open.
pub proof fn law_quotation(s: Seq<char>, i: int, depth: nat)
    ensures
        ({
            let c = s[i];
            &&& quote_after(s, i, Quote::Outside) == Quote::Single <==> c == '\''
            &&& quote_after(s, i, Quote::Outside) == Quote::Double <==> c == '"'
            &&& quote_after(s, i, Quote::Outside) == Quote::Escaped <==> c == '\\'
            &&& quote_after(s, i, Quote::Outside) == Quote::Outside <==> c != '\'' && c != '"' && c
                != '\\'
            &&& quote_after(s, i, Quote::Escaped) == Quote::Outside
            &&& quote_after(s, i, Quote::Single) == Quote::Outside <==> c == '\''
            &&& quote_after(s, i, Quote::Single) == Quote::Single <==> c != '\''
            &&& quote_after(s, i, Quote::Double) == Quote::Outside <==> c == '"'
            &&& quote_after(s, i, Quote::Double) == Quote::DoubleEscaped <==> c == '\\'
            &&& quote_after(s, i, Quote::Double) == Quote::Double <==> c != '"' && c != '\\'
            &&& quote_after(s, i, Quote::DoubleEscaped) == Quote::Double
            &&& c == '(' ==> depth_after(s, i, Quote::Outside, depth) == depth + 1
            &&& c == ')' && depth > 0 ==> depth_after(s, i, Quote::Outside, depth) == depth - 1
            &&& c == ')' ==> depth_after(s, i, Quote::Outside, 0) == 0
            &&& c != '(' && c != ')' ==> depth_after(s, i, Quote::Outside, depth) == depth
            &&& depth_after(s, i, Quote::Escaped, depth) == depth
            &&& depth_after(s, i, Quote::Single, depth) == depth
            &&& depth_after(s, i, Quote::Double, depth) == depth
            &&& depth_after(s, i, Quote::DoubleEscaped, depth) == depth
        }),
{
}

/// Where an operator cuts and how long it is: `;` and `|` are one character, `&&` and `||`
/// two, a single `&` is none; none cuts within quotes or parentheses, and behind a
/// backslash one cuts where that does not shield it.
pub proof fn law_operators(m: Backslash, s: Seq<char>, i: int, q: Quote, depth: nat)
    requires
        0 <= i < s.len(),
    ensures
        ({
            let n = operator_len(m, s, i, q, depth);
            let open = depth == 0 && (q == Quote::Outside || (q == Quote::Escaped && m
                == Backslash::Ignored));
            let twice = i + 1 < s.len() && s[i + 1] == s[i];
            &&& !open ==> n == 0
            &&& open && s[i] == ';' ==> n == 1
            &&& open && s[i] == '|' && !twice ==> n == 1
            &&& open && s[i] == '|' && twice ==> n == 2
            &&& open && s[i] == '&' && twice ==> n == 2
            &&& s[i] == '&' && !twice ==> n == 0
            &&& s[i] != ';' && s[i] != '|' && s[i] != '&' ==> n == 0
        }),
{
}

/// The quotation that a character stands in is that of the one ahead of it, and what that
/// one does to it; the first stands outside.
pub proof fn law_quote_at(s: Seq<char>, i: int)
    requires
        0 <= i,
    ensures
        quote_at(s, 0) == Quote::Outside,
        quote_at(s, i + 1) == quote_after(s, i, quote_at(s, i)),
{
}

/// Which parenthesis opens a subshell, and which blank is lost, by the quotation that it
/// stands in: a parenthesis outside quotations, at the start or behind a blank, an
/// operator, an open parenthesis or a redirection; a blank within one that is no space or
/// stands beside another, or at the end.
pub proof fn law_subshells_and_blanks(s: Seq<char>)
    ensures
        opens_subshell(s) <==> exists|i: int|
            0 <= i < s.len() && #[trigger] s[i] == '(' && quote_at(s, i) == Quote::Outside && (i == 0
                || crate::text::is_space(s[i - 1]) || s[i - 1] == ';' || s[i - 1] == '&' || s[i - 1]
                == '|' || s[i - 1] == '(' || s[i - 1] == '<' || s[i - 1] == '>'),
        loses_blanks(s) <==> exists|i: int|
            0 <= i < s.len() && crate::text::is_space(#[trigger] s[i]) && quote_at(s, i)
                != Quote::Outside && (s[i] != ' ' || i + 1 == s.len() || crate::text::is_space(
                s[i + 1],
            ) || i == 0 || crate::text::is_space(s[i - 1])),
{
    if opens_subshell(s) {
        let i = choose|i: int| 0 <= i < s.len() && #[trigger] subshell_at(s, i);
        assert(s[i] == '(');
    }
    if exists|i: int|
        0 <= i < s.len() && #[trigger] s[i] == '(' && quote_at(s, i) == Quote::Outside && (i == 0
            || crate::text::is_space(s[i - 1]) || s[i - 1] == ';' || s[i - 1] == '&' || s[i - 1]
            == '|' || s[i - 1] == '(' || s[i - 1] == '<' || s[i - 1] == '>') {
        let i = choose|i: int|
            0 <= i < s.len() && #[trigger] s[i] == '(' && quote_at(s, i) == Quote::Outside && (i == 0
                || crate::text::is_space(s[i - 1]) || s[i - 1] == ';' || s[i - 1] == '&' || s[i - 1]
                == '|' || s[i - 1] == '(' || s[i - 1] == '<' || s[i - 1] == '>');
        assert(subshell_at(s, i));
    }
    if loses_blanks(s) {
        let i = choose|i: int| 0 <= i < s.len() && #[trigger] blank_lost(s, i);
        assert(crate::text::is_space(s[i]));
    }
    if exists|i: int|
        0 <= i < s.len() && crate::text::is_space(#[trigger] s[i]) && quote_at(s, i)
            != Quote::Outside && (s[i] != ' ' || i + 1 == s.len() || crate::text::is_space(
            s[i + 1],
        ) || i == 0 || crate::text::is_space(s[i - 1])) {
        let i = choose|i: int|
            0 <= i < s.len() && crate::text::is_space(#[trigger] s[i]) && quote_at(s, i)
                != Quote::Outside && (s[i] != ' ' || i + 1 == s.len() || crate::text::is_space(
                s[i + 1],
            ) || i == 0 || crate::text::is_space(s[i - 1]));
        assert(blank_lost(s, i));
    }
}

/// Cutting at any operator: what stands ahead of it is one piece where none cuts in it and
/// it leaves no quotation and no parenthesis open, and what stands behind is cut as if it
/// stood alone.
pub proof fn law_cut_behind_closed(m: Backslash, t: Seq<char>, op: Seq<char>, rest: Seq<char>)
    requires
        is_closed(m, t),
        t.len() == 0 || t.last() != '&',
        op == seq![';'] || op == seq!['&', '&'] || op == seq!['|', '|'] || (op == seq!['|'] && (
        rest.len() == 0 || rest[0] != '|')),
    ensures
        command_pieces(m, t + op + rest) == seq![Piece { text: t, op }] + command_pieces(m, rest),
{
    let s = t + op + rest;
    let k = t.len() as int;
    let n = op.len() as int;
    assert(s.subrange(0, k) =~= t);
    assert(s.subrange(k, k + n) =~= op);
    assert(s[k] == op[0]);
    if n == 2 {
        assert(s[k + 1] == op[1]);
    } else if rest.len() > 0 {
        assert(s[k + 1] == rest[0]);
    }
    lemma_over_moved(m, s, t, 0, 0, Quote::Outside, 0);
    if s[k] == '&' {
        lemma_calm_ahead_of(m, s, 0, t, 0, Quote::Outside, 0);
    }
    lemma_pieces_past(m, s, 0, 0, k, Quote::Outside, 0);
    assert(operator_len(m, s, k, Quote::Outside, 0) == n);
    let p = t + op;
    assert(p + rest =~= s);
    lemma_pieces_moved(m, p, rest, 0, 0, Quote::Outside, 0);
}

} // verus!
