//! The parts of `/`-separated paths.
use vstd::prelude::*;
use vstd::slice::slice_subrange;

use crate::text;

verus! {

/// Whether a piece between separators names something: `.` and nothing do not.
pub open spec fn is_component(piece: Seq<char>) -> bool {
    piece.len() > 0 && piece != "."@
}

/// The pieces that name something.
pub open spec fn named_pieces(pieces: Seq<Seq<char>>) -> Seq<Seq<char>>
    decreases pieces.len(),
{
    if pieces.len() == 0 {
        seq![]
    } else if is_component(pieces.last()) {
        named_pieces(pieces.drop_last()).push(pieces.last())
    } else {
        named_pieces(pieces.drop_last())
    }
}

/// The components of a path, without `.`.
pub open spec fn components(path: Seq<char>) -> Seq<Seq<char>> {
    named_pieces(text::split_on(path, '/'))
}

/// The `n`-th component from the end, unless it is `..`.
pub open spec fn name_from_end(path: Seq<char>, n: int) -> Option<Seq<char>> {
    let c = components(path);
    if n < c.len() && c[c.len() - 1 - n] != ".."@ {
        Some(c[c.len() - 1 - n])
    } else {
        None
    }
}

/// The last component of a path, unless it is `..`.
pub open spec fn file_name(path: Seq<char>) -> Option<Seq<char>> {
    name_from_end(path, 0)
}

/// The name of the directory that holds the last component.
pub open spec fn parent_name(path: Seq<char>) -> Option<Seq<char>> {
    name_from_end(path, 1)
}

/// The length of a file name up to its extension's dot: that of the whole name
/// where it has no dot but possibly a leading one.
pub open spec fn stem_len(name: Seq<char>) -> nat {
    let behind = text::tail_len(name, text::other_than('.'));
    if behind + 1 < name.len() {
        (name.len() - behind - 1) as nat
    } else {
        name.len()
    }
}

/// The file name of a path without its extension.
pub open spec fn file_stem(path: Seq<char>) -> Option<Seq<char>> {
    match file_name(path) {
        Some(name) => Some(name.take(stem_len(name) as int)),
        None => None,
    }
}

/// What follows the last dot of the file name.
pub open spec fn extension(path: Seq<char>) -> Option<Seq<char>> {
    match file_name(path) {
        Some(name) => if stem_len(name) < name.len() {
            Some(name.skip(stem_len(name) as int + 1))
        } else {
            None
        },
        None => None,
    }
}

fn name_at<'a>(path: &'a [char], n: usize) -> (r: Option<&'a [char]>)
    ensures
        text::opt_view(r) == name_from_end(path@, n as int),
{
    let parts = text::pieces(path, '/');
    let ghost all = text::views(parts@);
    let mut named: Vec<&'a [char]> = Vec::new();
    let mut i: usize = 0;
    proof {
        assert(text::views(named@) =~= named_pieces(all.take(0)));
    }
    while i < parts.len()
        invariant
            i <= parts.len(),
            all == text::views(parts@),
            text::views(named@) == named_pieces(all.take(i as int)),
        decreases parts.len() - i,
    {
        let part = parts[i];
        proof {
            assert(all.take(i + 1).drop_last() =~= all.take(i as int));
            assert(all.take(i + 1).last() == part@);
            text::lemma_views_push(named@, part);
        }
        if part.len() > 0 && !text::spells(part, ".") {
            named.push(part);
        }
        i += 1;
    }
    proof {
        assert(all.take(i as int) =~= all);
    }
    if n >= named.len() {
        return None;
    }
    let name = named[named.len() - 1 - n];
    proof {
        assert(text::views(named@)[named@.len() - 1 - n] == name@);
    }
    if text::spells(name, "..") {
        None
    } else {
        Some(name)
    }
}

fn stem_of(name: &[char]) -> (n: usize)
    ensures
        n == stem_len(name@),
        n <= name@.len(),
{
    let mut k: usize = name.len();
    while k > 0 && name[k - 1] != '.'
        invariant
            k <= name.len(),
            forall|j: int| k <= j < name.len() ==> #[trigger] name@[j] != '.',
        decreases k,
    {
        k -= 1;
    }
    proof {
        text::lemma_tail_len_is(name@, text::other_than('.'), name@.len() - k);
    }
    if k > 1 {
        k - 1
    } else {
        name.len()
    }
}

/// The last component of a path, unless it is `..`.
pub fn file_name_of<'a>(path: &'a [char]) -> (r: Option<&'a [char]>)
    ensures
        text::opt_view(r) == file_name(path@),
{
    name_at(path, 0)
}

/// The name of the directory that holds the last component.
pub fn parent_name_of<'a>(path: &'a [char]) -> (r: Option<&'a [char]>)
    ensures
        text::opt_view(r) == parent_name(path@),
{
    name_at(path, 1)
}

/// The file name of a path without its extension.
pub fn file_stem_of<'a>(path: &'a [char]) -> (r: Option<&'a [char]>)
    ensures
        text::opt_view(r) == file_stem(path@),
{
    match name_at(path, 0) {
        Some(name) => {
            let n = stem_of(name);
            Some(slice_subrange(name, 0, n))
        },
        None => None,
    }
}

/// What follows the last dot of the file name.
pub fn extension_of<'a>(path: &'a [char]) -> (r: Option<&'a [char]>)
    ensures
        text::opt_view(r) == extension(path@),
{
    match name_at(path, 0) {
        Some(name) => {
            let n = stem_of(name);
            if n < name.len() {
                let ext = slice_subrange(name, n + 1, name.len());
                proof {
                    assert(ext@ =~= name@.skip(n + 1));
                }
                Some(ext)
            } else {
                None
            }
        },
        None => None,
    }
}

// ---------------------------------------------------------------- laws
proof fn lemma_split_sum(a: Seq<char>, b: Seq<char>)
    ensures
        text::split_on(a + seq!['/'] + b, '/') == text::split_on(a, '/') + text::split_on(b, '/'),
    decreases a.len(),
{
    let f = text::other_than('/');
    text::lemma_run_len(a, f);
    let n = text::run_len(a, f) as int;
    if n >= a.len() {
        assert forall|i: int| 0 <= i < a.len() implies a[i] != '/' by {
            assert(f(a[i]));
        }
        text::law_split_on(a, '/', b);
    } else {
        let head = a.take(n);
        let rest = a.skip(n + 1);
        assert(a[n] == '/');
        assert forall|i: int| 0 <= i < head.len() implies head[i] != '/' by {
            assert(f(a[i]));
        }
        lemma_split_sum(rest, b);
        text::law_split_on(head, '/', rest);
        text::law_split_on(head, '/', rest + seq!['/'] + b);
        assert(head + seq!['/'] + rest =~= a);
        assert(head + seq!['/'] + (rest + seq!['/'] + b) =~= a + seq!['/'] + b);
        assert(seq![head] + (text::split_on(rest, '/') + text::split_on(b, '/')) =~= (seq![head]
            + text::split_on(rest, '/')) + text::split_on(b, '/'));
    }
}

proof fn lemma_named_sum(a: Seq<Seq<char>>, b: Seq<Seq<char>>)
    ensures
        named_pieces(a + b) == named_pieces(a) + named_pieces(b),
    decreases b.len(),
{
    if b.len() == 0 {
        assert(a + b =~= a);
        assert(named_pieces(a) + named_pieces(b) =~= named_pieces(a));
    } else {
        lemma_named_sum(a, b.drop_last());
        assert((a + b).drop_last() =~= a + b.drop_last());
        assert(named_pieces(a + b) =~= named_pieces(a) + named_pieces(b));
    }
}

/// The components of a name without a separator: the name itself, unless it is empty
/// or `.`; and those of a path are the ones of its parts around a separator.
proof fn lemma_components(dir: Seq<char>, name: Seq<char>)
    requires
        !name.contains('/'),
    ensures
        components(dir + seq!['/'] + name) == components(dir) + components(name),
        components(name) == (if name.len() == 0 || name == "."@ {
            Seq::<Seq<char>>::empty()
        } else {
            seq![name]
        }),
{
    lemma_split_sum(dir, name);
    lemma_named_sum(text::split_on(dir, '/'), text::split_on(name, '/'));
    text::law_split_on(name, '/', name);
    assert(seq![name].drop_last() =~= Seq::<Seq<char>>::empty());
    assert(named_pieces(seq![name].drop_last()) =~= Seq::<Seq<char>>::empty());
    if is_component(name) {
        assert(named_pieces(seq![name]) =~= seq![name]);
    }
}

/// The file name of a path is what stands behind its last separator, and its parent is
/// the file name of what stands ahead; a separator or `/.` at the end makes no
/// difference, and `..` is no name.
pub proof fn law_file_name(dir: Seq<char>, name: Seq<char>)
    requires
        !name.contains('/'),
        name.len() > 0,
        name != "."@,
    ensures
        name != ".."@ ==> file_name(dir + seq!['/'] + name) == Some(name),
        name != ".."@ ==> file_name(name) == Some(name),
        name == ".."@ ==> file_name(dir + seq!['/'] + name) is None,
        parent_name(dir + seq!['/'] + name) == file_name(dir),
        parent_name(name) is None,
        file_name(dir + seq!['/']) == file_name(dir),
        file_name(dir + seq!['/', '.']) == file_name(dir),
        parent_name(dir + seq!['/']) == parent_name(dir),
        file_name(Seq::<char>::empty()) is None,
{
    reveal_strlit(".");
    let none = Seq::<char>::empty();
    let dot = seq!['.'];
    lemma_components(dir, name);
    lemma_components(dir, none);
    lemma_components(dir, dot);
    assert("."@ =~= dot);
    assert(dir + seq!['/'] + none =~= dir + seq!['/']);
    assert(dir + seq!['/'] + dot =~= dir + seq!['/', '.']);
    assert(components(dir) + components(none) =~= components(dir));
    assert(components(dir) + components(dot) =~= components(dir));
    let c = components(dir) + seq![name];
    assert(c[c.len() - 1] == name);
    if components(dir).len() > 0 {
        assert(c[c.len() - 2] == components(dir).last());
    }
}

/// The extension of a file name is what stands behind its last dot, and its stem what
/// stands ahead; a name without a dot behind its first character has none.
pub proof fn law_extension(path: Seq<char>, stem: Seq<char>, ext: Seq<char>)
    requires
        !ext.contains('.'),
    ensures
        stem.len() > 0 && file_name(path) == Some(stem + seq!['.'] + ext) ==> extension(path)
            == Some(ext) && file_stem(path) == Some(stem),
        file_name(path) == Some(ext) ==> extension(path) is None && file_stem(path) == Some(ext),
        file_name(path) == Some(seq!['.'] + ext) ==> extension(path) is None && file_stem(path)
            == file_name(path),
        file_name(path) is None ==> extension(path) is None && file_stem(path) is None,
{
    let f = text::other_than('.');
    let n = ext.len() as int;
    let name = stem + seq!['.'] + ext;
    let hidden = seq!['.'] + ext;
    assert forall|i: int| 0 <= i < n implies f(#[trigger] ext[i]) by {
        assert(ext.contains(ext[i]));
    }
    assert forall|i: int| name.len() - n <= i < name.len() implies f(#[trigger] name[i]) by {
        assert(name[i] == ext[i - stem.len() - 1]);
    }
    assert forall|i: int| hidden.len() - n <= i < hidden.len() implies f(#[trigger] hidden[i]) by {
        assert(hidden[i] == ext[i - 1]);
    }
    assert(name[stem.len() as int] == '.');
    text::lemma_tail_len_is(ext, f, n);
    text::lemma_tail_len_is(name, f, n);
    text::lemma_tail_len_is(hidden, f, n);
    assert(name.take(stem.len() as int) =~= stem);
    assert(name.skip(stem.len() as int + 1) =~= ext);
    assert(ext.take(n) =~= ext);
    assert(hidden.take(hidden.len() as int) =~= hidden);
}

} // verus!
