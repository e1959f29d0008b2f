//! Stable sorting of values by an order of their own.
use vstd::prelude::*;

use crate::text;

verus! {

// ---------------------------------------------------------------- orders
/// Whether `before` is a strict weak order: nothing stands before itself, and
/// both the order and what it leaves undecided are transitive.
pub open spec fn is_order<M>(before: spec_fn(M, M) -> bool) -> bool {
    &&& forall|a: M| !#[trigger] before(a, a)
    &&& forall|a: M, b: M, c: M|
        #![trigger before(a, b), before(b, c)]
        before(a, b) && before(b, c) ==> before(a, c)
    &&& forall|a: M, b: M, c: M|
        #![trigger before(a, b), before(b, c)]
        !before(a, b) && !before(b, c) ==> !before(a, c)
}

/// Values with an order.
pub trait Ordered: View + Sized {
    /// The order.
    spec fn order() -> spec_fn(Self::V, Self::V) -> bool;

    /// It is one.
    proof fn order_laws()
        ensures
            is_order(Self::order()),
    ;

    /// Whether `self` stands strictly before `other`.
    fn comes_before(&self, other: &Self) -> (r: bool)
        ensures
            r == Self::order()(self@, other@),
    ;
}

/// Whether nothing in `s` belongs before what stands ahead of it.
pub open spec fn is_sorted<M>(s: Seq<M>, before: spec_fn(M, M) -> bool) -> bool {
    forall|i: int, j: int|
        #![trigger s[i], s[j]]
        0 <= i < j < s.len() ==> !before(s[j], s[i])
}

/// Where `x` goes in a sorted sequence: behind what it does not stand before.
pub open spec fn slot<M>(s: Seq<M>, x: M, before: spec_fn(M, M) -> bool) -> nat
    decreases s.len(),
{
    if s.len() == 0 {
        0
    } else if before(x, s.last()) {
        slot(s.drop_last(), x, before)
    } else {
        s.len()
    }
}

/// A sorted sequence with one more value.
pub open spec fn inserted<M>(s: Seq<M>, x: M, before: spec_fn(M, M) -> bool) -> Seq<M> {
    s.insert(slot(s, x, before) as int, x)
}

/// The values in order; those that the order leaves undecided stay as they
/// stood.
pub open spec fn sorted<M>(s: Seq<M>, before: spec_fn(M, M) -> bool) -> Seq<M>
    decreases s.len(),
{
    if s.len() == 0 {
        seq![]
    } else {
        inserted(sorted(s.drop_last(), before), s.last(), before)
    }
}

/// The slot of a value: it stands before all that is behind the slot and
/// nothing that is ahead of it.
pub proof fn lemma_slot<M>(s: Seq<M>, x: M, before: spec_fn(M, M) -> bool)
    requires
        is_order(before),
        is_sorted(s, before),
    ensures
        slot(s, x, before) <= s.len(),
        forall|i: int|
            #![trigger s[i]]
            0 <= i < slot(s, x, before) ==> !before(x, s[i]),
        forall|i: int|
            #![trigger s[i]]
            slot(s, x, before) <= i < s.len() ==> before(x, s[i]),
    decreases s.len(),
{
    if s.len() > 0 {
        let t = s.drop_last();
        lemma_slot(t, x, before);
        if before(x, s.last()) {
            assert forall|i: int|
                #![trigger s[i]]
                0 <= i < slot(s, x, before) implies !before(x, s[i]) by {
                assert(s[i] == t[i]);
            }
            assert forall|i: int|
                #![trigger s[i]]
                slot(s, x, before) <= i < s.len() implies before(x, s[i]) by {
                if i < t.len() {
                    assert(s[i] == t[i]);
                }
            }
        } else {
            assert forall|i: int| #![trigger s[i]] 0 <= i < s.len() implies !before(x, s[i]) by {
                if i < s.len() - 1 {
                    assert(!before(s[s.len() - 1], s[i]));
                }
            }
        }
    }
}

/// The slot is the one place with nothing behind `x` ahead of it and nothing
/// else behind it.
pub proof fn lemma_slot_is<M>(s: Seq<M>, x: M, before: spec_fn(M, M) -> bool, n: int)
    requires
        is_order(before),
        is_sorted(s, before),
        0 <= n <= s.len(),
        forall|i: int| #![trigger s[i]] 0 <= i < n ==> !before(x, s[i]),
        forall|i: int| #![trigger s[i]] n <= i < s.len() ==> before(x, s[i]),
    ensures
        slot(s, x, before) == n,
{
    lemma_slot(s, x, before);
    let k = slot(s, x, before) as int;
    if k < n {
        assert(before(x, s[k]));
    }
    if n < k {
        assert(before(x, s[n]));
    }
}

/// Inserting keeps a sequence sorted, and adds just the one value.
pub proof fn lemma_inserted<M>(s: Seq<M>, x: M, before: spec_fn(M, M) -> bool)
    requires
        is_order(before),
        is_sorted(s, before),
    ensures
        is_sorted(inserted(s, x, before), before),
        inserted(s, x, before).len() == s.len() + 1,
        inserted(s, x, before).to_multiset() == s.to_multiset().insert(x),
{
    lemma_slot(s, x, before);
    let k = slot(s, x, before) as int;
    let t = inserted(s, x, before);
    s.to_multiset_ensures();
    assert(t.to_multiset() =~= s.to_multiset().insert(x)) by {
        let a = s.take(k);
        let b = s.skip(k);
        assert(s =~= a + b);
        assert(t =~= a + (seq![x] + b));
        vstd::seq_lib::lemma_multiset_commutative(a, b);
        vstd::seq_lib::lemma_multiset_commutative(a, seq![x] + b);
        vstd::seq_lib::lemma_multiset_commutative(seq![x], b);
        assert(seq![x] =~= Seq::<M>::empty().push(x));
        Seq::<M>::empty().to_multiset_ensures();
        assert(Seq::<M>::empty().to_multiset() =~= vstd::multiset::Multiset::<M>::empty());
    }
    assert forall|i: int, j: int|
        #![trigger t[i], t[j]]
        0 <= i < j < t.len() implies !before(t[j], t[i]) by {
        if i == k {
            assert(t[j] == s[j - 1]);
            assert(before(x, s[j - 1]));
            assert(!before(x, x));
        } else if j == k {
            assert(t[i] == s[i]);
        } else {
            let a = if i < k {
                i
            } else {
                i - 1
            };
            let b = if j < k {
                j
            } else {
                j - 1
            };
            assert(t[i] == s[a]);
            assert(t[j] == s[b]);
        }
    }
}

/// Sorting gives a sorted sequence of the same values.
pub proof fn law_sorted<M>(s: Seq<M>, before: spec_fn(M, M) -> bool)
    requires
        is_order(before),
    ensures
        is_sorted(sorted(s, before), before),
        sorted(s, before).len() == s.len(),
        sorted(s, before).to_multiset() == s.to_multiset(),
    decreases s.len(),
{
    if s.len() > 0 {
        let t = s.drop_last();
        law_sorted(t, before);
        lemma_inserted(sorted(t, before), s.last(), before);
        t.to_multiset_ensures();
        assert(s =~= t.push(s.last()));
    } else {
        assert(s =~= Seq::<M>::empty());
    }
}

/// Sorting a sorted sequence changes nothing: what the order leaves undecided
/// stays as it stood.
pub proof fn law_sorting_is_stable<M>(s: Seq<M>, before: spec_fn(M, M) -> bool)
    requires
        is_order(before),
        is_sorted(s, before),
    ensures
        sorted(s, before) == s,
    decreases s.len(),
{
    if s.len() > 0 {
        let t = s.drop_last();
        assert(is_sorted(t, before));
        law_sorting_is_stable(t, before);
        let x = s.last();
        assert forall|i: int| #![trigger t[i]] 0 <= i < t.len() implies !before(x, t[i]) by {
            assert(!before(s[s.len() - 1], s[i]));
        }
        lemma_slot_is(t, x, before, t.len() as int);
        assert(inserted(t, x, before) =~= s);
    } else {
        assert(s =~= sorted(s, before));
    }
}

/// The first of a sorted sequence with one more value depend on the first of
/// the sequence alone.
pub proof fn lemma_first_inserted<M>(s: Seq<M>, x: M, before: spec_fn(M, M) -> bool, n: int)
    requires
        is_order(before),
        is_sorted(s, before),
        0 <= n <= s.len(),
    ensures
        is_sorted(s.take(n), before),
        inserted(s, x, before).take(n) == inserted(s.take(n), x, before).take(n),
{
    let t = s.take(n);
    assert(is_sorted(t, before));
    lemma_slot(s, x, before);
    lemma_slot(t, x, before);
    let k = slot(s, x, before) as int;
    if k <= n {
        assert forall|i: int| #![trigger t[i]] 0 <= i < k implies !before(x, t[i]) by {
            assert(t[i] == s[i]);
        }
        assert forall|i: int| #![trigger t[i]] k <= i < t.len() implies before(x, t[i]) by {
            assert(t[i] == s[i]);
        }
        lemma_slot_is(t, x, before, k);
        assert(inserted(s, x, before).take(n) =~= inserted(t, x, before).take(n));
    } else {
        assert forall|i: int| #![trigger t[i]] 0 <= i < n implies !before(x, t[i]) by {
            assert(t[i] == s[i]);
        }
        lemma_slot_is(t, x, before, n);
        assert(inserted(s, x, before).take(n) =~= inserted(t, x, before).take(n));
    }
}

proof fn lemma_views_insert<T: View>(s: Seq<T>, k: int, x: T)
    requires
        0 <= k <= s.len(),
    ensures
        text::views(s.insert(k, x)) == text::views(s).insert(k, x@),
{
    assert(text::views(s.insert(k, x)) =~= text::views(s).insert(k, x@));
}

/// Inserts a value into a sorted list.
pub fn insert_sorted<T: Ordered>(list: &mut Vec<T>, x: T)
    requires
        is_sorted(text::views(old(list)@), T::order()),
    ensures
        text::views(final(list)@) == inserted(text::views(old(list)@), x@, T::order()),
        is_sorted(text::views(final(list)@), T::order()),
{
    let ghost s = text::views(list@);
    let ghost k = slot(s, x@, T::order()) as int;
    proof {
        T::order_laws();
        lemma_slot(s, x@, T::order());
        lemma_inserted(s, x@, T::order());
    }
    let ghost kept = list@;
    let mut low: usize = 0;
    let mut high: usize = list.len();
    while low < high
        invariant
            list@ == kept,
            s == text::views(kept),
            low <= k <= high <= s.len(),
            forall|i: int| #![trigger s[i]] 0 <= i < k ==> !T::order()(x@, s[i]),
            forall|i: int| #![trigger s[i]] k <= i < s.len() ==> T::order()(x@, s[i]),
        decreases high - low,
    {
        let middle: usize = low + (high - low) / 2;
        proof {
            assert(s[middle as int] == list@[middle as int]@);
        }
        if x.comes_before(&list[middle]) {
            high = middle;
        } else {
            low = middle + 1;
        }
    }
    proof {
        lemma_views_insert(kept, k, x);
    }
    list.insert(low, x);
}

/// The values in order; those that the order leaves undecided stay as they
/// stood.
pub fn sort<T: Ordered>(mut list: Vec<T>) -> (r: Vec<T>)
    ensures
        text::views(r@) == sorted(text::views(list@), T::order()),
{
    let ghost all = list@;
    let mut taken: Vec<T> = Vec::new();
    while list.len() > 0
        invariant
            list@ + taken@.reverse() =~= all,
        decreases list.len(),
    {
        let ghost ahead = list@;
        let ghost done = taken@;
        match list.pop() {
            Some(x) => {
                taken.push(x);
                proof {
                    assert(ahead =~= list@.push(x));
                    assert(taken@.reverse() =~= seq![x] + done.reverse());
                }
            },
            None => {},
        }
    }
    proof {
        assert(taken@.reverse() =~= all);
    }
    let ghost models = text::views(all);
    let mut out: Vec<T> = Vec::new();
    let ghost mut n: int = 0;
    proof {
        assert(text::views(out@) =~= sorted(models.take(0), T::order()));
    }
    while taken.len() > 0
        invariant
            0 <= n <= all.len(),
            models == text::views(all),
            taken@ == all.skip(n).reverse(),
            text::views(out@) == sorted(models.take(n), T::order()),
            is_sorted(text::views(out@), T::order()),
        decreases taken.len(),
    {
        match taken.pop() {
            Some(x) => {
                proof {
                    assert(x == all.skip(n)[0]);
                    assert(models.take(n + 1).drop_last() =~= models.take(n));
                    assert(models.take(n + 1).last() == x@);
                    assert(taken@ =~= all.skip(n + 1).reverse());
                }
                insert_sorted(&mut out, x);
                proof {
                    n = n + 1;
                }
            },
            None => {},
        }
    }
    proof {
        assert(all.skip(n).reverse().len() == all.len() - n);
        assert(models.take(n) =~= models);
    }
    out
}

// ---------------------------------------------------------------- texts
/// Whether one text stands before another in the order of their characters,
/// which is the order of their UTF-8 bytes too.
pub open spec fn text_precedes(a: Seq<char>, b: Seq<char>) -> bool
    decreases a.len(),
{
    if b.len() == 0 {
        false
    } else if a.len() == 0 {
        true
    } else if a[0] == b[0] {
        text_precedes(a.skip(1), b.skip(1))
    } else {
        a[0] < b[0]
    }
}

proof fn lemma_text_irreflexive(a: Seq<char>)
    ensures
        !text_precedes(a, a),
    decreases a.len(),
{
    if a.len() > 0 {
        lemma_text_irreflexive(a.skip(1));
    }
}

/// The order of texts is total.
pub proof fn lemma_text_order(a: Seq<char>, b: Seq<char>, c: Seq<char>)
    ensures
        !text_precedes(a, a),
        text_precedes(a, b) && text_precedes(b, c) ==> text_precedes(a, c),
        !text_precedes(a, b) && !text_precedes(b, a) ==> a == b,
        !text_precedes(a, b) && !text_precedes(b, c) ==> !text_precedes(a, c),
    decreases a.len(),
{
    lemma_text_irreflexive(a);
    if a.len() == 0 {
        if b.len() == 0 {
            assert(a =~= b);
        }
    } else if b.len() > 0 {
        let a1 = a.skip(1);
        let b1 = b.skip(1);
        lemma_text_order(a1, b1, if c.len() == 0 {
            c
        } else {
            c.skip(1)
        });
        if a[0] == b[0] && a1 == b1 {
            assert(a =~= seq![a[0]] + a1);
            assert(b =~= seq![b[0]] + b1);
        }
    }
}

/// Whether one text stands before another.
pub fn text_before(a: &str, b: &str) -> (r: bool)
    ensures
        r == text_precedes(a@, b@),
{
    let left = text::chars_of(a);
    let right = text::chars_of(b);
    let mut i: usize = 0;
    proof {
        assert(left@.skip(0) =~= left@);
        assert(right@.skip(0) =~= right@);
    }
    while i < left.len() && i < right.len() && left[i] == right[i]
        invariant
            i <= left.len(),
            i <= right.len(),
            text_precedes(left@, right@) == text_precedes(left@.skip(i as int), right@.skip(i as int)),
        decreases left.len() - i,
    {
        proof {
            assert(left@.skip(i as int).skip(1) =~= left@.skip(i + 1));
            assert(right@.skip(i as int).skip(1) =~= right@.skip(i + 1));
        }
        i += 1;
    }
    if i < right.len() {
        if i < left.len() {
            left[i] < right[i]
        } else {
            true
        }
    } else {
        false
    }
}

/// The order of texts.
pub open spec fn text_order() -> spec_fn(Seq<char>, Seq<char>) -> bool {
    |a: Seq<char>, b: Seq<char>| text_precedes(a, b)
}

pub proof fn lemma_text_order_is_order()
    ensures
        is_order(text_order()),
{
    assert forall|a: Seq<char>| !#[trigger] text_order()(a, a) by {
        lemma_text_irreflexive(a);
    }
    assert forall|a: Seq<char>, b: Seq<char>, c: Seq<char>|
        #![trigger text_order()(a, b), text_order()(b, c)]
        text_order()(a, b) && text_order()(b, c) implies text_order()(a, c) by {
        lemma_text_order(a, b, c);
    }
    assert forall|a: Seq<char>, b: Seq<char>, c: Seq<char>|
        #![trigger text_order()(a, b), text_order()(b, c)]
        !text_order()(a, b) && !text_order()(b, c) implies !text_order()(a, c) by {
        lemma_text_order(a, b, c);
    }
}

impl Ordered for String {
    open spec fn order() -> spec_fn(Seq<char>, Seq<char>) -> bool {
        text_order()
    }

    proof fn order_laws() {
        lemma_text_order_is_order();
    }

    fn comes_before(&self, other: &String) -> (r: bool) {
        text_before(self.as_str(), other.as_str())
    }
}

/// The same texts in any order sort to one sequence.
pub proof fn law_texts_sort_alike(a: Seq<Seq<char>>, b: Seq<Seq<char>>)
    requires
        a.to_multiset() == b.to_multiset(),
    ensures
        sorted(a, text_order()) == sorted(b, text_order()),
{
    let leq = |x: Seq<char>, y: Seq<char>| !text_precedes(y, x);
    let s = sorted(a, text_order());
    let t = sorted(b, text_order());
    lemma_text_order_is_order();
    law_sorted(a, text_order());
    law_sorted(b, text_order());
    assert forall|x: Seq<char>, y: Seq<char>| #[trigger] leq(x, y) && #[trigger] leq(y, x) implies x
        == y by {
        lemma_text_order(x, y, x);
    }
    assert forall|x: Seq<char>, y: Seq<char>, z: Seq<char>| #[trigger]
        leq(x, y) && #[trigger] leq(y, z) implies leq(x, z) by {
        lemma_text_order(z, y, x);
    }
    assert forall|x: Seq<char>, y: Seq<char>| #[trigger] leq(x, y) || leq(y, x) by {
        lemma_text_order(x, y, x);
    }
    assert forall|x: Seq<char>| #[trigger] leq(x, x) by {
        lemma_text_order(x, x, x);
    }
    vstd::seq_lib::lemma_sorted_unique(s, t, leq);
}

/// The texts without those that equal the one before them.
pub open spec fn deduplicated(s: Seq<Seq<char>>) -> Seq<Seq<char>>
    decreases s.len(),
{
    if s.len() == 0 {
        seq![]
    } else {
        let before = deduplicated(s.drop_last());
        if s.len() > 1 && s.last() == s[s.len() - 2] {
            before
        } else {
            before.push(s.last())
        }
    }
}

/// Whether each text stands strictly before the next.
pub open spec fn is_ascending(s: Seq<Seq<char>>) -> bool {
    forall|i: int, j: int| 0 <= i < j < s.len() ==> text_precedes(#[trigger] s[i], #[trigger] s[j])
}

/// Leaving out repetitions in a sorted sequence gives each of its texts once, in
/// ascending order.
pub proof fn lemma_deduplicated(v: Seq<Seq<char>>)
    requires
        is_sorted(v, text_order()),
    ensures
        is_ascending(deduplicated(v)),
        forall|x: Seq<char>| deduplicated(v).contains(x) <==> v.contains(x),
        v.len() > 0 ==> deduplicated(v).len() > 0 && deduplicated(v).last() == v.last(),
        deduplicated(v).len() <= v.len(),
    decreases v.len(),
{
    if v.len() > 0 {
        let u = v.drop_last();
        assert(is_sorted(u, text_order()));
        lemma_deduplicated(u);
        let ahead = deduplicated(u);
        let d = deduplicated(v);
        let last = v.last();
        if d != ahead {
            assert(d == ahead.push(last));
            assert forall|i: int| 0 <= i < ahead.len() implies text_precedes(
                #[trigger] ahead[i],
                last,
            ) by {
                assert(u.len() > 0) by {
                    assert(ahead.contains(ahead[i]));
                    assert(u.contains(ahead[i]));
                }
                let m = u.last();
                assert(!text_order()(v[v.len() - 1], v[v.len() - 2]));
                lemma_text_order(m, last, m);
                assert(text_precedes(m, last));
                if i < ahead.len() - 1 {
                    assert(text_precedes(ahead[i], ahead[ahead.len() - 1]));
                    lemma_text_order(ahead[i], m, last);
                }
            }
            assert forall|i: int, j: int| 0 <= i < j < d.len() implies text_precedes(
                #[trigger] d[i],
                #[trigger] d[j],
            ) by {
                if j < ahead.len() {
                    assert(text_precedes(ahead[i], ahead[j]));
                } else {
                    assert(text_precedes(ahead[i], last));
                }
            }
        }
        assert forall|x: Seq<char>| d.contains(x) <==> v.contains(x) by {
            if v.contains(x) {
                let i = choose|i: int| 0 <= i < v.len() && v[i] == x;
                if i < u.len() {
                    assert(u[i] == x);
                    assert(u.contains(x));
                    assert(ahead.contains(x));
                    let k = choose|k: int| 0 <= k < ahead.len() && ahead[k] == x;
                    assert(d[k] == x);
                } else if d == ahead {
                    assert(u[u.len() - 1] == x);
                    assert(u.contains(x));
                    assert(ahead.contains(x));
                } else {
                    assert(d[d.len() - 1] == x);
                }
            }
            if d.contains(x) {
                let k = choose|k: int| 0 <= k < d.len() && d[k] == x;
                if k < ahead.len() {
                    assert(ahead.contains(ahead[k]));
                    assert(u.contains(x));
                    let i = choose|i: int| 0 <= i < u.len() && u[i] == x;
                    assert(v[i] == x);
                } else {
                    assert(v[v.len() - 1] == x);
                }
            }
        }
    }
}

/// The texts without those that equal the one before them.
pub fn dedup(list: Vec<String>) -> (r: Vec<String>)
    ensures
        text::views(r@) == deduplicated(text::views(list@)),
{
    let ghost all = text::views(list@);
    let mut out: Vec<String> = Vec::new();
    let mut i: usize = 0;
    proof {
        assert(text::views(out@) =~= deduplicated(all.take(0)));
    }
    while i < list.len()
        invariant
            i <= list.len(),
            all == text::views(list@),
            text::views(out@) == deduplicated(all.take(i as int)),
        decreases list.len() - i,
    {
        proof {
            assert(all.take(i + 1).drop_last() =~= all.take(i as int));
        }
        if i == 0 || !text::same_text(list[i].as_str(), list[i - 1].as_str()) {
            let s = list[i].clone();
            proof {
                text::lemma_views_push(out@, s);
            }
            out.push(s);
        }
        i += 1;
    }
    proof {
        assert(all.take(i as int) =~= all);
    }
    out
}

/// One text stands before another where the first characters in which they differ do
/// so, or where it is the start of the other.
pub proof fn law_text_precedes(p: Seq<char>, c: char, d: char, a: Seq<char>, b: Seq<char>)
    requires
        c != d,
    ensures
        text_precedes(p + seq![c] + a, p + seq![d] + b) <==> (c as u32) < (d as u32),
        text_precedes(p, p + seq![c] + a),
        !text_precedes(p + seq![c] + a, p),
        !text_precedes(p, p),
    decreases p.len(),
{
    lemma_text_irreflexive(p);
    let x = p + seq![c] + a;
    let y = p + seq![d] + b;
    if p.len() > 0 {
        let q = p.skip(1);
        law_text_precedes(q, c, d, a, b);
        assert(x.skip(1) =~= q + seq![c] + a);
        assert(y.skip(1) =~= q + seq![d] + b);
        assert(x[0] == p[0] && y[0] == p[0]);
    } else {
        assert(x[0] == c && y[0] == d);
    }
}

/// Sorting gives each value as often as it was there, and puts none behind one that
/// it belongs before.
pub proof fn law_sorted_values<M>(s: Seq<M>, before: spec_fn(M, M) -> bool, i: int, j: int)
    requires
        is_order(before),
        0 <= i < j < s.len(),
    ensures
        !before(sorted(s, before)[j], sorted(s, before)[i]),
        sorted(s, before).to_multiset() == s.to_multiset(),
        sorted(s, before).len() == s.len(),
{
    law_sorted(s, before);
}

} // verus!
