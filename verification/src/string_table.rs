//! Tables keyed by text that can be walked in the order of insertion.
use vstd::hash_map::StringHashMap;
use vstd::prelude::*;

use crate::text;

verus! {

/// A table from texts to values.
pub struct StringTable<V> {
    slots: StringHashMap<usize>,
    keys: Vec<String>,
    values: Vec<V>,
}

impl<V> View for StringTable<V> {
    type V = Map<Seq<char>, V>;

    closed spec fn view(&self) -> Map<Seq<char>, V> {
        Map::new(
            |k: Seq<char>| self.slots@.contains_key(k),
            |k: Seq<char>| self.values@[self.slots@[k] as int],
        )
    }
}

impl<V> StringTable<V> {
    /// The keys in the order in which they came.
    pub closed spec fn order(&self) -> Seq<Seq<char>> {
        text::views(self.keys@)
    }

    /// Whether the parts of the table agree with each other.
    pub closed spec fn wf(&self) -> bool {
        &&& self.keys@.len() == self.values@.len()
        &&& forall|k: Seq<char>| #[trigger]
            self.slots@.contains_key(k) ==> self.slots@[k] < self.keys@.len()
                && self.keys@[self.slots@[k] as int]@ == k
        &&& forall|i: int|
            #![trigger self.keys@[i]]
            0 <= i < self.keys@.len() ==> self.slots@.contains_key(self.keys@[i]@)
                && self.slots@[self.keys@[i]@] == i
    }

    /// The keys in order are those of the table, each once.
    pub proof fn lemma_order(&self)
        requires
            self.wf(),
        ensures
            forall|i: int|
                0 <= i < self.order().len() ==> self@.contains_key(#[trigger] self.order()[i]),
            forall|i: int, j: int|
                0 <= i < j < self.order().len() ==> #[trigger] self.order()[i]
                    != #[trigger] self.order()[j],
            forall|k: Seq<char>| #[trigger] self@.contains_key(k) ==> self.order().contains(k),
    {
        assert forall|k: Seq<char>| #[trigger] self@.contains_key(k) implies self.order().contains(
            k,
        ) by {
            assert(self.slots@.contains_key(k));
            assert(self.order()[self.slots@[k] as int] == k);
        }
        assert forall|i: int| 0 <= i < self.order().len() implies self@.contains_key(
            #[trigger] self.order()[i],
        ) by {
            assert(self.slots@.contains_key(self.keys@[i]@));
        }
        assert forall|i: int, j: int| 0 <= i < j < self.order().len() implies #[trigger]
        self.order()[i] != #[trigger] self.order()[j] by {
            assert(self.slots@[self.keys@[i]@] == i);
            assert(self.slots@[self.keys@[j]@] == j);
        }
    }

    /// An empty table.
    pub fn new() -> (r: StringTable<V>)
        ensures
            r.wf(),
            r@ == Map::<Seq<char>, V>::empty(),
            r.order() == Seq::<Seq<char>>::empty(),
    {
        let r = StringTable { slots: StringHashMap::new(), keys: Vec::new(), values: Vec::new() };
        proof {
            assert(r@ =~= Map::<Seq<char>, V>::empty());
            assert(r.order() =~= Seq::<Seq<char>>::empty());
        }
        r
    }

    /// The number of keys.
    pub fn len(&self) -> (r: usize)
        ensures
            r == self.order().len(),
    {
        self.keys.len()
    }

    /// Whether the table has no key.
    pub fn is_empty(&self) -> (r: bool)
        requires
            self.wf(),
        ensures
            r == (self.order().len() == 0),
            r <==> self@ == Map::<Seq<char>, V>::empty(),
    {
        proof {
            self.lemma_order();
            if self.keys@.len() == 0 {
                assert(self@ =~= Map::<Seq<char>, V>::empty());
            } else {
                assert(self@.contains_key(self.order()[0]));
            }
        }
        self.keys.len() == 0
    }

    /// Whether the table has a key.
    pub fn contains_key(&self, key: &str) -> (r: bool)
        ensures
            r == self@.contains_key(key@),
    {
        self.slots.contains_key(key)
    }

    /// The value of a key.
    pub fn get(&self, key: &str) -> (r: Option<&V>)
        requires
            self.wf(),
        ensures
            match r {
                Some(v) => self@.contains_key(key@) && *v == self@[key@],
                None => !self@.contains_key(key@),
            },
    {
        match self.slots.get(key) {
            Some(i) => Some(&self.values[*i]),
            None => None,
        }
    }

    /// The key at a place in the order.
    pub fn key_at(&self, i: usize) -> (r: &str)
        requires
            i < self.order().len(),
        ensures
            r@ == self.order()[i as int],
    {
        self.keys[i].as_str()
    }

    /// The value of the key at a place in the order.
    pub fn value_at(&self, i: usize) -> (r: &V)
        requires
            self.wf(),
            i < self.order().len(),
        ensures
            *r == self@[self.order()[i as int]],
    {
        proof {
            assert(self.slots@.contains_key(self.keys@[i as int]@));
        }
        &self.values[i]
    }

    /// Gives a key a value.
    pub fn insert(&mut self, key: String, value: V)
        requires
            old(self).wf(),
        ensures
            final(self).wf(),
            final(self)@ == old(self)@.insert(key@, value),
            final(self).order() == (if old(self)@.contains_key(key@) {
                old(self).order()
            } else {
                old(self).order().push(key@)
            }),
    {
        let ghost before = *self;
        let found: Option<usize> = match self.slots.get(key.as_str()) {
            Some(i) => Some(*i),
            None => None,
        };
        match found {
            Some(i) => {
                self.values.set(i, value);
                proof {
                    assert forall|k: Seq<char>| k != key@ && before.slots@.contains_key(k) implies
                        self.values@[#[trigger] self.slots@[k] as int]
                        == before.values@[before.slots@[k] as int] by {
                        assert(before.keys@[before.slots@[k] as int]@ == k);
                    }
                }
            },
            None => {
                let i = self.keys.len();
                self.slots.insert(key.clone(), i);
                let ghost pushed = key;
                self.keys.push(key);
                self.values.push(value);
                proof {
                    text::lemma_views_push(before.keys@, pushed);
                    assert forall|j: int|
                        #![trigger self.keys@[j]]
                        0 <= j < self.keys@.len() implies self.slots@.contains_key(self.keys@[j]@)
                        && self.slots@[self.keys@[j]@] == j by {
                        if j < i {
                            assert(self.keys@[j] == before.keys@[j]);
                            assert(before.slots@.contains_key(before.keys@[j]@));
                        }
                    }
                }
            },
        }
        proof {
            assert(self@ =~= before@.insert(key@, value));
        }
    }
}

impl StringTable<Vec<usize>> {
    /// The numbers listed under a key.
    pub open spec fn list(&self, key: Seq<char>) -> Seq<usize> {
        if self@.contains_key(key) {
            self@[key]@
        } else {
            seq![]
        }
    }

    /// Lists a number under a key.
    pub fn append(&mut self, key: String, x: usize)
        requires
            old(self).wf(),
        ensures
            final(self).wf(),
            final(self)@.dom() == old(self)@.dom().insert(key@),
            final(self).list(key@) == old(self).list(key@).push(x),
            forall|k: Seq<char>|
                k != key@ ==> #[trigger] final(self).list(k) == old(self).list(k),
            final(self).order() == (if old(self)@.contains_key(key@) {
                old(self).order()
            } else {
                old(self).order().push(key@)
            }),
    {
        let found: Option<usize> = match self.slots.get(key.as_str()) {
            Some(i) => Some(*i),
            None => None,
        };
        match found {
            Some(i) => {
                let ghost before = *self;
                self.values[i].push(x);
                proof {
                    assert forall|k: Seq<char>| k != key@ implies #[trigger] self.list(k)
                        == before.list(k) by {
                        if before.slots@.contains_key(k) {
                            assert(before.keys@[before.slots@[k] as int]@ == k);
                        }
                    }
                    assert(self@.dom() =~= before@.dom().insert(key@));
                }
            },
            None => {
                let mut first: Vec<usize> = Vec::new();
                first.push(x);
                self.insert(key, first);
            },
        }
    }
}

} // verus!
