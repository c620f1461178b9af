//! Association tables kept in a vector whose entries have pairwise distinct keys.

use vstd::prelude::*;
use crate::bytes::{Address, same_address};

verus! {

/// An entry that is found again by its key.
pub trait Keyed {
    type Key: View;

    /// The key of this entry, taken by its view.
    spec fn key(&self) -> <Self::Key as View>::V;

    /// Tests whether this entry has key `k`.
    fn has_key(&self, k: &Self::Key) -> (r: bool)
        ensures
            r == (self.key() == k@),
    ;

    /// The key of this entry.
    fn key_of(&self) -> (k: Self::Key)
        ensures
            k@ == self.key(),
    ;
}

impl Keyed for u64 {
    type Key = u64;

    open spec fn key(&self) -> u64 {
        *self
    }

    fn has_key(&self, k: &u64) -> (r: bool) {
        *self == *k
    }

    fn key_of(&self) -> (k: u64) {
        *self
    }
}

impl Keyed for Address {
    type Key = Address;

    open spec fn key(&self) -> Seq<u8> {
        self@
    }

    fn has_key(&self, k: &Address) -> (r: bool) {
        same_address(self, k)
    }

    fn key_of(&self) -> (k: Address) {
        *self
    }
}

/// Whether some entry of `s` has key `k`.
pub open spec fn seq_contains<E: Keyed>(s: Seq<E>, k: <E::Key as View>::V) -> bool {
    exists|i: int| 0 <= i < s.len() && #[trigger] s[i].key() == k
}

/// A position of an entry of `s` with key `k`.
pub open spec fn seq_index_of<E: Keyed>(s: Seq<E>, k: <E::Key as View>::V) -> int {
    choose|i: int| 0 <= i < s.len() && #[trigger] s[i].key() == k
}

/// An entry of `s` with key `k`, where there is one.
pub open spec fn seq_entry<E: Keyed>(s: Seq<E>, k: <E::Key as View>::V) -> E {
    s[seq_index_of(s, k)]
}

/// No two entries of `s` share a key.
pub open spec fn distinct_keys<E: Keyed>(s: Seq<E>) -> bool {
    forall|i: int, j: int|
        0 <= i < s.len() && 0 <= j < s.len() && i != j ==> #[trigger] s[i].key() != #[trigger] s[j].key()
}

/// A vector of entries in which no key occurs twice.
pub struct Table<E: Keyed> {
    items: Vec<E>,
}

impl<E: Keyed> Table<E> {
    #[verifier::type_invariant]
    spec fn keys_distinct(self) -> bool {
        forall|i: int, j: int|
            0 <= i < self.items@.len() && 0 <= j < self.items@.len() && i != j
                ==> #[trigger] self.items@[i].key() != #[trigger] self.items@[j].key()
    }

    /// The entries, in their current order.
    pub closed spec fn entries(&self) -> Seq<E> {
        self.items@
    }

    /// Whether some entry has key `k`.
    #[verifier::inline]
    pub open spec fn contains(&self, k: <E::Key as View>::V) -> bool {
        seq_contains(self.entries(), k)
    }

    /// The position of the entry with key `k`.
    #[verifier::inline]
    pub open spec fn index_of(&self, k: <E::Key as View>::V) -> int {
        seq_index_of(self.entries(), k)
    }

    /// The entry with key `k`, where there is one.
    #[verifier::inline]
    pub open spec fn entry(&self, k: <E::Key as View>::V) -> E {
        seq_entry(self.entries(), k)
    }

    /// The set of keys.
    pub open spec fn key_set(&self) -> Set<<E::Key as View>::V> {
        Set::new(|k: <E::Key as View>::V| self.contains(k))
    }

    proof fn lemma_entry_at(&self, i: int)
        requires
            self.keys_distinct(),
            0 <= i < self.entries().len(),
        ensures
            self.contains(self.entries()[i].key()),
            self.index_of(self.entries()[i].key()) == i,
            self.entry(self.entries()[i].key()) == self.entries()[i],
    {
        let k = self.entries()[i].key();
        assert(self.entries()[i].key() == k);
        let j = self.index_of(k);
        assert(self.entries()[j].key() == k);
    }

    /// The key set of a table is finite.
    pub proof fn lemma_key_set_finite(&self)
        ensures
            self.key_set().finite(),
    {
        let ks = self.entries().map_values(|e: E| e.key());
        assert(self.key_set() =~= ks.to_set()) by {
            assert forall|k| self.key_set().contains(k) implies ks.to_set().contains(k) by {
                let i = choose|i: int| 0 <= i < self.entries().len() && #[trigger] self.entries()[i].key() == k;
                assert(ks[i] == k);
            }
            assert forall|k| ks.to_set().contains(k) implies self.key_set().contains(k) by {
                let i = choose|i: int| 0 <= i < ks.len() && ks[i] == k;
                assert(self.entries()[i].key() == k);
            }
        }
        ks.lemma_cardinality_of_set();
        vstd::seq_lib::seq_to_set_is_finite(ks);
    }

    /// An empty table.
    pub fn new() -> (t: Self)
        ensures
            t.entries().len() == 0,
            forall|k| !t.contains(k),
    {
        Table { items: Vec::new() }
    }

    /// The number of entries.
    pub fn len(&self) -> (n: usize)
        ensures
            n == self.entries().len(),
    {
        self.items.len()
    }

    /// The entry at position `i`, which is the only entry with its key.
    pub fn at(&self, i: usize) -> (e: &E)
        requires
            i < self.entries().len(),
        ensures
            *e == self.entries()[i as int],
            self.contains(e.key()),
            self.index_of(e.key()) == i,
            self.entry(e.key()) == *e,
            forall|j: int| 0 <= j < self.entries().len() && j != i ==> #[trigger] self.entries()[j].key() != e.key(),
    {
        proof {
            use_type_invariant(self);
            self.lemma_entry_at(i as int);
        }
        &self.items[i]
    }

    /// Finds the position of the entry with key `k`.
    pub fn find(&self, k: &E::Key) -> (r: Option<usize>)
        ensures
            r is Some <==> self.contains(k@),
            r matches Some(i) ==> i < self.entries().len() && self.entries()[i as int].key() == k@
                && self.index_of(k@) == i && self.entry(k@) == self.entries()[i as int],
    {
        let mut i: usize = 0;
        while i < self.items.len()
            invariant
                0 <= i <= self.items@.len(),
                forall|j: int| 0 <= j < i ==> #[trigger] self.items@[j].key() != k@,
            decreases self.items@.len() - i,
        {
            if self.items[i].has_key(k) {
                proof {
                    use_type_invariant(self);
                    self.lemma_entry_at(i as int);
                }
                return Some(i);
            }
            i = i + 1;
        }
        None
    }

    /// Replaces the entry at position `i` by `e`, which has the same key.
    pub fn replace_at(&mut self, i: usize, e: E)
        requires
            i < old(self).entries().len(),
            e.key() == old(self).entries()[i as int].key(),
        ensures
            final(self).entries() == old(self).entries().update(i as int, e),
            forall|k| #[trigger] final(self).contains(k) == old(self).contains(k),
            final(self).entry(e.key()) == e,
            forall|k| old(self).contains(k) && k != e.key() ==> #[trigger] final(self).entry(k) == old(self).entry(k),
            forall|k| old(self).contains(k) ==> #[trigger] final(self).index_of(k) == old(self).index_of(k),
    {
        proof {
            use_type_invariant(&*self);
        }
        let ghost k0 = e.key();
        let mut items: Vec<E> = Vec::new();
        std::mem::swap(&mut items, &mut self.items);
        items.set(i, e);
        self.items = items;
        proof {
            use_type_invariant(&*self);
            let ghost o = *old(self);
            let ghost n = *self;
            assert forall|k| #[trigger] n.contains(k) == o.contains(k) by {
                if n.contains(k) {
                    let j = choose|j: int| 0 <= j < n.entries().len() && #[trigger] n.entries()[j].key() == k;
                    assert(o.entries()[j].key() == k);
                }
                if o.contains(k) {
                    let j = choose|j: int| 0 <= j < o.entries().len() && #[trigger] o.entries()[j].key() == k;
                    assert(n.entries()[j].key() == k);
                }
            }
            n.lemma_entry_at(i as int);
            assert forall|k| o.contains(k) && k != k0 implies #[trigger] n.entry(k) == o.entry(k) by {
                let j = choose|j: int| 0 <= j < o.entries().len() && #[trigger] o.entries()[j].key() == k;
                o.lemma_entry_at(j);
                assert(n.entries()[j] == o.entries()[j]);
                n.lemma_entry_at(j);
            }
            assert forall|k| o.contains(k) implies #[trigger] n.index_of(k) == o.index_of(k) by {
                let j = choose|j: int| 0 <= j < o.entries().len() && #[trigger] o.entries()[j].key() == k;
                o.lemma_entry_at(j);
                assert(n.entries()[j].key() == k);
                n.lemma_entry_at(j);
            }
        }
    }

    /// Adds `e`, whose key no entry has.
    pub fn push_new(&mut self, e: E)
        requires
            !old(self).contains(e.key()),
        ensures
            final(self).entries() == old(self).entries().push(e),
            forall|k| #[trigger] final(self).contains(k) == (old(self).contains(k) || k == e.key()),
            final(self).entry(e.key()) == e,
            forall|k| old(self).contains(k) ==> #[trigger] final(self).entry(k) == old(self).entry(k),
    {
        proof {
            use_type_invariant(&*self);
        }
        let mut items: Vec<E> = Vec::new();
        std::mem::swap(&mut items, &mut self.items);
        let ghost before = items@;
        items.push(e);
        assert forall|i: int, j: int|
            0 <= i < items@.len() && 0 <= j < items@.len() && i != j
                implies #[trigger] items@[i].key() != #[trigger] items@[j].key() by {
            if i == before.len() {
                assert(old(self).entries()[j].key() != e.key());
            } else if j == before.len() {
                assert(old(self).entries()[i].key() != e.key());
            }
        }
        let ghost k0 = e.key();
        self.items = items;
        proof {
            use_type_invariant(&*self);
            let ghost o = *old(self);
            let ghost n = *self;
            let last = o.entries().len() as int;
            assert(n.entries()[last].key() == k0);
            assert forall|k| #[trigger] n.contains(k) == (o.contains(k) || k == k0) by {
                if n.contains(k) && k != k0 {
                    let j = choose|j: int| 0 <= j < n.entries().len() && #[trigger] n.entries()[j].key() == k;
                    assert(j != last);
                    assert(o.entries()[j].key() == k);
                }
                if o.contains(k) {
                    let j = choose|j: int| 0 <= j < o.entries().len() && #[trigger] o.entries()[j].key() == k;
                    assert(n.entries()[j].key() == k);
                }
            }
            n.lemma_entry_at(last);
            assert forall|k| o.contains(k) implies #[trigger] n.entry(k) == o.entry(k) by {
                let j = choose|j: int| 0 <= j < o.entries().len() && #[trigger] o.entries()[j].key() == k;
                o.lemma_entry_at(j);
                assert(n.entries()[j] == o.entries()[j]);
                n.lemma_entry_at(j);
            }
        }
    }

    /// Removes the entry at position `i`.
    pub fn remove_at(&mut self, i: usize) -> (e: E)
        requires
            i < old(self).entries().len(),
        ensures
            final(self).entries() == old(self).entries().remove(i as int),
            e == old(self).entries()[i as int],
            forall|k| #[trigger] final(self).contains(k) == (old(self).contains(k) && k != e.key()),
            forall|k| final(self).contains(k) ==> #[trigger] final(self).entry(k) == old(self).entry(k),
    {
        proof {
            use_type_invariant(&*self);
        }
        let mut items: Vec<E> = Vec::new();
        std::mem::swap(&mut items, &mut self.items);
        let ghost before = items@;
        let e = items.remove(i);
        assert forall|a: int, b: int|
            0 <= a < items@.len() && 0 <= b < items@.len() && a != b
                implies #[trigger] items@[a].key() != #[trigger] items@[b].key() by {
            let a0 = if a < i { a } else { a + 1 };
            let b0 = if b < i { b } else { b + 1 };
            assert(items@[a] == before[a0]);
            assert(items@[b] == before[b0]);
        }
        self.items = items;
        proof {
            use_type_invariant(&*self);
            let ghost o = *old(self);
            let ghost n = *self;
            let ii = i as int;
            let k0 = e.key();
            assert(o.entries()[ii].key() == k0);
            assert forall|k| #[trigger] n.contains(k) == (o.contains(k) && k != k0) by {
                if n.contains(k) {
                    let j = choose|j: int| 0 <= j < n.entries().len() && #[trigger] n.entries()[j].key() == k;
                    let j0 = if j < ii { j } else { j + 1 };
                    assert(o.entries()[j0] == n.entries()[j]);
                    assert(o.entries()[j0].key() == k);
                    assert(j0 != ii);
                }
                if o.contains(k) && k != k0 {
                    let j = choose|j: int| 0 <= j < o.entries().len() && #[trigger] o.entries()[j].key() == k;
                    assert(j != ii);
                    let j1 = if j < ii { j } else { j - 1 };
                    assert(n.entries()[j1] == o.entries()[j]);
                    assert(n.entries()[j1].key() == k);
                }
            }
            assert forall|k| n.contains(k) implies #[trigger] n.entry(k) == o.entry(k) by {
                let j = choose|j: int| 0 <= j < n.entries().len() && #[trigger] n.entries()[j].key() == k;
                let j0 = if j < ii { j } else { j + 1 };
                assert(o.entries()[j0] == n.entries()[j]);
                n.lemma_entry_at(j);
                o.lemma_entry_at(j0);
            }
        }
        e
    }

    /// Adds `e`, replacing the entry with the same key if there is one.
    pub fn upsert(&mut self, e: E, k: &E::Key)
        requires
            e.key() == k@,
        ensures
            forall|x| #[trigger] final(self).contains(x) == (old(self).contains(x) || x == k@),
            final(self).entry(k@) == e,
            forall|x| old(self).contains(x) && x != k@ ==> #[trigger] final(self).entry(x) == old(self).entry(x),
    {
        match self.find(k) {
            Some(i) => self.replace_at(i, e),
            None => self.push_new(e),
        }
    }

    /// Removes the entry with key `k`, if there is one.
    pub fn remove_key(&mut self, k: &E::Key)
        ensures
            forall|x| #[trigger] final(self).contains(x) == (old(self).contains(x) && x != k@),
            forall|x| final(self).contains(x) ==> #[trigger] final(self).entry(x) == old(self).entry(x),
    {
        match self.find(k) {
            Some(i) => {
                let _ = self.remove_at(i);
            },
            None => {},
        }
    }
}

impl<E: Keyed> Table<E> {
    /// The entries, in order; no two share a key.
    pub fn into_vec(self) -> (v: Vec<E>)
        ensures
            v@ == self.entries(),
            distinct_keys(v@),
    {
        proof {
            use_type_invariant(&self);
        }
        self.items
    }

    /// A table of the entries of `v`, in order, or `None` where two of them share a key.
    pub fn from_vec(v: Vec<E>) -> (r: Option<Self>)
        ensures
            r is Some <==> distinct_keys(v@),
            r matches Some(t) ==> t.entries() == v@,
    {
        let mut i: usize = 0;
        while i < v.len()
            invariant
                0 <= i <= v@.len(),
                forall|a: int, b: int|
                    0 <= a < i && 0 <= b < i && a != b ==> #[trigger] v@[a].key() != #[trigger] v@[b].key(),
            decreases v@.len() - i,
        {
            let k = v[i].key_of();
            let mut j: usize = 0;
            while j < i
                invariant
                    0 <= j <= i,
                    i < v@.len(),
                    k@ == v@[i as int].key(),
                    forall|a: int| 0 <= a < j ==> #[trigger] v@[a].key() != k@,
                decreases i - j,
            {
                if v[j].has_key(&k) {
                    assert(!distinct_keys(v@)) by {
                        assert(v@[j as int].key() == v@[i as int].key());
                    }
                    return None;
                }
                j = j + 1;
            }
            i = i + 1;
        }
        Some(Table { items: v })
    }
}

} // verus!
