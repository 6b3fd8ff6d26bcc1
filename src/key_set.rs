//! A set of keys, kept sorted.

use crate::keys::{key_lt, Key};
use crate::sorted_map::SortedMap;
use vstd::prelude::*;

verus! {

/// Keys in increasing order, without repetition.
#[derive(Debug, PartialEq, Eq)]
pub struct KeySet {
    map: SortedMap<Key, ()>,
}

impl View for KeySet {
    type V = Set<Seq<u8>>;

    closed spec fn view(&self) -> Set<Seq<u8>> {
        self.map.view().dom()
    }
}

impl KeySet {
    pub closed spec fn wf(self) -> bool {
        self.map.wf()
    }

    /// The keys in increasing order.
    pub closed spec fn key_seq(self) -> Seq<Seq<u8>> {
        self.map.key_seq()
    }

    pub proof fn lemma_key_seq(self)
        requires
            self.wf(),
        ensures
            self@.finite(),
            self.key_seq().to_set() == self@,
            self.key_seq().len() == self@.len(),
    {
        self.map.lemma_len();
    }

    pub proof fn lemma_len_bounded(self)
        requires
            self.wf(),
        ensures
            self@.len() <= usize::MAX,
    {
        self.map.lemma_len();
        self.map.lemma_size_bounded();
    }

    /// The keys strictly increase along `key_seq`.
    pub proof fn lemma_sorted(self)
        requires
            self.wf(),
        ensures
            forall|i: int, j: int|
                0 <= i < j < self.key_seq().len() ==> key_lt(
                    #[trigger] self.key_seq()[i],
                    #[trigger] self.key_seq()[j],
                ),
    {
        self.map.lemma_len();
        assert forall|i: int, j: int| 0 <= i < j < self.key_seq().len() implies key_lt(
            #[trigger] self.key_seq()[i],
            #[trigger] self.key_seq()[j],
        ) by {
            self.map.lemma_sorted(i, j);
            self.map.lemma_entry(i);
            self.map.lemma_entry(j);
        }
    }

    pub fn new() -> (r: KeySet)
        ensures
            r.wf(),
            r@ == Set::<Seq<u8>>::empty(),
    {
        let r = KeySet { map: SortedMap::new() };
        assert(r@ =~= Set::<Seq<u8>>::empty());
        r
    }

    pub fn len(&self) -> (r: usize)
        requires
            self.wf(),
        ensures
            r == self@.len(),
    {
        self.map.len()
    }

    pub fn is_empty(&self) -> (r: bool)
        requires
            self.wf(),
        ensures
            r == (self@.len() == 0),
            r == (self@ == Set::<Seq<u8>>::empty()),
    {
        proof {
            self.map.lemma_len();
            if self@.len() == 0 {
                assert(self@ =~= Set::<Seq<u8>>::empty());
            }
        }
        self.map.is_empty()
    }

    pub fn contains(&self, k: &Key) -> (r: bool)
        requires
            self.wf(),
        ensures
            r == self@.contains(k@),
    {
        self.map.contains_key(k)
    }

    /// Adds `k`; tells whether it was new.
    pub fn insert(&mut self, k: Key) -> (r: bool)
        requires
            old(self).wf(),
        ensures
            final(self).wf(),
            final(self)@ == old(self)@.insert(k@),
            r == !old(self)@.contains(k@),
    {
        let present = self.map.contains_key(&k);
        self.map.insert(k, ());
        assert(self@ =~= old(self)@.insert(k@));
        !present
    }

    /// Takes `k` out; tells whether it was there.
    pub fn remove(&mut self, k: &Key) -> (r: bool)
        requires
            old(self).wf(),
        ensures
            final(self).wf(),
            final(self)@ == old(self)@.remove(k@),
            r == old(self)@.contains(k@),
    {
        let r = self.map.remove(k);
        assert(self@ =~= old(self)@.remove(k@));
        r.is_some()
    }

    pub fn clear(&mut self)
        ensures
            final(self).wf(),
            final(self)@ == Set::<Seq<u8>>::empty(),
    {
        self.map.clear();
        assert(self@ =~= Set::<Seq<u8>>::empty());
    }

    /// The `i`-th smallest key.
    pub fn key(&self, i: usize) -> (r: &Key)
        requires
            self.wf(),
            i < self.key_seq().len(),
        ensures
            r@ == self.key_seq()[i as int],
    {
        proof {
            self.map.lemma_len();
            self.map.lemma_entry(i as int);
        }
        self.map.entry(i).0
    }
}

} // verus!
