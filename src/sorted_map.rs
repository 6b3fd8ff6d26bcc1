//! A map kept as a vector of entries sorted by key, so that walking it visits
//! keys in order and two maps with the same contents have the same entries.

use crate::keys::SortKey;
use std::cmp::Ordering;
use vstd::prelude::*;

verus! {

/// Entries sorted strictly by key.
#[derive(Debug, PartialEq, Eq)]
pub struct SortedMap<K, V> {
    entries: Vec<(K, V)>,
}

impl<K: SortKey, V> SortedMap<K, V> {
    /// View of the key stored at position `i`.
    pub closed spec fn key_at(self, i: int) -> K::V {
        self.entries@[i].0@
    }

    /// Value stored at position `i`.
    pub closed spec fn value_at(self, i: int) -> V {
        self.entries@[i].1
    }

    /// Number of entries.
    pub closed spec fn size(self) -> nat {
        self.entries@.len()
    }

    /// Keys strictly increase along the entries.
    pub closed spec fn wf(self) -> bool {
        forall|i: int, j: int|
            0 <= i < j < self.entries@.len() ==> K::view_lt(
                #[trigger] self.entries@[i].0@,
                #[trigger] self.entries@[j].0@,
            )
    }

    pub closed spec fn has_key(self, k: K::V) -> bool {
        exists|i: int| 0 <= i < self.entries@.len() && self.entries@[i].0@ == k
    }

    pub closed spec fn index_of(self, k: K::V) -> int {
        choose|i: int| 0 <= i < self.entries@.len() && self.entries@[i].0@ == k
    }

    /// The contents as a map from key views to values.
    pub closed spec fn view(self) -> Map<K::V, V> {
        Map::new(|k: K::V| self.has_key(k), |k: K::V| self.entries@[self.index_of(k)].1)
    }

    /// The keys in the order in which they are stored.
    pub closed spec fn key_seq(self) -> Seq<K::V> {
        Seq::new(self.entries@.len(), |i: int| self.entries@[i].0@)
    }

    proof fn lemma_distinct(self, i: int, j: int)
        requires
            self.wf(),
            0 <= i < self.entries@.len(),
            0 <= j < self.entries@.len(),
            i != j,
        ensures
            self.entries@[i].0@ != self.entries@[j].0@,
    {
        if i < j {
            K::lemma_view_lt_irreflexive(self.entries@[i].0@);
        } else {
            K::lemma_view_lt_irreflexive(self.entries@[j].0@);
        }
    }

    /// Position `i` holds the map's value for its key.
    pub proof fn lemma_entry(self, i: int)
        requires
            self.wf(),
            0 <= i < self.size(),
        ensures
            self.view().contains_key(self.key_at(i)),
            self.view()[self.key_at(i)] == self.value_at(i),
            self.key_seq()[i] == self.key_at(i),
            self.key_seq().len() == self.size(),
    {
        let k = self.entries@[i].0@;
        assert(self.has_key(k));
        let j = self.index_of(k);
        if j != i {
            self.lemma_distinct(i, j);
        }
    }

    pub proof fn lemma_size_bounded(self)
        ensures
            self.size() <= usize::MAX,
    {
        assert(self.entries@.len() == self.entries.len());
    }

    /// Keys increase along the positions.
    pub proof fn lemma_sorted(self, i: int, j: int)
        requires
            self.wf(),
            0 <= i < j < self.size(),
        ensures
            K::view_lt(self.key_at(i), self.key_at(j)),
    {
        assert(K::view_lt(self.entries@[i].0@, self.entries@[j].0@));
    }

    /// Every key of the map is stored at some position.
    pub proof fn lemma_key_stored(self, k: K::V)
        requires
            self.view().contains_key(k),
        ensures
            0 <= self.index_of(k) < self.size(),
            self.key_at(self.index_of(k)) == k,
    {
    }

    /// The keys, as a set, are the map's domain, and there are as many as
    /// entries.
    pub proof fn lemma_len(self)
        requires
            self.wf(),
        ensures
            self.view().dom().len() == self.size(),
            self.view().dom() == self.key_seq().to_set(),
            self.view().dom().finite(),
            self.key_seq().len() == self.size(),
    {
        let s = self.key_seq();
        assert(s.no_duplicates()) by {
            assert forall|i: int, j: int| 0 <= i < s.len() && 0 <= j < s.len() && i != j implies s[i]
                != s[j] by {
                self.lemma_distinct(i, j);
            }
        }
        assert(self.view().dom() =~= s.to_set()) by {
            assert forall|k: K::V| self.view().dom().contains(k) implies s.to_set().contains(k) by {
                let i = self.index_of(k);
                assert(s[i] == k);
            }
            assert forall|k: K::V| s.to_set().contains(k) implies self.view().dom().contains(k) by {
                let i = choose|i: int| 0 <= i < s.len() && s[i] == k;
                assert(self.has_key(k));
            }
        }
        s.unique_seq_to_set();
    }

    pub fn new() -> (r: Self)
        ensures
            r.wf(),
            r.view() == Map::<K::V, V>::empty(),
            r.size() == 0,
    {
        let r = SortedMap { entries: Vec::new() };
        assert(r.view() =~= Map::<K::V, V>::empty());
        r
    }

    pub fn len(&self) -> (r: usize)
        requires
            self.wf(),
        ensures
            r == self.view().len(),
            r == self.size(),
    {
        proof {
            self.lemma_len();
        }
        self.entries.len()
    }

    pub fn is_empty(&self) -> (r: bool)
        requires
            self.wf(),
        ensures
            r == (self.view().len() == 0),
            r == (self.size() == 0),
    {
        proof {
            self.lemma_len();
        }
        self.entries.len() == 0
    }

    /// Key and value at position `i`, in key order.
    pub fn entry(&self, i: usize) -> (r: (&K, &V))
        requires
            i < self.size(),
        ensures
            r.0@ == self.key_at(i as int),
            *r.1 == self.value_at(i as int),
    {
        let e = &self.entries[i];
        (&e.0, &e.1)
    }

    /// First position whose key is not below `k`, and whether it holds `k`.
    fn search(&self, k: &K) -> (r: (usize, bool))
        requires
            self.wf(),
        ensures
            r.0 <= self.size(),
            forall|j: int| 0 <= j < r.0 ==> K::view_lt(#[trigger] self.key_at(j), k@),
            r.1 <==> (r.0 < self.size() && self.key_at(r.0 as int) == k@),
            forall|j: int|
                r.0 <= j < self.size() && !(r.1 && j == r.0) ==> K::view_lt(
                    k@,
                    #[trigger] self.key_at(j),
                ),
    {
        let mut i: usize = 0;
        while i < self.entries.len()
            invariant
                self.wf(),
                i <= self.entries@.len(),
                forall|j: int| 0 <= j < i ==> K::view_lt(#[trigger] self.key_at(j), k@),
            decreases self.entries@.len() - i,
        {
            match self.entries[i].0.compare(k) {
                Ordering::Less => {
                    i = i + 1;
                },
                Ordering::Equal => {
                    proof {
                        assert forall|j: int| i < j < self.size() implies K::view_lt(
                            k@,
                            #[trigger] self.key_at(j),
                        ) by {
                            assert(K::view_lt(self.entries@[i as int].0@, self.entries@[j].0@));
                        }
                    }
                    return (i, true);
                },
                Ordering::Greater => {
                    proof {
                        assert forall|j: int| i <= j < self.size() implies K::view_lt(
                            k@,
                            #[trigger] self.key_at(j),
                        ) by {
                            if j > i {
                                assert(K::view_lt(self.entries@[i as int].0@, self.entries@[j].0@));
                                K::lemma_view_lt_transitive(
                                    k@,
                                    self.entries@[i as int].0@,
                                    self.entries@[j].0@,
                                );
                            }
                        }
                        K::lemma_view_lt_irreflexive(k@);
                    }
                    return (i, false);
                },
            }
        }
        (i, false)
    }

    proof fn lemma_absent(self, k: K::V, p: int, found: bool)
        requires
            self.wf(),
            0 <= p <= self.size(),
            forall|j: int| 0 <= j < p ==> K::view_lt(#[trigger] self.key_at(j), k),
            forall|j: int|
                p <= j < self.size() && !(found && j == p) ==> K::view_lt(
                    k,
                    #[trigger] self.key_at(j),
                ),
            !found,
        ensures
            !self.view().contains_key(k),
    {
        if self.has_key(k) {
            let j = self.index_of(k);
            assert(self.key_at(j) == k);
            K::lemma_view_lt_irreflexive(k);
        }
    }

    pub fn contains_key(&self, k: &K) -> (r: bool)
        requires
            self.wf(),
        ensures
            r == self.view().contains_key(k@),
    {
        let (p, found) = self.search(k);
        proof {
            if found {
                self.lemma_entry(p as int);
            } else {
                self.lemma_absent(k@, p as int, found);
            }
        }
        found
    }

    pub fn get(&self, k: &K) -> (r: Option<&V>)
        requires
            self.wf(),
        ensures
            match r {
                Some(v) => self.view().contains_key(k@) && *v == self.view()[k@],
                None => !self.view().contains_key(k@),
            },
    {
        let (p, found) = self.search(k);
        if found {
            proof {
                self.lemma_entry(p as int);
            }
            Some(&self.entries[p].1)
        } else {
            proof {
                self.lemma_absent(k@, p as int, found);
            }
            None
        }
    }

    /// Sets the value of `k`, replacing any earlier one.
    pub fn insert(&mut self, k: K, v: V)
        requires
            old(self).wf(),
        ensures
            final(self).wf(),
            final(self).view() == old(self).view().insert(k@, v),
    {
        let ghost kv = k@;
        let (p, found) = self.search(&k);
        let ghost old_map = *self;
        if found {
            self.entries.set(p, (k, v));
        } else {
            self.entries.insert(p, (k, v));
        }
        let ghost new_map = *self;
        proof {
            if found {
                assert(new_map.wf()) by {
                    assert forall|i: int, j: int|
                        0 <= i < j < new_map.entries@.len() implies K::view_lt(
                        #[trigger] new_map.entries@[i].0@,
                        #[trigger] new_map.entries@[j].0@,
                    ) by {
                        assert(old_map.key_at(p as int) == kv);
                        assert(K::view_lt(old_map.entries@[i].0@, old_map.entries@[j].0@));
                    }
                }
                assert forall|kk: K::V| new_map.view().contains_key(kk) == old_map.view().insert(
                    kv,
                    v,
                ).contains_key(kk) by {
                    if new_map.has_key(kk) {
                        let j = new_map.index_of(kk);
                        if j != p {
                            assert(old_map.entries@[j].0@ == kk);
                        }
                    }
                    if old_map.has_key(kk) {
                        let j = old_map.index_of(kk);
                        if j != p {
                            assert(new_map.entries@[j].0@ == kk);
                        } else {
                            assert(new_map.entries@[p as int].0@ == kk);
                        }
                    }
                    if kk == kv {
                        assert(new_map.entries@[p as int].0@ == kk);
                    }
                }
                assert forall|kk: K::V| #[trigger]
                    new_map.view().contains_key(kk) implies new_map.view()[kk] == old_map.view().insert(
                    kv,
                    v,
                )[kk] by {
                    let j = new_map.index_of(kk);
                    new_map.lemma_key_stored(kk);
                    new_map.lemma_entry(j);
                    if j != p {
                        old_map.lemma_entry(j);
                        new_map.lemma_distinct(j, p as int);
                        assert(old_map.entries@[j] == new_map.entries@[j]);
                    }
                }
            } else {
                assert(new_map.wf()) by {
                    assert forall|i: int, j: int|
                        0 <= i < j < new_map.entries@.len() implies K::view_lt(
                        #[trigger] new_map.entries@[i].0@,
                        #[trigger] new_map.entries@[j].0@,
                    ) by {
                        if j < p {
                            assert(K::view_lt(old_map.entries@[i].0@, old_map.entries@[j].0@));
                        } else if j == p {
                            assert(K::view_lt(old_map.key_at(i), kv));
                        } else if i < p {
                            assert(K::view_lt(old_map.key_at(i), kv));
                            assert(K::view_lt(kv, old_map.key_at(j - 1)));
                            K::lemma_view_lt_transitive(old_map.key_at(i), kv, old_map.key_at(j - 1));
                        } else if i == p {
                            assert(K::view_lt(kv, old_map.key_at(j - 1)));
                        } else {
                            assert(K::view_lt(
                                old_map.entries@[i - 1].0@,
                                old_map.entries@[j - 1].0@,
                            ));
                        }
                    }
                }
                assert forall|kk: K::V| new_map.view().contains_key(kk) == old_map.view().insert(
                    kv,
                    v,
                ).contains_key(kk) by {
                    if new_map.has_key(kk) {
                        let j = new_map.index_of(kk);
                        if j < p {
                            assert(old_map.entries@[j].0@ == kk);
                        } else if j > p {
                            assert(old_map.entries@[j - 1].0@ == kk);
                        }
                    }
                    if old_map.has_key(kk) {
                        let j = old_map.index_of(kk);
                        if j < p {
                            assert(new_map.entries@[j].0@ == kk);
                        } else {
                            assert(new_map.entries@[j + 1].0@ == kk);
                        }
                    }
                    if kk == kv {
                        assert(new_map.entries@[p as int].0@ == kk);
                    }
                }
                assert forall|kk: K::V| #[trigger]
                    new_map.view().contains_key(kk) implies new_map.view()[kk] == old_map.view().insert(
                    kv,
                    v,
                )[kk] by {
                    let j = new_map.index_of(kk);
                    new_map.lemma_key_stored(kk);
                    new_map.lemma_entry(j);
                    if j < p {
                        old_map.lemma_entry(j);
                        new_map.lemma_distinct(j, p as int);
                        assert(old_map.entries@[j] == new_map.entries@[j]);
                    } else if j > p {
                        old_map.lemma_entry(j - 1);
                        new_map.lemma_distinct(j, p as int);
                        assert(old_map.entries@[j - 1] == new_map.entries@[j]);
                    }
                }
            }
            assert(new_map.view() =~= old_map.view().insert(kv, v));
        }
    }

    /// Removes `k`, handing back its value if it was there.
    pub fn remove(&mut self, k: &K) -> (r: Option<V>)
        requires
            old(self).wf(),
        ensures
            final(self).wf(),
            final(self).view() == old(self).view().remove(k@),
            match r {
                Some(v) => old(self).view().contains_key(k@) && v == old(self).view()[k@],
                None => !old(self).view().contains_key(k@),
            },
    {
        let (p, found) = self.search(k);
        let ghost old_map = *self;
        if !found {
            proof {
                self.lemma_absent(k@, p as int, found);
                assert(self.view() =~= self.view().remove(k@));
            }
            return None;
        }
        proof {
            old_map.lemma_entry(p as int);
        }
        let (_, v) = self.entries.remove(p);
        let ghost new_map = *self;
        proof {
            assert(new_map.wf()) by {
                assert forall|i: int, j: int|
                    0 <= i < j < new_map.entries@.len() implies K::view_lt(
                    #[trigger] new_map.entries@[i].0@,
                    #[trigger] new_map.entries@[j].0@,
                ) by {
                    if j < p {
                        assert(K::view_lt(old_map.entries@[i].0@, old_map.entries@[j].0@));
                    } else if i < p {
                        assert(K::view_lt(old_map.entries@[i].0@, old_map.entries@[j + 1].0@));
                    } else {
                        assert(K::view_lt(old_map.entries@[i + 1].0@, old_map.entries@[j + 1].0@));
                    }
                }
            }
            assert forall|kk: K::V| new_map.view().contains_key(kk) == old_map.view().remove(
                k@,
            ).contains_key(kk) by {
                if new_map.has_key(kk) {
                    let j = new_map.index_of(kk);
                    if j < p {
                        assert(old_map.entries@[j].0@ == kk);
                        old_map.lemma_distinct(j, p as int);
                    } else {
                        assert(old_map.entries@[j + 1].0@ == kk);
                        old_map.lemma_distinct(j + 1, p as int);
                    }
                }
                if old_map.has_key(kk) && kk != k@ {
                    let j = old_map.index_of(kk);
                    if j < p {
                        assert(new_map.entries@[j].0@ == kk);
                    } else {
                        assert(j != p);
                        assert(new_map.entries@[j - 1].0@ == kk);
                    }
                }
            }
            assert forall|kk: K::V| #[trigger]
                new_map.view().contains_key(kk) implies new_map.view()[kk] == old_map.view().remove(
                k@,
            )[kk] by {
                let j = new_map.index_of(kk);
                new_map.lemma_key_stored(kk);
                new_map.lemma_entry(j);
                if j < p {
                    old_map.lemma_entry(j);
                    assert(old_map.entries@[j] == new_map.entries@[j]);
                } else {
                    old_map.lemma_entry(j + 1);
                    assert(old_map.entries@[j + 1] == new_map.entries@[j]);
                }
            }
            assert(new_map.view() =~= old_map.view().remove(k@));
        }
        Some(v)
    }

    /// Removes every entry.
    pub fn clear(&mut self)
        ensures
            final(self).wf(),
            final(self).view() == Map::<K::V, V>::empty(),
            final(self).size() == 0,
    {
        self.entries.clear();
        assert(self.view() =~= Map::<K::V, V>::empty());
    }
}

} // verus!
