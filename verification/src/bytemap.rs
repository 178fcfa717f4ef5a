//! A small verified map keyed by byte strings.
//!
//! Entries are kept in insertion order, so iteration is deterministic; the
//! view is a [`Map`] from the key bytes to the values.

use crate::bytes::bytes_eq;
use vstd::map::*;
use vstd::prelude::*;

verus! {

/// The value that stands at place `i` after inserting `v` under key `k`:
/// the new value where the key matches, the old one elsewhere.
pub open spec fn val_after_insert<V>(
    keys: Seq<Seq<u8>>,
    old_vals: Seq<V>,
    i: int,
    k: Seq<u8>,
    v: V,
) -> V {
    if keys[i] == k {
        v
    } else {
        old_vals[i]
    }
}

/// A map from byte strings to values, with deterministic iteration order.
#[derive(Debug)]
pub struct ByteMap<V> {
    entries: Vec<(Vec<u8>, V)>,
}

impl<V> View for ByteMap<V> {
    type V = Map<Seq<u8>, V>;

    closed spec fn view(&self) -> Map<Seq<u8>, V> {
        Map::new(
            |k: Seq<u8>| exists|i: int| 0 <= i < self.entries@.len() && self.entries@[i].0@ == k,
            |k: Seq<u8>| self.entries@[self.spec_index_of(k)].1,
        )
    }
}

impl<V> ByteMap<V> {
    /// Index of the entry holding key `k` (meaningful when the key is present
    /// and the map is well-formed).
    closed spec fn spec_index_of(&self, k: Seq<u8>) -> int {
        choose|i: int| 0 <= i < self.entries@.len() && self.entries@[i].0@ == k
    }

    /// Keys are pairwise distinct.
    pub closed spec fn wf(&self) -> bool {
        forall|i: int, j: int|
            0 <= i < j < self.entries@.len() ==> self.entries@[i].0@ != self.entries@[j].0@
    }

    /// The keys, in insertion order.
    pub closed spec fn key_seq(&self) -> Seq<Seq<u8>> {
        self.entries@.map_values(|p: (Vec<u8>, V)| p.0@)
    }

    /// The values, in insertion order.
    pub closed spec fn val_seq(&self) -> Seq<V> {
        self.entries@.map_values(|p: (Vec<u8>, V)| p.1)
    }

    pub open spec fn spec_len(&self) -> nat {
        self.key_seq().len()
    }

    /// The key at entry `i` names that entry in the view.
    proof fn lemma_index_unique(&self, i: int, k: Seq<u8>)
        requires
            self.wf(),
            0 <= i < self.entries@.len(),
            self.entries@[i].0@ == k,
        ensures
            self@.contains_key(k),
            self.spec_index_of(k) == i,
            self@[k] == self.entries@[i].1,
    {
        assert(self@.contains_key(k));
        let j = self.spec_index_of(k);
        assert(0 <= j < self.entries@.len() && self.entries@[j].0@ == k);
        if i != j {
            assert(false);
        }
    }

    /// A key missing from every entry is missing from the view.
    proof fn lemma_absent(&self, k: Seq<u8>)
        requires
            forall|i: int| 0 <= i < self.entries@.len() ==> self.entries@[i].0@ != k,
        ensures
            !self@.contains_key(k),
    {
        if self@.contains_key(k) {
            let j = choose|j: int| 0 <= j < self.entries@.len() && self.entries@[j].0@ == k;
            assert(false);
        }
    }

    /// What the order of entries means: the i-th key maps to the i-th value.
    pub proof fn lemma_entry(&self, i: int)
        requires
            self.wf(),
            0 <= i < self.spec_len(),
        ensures
            self@.contains_key(#[trigger] self.key_seq()[i]),
            self@[self.key_seq()[i]] == self.val_seq()[i],
    {
        assert(self.entries@[i].0@ == self.key_seq()[i]);
        self.lemma_index_unique(i, self.key_seq()[i]);
    }

    /// There are as many values as keys.
    pub proof fn lemma_lens(&self)
        ensures
            self.val_seq().len() == self.key_seq().len(),
    {
    }

    /// Distinct entries carry distinct keys.
    pub proof fn lemma_keys_distinct(&self, i: int, j: int)
        requires
            self.wf(),
            0 <= i < self.spec_len(),
            0 <= j < self.spec_len(),
            i != j,
        ensures
            self.key_seq()[i] != self.key_seq()[j],
    {
        assert(self.entries@[i].0@ == self.key_seq()[i]);
        assert(self.entries@[j].0@ == self.key_seq()[j]);
    }

    /// Every key in the view stands in `key_seq`, and the other way round.
    pub proof fn lemma_dom(&self, k: Seq<u8>)
        ensures
            self@.contains_key(k) <==> self.key_seq().contains(k),
    {
        if self@.contains_key(k) {
            let i = choose|i: int| 0 <= i < self.entries@.len() && self.entries@[i].0@ == k;
            assert(self.key_seq()[i] == k);
        }
        if self.key_seq().contains(k) {
            let i = choose|i: int| 0 <= i < self.key_seq().len() && self.key_seq()[i] == k;
            assert(self.entries@[i].0@ == k);
        }
    }

    /// A map whose keys all stand in another map has no more entries.
    pub proof fn lemma_submap_len<W>(&self, other: &ByteMap<W>)
        requires
            self.wf(),
            other.wf(),
            forall|k: Seq<u8>| self@.contains_key(k) ==> other@.contains_key(k),
        ensures
            self.spec_len() <= other.spec_len(),
    {
        assert(self.key_seq().no_duplicates());
        assert(other.key_seq().no_duplicates());
        self.key_seq().unique_seq_to_set();
        other.key_seq().unique_seq_to_set();
        assert forall|k: Seq<u8>| self.key_seq().to_set().contains(k)
            implies other.key_seq().to_set().contains(k) by {
            self.lemma_dom(k);
            other.lemma_dom(k);
        }
        vstd::set_lib::lemma_len_subset(self.key_seq().to_set(), other.key_seq().to_set());
    }

    /// An empty map.
    pub fn new() -> (r: ByteMap<V>)
        ensures
            r.wf(),
            r@ == Map::<Seq<u8>, V>::empty(),
            r.key_seq() == Seq::<Seq<u8>>::empty(),
            r.val_seq() == Seq::<V>::empty(),
    {
        let r = ByteMap { entries: Vec::new() };
        proof {
            assert(r@ =~= Map::<Seq<u8>, V>::empty());
            assert(r.key_seq() =~= Seq::<Seq<u8>>::empty());
            assert(r.val_seq() =~= Seq::<V>::empty());
        }
        r
    }

    /// Number of entries.
    pub fn len(&self) -> (r: usize)
        ensures
            r == self.spec_len(),
    {
        self.entries.len()
    }

    /// Does the map hold key `k`?
    pub fn contains_key(&self, k: &Vec<u8>) -> (r: bool)
        requires
            self.wf(),
        ensures
            r == self@.contains_key(k@),
    {
        let mut i: usize = 0;
        while i < self.entries.len()
            invariant
                self.wf(),
                i <= self.entries@.len(),
                forall|j: int| 0 <= j < i ==> self.entries@[j].0@ != k@,
            decreases self.entries@.len() - i,
    {
            if bytes_eq(&self.entries[i].0, k) {
                proof {
                    self.lemma_index_unique(i as int, k@);
                }
                return true;
            }
            i = i + 1;
        }
        proof {
            self.lemma_absent(k@);
        }
        false
    }

    /// Look the key up.
    pub fn get(&self, k: &Vec<u8>) -> (r: Option<&V>)
        requires
            self.wf(),
        ensures
            match r {
                Some(v) => self@.contains_key(k@) && *v == self@[k@],
                None => !self@.contains_key(k@),
            },
    {
        let mut i: usize = 0;
        while i < self.entries.len()
            invariant
                self.wf(),
                i <= self.entries@.len(),
                forall|j: int| 0 <= j < i ==> self.entries@[j].0@ != k@,
            decreases self.entries@.len() - i,
        {
            if bytes_eq(&self.entries[i].0, k) {
                proof {
                    self.lemma_index_unique(i as int, k@);
                }
                return Some(&self.entries[i].1);
            }
            i = i + 1;
        }
        proof {
            self.lemma_absent(k@);
        }
        None
    }

    /// Index of the entry holding key `k`, if any.
    fn index_of_key(&self, k: &Vec<u8>) -> (r: Option<usize>)
        requires
            self.wf(),
        ensures
            match r {
                Some(i) => i < self.spec_len() && self.key_seq()[i as int] == k@
                    && self@.contains_key(k@),
                None => !self@.contains_key(k@),
            },
    {
        let mut i: usize = 0;
        while i < self.entries.len()
            invariant
                self.wf(),
                i <= self.entries@.len(),
                forall|j: int| 0 <= j < i ==> self.entries@[j].0@ != k@,
            decreases self.entries@.len() - i,
        {
            if bytes_eq(&self.entries[i].0, k) {
                proof {
                    self.lemma_index_unique(i as int, k@);
                    assert(self.key_seq()[i as int] == k@);
                }
                return Some(i);
            }
            i = i + 1;
        }
        proof {
            self.lemma_absent(k@);
        }
        None
    }

    /// Insert or overwrite. A fresh key goes to the end of the order; an
    /// existing key keeps its place.
    pub fn insert(&mut self, k: Vec<u8>, v: V)
        requires
            old(self).wf(),
        ensures
            final(self).wf(),
            final(self)@ == old(self)@.insert(k@, v),
            final(self).key_seq() == if old(self)@.contains_key(k@) {
                old(self).key_seq()
            } else {
                old(self).key_seq().push(k@)
            },
            final(self).val_seq().len() == final(self).key_seq().len(),
            forall|i: int| #![all_triggers]
                0 <= i < final(self).key_seq().len() ==> final(self).val_seq()[i]
                    == val_after_insert(final(self).key_seq(), old(self).val_seq(), i, k@, v),
    {
        let ghost prior = *self;
        let ghost kv = k@;
        let ghost v0 = v;
        match self.index_of_key(&k) {
            Some(i) => {
                proof {
                    assert(prior.entries@[i as int].0@ == kv);
                    prior.lemma_index_unique(i as int, kv);
                }
                self.entries[i] = (k, v);
                proof {
                    assert forall|i2: int, j2: int|
                        0 <= i2 < j2 < self.entries@.len() implies self.entries@[i2].0@
                        != self.entries@[j2].0@ by {
                        assert(prior.entries@[i2].0@ != prior.entries@[j2].0@);
                        assert(self.entries@[i2].0@ == prior.entries@[i2].0@ || (i2 == i
                            && self.entries@[i2].0@ == kv));
                        assert(self.entries@[j2].0@ == prior.entries@[j2].0@ || (j2 == i
                            && self.entries@[j2].0@ == kv));
                    }
                    assert(self.key_seq() =~= prior.key_seq());
                    assert forall|i2: int|
                        0 <= i2 < self.key_seq().len() implies self.val_seq()[i2]
                        == val_after_insert(self.key_seq(), prior.val_seq(), i2, kv, v0) by {
                        if i2 != i {
                            assert(self.entries@[i2] == prior.entries@[i2]);
                            assert(prior.entries@[i2].0@ != kv);
                        }
                    }
                    assert_maps_equal!(self@, prior@.insert(kv, v0), k2 => {
                        if self@.contains_key(k2) {
                            let j = choose|j: int|
                                0 <= j < self.entries@.len() && self.entries@[j].0@ == k2;
                            if j != i {
                                assert(prior.entries@[j].0@ == k2);
                            }
                        }
                        if k2 == kv {
                            self.lemma_index_unique(i as int, kv);
                            assert(self@[k2] == v0);
                        } else if prior@.contains_key(k2) {
                            let j = prior.spec_index_of(k2);
                            assert(prior.entries@[j].0@ == k2);
                            assert(self.entries@[j].0@ == k2);
                            self.lemma_index_unique(j, k2);
                            prior.lemma_index_unique(j, k2);
                            assert(self@[k2] == prior@[k2]);
                        }
                        if self@.contains_key(k2) && k2 != kv {
                            let j = choose|j: int|
                                0 <= j < self.entries@.len() && self.entries@[j].0@ == k2;
                            assert(j != i);
                            assert(prior.entries@[j].0@ == k2);
                            self.lemma_index_unique(j, k2);
                            prior.lemma_index_unique(j, k2);
                            assert(self@[k2] == prior@[k2]);
                        }
                    });
                }
            },
            None => {
                self.entries.push((k, v));
                proof {
                    let ghost n = prior.entries@.len() as int;
                    assert forall|i2: int, j2: int|
                        0 <= i2 < j2 < self.entries@.len() implies self.entries@[i2].0@
                        != self.entries@[j2].0@ by {
                        if j2 < n {
                            assert(prior.entries@[i2].0@ != prior.entries@[j2].0@);
                        } else {
                            assert(self.entries@[j2].0@ == kv);
                            assert(prior.entries@[i2].0@ != kv) by {
                                if prior.entries@[i2].0@ == kv {
                                    prior.lemma_index_unique(i2, kv);
                                }
                            }
                        }
                    }
                    assert(self.key_seq() =~= prior.key_seq().push(kv));
                    assert forall|i2: int|
                        0 <= i2 < self.key_seq().len() implies self.val_seq()[i2]
                        == val_after_insert(self.key_seq(), prior.val_seq(), i2, kv, v0) by {
                        if i2 < n {
                            assert(self.entries@[i2] == prior.entries@[i2]);
                            assert(prior.entries@[i2].0@ != kv);
                        } else {
                            assert(self.entries@[i2] == self.entries@[self.entries@.len() - 1]);
                        }
                    }
                    assert_maps_equal!(self@, prior@.insert(kv, v0), k2 => {
                        if k2 == kv {
                            self.lemma_index_unique(n, kv);
                            assert(self@[k2] == v0);
                        } else {
                            if self@.contains_key(k2) {
                                let j = choose|j: int|
                                    0 <= j < self.entries@.len() && self.entries@[j].0@ == k2;
                                assert(j != n);
                                assert(prior.entries@[j].0@ == k2);
                                self.lemma_index_unique(j, k2);
                                prior.lemma_index_unique(j, k2);
                                assert(self@[k2] == prior@[k2]);
                            }
                            if prior@.contains_key(k2) {
                                let j = prior.spec_index_of(k2);
                                assert(prior.entries@[j].0@ == k2);
                                assert(self.entries@[j].0@ == k2);
                                assert(self@.contains_key(k2));
                            }
                        }
                    });
                }
            },
        }
    }

    /// Take the key out, returning its value if it was there. The order of
    /// the other keys is kept.
    pub fn remove(&mut self, k: &Vec<u8>) -> (r: Option<V>)
        requires
            old(self).wf(),
        ensures
            final(self).wf(),
            final(self)@ == old(self)@.remove(k@),
            match r {
                Some(v) => old(self)@.contains_key(k@) && v == old(self)@[k@]
                    && final(self).key_seq() == old(self).key_seq().remove_value(k@),
                None => !old(self)@.contains_key(k@) && final(self).key_seq() == old(
                    self,
                ).key_seq(),
            },
    {
        let ghost prior = *self;
        match self.index_of_key(k) {
            Some(i) => {
                proof {
                    assert(prior.entries@[i as int].0@ == k@);
                    prior.lemma_index_unique(i as int, k@);
                }
                let (_, v) = self.entries.remove(i);
                proof {
                    assert forall|i2: int, j2: int|
                        0 <= i2 < j2 < self.entries@.len() implies self.entries@[i2].0@
                        != self.entries@[j2].0@ by {
                        let oi = if i2 < i { i2 } else { i2 + 1 };
                        let oj = if j2 < i { j2 } else { j2 + 1 };
                        assert(self.entries@[i2] == prior.entries@[oi]);
                        assert(self.entries@[j2] == prior.entries@[oj]);
                    }
                    assert(self.key_seq() =~= prior.key_seq().remove(i as int));
                    assert(prior.key_seq().contains(k@)) by {
                        assert(prior.key_seq()[i as int] == k@);
                    }
                    prior.key_seq().index_of_first_ensures(k@);
                    match prior.key_seq().index_of_first(k@) {
                        Some(idx) => {
                            assert(prior.key_seq()[idx] == k@);
                            assert(prior.entries@[idx].0@ == k@);
                            prior.lemma_index_unique(idx, k@);
                        },
                        None => {
                            assert(false);
                        },
                    }
                    assert(prior.key_seq().remove_value(k@) == prior.key_seq().remove(i as int));
                    assert_maps_equal!(self@, prior@.remove(k@), k2 => {
                        if self@.contains_key(k2) {
                            let j = choose|j: int|
                                0 <= j < self.entries@.len() && self.entries@[j].0@ == k2;
                            let oj = if j < i { j } else { j + 1 };
                            assert(prior.entries@[oj].0@ == k2);
                            assert(prior.entries@[i as int].0@ == k@);
                            assert(k2 != k@);
                            self.lemma_index_unique(j, k2);
                            prior.lemma_index_unique(oj, k2);
                            assert(self@[k2] == prior@[k2]);
                        }
                        if prior@.contains_key(k2) && k2 != k@ {
                            let j = prior.spec_index_of(k2);
                            assert(prior.entries@[j].0@ == k2);
                            assert(j != i);
                            let nj = if j < i { j } else { j - 1 };
                            assert(self.entries@[nj].0@ == k2);
                            assert(self@.contains_key(k2));
                        }
                    });
                }
                Some(v)
            },
            None => {
                proof {
                    assert(self@ =~= prior@.remove(k@));
                }
                None
            },
        }
    }

    /// The entry standing at place `i` of the iteration order.
    pub fn entry_at(&self, i: usize) -> (r: (&Vec<u8>, &V))
        requires
            self.wf(),
            i < self.spec_len(),
        ensures
            r.0@ == self.key_seq()[i as int],
            self@.contains_key(r.0@),
            *r.1 == self@[r.0@],
            *r.1 == self.val_seq()[i as int],
    {
        proof {
            self.lemma_entry(i as int);
        }
        (&self.entries[i].0, &self.entries[i].1)
    }
}

} // verus!
