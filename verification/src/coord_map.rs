//! Ordered maps keyed by coordinates, kept as a strictly increasing vector of
//! keys beside a vector of values.

use crate::coord_set::{lemma_remove_at, lemma_sorted_no_duplicates, strictly_sorted, CoordSet};
use crate::misc::{coords_lt, Coords};
use vstd::prelude::*;

verus! {

/// In a sequence without duplicates every item is found at its own position.
pub proof fn lemma_index_of_unique<T>(s: Seq<T>, i: int)
    requires
        s.no_duplicates(),
        0 <= i < s.len(),
    ensures
        s.index_of(s[i]) == i,
        s.contains(s[i]),
{
    let j = s.index_of(s[i]);
    assert(0 <= j < s.len() && s[j] == s[i]);
}

/// The map that pairs each key of `keys` with the value at the same position
/// of `vals`.
pub open spec fn zip_map<V>(keys: Seq<Coords>, vals: Seq<V>) -> Map<Coords, V> {
    Map::new(|c: Coords| keys.contains(c), |c: Coords| vals[keys.index_of(c)])
}

/// What [`zip_map`] holds, position by position.
pub proof fn lemma_zip_map<V>(keys: Seq<Coords>, vals: Seq<V>)
    requires
        keys.no_duplicates(),
        keys.len() == vals.len(),
    ensures
        zip_map(keys, vals).dom() == keys.to_set(),
        zip_map(keys, vals).dom().finite(),
        forall|i: int|
            0 <= i < keys.len() ==> zip_map(keys, vals).contains_key(#[trigger] keys[i])
                && zip_map(keys, vals)[keys[i]] == vals[i],
        forall|c: Coords| #[trigger]
            zip_map(keys, vals).contains_key(c) ==> 0 <= keys.index_of(c) < keys.len()
                && keys[keys.index_of(c)] == c,
{
    assert(zip_map(keys, vals).dom() =~= keys.to_set());
    vstd::seq_lib::seq_to_set_is_finite(keys);
    assert forall|i: int| 0 <= i < keys.len() implies zip_map(keys, vals).contains_key(
        #[trigger] keys[i],
    ) && zip_map(keys, vals)[keys[i]] == vals[i] by {
        lemma_index_of_unique(keys, i);
    }
}

/// An ordered map from coordinates to values.
#[derive(Debug)]
pub struct CoordMap<V> {
    keys: Vec<Coords>,
    vals: Vec<V>,
}

impl<V> View for CoordMap<V> {
    type V = Map<Coords, V>;

    open spec fn view(&self) -> Map<Coords, V> {
        zip_map(self.key_seq(), self.val_seq())
    }
}

impl<V> CoordMap<V> {
    /// The keys in increasing order.
    pub closed spec fn key_seq(&self) -> Seq<Coords> {
        self.keys@
    }

    /// The values, in the order of their keys.
    pub closed spec fn val_seq(&self) -> Seq<V> {
        self.vals@
    }

    /// The keys are strictly increasing and each has its value.
    pub open spec fn wf(&self) -> bool {
        &&& strictly_sorted(self.key_seq())
        &&& self.key_seq().len() == self.val_seq().len()
    }

    /// How the listing and the map correspond.
    pub proof fn lemma_entries(&self)
        requires
            self.wf(),
        ensures
            self.key_seq().no_duplicates(),
            self@.dom() == self.key_seq().to_set(),
            self@.dom().finite(),
            self@.dom().len() == self.key_seq().len(),
            forall|i: int|
                0 <= i < self.key_seq().len() ==> self@.contains_key(#[trigger] self.key_seq()[i])
                    && self@[self.key_seq()[i]] == self.val_seq()[i],
            forall|c: Coords| #[trigger]
                self@.contains_key(c) ==> 0 <= self.key_seq().index_of(c) < self.key_seq().len()
                    && self.key_seq()[self.key_seq().index_of(c)] == c,
    {
        lemma_sorted_no_duplicates(self.key_seq());
        lemma_zip_map(self.key_seq(), self.val_seq());
    }

    /// The empty map.
    pub fn new() -> (out: CoordMap<V>)
        ensures
            out.wf(),
            out@ == Map::<Coords, V>::empty(),
            out.key_seq().len() == 0,
    {
        let out = CoordMap { keys: Vec::new(), vals: Vec::new() };
        assert(out@ =~= Map::<Coords, V>::empty());
        out
    }

    /// The number of entries.
    pub fn len(&self) -> (n: usize)
        ensures
            n == self.key_seq().len(),
            self.wf() ==> n == self@.dom().len(),
    {
        proof {
            if self.wf() {
                self.lemma_entries();
            }
        }
        self.keys.len()
    }

    /// Whether the map has no entry.
    pub fn is_empty(&self) -> (b: bool)
        ensures
            b == (self.key_seq().len() == 0),
            b == (self@.dom() == Set::<Coords>::empty()),
    {
        proof {
            if self.key_seq().len() == 0 {
                assert(self@.dom() =~= Set::<Coords>::empty());
            } else {
                assert(self.key_seq()[0] == self.key_seq()[0]);
                assert(self@.dom().contains(self.key_seq()[0]));
            }
        }
        self.keys.len() == 0
    }

    /// The key at position `i` of the increasing listing.
    pub fn key_at(&self, i: usize) -> (k: Coords)
        requires
            i < self.key_seq().len(),
        ensures
            k == self.key_seq()[i as int],
    {
        self.keys[i]
    }

    /// The value at position `i` of the listing.
    pub fn value_at(&self, i: usize) -> (v: &V)
        requires
            self.wf(),
            i < self.key_seq().len(),
        ensures
            *v == self.val_seq()[i as int],
            self@.contains_key(self.key_seq()[i as int]),
            *v == self@[self.key_seq()[i as int]],
    {
        proof {
            self.lemma_entries();
        }
        &self.vals[i]
    }

    /// Where `k` stands in the listing, or where it would have to be put.
    pub fn find(&self, k: &Coords) -> (at: (usize, bool))
        requires
            self.wf(),
        ensures
            at.0 <= self.key_seq().len(),
            at.1 == self@.contains_key(*k),
            at.1 ==> at.0 < self.key_seq().len() && self.key_seq()[at.0 as int] == *k,
            forall|i: int| 0 <= i < at.0 ==> coords_lt(#[trigger] self.key_seq()[i], *k),
            forall|i: int|
                at.0 <= i < self.key_seq().len() && !(at.1 && i == at.0) ==> coords_lt(
                    *k,
                    #[trigger] self.key_seq()[i],
                ),
    {
        let mut lo: usize = 0;
        let mut hi: usize = self.keys.len();
        while lo < hi
            invariant
                lo <= hi <= self.keys.len(),
                self.wf(),
                forall|i: int| 0 <= i < lo ==> coords_lt(#[trigger] self.keys@[i], *k),
                forall|i: int| hi <= i < self.keys.len() ==> !coords_lt(#[trigger] self.keys@[i], *k),
            decreases hi - lo,
        {
            let mid: usize = lo + (hi - lo) / 2;
            if self.keys[mid].precedes(k) {
                assert forall|i: int| 0 <= i < mid + 1 implies coords_lt(
                    #[trigger] self.keys@[i],
                    *k,
                ) by {
                    if i < mid {
                        assert(coords_lt(self.keys@[i], self.keys@[mid as int]));
                    }
                }
                lo = mid + 1;
            } else {
                assert forall|i: int| mid <= i < self.keys.len() implies !coords_lt(
                    #[trigger] self.keys@[i],
                    *k,
                ) by {
                    if mid < i {
                        assert(coords_lt(self.keys@[mid as int], self.keys@[i]));
                    }
                }
                hi = mid;
            }
        }
        let found = lo < self.keys.len() && self.keys[lo] == *k;
        proof {
            let ks = self.key_seq();
            if found {
                assert(ks[lo as int] == *k);
                assert(ks.contains(*k));
            } else if ks.contains(*k) {
                let j = choose|j: int| 0 <= j < ks.len() && ks[j] == *k;
                if j < lo {
                    assert(coords_lt(ks[j], *k));
                } else if j > lo {
                    assert(coords_lt(ks[lo as int], ks[j]));
                    assert(!coords_lt(ks[lo as int], *k));
                }
            }
            assert forall|i: int|
                lo <= i < ks.len() && !(found && i == lo) implies coords_lt(*k, #[trigger] ks[i]) by {
                assert(!coords_lt(ks[i], *k));
                if ks[i] == *k {
                    if i > lo {
                        assert(coords_lt(ks[lo as int], ks[i]));
                        assert(!coords_lt(ks[lo as int], *k));
                    }
                }
            }
        }
        (lo, found)
    }

    /// Whether `k` has an entry.
    pub fn contains_key(&self, k: &Coords) -> (b: bool)
        requires
            self.wf(),
        ensures
            b == self@.contains_key(*k),
    {
        self.find(k).1
    }

    /// The value stored under `k`, if there is one.
    pub fn get(&self, k: &Coords) -> (v: Option<&V>)
        requires
            self.wf(),
        ensures
            v is Some <==> self@.contains_key(*k),
            v is Some ==> *v.unwrap() == self@[*k],
    {
        let (at, found) = self.find(k);
        if found {
            proof {
                self.lemma_entries();
            }
            Some(&self.vals[at])
        } else {
            None
        }
    }

    /// Stores `v` under `k`, replacing what was there.
    pub fn insert(&mut self, k: Coords, v: V)
        requires
            old(self).wf(),
        ensures
            final(self).wf(),
            final(self)@ == old(self)@.insert(k, v),
    {
        let (at, found) = self.find(&k);
        let ghost keys0 = self.keys@;
        let ghost vals0 = self.vals@;
        proof {
            self.lemma_entries();
        }
        if found {
            self.vals.set(at, v);
            proof {
                self.lemma_entries();
                let vals1 = self.vals@;
                assert(vals1 == vals0.update(at as int, v));
                assert forall|c: Coords| keys0.contains(c) implies zip_map(keys0, vals1)[c]
                    == zip_map(keys0, vals0).insert(k, v)[c] by {
                    let j = keys0.index_of(c);
                    assert(keys0[j] == c);
                    assert(keys0[at as int] == k);
                }
                assert(keys0.contains(k));
                assert(self@ =~= old(self)@.insert(k, v));
            }
        } else {
            self.keys.insert(at, k);
            self.vals.insert(at, v);
            proof {
                let keys1 = self.keys@;
                let vals1 = self.vals@;
                assert(keys1 == keys0.insert(at as int, k));
                assert(vals1 == vals0.insert(at as int, v));
                assert forall|i: int, j: int| 0 <= i < j < keys1.len() implies coords_lt(
                    #[trigger] keys1[i],
                    #[trigger] keys1[j],
                ) by {
                    let bi = if i < at { i } else { i - 1 };
                    let bj = if j < at { j } else { j - 1 };
                    if i != at && j != at {
                        assert(coords_lt(keys0[bi], keys0[bj]));
                    } else if i == at {
                        assert(coords_lt(k, keys0[bj]));
                    } else {
                        assert(coords_lt(keys0[bi], k));
                    }
                }
                self.lemma_entries();
                let m1 = zip_map(keys1, vals1);
                let m0 = zip_map(keys0, vals0);
                assert forall|c: Coords| m1.contains_key(c) <==> (c == k || m0.contains_key(
                    c,
                )) by {
                    if keys1.contains(c) {
                        let j = choose|j: int| 0 <= j < keys1.len() && keys1[j] == c;
                        if j < at {
                            assert(keys0[j] == c);
                        } else if j > at {
                            assert(keys0[j - 1] == c);
                        }
                    }
                    if c == k {
                        assert(keys1[at as int] == c);
                    } else if keys0.contains(c) {
                        let j = choose|j: int| 0 <= j < keys0.len() && keys0[j] == c;
                        if j < at {
                            assert(keys1[j] == c);
                        } else {
                            assert(keys1[j + 1] == c);
                        }
                    }
                }
                assert forall|c: Coords| m1.contains_key(c) implies m1[c] == m0.insert(k, v)[c] by {
                    let j = keys1.index_of(c);
                    assert(keys1[j] == c);
                    assert(m1[keys1[j]] == vals1[j]);
                    if j < at {
                        assert(keys0[j] == c);
                        assert(m0[keys0[j]] == vals0[j]);
                    } else if j > at {
                        assert(keys0[j - 1] == c);
                        assert(m0[keys0[j - 1]] == vals0[j - 1]);
                        assert(coords_lt(k, keys0[j - 1]));
                    }
                }
                assert(self@ =~= old(self)@.insert(k, v));
            }
        }
    }

    /// Takes the entry of `k` out and returns its value, if there was one.
    pub fn remove(&mut self, k: &Coords) -> (v: Option<V>)
        requires
            old(self).wf(),
        ensures
            final(self).wf(),
            final(self)@ == old(self)@.remove(*k),
            v is Some <==> old(self)@.contains_key(*k),
            v is Some ==> v.unwrap() == old(self)@[*k],
    {
        let (at, found) = self.find(k);
        if !found {
            assert(self@ =~= old(self)@.remove(*k));
            return None;
        }
        let ghost keys0 = self.keys@;
        let ghost vals0 = self.vals@;
        proof {
            self.lemma_entries();
        }
        self.keys.remove(at);
        let v = self.vals.remove(at);
        proof {
            let keys1 = self.keys@;
            let vals1 = self.vals@;
            assert(keys1 == keys0.remove(at as int));
            assert(vals1 == vals0.remove(at as int));
            lemma_remove_at(keys0, at as int);
            self.lemma_entries();
            let m1 = zip_map(keys1, vals1);
            let m0 = zip_map(keys0, vals0);
            assert(m1.dom() =~= m0.dom().remove(*k));
            assert forall|c: Coords| m1.contains_key(c) implies m1[c] == m0[c] by {
                let j = keys1.index_of(c);
                assert(keys1[j] == c);
                assert(m1[keys1[j]] == vals1[j]);
                let sj = if j < at { j } else { j + 1 };
                assert(keys0[sj] == c);
                assert(m0[keys0[sj]] == vals0[sj]);
            }
            assert(self@ =~= old(self)@.remove(*k));
        }
        Some(v)
    }

    /// Replaces the value at position `i` of the listing.
    pub fn set_at(&mut self, i: usize, v: V)
        requires
            old(self).wf(),
            i < old(self).key_seq().len(),
        ensures
            final(self).wf(),
            final(self).key_seq() == old(self).key_seq(),
            final(self).val_seq() == old(self).val_seq().update(i as int, v),
            final(self)@ == old(self)@.insert(old(self).key_seq()[i as int], v),
    {
        let ghost keys0 = self.keys@;
        let ghost vals0 = self.vals@;
        proof {
            self.lemma_entries();
        }
        self.vals.set(i, v);
        proof {
            self.lemma_entries();
            let vals1 = self.vals@;
            let k = keys0[i as int];
            assert forall|c: Coords| keys0.contains(c) implies zip_map(keys0, vals1)[c] == zip_map(
                keys0,
                vals0,
            ).insert(k, v)[c] by {
                let j = keys0.index_of(c);
                assert(keys0[j] == c);
            }
            assert(keys0.contains(k));
            assert(self@ =~= old(self)@.insert(k, v));
        }
    }

    /// The set of keys.
    pub fn key_set(&self) -> (out: CoordSet)
        requires
            self.wf(),
        ensures
            out.wf(),
            out@ == self@.dom(),
            out.seq() == self.key_seq(),
    {
        let mut out = CoordSet::new();
        let mut i: usize = 0;
        while i < self.keys.len()
            invariant
                i <= self.keys.len(),
                self.wf(),
                out.wf(),
                out.seq() == self.keys@.take(i as int),
            decreases self.keys.len() - i,
        {
            let k = self.keys[i];
            proof {
                assert(!out@.contains(k)) by {
                    if out.seq().contains(k) {
                        let j = choose|j: int| 0 <= j < out.seq().len() && out.seq()[j] == k;
                        assert(coords_lt(self.keys@[j], self.keys@[i as int]));
                    }
                }
            }
            out.insert(k);
            proof {
                let target = self.keys@.take(i + 1);
                assert(strictly_sorted(target));
                crate::coord_set::lemma_take_next_set(self.keys@, i as int);
                crate::coord_set::lemma_sorted_unique(out.seq(), target);
            }
            i = i + 1;
        }
        proof {
            assert(self.keys@.take(i as int) =~= self.keys@);
            self.lemma_entries();
        }
        out
    }

    /// Takes the entry with the largest key out and returns it, if the map is
    /// not empty.
    pub fn pop_last(&mut self) -> (out: Option<(Coords, V)>)
        requires
            old(self).wf(),
        ensures
            final(self).wf(),
            out is None ==> old(self).key_seq().len() == 0 && final(self)@ == old(self)@,
            out is Some ==> {
                let (k, v) = out.unwrap();
                &&& old(self)@.contains_key(k)
                &&& old(self)@[k] == v
                &&& final(self)@ == old(self)@.remove(k)
                &&& final(self).key_seq() == old(self).key_seq().drop_last()
                &&& final(self).val_seq() == old(self).val_seq().drop_last()
                &&& k == old(self).key_seq().last()
            },
    {
        let ghost keys0 = self.keys@;
        let ghost vals0 = self.vals@;
        proof {
            self.lemma_entries();
        }
        if self.keys.len() == 0 {
            return None;
        }
        let k = self.keys.pop().unwrap();
        let v = self.vals.pop().unwrap();
        proof {
            let at = keys0.len() - 1;
            assert(self.keys@ =~= keys0.remove(at));
            assert(self.vals@ =~= vals0.remove(at));
            assert(self.keys@ =~= keys0.drop_last());
            assert(self.vals@ =~= vals0.drop_last());
            lemma_remove_at(keys0, at);
            self.lemma_entries();
            let m1 = zip_map(self.keys@, self.vals@);
            let m0 = zip_map(keys0, vals0);
            assert(m1.dom() =~= m0.dom().remove(k));
            assert forall|c: Coords| m1.contains_key(c) implies m1[c] == m0[c] by {
                let j = self.keys@.index_of(c);
                assert(self.keys@[j] == c);
                assert(m1[self.keys@[j]] == self.vals@[j]);
                assert(keys0[j] == c);
                assert(m0[keys0[j]] == vals0[j]);
            }
            assert(m1 =~= m0.remove(k));
            assert(m0[keys0[at]] == vals0[at]);
        }
        Some((k, v))
    }
}

} // verus!
