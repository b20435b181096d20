//! Ordered sets of coordinates, kept as strictly increasing vectors.

use crate::misc::{coords_lt, Coords};
use vstd::prelude::*;

verus! {

/// Whether a sequence of coordinates is strictly increasing.
pub open spec fn strictly_sorted(s: Seq<Coords>) -> bool {
    forall|i: int, j: int| 0 <= i < j < s.len() ==> coords_lt(#[trigger] s[i], #[trigger] s[j])
}

/// A strictly increasing sequence holds nothing twice.
pub proof fn lemma_sorted_no_duplicates(s: Seq<Coords>)
    requires
        strictly_sorted(s),
    ensures
        s.no_duplicates(),
        s.to_set().finite(),
        s.to_set().len() == s.len(),
{
    assert forall|i: int, j: int| 0 <= i < s.len() && 0 <= j < s.len() && i != j implies s[i]
        != s[j] by {
        if i < j {
            assert(coords_lt(s[i], s[j]));
        } else {
            assert(coords_lt(s[j], s[i]));
        }
    }
    s.unique_seq_to_set();
    vstd::seq_lib::seq_to_set_is_finite(s);
}

/// Two strictly increasing sequences with the same members are the same
/// sequence.
pub proof fn lemma_sorted_unique(a: Seq<Coords>, b: Seq<Coords>)
    requires
        strictly_sorted(a),
        strictly_sorted(b),
        a.to_set() == b.to_set(),
    ensures
        a == b,
    decreases a.len(),
{
    lemma_sorted_no_duplicates(a);
    lemma_sorted_no_duplicates(b);
    if a.len() == 0 {
        assert(a =~= b);
    } else {
        let x = a.last();
        let y = b.last();
        assert(a.to_set().contains(x)) by {
            assert(a[a.len() - 1] == x);
        }
        assert(b.to_set().contains(y)) by {
            assert(b[b.len() - 1] == y);
        }
        assert(b.contains(x));
        assert(a.contains(y));
        let i = choose|i: int| 0 <= i < b.len() && b[i] == x;
        let j = choose|j: int| 0 <= j < a.len() && a[j] == y;
        if i < b.len() - 1 {
            assert(coords_lt(b[i], b[b.len() - 1]));
        }
        if j < a.len() - 1 {
            assert(coords_lt(a[j], a[a.len() - 1]));
        }
        assert(x == y);
        let a0 = a.drop_last();
        let b0 = b.drop_last();
        assert(strictly_sorted(a0));
        assert(strictly_sorted(b0));
        assert(a0.to_set() =~= b0.to_set()) by {
            assert forall|c: Coords| a0.contains(c) <==> b0.contains(c) by {
                if a0.contains(c) {
                    let k = choose|k: int| 0 <= k < a0.len() && a0[k] == c;
                    assert(a[k] == c);
                    assert(coords_lt(a[k], a[a.len() - 1]));
                    assert(a.to_set().contains(c));
                    assert(b.contains(c));
                    let m = choose|m: int| 0 <= m < b.len() && b[m] == c;
                    assert(b0[m] == c);
                }
                if b0.contains(c) {
                    let k = choose|k: int| 0 <= k < b0.len() && b0[k] == c;
                    assert(b[k] == c);
                    assert(coords_lt(b[k], b[b.len() - 1]));
                    assert(b.to_set().contains(c));
                    assert(a.contains(c));
                    let m = choose|m: int| 0 <= m < a.len() && a[m] == c;
                    assert(a0[m] == c);
                }
            }
        }
        lemma_sorted_unique(a0, b0);
        assert(a =~= a0.push(x));
        assert(b =~= b0.push(y));
    }
}

/// An ordered set of coordinates.
#[derive(Debug)]
pub struct CoordSet {
    items: Vec<Coords>,
}

impl View for CoordSet {
    type V = Set<Coords>;

    open spec fn view(&self) -> Set<Coords> {
        self.seq().to_set()
    }
}

impl CoordSet {
    /// The members in increasing order.
    pub closed spec fn seq(&self) -> Seq<Coords> {
        self.items@
    }

    /// The members are listed in strictly increasing order.
    pub open spec fn wf(&self) -> bool {
        strictly_sorted(self.seq())
    }

    /// A well-formed set is finite and has as many members as its listing.
    pub proof fn lemma_len(&self)
        requires
            self.wf(),
        ensures
            self@.finite(),
            self@.len() == self.seq().len(),
            self.seq().no_duplicates(),
    {
        lemma_sorted_no_duplicates(self.seq());
    }

    /// Equal sets have equal listings.
    pub proof fn lemma_same_view(&self, other: &CoordSet)
        requires
            self.wf(),
            other.wf(),
            self@ == other@,
        ensures
            self.seq() == other.seq(),
    {
        lemma_sorted_unique(self.seq(), other.seq());
    }

    /// The empty set.
    pub fn new() -> (out: CoordSet)
        ensures
            out.wf(),
            out@ == Set::<Coords>::empty(),
            out.seq().len() == 0,
    {
        let out = CoordSet { items: Vec::new() };
        assert(out@ =~= Set::<Coords>::empty());
        out
    }

    /// The number of members.
    pub fn len(&self) -> (n: usize)
        ensures
            n == self.seq().len(),
            self.wf() ==> n == self@.len(),
    {
        proof {
            if self.wf() {
                self.lemma_len();
            }
        }
        self.items.len()
    }

    /// Whether the set has no member.
    pub fn is_empty(&self) -> (b: bool)
        ensures
            b == (self.seq().len() == 0),
            b == (self@ == Set::<Coords>::empty()),
    {
        proof {
            if self.seq().len() == 0 {
                assert(self@ =~= Set::<Coords>::empty());
            } else {
                assert(self.seq()[0] == self.seq()[0]);
                assert(self@.contains(self.seq()[0]));
            }
        }
        self.items.len() == 0
    }

    /// The member at position `i` of the increasing listing.
    pub fn nth(&self, i: usize) -> (c: Coords)
        requires
            i < self.seq().len(),
        ensures
            c == self.seq()[i as int],
            self@.contains(c),
    {
        self.items[i]
    }

    /// A copy of the set.
    pub fn copy(&self) -> (out: CoordSet)
        ensures
            out.seq() == self.seq(),
            out@ == self@,
    {
        let mut items: Vec<Coords> = Vec::new();
        let mut i: usize = 0;
        while i < self.items.len()
            invariant
                i <= self.items.len(),
                items@ == self.items@.take(i as int),
            decreases self.items.len() - i,
        {
            items.push(self.items[i]);
            assert(items@ =~= self.items@.take(i + 1));
            i = i + 1;
        }
        assert(items@ =~= self.items@);
        CoordSet { items }
    }

    /// Where `c` stands in the listing, or where it would have to be put.
    pub fn find(&self, c: &Coords) -> (at: (usize, bool))
        requires
            self.wf(),
        ensures
            at.0 <= self.seq().len(),
            at.1 == self@.contains(*c),
            at.1 ==> at.0 < self.seq().len() && self.seq()[at.0 as int] == *c,
            forall|i: int| 0 <= i < at.0 ==> coords_lt(#[trigger] self.seq()[i], *c),
            forall|i: int|
                at.0 <= i < self.seq().len() && !(at.1 && i == at.0) ==> coords_lt(
                    *c,
                    #[trigger] self.seq()[i],
                ),
    {
        let mut lo: usize = 0;
        let mut hi: usize = self.items.len();
        while lo < hi
            invariant
                lo <= hi <= self.items.len(),
                self.wf(),
                forall|i: int| 0 <= i < lo ==> coords_lt(#[trigger] self.items@[i], *c),
                forall|i: int| hi <= i < self.items.len() ==> !coords_lt(#[trigger] self.items@[i], *c),
            decreases hi - lo,
        {
            let mid: usize = lo + (hi - lo) / 2;
            if self.items[mid].precedes(c) {
                assert forall|i: int| 0 <= i < mid + 1 implies coords_lt(
                    #[trigger] self.items@[i],
                    *c,
                ) by {
                    if i < mid {
                        assert(coords_lt(self.items@[i], self.items@[mid as int]));
                    }
                }
                lo = mid + 1;
            } else {
                assert forall|i: int| mid <= i < self.items.len() implies !coords_lt(
                    #[trigger] self.items@[i],
                    *c,
                ) by {
                    if mid < i {
                        assert(coords_lt(self.items@[mid as int], self.items@[i]));
                    }
                }
                hi = mid;
            }
        }
        let found = lo < self.items.len() && self.items[lo] == *c;
        proof {
            if found {
                assert(self.seq()[lo as int] == *c);
                assert(self@.contains(*c));
            } else if self@.contains(*c) {
                let k = choose|k: int| 0 <= k < self.seq().len() && self.seq()[k] == *c;
                if k < lo {
                    assert(coords_lt(self.seq()[k], *c));
                } else if k > lo {
                    assert(coords_lt(self.seq()[lo as int], self.seq()[k]));
                    assert(!coords_lt(self.seq()[lo as int], *c));
                }
            }
            assert forall|i: int|
                lo <= i < self.seq().len() && !(found && i == lo) implies coords_lt(
                *c,
                #[trigger] self.seq()[i],
            ) by {
                assert(!coords_lt(self.seq()[i], *c));
                if self.seq()[i] == *c {
                    if i > lo {
                        assert(coords_lt(self.seq()[lo as int], self.seq()[i]));
                        assert(!coords_lt(self.seq()[lo as int], *c));
                    }
                }
            }
        }
        (lo, found)
    }

    /// Whether `c` is a member.
    pub fn contains(&self, c: &Coords) -> (b: bool)
        requires
            self.wf(),
        ensures
            b == self@.contains(*c),
    {
        self.find(c).1
    }

    /// Adds `c`. Returns whether it was new.
    pub fn insert(&mut self, c: Coords) -> (fresh: bool)
        requires
            old(self).wf(),
        ensures
            final(self).wf(),
            final(self)@ == old(self)@.insert(c),
            fresh == !old(self)@.contains(c),
            fresh ==> final(self).seq().len() == old(self).seq().len() + 1,
            !fresh ==> final(self).seq() == old(self).seq(),
    {
        let (at, found) = self.find(&c);
        if found {
            assert(self@ =~= old(self)@.insert(c));
            return false;
        }
        let ghost before = self.items@;
        self.items.insert(at, c);
        proof {
            let after = self.items@;
            assert(after == before.insert(at as int, c));
            assert forall|i: int, j: int| 0 <= i < j < after.len() implies coords_lt(
                #[trigger] after[i],
                #[trigger] after[j],
            ) by {
                let bi = if i < at { i } else { i - 1 };
                let bj = if j < at { j } else { j - 1 };
                if i != at && j != at {
                    assert(coords_lt(before[bi], before[bj]));
                } else if i == at {
                    assert(coords_lt(c, before[bj]));
                } else {
                    assert(coords_lt(before[bi], c));
                }
            }
            assert(after.to_set() =~= before.to_set().insert(c)) by {
                assert forall|x: Coords| after.contains(x) <==> (x == c || before.contains(x)) by {
                    if after.contains(x) {
                        let k = choose|k: int| 0 <= k < after.len() && after[k] == x;
                        if k < at {
                            assert(before[k] == x);
                        } else if k > at {
                            assert(before[k - 1] == x);
                        }
                    }
                    if x == c {
                        assert(after[at as int] == x);
                    } else if before.contains(x) {
                        let k = choose|k: int| 0 <= k < before.len() && before[k] == x;
                        if k < at {
                            assert(after[k] == x);
                        } else {
                            assert(after[k + 1] == x);
                        }
                    }
                }
            }
        }
        true
    }

    /// Takes `c` out. Returns whether it was a member.
    pub fn remove(&mut self, c: &Coords) -> (was: bool)
        requires
            old(self).wf(),
        ensures
            final(self).wf(),
            final(self)@ == old(self)@.remove(*c),
            was == old(self)@.contains(*c),
            was ==> final(self).seq().len() + 1 == old(self).seq().len(),
            !was ==> final(self).seq() == old(self).seq(),
    {
        let (at, found) = self.find(c);
        if !found {
            assert(self@ =~= old(self)@.remove(*c));
            return false;
        }
        let ghost before = self.items@;
        self.items.remove(at);
        proof {
            let after = self.items@;
            assert(after == before.remove(at as int));
            lemma_remove_at(before, at as int);
        }
        true
    }

    /// The set with the single member `c`.
    pub fn singleton(c: Coords) -> (out: CoordSet)
        ensures
            out.wf(),
            out@ == set![c],
            out.seq() == seq![c],
    {
        let mut items: Vec<Coords> = Vec::new();
        items.push(c);
        let out = CoordSet { items };
        assert(out.seq() =~= seq![c]);
        assert(out@ =~= set![c]) by {
            assert forall|x: Coords| out.seq().contains(x) <==> x == c by {
                if x == c {
                    assert(out.seq()[0] == c);
                }
            }
        }
        out
    }

    /// Every coordinate that is in `self` or in `other`.
    pub fn union(&self, other: &CoordSet) -> (out: CoordSet)
        requires
            self.wf(),
            other.wf(),
        ensures
            out.wf(),
            out@ == self@.union(other@),
    {
        let mut out = self.copy();
        let mut i: usize = 0;
        while i < other.len()
            invariant
                i <= other.seq().len(),
                out.wf(),
                out@ == self@.union(other.seq().take(i as int).to_set()),
            decreases other.seq().len() - i,
        {
            let c = other.nth(i);
            out.insert(c);
            proof {
                lemma_take_next_set(other.seq(), i as int);
                assert(out@ =~= self@.union(other.seq().take(i + 1).to_set()));
            }
            i = i + 1;
        }
        assert(other.seq().take(i as int) =~= other.seq());
        out
    }

    /// Every coordinate that is both in `self` and in `other`.
    pub fn intersection(&self, other: &CoordSet) -> (out: CoordSet)
        requires
            self.wf(),
            other.wf(),
        ensures
            out.wf(),
            out@ == self@.intersect(other@),
    {
        let mut out = CoordSet::new();
        let mut i: usize = 0;
        while i < self.len()
            invariant
                i <= self.seq().len(),
                other.wf(),
                out.wf(),
                out@ == self.seq().take(i as int).to_set().intersect(other@),
            decreases self.seq().len() - i,
        {
            let c = self.nth(i);
            proof {
                lemma_take_next_set(self.seq(), i as int);
            }
            if other.contains(&c) {
                out.insert(c);
            }
            assert(out@ =~= self.seq().take(i + 1).to_set().intersect(other@));
            i = i + 1;
        }
        assert(self.seq().take(i as int) =~= self.seq());
        out
    }

    /// Whether `self` and `other` share no coordinate.
    pub fn is_disjoint(&self, other: &CoordSet) -> (b: bool)
        requires
            self.wf(),
            other.wf(),
        ensures
            b == self@.disjoint(other@),
    {
        let mut i: usize = 0;
        while i < self.len()
            invariant
                i <= self.seq().len(),
                other.wf(),
                forall|k: int| 0 <= k < i ==> !other@.contains(#[trigger] self.seq()[k]),
            decreases self.seq().len() - i,
        {
            let c = self.nth(i);
            if other.contains(&c) {
                return false;
            }
            i = i + 1;
        }
        proof {
            assert forall|x: Coords| !(self@.contains(x) && other@.contains(x)) by {
                if self@.contains(x) {
                    let k = choose|k: int| 0 <= k < self.seq().len() && self.seq()[k] == x;
                    assert(!other@.contains(self.seq()[k]));
                }
            }
        }
        true
    }

    /// Whether the two sets have the same members.
    pub fn same(&self, other: &CoordSet) -> (b: bool)
        requires
            self.wf(),
            other.wf(),
        ensures
            b == (self@ == other@),
            b == (self.seq() == other.seq()),
    {
        proof {
            if self@ == other@ {
                self.lemma_same_view(other);
            }
        }
        if self.len() != other.len() {
            return false;
        }
        let mut i: usize = 0;
        while i < self.len()
            invariant
                i <= self.seq().len(),
                self.seq().len() == other.seq().len(),
                self@ == other@ ==> self.seq() == other.seq(),
                forall|k: int| 0 <= k < i ==> self.seq()[k] == other.seq()[k],
            decreases self.seq().len() - i,
        {
            if self.nth(i) != other.nth(i) {
                return false;
            }
            i = i + 1;
        }
        assert(self.seq() =~= other.seq());
        true
    }

    /// The members in increasing order.
    pub fn to_vec(&self) -> (out: Vec<Coords>)
        ensures
            out@ == self.seq(),
    {
        self.copy().items
    }
}

/// Taking one more item of a sequence adds that item to the set of those taken.
pub proof fn lemma_take_next_set<T>(s: Seq<T>, i: int)
    requires
        0 <= i < s.len(),
    ensures
        s.take(i + 1).to_set() == s.take(i).to_set().insert(s[i]),
{
    let a = s.take(i + 1);
    let b = s.take(i);
    assert forall|x: T| a.contains(x) <==> (x == s[i] || b.contains(x)) by {
        if a.contains(x) {
            let k = choose|k: int| 0 <= k < a.len() && a[k] == x;
            if k < i {
                assert(b[k] == x);
            }
        }
        if x == s[i] {
            assert(a[i] == x);
        } else if b.contains(x) {
            let k = choose|k: int| 0 <= k < b.len() && b[k] == x;
            assert(a[k] == x);
        }
    }
    assert(a.to_set() =~= b.to_set().insert(s[i]));
}

/// Removing one position of a strictly increasing sequence leaves it strictly
/// increasing and removes that member from its set.
pub proof fn lemma_remove_at(s: Seq<Coords>, at: int)
    requires
        strictly_sorted(s),
        0 <= at < s.len(),
    ensures
        strictly_sorted(s.remove(at)),
        s.remove(at).to_set() == s.to_set().remove(s[at]),
{
    let t = s.remove(at);
    assert forall|i: int, j: int| 0 <= i < j < t.len() implies coords_lt(
        #[trigger] t[i],
        #[trigger] t[j],
    ) by {
        let si = if i < at { i } else { i + 1 };
        let sj = if j < at { j } else { j + 1 };
        assert(coords_lt(s[si], s[sj]));
    }
    assert forall|x: Coords| t.contains(x) <==> (x != s[at] && s.contains(x)) by {
        if t.contains(x) {
            let k = choose|k: int| 0 <= k < t.len() && t[k] == x;
            let sk = if k < at { k } else { k + 1 };
            assert(s[sk] == x);
            if sk < at {
                assert(coords_lt(s[sk], s[at]));
            } else {
                assert(coords_lt(s[at], s[sk]));
            }
        }
        if x != s[at] && s.contains(x) {
            let k = choose|k: int| 0 <= k < s.len() && s[k] == x;
            if k < at {
                assert(t[k] == x);
            } else {
                assert(t[k - 1] == x);
            }
        }
    }
    assert(t.to_set() =~= s.to_set().remove(s[at]));
}

} // verus!
