//! The mathematical model of a multiverse: a scope and the set of colourings
//! of that scope that are still possible, with the laws of narrowing and
//! merging.

use crate::defn::Color;
use crate::misc::Coords;
use vstd::prelude::*;

verus! {

/// One colouring of a set of cells.
pub type World = Map<Coords, Color>;

/// What a multiverse currently says about its scope.
#[derive(Debug, Copy, Clone, PartialEq, Eq, Structural)]
pub enum State {
    /// Several colourings remain, or exactly one.
    Running,
    /// No colouring remains: the clues contradict each other.
    Stuck,
    /// The scope is empty: nothing is left to find out.
    Empty,
}

/// A scope together with the colourings of it that remain possible.
pub struct MultiverseView {
    pub scope: Set<Coords>,
    pub worlds: Set<World>,
}

impl MultiverseView {
    /// The scope is finite, there are finitely many worlds, and each world
    /// colours exactly the scope.
    pub open spec fn wf(self) -> bool {
        &&& self.scope.finite()
        &&& self.worlds.finite()
        &&& forall|w: World| #[trigger] self.worlds.contains(w) ==> w.dom() == self.scope
    }

    /// No world remains.
    pub open spec fn stuck(self) -> bool {
        forall|w: World| !self.worlds.contains(w)
    }

    /// `Empty` when the scope is empty, `Stuck` when the scope is not empty
    /// but no world remains, `Running` otherwise.
    pub open spec fn state(self) -> State {
        if self.scope =~= Set::<Coords>::empty() {
            State::Empty
        } else if self.stuck() {
            State::Stuck
        } else {
            State::Running
        }
    }

    /// The multiverse with an empty scope and its one, empty, colouring.
    pub open spec fn unit() -> MultiverseView {
        MultiverseView { scope: Set::empty(), worlds: set![Map::<Coords, Color>::empty()] }
    }

    /// The multiverse after learning that `c` has colour `col`: `c` leaves the
    /// scope, and the worlds that gave `c` that colour remain, without `c`.
    /// Nothing changes when `c` is not in the scope.
    pub open spec fn learn(self, c: Coords, col: Color) -> MultiverseView {
        if !self.scope.contains(c) {
            self
        } else {
            MultiverseView {
                scope: self.scope.remove(c),
                worlds: Set::new(
                    |w: World| !w.contains_key(c) && self.worlds.contains(w.insert(c, col)),
                ),
            }
        }
    }

    /// The multiverse over both scopes whose worlds are the colourings that
    /// restrict to a world of `self` and to a world of `other`.
    pub open spec fn merge(self, other: MultiverseView) -> MultiverseView {
        MultiverseView {
            scope: self.scope.union(other.scope),
            worlds: Set::new(
                |w: World|
                    w.dom() =~= self.scope.union(other.scope) && self.worlds.contains(
                        w.restrict(self.scope),
                    ) && other.worlds.contains(w.restrict(other.scope)),
            ),
        }
    }

    /// Whether `c` is in the scope, some world remains, and `c` has colour
    /// `col` in every world.
    pub open spec fn forces(self, c: Coords, col: Color) -> bool {
        &&& self.scope.contains(c)
        &&& !self.stuck()
        &&& forall|w: World| #[trigger] self.worlds.contains(w) ==> w[c] == col
    }

    /// The cells whose colour is the same in every world, each with that
    /// colour.
    pub open spec fn invariants(self) -> Map<Coords, Color> {
        Map::new(
            |c: Coords| self.forces(c, Color::Blue) || self.forces(c, Color::Black),
            |c: Coords|
                if self.forces(c, Color::Blue) {
                    Color::Blue
                } else {
                    Color::Black
                },
        )
    }

    /// Whether the colouring `t`, of at least the scope, is one of the worlds
    /// once it is cut down to the scope.
    pub open spec fn admits(self, t: World) -> bool {
        &&& self.scope.subset_of(t.dom())
        &&& self.worlds.contains(t.restrict(self.scope))
    }

    /// The multiverse after learning every cell of `known` that is in the
    /// scope.
    pub open spec fn learn_all(self, known: World) -> MultiverseView {
        MultiverseView {
            scope: self.scope.difference(known.dom()),
            worlds: Set::new(
                |w: World|
                    w.dom().disjoint(known.dom()) && self.worlds.contains(
                        w.union_prefer_right(known.restrict(self.scope)),
                    ),
            ),
        }
    }
}

/// Learning a cell takes exactly that cell out of the scope.
pub proof fn lemma_learn_scope(m: MultiverseView, c: Coords, col: Color)
    ensures
        m.learn(c, col).scope == m.scope.remove(c),
{
    assert(m.learn(c, col).scope =~= m.scope.remove(c));
}

/// Learning the same thing twice is learning it once.
pub proof fn lemma_learn_idempotent(m: MultiverseView, c: Coords, col: Color)
    ensures
        m.learn(c, col).learn(c, col) == m.learn(c, col),
{
}

/// Two different cells can be learned in either order.
pub proof fn lemma_learn_commutes(m: MultiverseView, c1: Coords, x: Color, c2: Coords, y: Color)
    requires
        c1 != c2,
    ensures
        m.learn(c1, x).learn(c2, y) == m.learn(c2, y).learn(c1, x),
{
    let a = m.learn(c1, x).learn(c2, y);
    let b = m.learn(c2, y).learn(c1, x);
    assert(a.scope =~= b.scope);
    if m.scope.contains(c1) && m.scope.contains(c2) {
        assert forall|w: World| a.worlds.contains(w) <==> b.worlds.contains(w) by {
            assert(w.insert(c2, y).insert(c1, x) =~= w.insert(c1, x).insert(c2, y));
        }
    }
    assert(a.worlds =~= b.worlds);
}

/// Merging is commutative.
pub proof fn lemma_merge_commutes(m: MultiverseView, n: MultiverseView)
    ensures
        m.merge(n) == n.merge(m),
{
    let a = m.merge(n);
    let b = n.merge(m);
    assert(a.scope =~= b.scope);
    assert(a.worlds =~= b.worlds);
}

/// Merging is associative.
pub proof fn lemma_merge_associates(m: MultiverseView, n: MultiverseView, o: MultiverseView)
    ensures
        m.merge(n).merge(o) == m.merge(n.merge(o)),
{
    let a = m.merge(n).merge(o);
    let b = m.merge(n.merge(o));
    let mn = m.scope.union(n.scope);
    let no = n.scope.union(o.scope);
    assert(a.scope =~= b.scope);
    assert forall|w: World| a.worlds.contains(w) <==> b.worlds.contains(w) by {
        if w.dom() =~= a.scope {
            assert(w.restrict(mn).restrict(m.scope) =~= w.restrict(m.scope));
            assert(w.restrict(mn).restrict(n.scope) =~= w.restrict(n.scope));
            assert(w.restrict(no).restrict(n.scope) =~= w.restrict(n.scope));
            assert(w.restrict(no).restrict(o.scope) =~= w.restrict(o.scope));
            assert(w.restrict(mn).dom() =~= mn);
            assert(w.restrict(no).dom() =~= no);
        }
    }
    assert(a.worlds =~= b.worlds);
}

/// Every invariant holds in every world.
pub proof fn lemma_invariants_sound(m: MultiverseView, c: Coords, w: World)
    requires
        m.wf(),
        m.invariants().contains_key(c),
        m.worlds.contains(w),
    ensures
        m.scope.contains(c),
        w.contains_key(c),
        w[c] == m.invariants()[c],
{
    assert(w.dom() == m.scope);
}

/// Every cell of the scope on whose colour all worlds agree is an invariant,
/// as long as some world remains.
pub proof fn lemma_invariants_complete(m: MultiverseView, c: Coords, col: Color)
    requires
        m.scope.contains(c),
        !m.stuck(),
        forall|w: World| #[trigger] m.worlds.contains(w) ==> w[c] == col,
    ensures
        m.invariants().contains_key(c),
        m.invariants()[c] == col,
{
    assert(m.forces(c, col));
    if col == Color::Black && m.forces(c, Color::Blue) {
        let w = choose|w: World| m.worlds.contains(w);
        assert(w[c] == Color::Blue);
    }
}

/// An invariant of a multiverse that admits `t` has the colour that `t`
/// gives it.
pub proof fn lemma_invariants_agree_with_truth(m: MultiverseView, t: World, c: Coords)
    requires
        m.admits(t),
        m.invariants().contains_key(c),
    ensures
        t.contains_key(c),
        m.invariants()[c] == t[c],
{
    let w = t.restrict(m.scope);
    assert(m.worlds.contains(w));
    assert(w[c] == t[c]);
}


/// Learning nothing changes nothing.
pub proof fn lemma_learn_all_nothing(m: MultiverseView, known: World)
    requires
        m.wf(),
        known.dom().disjoint(m.scope),
    ensures
        m.learn_all(known) == m,
{
    let n = m.learn_all(known);
    assert(n.scope =~= m.scope);
    assert(known.restrict(m.scope) =~= Map::<Coords, Color>::empty());
    assert forall|w: World| n.worlds.contains(w) <==> m.worlds.contains(w) by {
        assert(w.union_prefer_right(known.restrict(m.scope)) =~= w);
        if m.worlds.contains(w) {
            assert(w.dom() == m.scope);
        }
    }
    assert(n.worlds =~= m.worlds);
}

/// Only what is known of the scope matters.
pub proof fn lemma_learn_all_restrict(m: MultiverseView, known: World, cells: Set<Coords>)
    requires
        m.wf(),
        m.scope.subset_of(cells),
    ensures
        m.learn_all(known.restrict(cells)) == m.learn_all(known),
{
    let a = m.learn_all(known.restrict(cells));
    let b = m.learn_all(known);
    assert(a.scope =~= b.scope);
    assert(known.restrict(cells).restrict(m.scope) =~= known.restrict(m.scope));
    assert forall|w: World| a.worlds.contains(w) <==> b.worlds.contains(w) by {
        let v = w.union_prefer_right(known.restrict(m.scope));
        if m.worlds.contains(v) {
            assert(v.dom() == m.scope);
            assert forall|c: Coords| w.contains_key(c) implies m.scope.contains(c) by {
                assert(v.contains_key(c));
            }
        }
    }
    assert(a.worlds =~= b.worlds);
}

/// Learning one more cell after some others is learning them all at once.
pub proof fn lemma_learn_all_step(m: MultiverseView, known: World, c: Coords, col: Color)
    requires
        m.wf(),
        !known.contains_key(c),
    ensures
        m.learn_all(known).learn(c, col) == m.learn_all(known.insert(c, col)),
{
    let l = m.learn_all(known);
    let a = l.learn(c, col);
    let more = known.insert(c, col);
    let b = m.learn_all(more);
    assert(a.scope =~= b.scope);
    if m.scope.contains(c) {
        assert(more.restrict(m.scope) =~= known.restrict(m.scope).insert(c, col));
        assert forall|w: World| a.worlds.contains(w) <==> b.worlds.contains(w) by {
            assert(w.insert(c, col).union_prefer_right(known.restrict(m.scope)) =~= w.union_prefer_right(
                more.restrict(m.scope),
            ));
            if a.worlds.contains(w) {
                assert(w.insert(c, col).dom().disjoint(known.dom()));
                assert(w.dom().disjoint(more.dom())) by {
                    assert forall|x: Coords| w.contains_key(x) implies !more.contains_key(x) by {
                        assert(w.insert(c, col).contains_key(x));
                    }
                }
            }
            if b.worlds.contains(w) {
                assert(!w.contains_key(c)) by {
                    assert(more.contains_key(c));
                }
                assert(w.insert(c, col).dom().disjoint(known.dom())) by {
                    assert forall|x: Coords| w.insert(c, col).contains_key(x) implies !known.contains_key(
                        x,
                    ) by {
                        if x != c {
                            assert(w.contains_key(x));
                            assert(!more.contains_key(x));
                        }
                    }
                }
            }
        }
    } else {
        assert(more.restrict(m.scope) =~= known.restrict(m.scope));
        assert forall|w: World| l.worlds.contains(w) <==> b.worlds.contains(w) by {
            let v = w.union_prefer_right(known.restrict(m.scope));
            if m.worlds.contains(v) {
                assert(v.dom() == m.scope);
                assert(!w.contains_key(c)) by {
                    if w.contains_key(c) {
                        assert(v.contains_key(c));
                    }
                }
            }
        }
    }
    assert(a.worlds =~= b.worlds);
}

/// Learning part of a colouring keeps that colouring among the worlds.
pub proof fn lemma_learn_all_keeps_truth(m: MultiverseView, t: World, known: World)
    requires
        m.admits(t),
        known.submap_of(t),
    ensures
        m.learn_all(known).admits(t),
{
    let n = m.learn_all(known);
    let w = t.restrict(n.scope);
    assert(w.union_prefer_right(known.restrict(m.scope)) =~= t.restrict(m.scope));
}


/// Learning what is known of the first `i + 1` cells is learning what is
/// known of the first `i`, and then cell `i` if its colour is known.
pub proof fn lemma_learn_all_next(b: MultiverseView, known: World, cells: Seq<Coords>, i: int)
    requires
        b.wf(),
        cells.no_duplicates(),
        0 <= i < cells.len(),
    ensures
        ({
            let before = b.learn_all(known.restrict(cells.take(i).to_set()));
            let after = b.learn_all(known.restrict(cells.take(i + 1).to_set()));
            if known.contains_key(cells[i]) {
                after == before.learn(cells[i], known[cells[i]])
            } else {
                after == before
            }
        }),
{
    let c = cells[i];
    let part = known.restrict(cells.take(i).to_set());
    crate::coord_set::lemma_take_next_set(cells, i);
    assert(!part.contains_key(c)) by {
        if cells.take(i).contains(c) {
            let k = choose|k: int| 0 <= k < cells.take(i).len() && cells.take(i)[k] == c;
            assert(cells[k] == cells[i]);
        }
    }
    if known.contains_key(c) {
        lemma_learn_all_step(b, part, c, known[c]);
        assert(part.insert(c, known[c]) =~= known.restrict(cells.take(i + 1).to_set()));
    } else {
        assert(part =~= known.restrict(cells.take(i + 1).to_set()));
    }
}

/// The multiverse that all multiverses of a map make together: its scope is
/// all their scopes, and its worlds are the colourings that restrict to a
/// world of each.
pub open spec fn joint(vs: Map<Coords, MultiverseView>) -> MultiverseView {
    MultiverseView {
        scope: joint_scope(vs),
        worlds: Set::new(
            |w: World|
                w.dom() =~= joint_scope(vs) && forall|k: Coords| #[trigger]
                    vs.contains_key(k) ==> vs[k].worlds.contains(w.restrict(vs[k].scope)),
        ),
    }
}

/// The cells that are in the scope of some multiverse of the map.
pub open spec fn joint_scope(vs: Map<Coords, MultiverseView>) -> Set<Coords> {
    Set::new(|c: Coords| exists|k: Coords| #[trigger] vs.contains_key(k) && vs[k].scope.contains(c))
}

/// No multiverses make the unit multiverse together.
pub proof fn lemma_joint_nothing()
    ensures
        joint(Map::<Coords, MultiverseView>::empty()) == MultiverseView::unit(),
{
    let vs = Map::<Coords, MultiverseView>::empty();
    let j = joint(vs);
    let u = MultiverseView::unit();
    assert(j.scope =~= u.scope);
    assert forall|w: World| j.worlds.contains(w) <==> u.worlds.contains(w) by {
        if j.worlds.contains(w) {
            assert(w =~= Map::<Coords, Color>::empty());
        }
        if u.worlds.contains(w) {
            assert(w.dom() =~= joint_scope(vs));
        }
    }
    assert(j.worlds =~= u.worlds);
}

/// Merging one more multiverse into what some make together gives what they
/// all make together.
pub proof fn lemma_joint_insert(vs: Map<Coords, MultiverseView>, k: Coords, v: MultiverseView)
    requires
        !vs.contains_key(k),
    ensures
        joint(vs).merge(v) == joint(vs.insert(k, v)),
{
    let more = vs.insert(k, v);
    let a = joint(vs).merge(v);
    let b = joint(more);
    let s = joint_scope(vs);
    assert forall|c: Coords| a.scope.contains(c) <==> b.scope.contains(c) by {
        if s.contains(c) {
            let j = choose|j: Coords| #[trigger] vs.contains_key(j) && vs[j].scope.contains(c);
            assert(more.contains_key(j) && more[j].scope.contains(c));
        }
        if v.scope.contains(c) {
            assert(more.contains_key(k) && more[k].scope.contains(c));
        }
        if b.scope.contains(c) {
            let j = choose|j: Coords| #[trigger] more.contains_key(j) && more[j].scope.contains(c);
            if j != k {
                assert(vs.contains_key(j) && vs[j].scope.contains(c));
            }
        }
    }
    assert(a.scope =~= b.scope);
    assert forall|w: World| a.worlds.contains(w) <==> b.worlds.contains(w) by {
        if w.dom() =~= a.scope {
            assert(w.restrict(s).dom() =~= s);
            assert forall|j: Coords| #[trigger] vs.contains_key(j) implies w.restrict(s).restrict(
                vs[j].scope,
            ) == w.restrict(vs[j].scope) by {
                assert forall|c: Coords| vs[j].scope.contains(c) implies s.contains(c) by {
                    assert(vs.contains_key(j) && vs[j].scope.contains(c));
                }
                assert(w.restrict(s).restrict(vs[j].scope) =~= w.restrict(vs[j].scope));
            }
            if a.worlds.contains(w) {
                assert forall|j: Coords| #[trigger] more.contains_key(j) implies more[j].worlds.contains(
                    w.restrict(more[j].scope),
                ) by {
                    if j != k {
                        assert(vs.contains_key(j));
                    }
                }
            }
            if b.worlds.contains(w) {
                assert(more.contains_key(k));
                assert forall|j: Coords| #[trigger] vs.contains_key(j) implies vs[j].worlds.contains(
                    w.restrict(s).restrict(vs[j].scope),
                ) by {
                    assert(more.contains_key(j));
                }
            }
        }
    }
    assert(a.worlds =~= b.worlds);
}

/// What multiverses that all admit a colouring make together admits it too.
pub proof fn lemma_joint_keeps_truth(vs: Map<Coords, MultiverseView>, t: World)
    requires
        forall|k: Coords| #[trigger] vs.contains_key(k) ==> vs[k].admits(t),
    ensures
        joint(vs).admits(t),
{
    let j = joint(vs);
    let w = t.restrict(j.scope);
    assert forall|c: Coords| j.scope.contains(c) implies t.contains_key(c) by {
        let k = choose|k: Coords| #[trigger] vs.contains_key(k) && vs[k].scope.contains(c);
        assert(vs[k].admits(t));
    }
    assert(w.dom() =~= j.scope);
    assert forall|k: Coords| #[trigger] vs.contains_key(k) implies vs[k].worlds.contains(
        w.restrict(vs[k].scope),
    ) by {
        assert(vs[k].admits(t));
        assert forall|c: Coords| vs[k].scope.contains(c) implies j.scope.contains(c) by {
            assert(vs.contains_key(k) && vs[k].scope.contains(c));
        }
        assert(w.restrict(vs[k].scope) =~= t.restrict(vs[k].scope));
    }
}


/// One multiverse alone makes itself.
pub proof fn lemma_joint_single(vs: Map<Coords, MultiverseView>, k: Coords)
    requires
        vs.contains_key(k),
        vs[k].wf(),
    ensures
        joint(vs.restrict(set![k])) == vs[k],
{
    let one = vs.restrict(set![k]);
    let j = joint(one);
    let v = vs[k];
    assert(one.contains_key(k) && one[k] == v);
    assert forall|c: Coords| j.scope.contains(c) <==> v.scope.contains(c) by {
        if j.scope.contains(c) {
            let x = choose|x: Coords| #[trigger] one.contains_key(x) && one[x].scope.contains(c);
            assert(x == k);
        }
        if v.scope.contains(c) {
            assert(one.contains_key(k) && one[k].scope.contains(c));
        }
    }
    assert(j.scope =~= v.scope);
    assert forall|w: World| j.worlds.contains(w) <==> v.worlds.contains(w) by {
        if j.worlds.contains(w) {
            assert(one.contains_key(k));
            assert(w.restrict(v.scope) =~= w);
        }
        if v.worlds.contains(w) {
            assert(w.dom() == v.scope);
            assert(w.restrict(v.scope) =~= w);
            assert forall|x: Coords| #[trigger] one.contains_key(x) implies one[x].worlds.contains(
                w.restrict(one[x].scope),
            ) by {
                assert(x == k);
            }
        }
    }
    assert(j.worlds =~= v.worlds);
}

} // verus!
