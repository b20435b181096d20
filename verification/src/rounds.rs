//! The course of a solve, round by round, as a mathematical function of the
//! puzzle: what the solver has to find is what this says.

use crate::compound::{group_view, groups, level_forced, search, search_from};
use crate::defn::{reserved_coords, Defn};
use crate::misc::Coords;
use crate::multiverse::Multiverse;
use crate::registry::{
    all_admit, first_hidden, first_visible, forced_by, narrowed, running, views,
};
use crate::solver::Difficulty;
use crate::worlds::{
    joint, joint_scope, lemma_learn_all_keeps_truth, MultiverseView, State, World,
};
use vstd::prelude::*;

verus! {

/// What the solver holds between two rounds.
pub struct Snapshot {
    /// The constraints whose cell is not revealed yet.
    pub hidden: Map<Coords, MultiverseView>,
    /// The constraints that take part in deduction.
    pub visible: Map<Coords, MultiverseView>,
    /// The colours that are known.
    pub known: World,
    /// The cells whose colour is not known yet.
    pub unknowns: Set<Coords>,
}

/// What one round finds.
pub struct Step {
    /// The cells whose colour the round determines.
    pub cells: Set<Coords>,
    /// How hard that is.
    pub difficulty: Difficulty,
}

/// How a solve goes when it is given all the time it needs.
pub struct Run {
    /// What each round finds.
    pub history: Seq<Step>,
    /// Whether every cell is known in the end.
    pub solved: bool,
}

/// The snapshot at the start of a puzzle.
pub open spec fn start(defn: &Defn) -> Snapshot {
    Snapshot {
        hidden: first_hidden(defn),
        visible: first_visible(defn),
        known: defn.shown(),
        unknowns: defn.truth().dom().difference(defn.shown().dom()),
    }
}

/// The first part of a round: the constraints of the cells that are known
/// become visible, every visible constraint learns what is known, and those
/// that have nothing left to say are dropped.
pub open spec fn settle(s: Snapshot) -> Snapshot {
    let cells = s.known.dom();
    let visible = s.visible.union_prefer_right(s.hidden.restrict(cells));
    Snapshot {
        hidden: s.hidden.remove_keys(cells),
        visible: running(narrowed(visible, s.known)),
        known: s.known,
        unknowns: s.unknowns,
    }
}

/// The second part of a round: the cells that a single constraint forces, at
/// difficulty `Local(1)`; failing that, the cells that the smallest groups of
/// clue constraints force, at the difficulty of their size; failing that,
/// the cells that all constraints force together, at difficulty `Global` of
/// their number; and nothing when even they force no cell.
pub open spec fn deduce(vs: Map<Coords, MultiverseView>) -> Option<Step> {
    if !(forced_by(vs) =~= Set::<Coords>::empty()) {
        Some(Step { cells: forced_by(vs), difficulty: Difficulty::Local(1) })
    } else if !(search(vs).0 =~= Set::<Coords>::empty()) {
        Some(Step { cells: search(vs).0, difficulty: Difficulty::Local(search(vs).1 as u32) })
    } else if !(joint(vs).invariants().dom() =~= Set::<Coords>::empty()) {
        Some(
            Step {
                cells: joint(vs).invariants().dom(),
                difficulty: Difficulty::Global(vs.dom().len() as u32),
            },
        )
    } else {
        None
    }
}

/// The snapshot after the cells of a round have taken their colours from
/// the solution `t`.
pub open spec fn advance(t: World, s: Snapshot, cells: Set<Coords>) -> Snapshot {
    Snapshot {
        hidden: s.hidden,
        visible: s.visible,
        known: s.known.union_prefer_right(t.restrict(cells)),
        unknowns: s.unknowns.difference(cells),
    }
}

/// The rounds from a snapshot on, with the solution `t`: a round settles the
/// constraints, stops as solved when no cell is unknown, deduces, stops as
/// unsolved when nothing was deduced, and else goes on with what it found.
pub open spec fn run(t: World, s: Snapshot) -> Run
    decreases s.unknowns.len(),
{
    let settled = settle(s);
    if s.unknowns =~= Set::<Coords>::empty() {
        Run { history: Seq::empty(), solved: true }
    } else {
        match deduce(settled.visible) {
            None => Run { history: Seq::empty(), solved: false },
            Some(step) => {
                let next = advance(t, settled, step.cells);
                if next.unknowns.len() < s.unknowns.len() {
                    let rest = run(t, next);
                    Run { history: seq![step] + rest.history, solved: rest.solved }
                } else {
                    Run { history: seq![step], solved: false }
                }
            },
        }
    }
}

/// Whether a run is solved by single constraints alone, so that no search
/// is ever started.
pub open spec fn plain(r: Run) -> bool {
    r.solved && forall|i: int|
        0 <= i < r.history.len() ==> (#[trigger] r.history[i]).difficulty == Difficulty::Local(1)
}

/// Every scope of the map lies within `bound`.
pub open spec fn scopes_within(vs: Map<Coords, MultiverseView>, bound: Set<Coords>) -> bool {
    forall|k: Coords| #[trigger] vs.contains_key(k) ==> vs[k].scope.subset_of(bound)
}

/// What some constraints make together has its scope within theirs.
pub proof fn lemma_joint_within(vs: Map<Coords, MultiverseView>, bound: Set<Coords>)
    requires
        scopes_within(vs, bound),
    ensures
        joint(vs).scope.subset_of(bound),
        joint(vs).invariants().dom().subset_of(bound),
        forced_by(vs).subset_of(bound),
{
    assert forall|c: Coords| joint_scope(vs).contains(c) implies bound.contains(c) by {
        let k = choose|k: Coords| #[trigger] vs.contains_key(k) && vs[k].scope.contains(c);
        assert(vs[k].scope.subset_of(bound));
    }
    assert forall|c: Coords| forced_by(vs).contains(c) implies bound.contains(c) by {
        let k = choose|k: Coords|
            vs.dom().contains(k) && #[trigger] vs.contains_key(k) && vs[k].invariants().contains_key(
                c,
            );
        assert(vs[k].scope.subset_of(bound));
    }
}

/// What the groups of a round force lies within the scopes of the
/// constraints.
pub proof fn lemma_level_within(vs: Map<Coords, MultiverseView>, bound: Set<Coords>, i: nat)
    requires
        scopes_within(vs, bound),
    ensures
        level_forced(vs, i).subset_of(bound),
{
    assert forall|c: Coords| level_forced(vs, i).contains(c) implies bound.contains(c) by {
        let g = choose|g: Set<Coords>| #[trigger]
            groups(vs, i).contains(g) && group_view(vs, g).invariants().contains_key(c);
        let part = vs.restrict(g);
        assert forall|k: Coords| #[trigger] part.contains_key(k) implies part[k].scope.subset_of(
            bound,
        ) by {
            assert(vs.contains_key(k));
        }
        lemma_joint_within(part, bound);
    }
}

/// What a search from round `i` on finds lies within the scopes of the
/// constraints.
pub proof fn lemma_search_from_within(vs: Map<Coords, MultiverseView>, bound: Set<Coords>, i: nat)
    requires
        scopes_within(vs, bound),
    ensures
        search_from(vs, i).0.subset_of(bound),
    decreases 1003 - i,
{
    lemma_level_within(vs, bound, i);
    if i < 1003 {
        lemma_search_from_within(vs, bound, i + 1);
    }
}

/// What a search finds lies within the scopes of the constraints.
pub proof fn lemma_search_within(vs: Map<Coords, MultiverseView>, bound: Set<Coords>)
    requires
        scopes_within(vs, bound),
    ensures
        search(vs).0.subset_of(bound),
{
    lemma_search_from_within(vs, bound, 2);
}

/// A search from round `i` on reports a round from `i` to 1003.
pub proof fn lemma_search_from_level(vs: Map<Coords, MultiverseView>, i: nat)
    requires
        i <= 1003,
    ensures
        i <= search_from(vs, i).1 <= 1003,
    decreases 1003 - i,
{
    if i < 1003 {
        lemma_search_from_level(vs, i + 1);
    }
}

/// A search reports a round from 2 to 1003.
pub proof fn lemma_search_level(vs: Map<Coords, MultiverseView>)
    ensures
        2 <= search(vs).1 <= 1003,
{
    lemma_search_from_level(vs, 2);
}

/// A multiverse that admits a colouring is not stuck.
pub proof fn lemma_admits_not_stuck(m: MultiverseView, t: World)
    requires
        m.admits(t),
    ensures
        !m.stuck(),
        m.state() != State::Stuck,
{
    assert(m.worlds.contains(t.restrict(m.scope)));
}

/// Revealing and narrowing keep the constraints sound, so none of them is
/// stuck.
pub proof fn lemma_before_gc(
    t: World,
    known: World,
    h0: Map<Coords, Multiverse>,
    v0: Map<Coords, Multiverse>,
    v1: Map<Coords, Multiverse>,
    v2: Map<Coords, Multiverse>,
)
    requires
        known.submap_of(t),
        all_admit(views(h0), t),
        all_admit(views(v0), t),
        v1 == v0.union_prefer_right(h0.restrict(known.dom())),
        views(v2) == narrowed(views(v1), known),
    ensures
        all_admit(views(v1), t),
        all_admit(views(v2), t),
        forall|k: Coords| #[trigger] v2.contains_key(k) ==> v2[k]@.state() != State::Stuck,
{
    let cells = known.dom();
    assert forall|k: Coords| #[trigger] views(v1).contains_key(k) implies views(v1)[k].admits(t) by {
        if h0.restrict(cells).contains_key(k) {
            assert(views(h0).contains_key(k));
        } else {
            assert(views(v0).contains_key(k));
        }
    }
    assert forall|k: Coords| #[trigger] views(v2).contains_key(k) implies views(v2)[k].admits(t) by {
        assert(narrowed(views(v1), known).contains_key(k));
        assert(views(v1).contains_key(k));
        lemma_learn_all_keeps_truth(views(v1)[k], t, known);
    }
    assert forall|k: Coords| #[trigger] v2.contains_key(k) implies v2[k]@.state()
        != State::Stuck by {
        assert(views(v2).contains_key(k));
        lemma_admits_not_stuck(views(v2)[k], t);
    }
}

/// What the first part of a round does to maps of multiverses is what
/// [`settle`] says of their views, and it keeps them sound.
pub proof fn lemma_settle(
    t: World,
    unknowns: Set<Coords>,
    known: World,
    h0: Map<Coords, Multiverse>,
    v0: Map<Coords, Multiverse>,
    h1: Map<Coords, Multiverse>,
    v1: Map<Coords, Multiverse>,
    v2: Map<Coords, Multiverse>,
    v3: Map<Coords, Multiverse>,
)
    requires
        known.submap_of(t),
        unknowns == t.dom().difference(known.dom()),
        all_admit(views(h0), t),
        all_admit(views(v0), t),
        h1 == h0.remove_keys(known.dom()),
        v1 == v0.union_prefer_right(h0.restrict(known.dom())),
        views(v2) == narrowed(views(v1), known),
        views(v3) == running(views(v2)),
    ensures
        all_admit(views(h1), t),
        all_admit(views(v1), t),
        all_admit(views(v2), t),
        all_admit(views(v3), t),
        forall|k: Coords| #[trigger] v2.contains_key(k) ==> v2[k]@.state() != State::Stuck,
        scopes_within(views(v3), unknowns),
        (Snapshot { hidden: views(h1), visible: views(v3), known, unknowns }) == settle(
            Snapshot { hidden: views(h0), visible: views(v0), known, unknowns },
        ),
        views(h1).dom().union(views(v3).dom()).subset_of(views(h0).dom().union(views(v0).dom())),
{
    let cells = known.dom();
    assert forall|k: Coords| #[trigger] views(h1).contains_key(k) implies views(h1)[k].admits(t) by {
        assert(views(h0).contains_key(k));
    }
    assert forall|k: Coords| #[trigger] views(v1).contains_key(k) implies views(v1)[k].admits(t) by {
        if h0.restrict(cells).contains_key(k) {
            assert(views(h0).contains_key(k));
        } else {
            assert(views(v0).contains_key(k));
        }
    }
    assert forall|k: Coords| #[trigger] views(v2).contains_key(k) implies views(v2)[k].admits(t)
        && views(v2)[k].scope.subset_of(unknowns) by {
        assert(narrowed(views(v1), known).contains_key(k));
        assert(views(v1).contains_key(k));
        lemma_learn_all_keeps_truth(views(v1)[k], t, known);
    }
    assert forall|k: Coords| #[trigger] v2.contains_key(k) implies v2[k]@.state()
        != State::Stuck by {
        assert(views(v2).contains_key(k));
        lemma_admits_not_stuck(views(v2)[k], t);
    }
    assert forall|k: Coords| #[trigger] views(v3).contains_key(k) implies views(v3)[k].admits(t)
        && views(v3)[k].scope.subset_of(unknowns) by {
        assert(running(views(v2)).contains_key(k));
        assert(views(v2).contains_key(k));
    }
    assert(views(h1) =~= views(h0).remove_keys(cells));
    assert(views(v1) =~= views(v0).union_prefer_right(views(h0).restrict(cells)));
    assert forall|k: Coords|
        views(h1).dom().union(views(v3).dom()).contains(k) implies views(h0).dom().union(
        views(v0).dom(),
    ).contains(k) by {
        if views(v3).contains_key(k) {
            assert(running(views(v2)).contains_key(k));
            assert(narrowed(views(v1), known).contains_key(k));
        }
    }
}


/// A run has at most as many rounds as there are unknown cells.
pub proof fn lemma_run_length(t: World, s: Snapshot)
    requires
        s.unknowns.finite(),
    ensures
        run(t, s).history.len() <= s.unknowns.len(),
    decreases s.unknowns.len(),
{
    if !(s.unknowns =~= Set::<Coords>::empty()) {
        assert(s.unknowns.len() > 0) by {
            if s.unknowns.len() == 0 {
                assert(s.unknowns =~= Set::<Coords>::empty());
            }
        }
        match deduce(settle(s).visible) {
            None => {},
            Some(step) => {
                let next = advance(t, settle(s), step.cells);
                if next.unknowns.len() < s.unknowns.len() {
                    vstd::set_lib::lemma_len_subset(next.unknowns, s.unknowns);
                    lemma_run_length(t, next);
                }
            },
        }
    }
}

/// Once every cell of the solution is known, settling leaves no constraint
/// hidden or visible.
pub proof fn lemma_settle_when_all_known(t: World, s: Snapshot)
    requires
        s.known.dom() == t.dom(),
        s.hidden.dom().subset_of(t.dom()),
        scopes_within(s.hidden, t.dom()),
        scopes_within(s.visible, t.dom()),
    ensures
        settle(s).hidden == Map::<Coords, MultiverseView>::empty(),
        settle(s).visible == Map::<Coords, MultiverseView>::empty(),
{
    let cells = s.known.dom();
    let visible = s.visible.union_prefer_right(s.hidden.restrict(cells));
    let narrow = narrowed(visible, s.known);
    assert(settle(s).hidden =~= Map::<Coords, MultiverseView>::empty());
    assert forall|k: Coords| !running(narrow).contains_key(k) by {
        if narrow.contains_key(k) {
            assert(visible.contains_key(k));
            if s.hidden.restrict(cells).contains_key(k) {
                assert(s.hidden.contains_key(k));
            } else {
                assert(s.visible.contains_key(k));
            }
            assert(visible[k].scope.subset_of(t.dom()));
            assert(narrow[k].scope =~= Set::<Coords>::empty());
        }
    }
    assert(settle(s).visible =~= Map::<Coords, MultiverseView>::empty());
}


/// While a cell is unknown, settling keeps the constraint on the total
/// number of blue cells visible, with every unknown cell in its scope.
pub proof fn lemma_settle_keeps_global(t: World, s: Snapshot)
    requires
        s.unknowns == t.dom().difference(s.known.dom()),
        s.hidden.dom().subset_of(t.dom()),
        !t.contains_key(reserved_coords()),
        s.visible.contains_key(reserved_coords()),
        s.unknowns.subset_of(s.visible[reserved_coords()].scope),
        !(s.unknowns =~= Set::<Coords>::empty()),
    ensures
        settle(s).visible.contains_key(reserved_coords()),
        s.unknowns.subset_of(settle(s).visible[reserved_coords()].scope),
{
    let key = reserved_coords();
    let cells = s.known.dom();
    let visible = s.visible.union_prefer_right(s.hidden.restrict(cells));
    let narrow = narrowed(visible, s.known);
    assert(!s.hidden.restrict(cells).contains_key(key)) by {
        if s.hidden.contains_key(key) {
            assert(s.hidden.dom().contains(key));
        }
    }
    assert(visible.contains_key(key) && visible[key] == s.visible[key]);
    assert(narrow.contains_key(key));
    assert(s.unknowns.subset_of(narrow[key].scope));
    let c = choose|c: Coords| s.unknowns.contains(c);
    assert(narrow[key].scope.contains(c));
    assert(narrow[key].state() != State::Empty);
}

} // verus!
