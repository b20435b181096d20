//! The solver's results: what was found in each round, and how hard it was.

use crate::compound::search;
use crate::constraint::consistent;
use crate::coord_map::CoordMap;
use crate::coord_set::CoordSet;
use crate::defn::{reserved_coords, Color, Defn};
use crate::env::Env;
use crate::misc::Coords;
use crate::progress::Progress;
use crate::registry::{all_admit, forced_by, views, Constraints};
use crate::rounds::{
    advance, deduce, lemma_before_gc, lemma_joint_within, lemma_search_level,
    lemma_search_within, lemma_settle, lemma_settle_keeps_global, lemma_settle_when_all_known,
    plain, run, scopes_within, settle, start, Run, Snapshot, Step,
};
use crate::worlds::World;
use vstd::prelude::*;

verus! {

/// How hard a deduction is: the number of clues that had to be looked at
/// together, with or without the clue on the total number of blue cells.
#[derive(Debug, Copy, Clone, PartialEq, Eq, Structural)]
pub enum Difficulty {
    Global(u32),
    Local(u32),
}

/// What one round found: the cells whose colour it determined, and how hard
/// that was.
#[derive(Debug)]
pub struct Findings {
    difficulty: Difficulty,
    cells: CoordSet,
}

/// How a run of the solver ended.
#[derive(Debug)]
pub enum Outcome {
    Timeout,
    Unsolvable,
    Solved(Vec<Findings>),
}

impl Findings {
    /// The difficulty of the round.
    pub closed spec fn level(&self) -> Difficulty {
        self.difficulty
    }

    /// The cells that the round determined.
    pub closed spec fn found(&self) -> CoordSet {
        self.cells
    }

    /// The findings of a round.
    pub fn new(difficulty: Difficulty, cells: CoordSet) -> (out: Findings)
        ensures
            out.level() == difficulty,
            out.found() == cells,
    {
        Findings { difficulty, cells }
    }

    /// The difficulty of the round.
    pub fn difficulty(&self) -> (d: Difficulty)
        ensures
            d == self.level(),
    {
        self.difficulty
    }

    /// The cells that the round determined.
    pub fn cells(&self) -> (cells: &CoordSet)
        ensures
            *cells == self.found(),
    {
        &self.cells
    }
}

/// The difficulties of a history, round by round.
pub open spec fn levels(history: Seq<Findings>) -> Seq<Difficulty> {
    Seq::new(history.len(), |i: int| history[i].level())
}

/// Whether `best` is the largest local difficulty among `levels`, or `None`
/// when there is none.
pub open spec fn is_max_local(levels: Seq<Difficulty>, best: Option<u32>) -> bool {
    match best {
        None => forall|i: int| 0 <= i < levels.len() ==> !(#[trigger] levels[i] is Local),
        Some(m) => {
            &&& exists|i: int| 0 <= i < levels.len() && #[trigger] levels[i] == Difficulty::Local(m)
            &&& forall|i: int|
                0 <= i < levels.len() && #[trigger] levels[i] is Local ==> levels[i]->Local_0 <= m
        },
    }
}

/// Whether `best` is the largest global difficulty among `levels`, or `None`
/// when there is none.
pub open spec fn is_max_global(levels: Seq<Difficulty>, best: Option<u32>) -> bool {
    match best {
        None => forall|i: int| 0 <= i < levels.len() ==> !(#[trigger] levels[i] is Global),
        Some(m) => {
            &&& exists|i: int| 0 <= i < levels.len() && #[trigger] levels[i] == Difficulty::Global(m)
            &&& forall|i: int|
                0 <= i < levels.len() && #[trigger] levels[i] is Global ==> levels[i]->Global_0
                    <= m
        },
    }
}

/// The largest local difficulty and the largest global difficulty of a
/// history, each `None` when the history has no round of that kind.
pub fn difficulty_of_findings_vec(findings_vec: &Vec<Findings>) -> (maxima: (
    Option<u32>,
    Option<u32>,
))
    ensures
        is_max_local(levels(findings_vec@), maxima.0),
        is_max_global(levels(findings_vec@), maxima.1),
{
    let mut max_local: Option<u32> = None;
    let mut max_global: Option<u32> = None;
    let ghost all = levels(findings_vec@);
    let mut i: usize = 0;
    while i < findings_vec.len()
        invariant
            i <= findings_vec.len(),
            all == levels(findings_vec@),
            is_max_local(all.take(i as int), max_local),
            is_max_global(all.take(i as int), max_global),
        decreases findings_vec.len() - i,
    {
        let ghost seen = all.take(i as int);
        let ghost next = all.take(i + 1);
        proof {
            assert(next[i as int] == all[i as int]);
            assert forall|k: int| 0 <= k < i implies next[k] == seen[k] by {}
        }
        match findings_vec[i].difficulty() {
            Difficulty::Global(diff) => {
                let best: u32 = match max_global {
                    None => diff,
                    Some(prev) => if prev > diff {
                        prev
                    } else {
                        diff
                    },
                };
                proof {
                    if best == diff {
                        assert(next[i as int] == Difficulty::Global(best));
                    } else {
                        let k = choose|k: int|
                            0 <= k < seen.len() && #[trigger] seen[k] == Difficulty::Global(best);
                        assert(next[k] == Difficulty::Global(best));
                    }
                    assert forall|k: int|
                        0 <= k < next.len() && #[trigger] next[k] is Global implies next[k]->Global_0
                        <= best by {
                        if k < i {
                            assert(seen[k] is Global);
                        }
                    }
                    assert(is_max_local(next, max_local)) by {
                        lemma_max_local_skip(seen, next, max_local);
                    }
                }
                max_global = Some(best);
            },
            Difficulty::Local(diff) => {
                let best: u32 = match max_local {
                    None => diff,
                    Some(prev) => if prev > diff {
                        prev
                    } else {
                        diff
                    },
                };
                proof {
                    if best == diff {
                        assert(next[i as int] == Difficulty::Local(best));
                    } else {
                        let k = choose|k: int|
                            0 <= k < seen.len() && #[trigger] seen[k] == Difficulty::Local(best);
                        assert(next[k] == Difficulty::Local(best));
                    }
                    assert forall|k: int|
                        0 <= k < next.len() && #[trigger] next[k] is Local implies next[k]->Local_0
                        <= best by {
                        if k < i {
                            assert(seen[k] is Local);
                        }
                    }
                    assert(is_max_global(next, max_global)) by {
                        lemma_max_global_skip(seen, next, max_global);
                    }
                }
                max_local = Some(best);
            },
        }
        i = i + 1;
    }
    assert(all.take(i as int) =~= all);
    (max_local, max_global)
}

/// A global round does not change the largest local difficulty.
proof fn lemma_max_local_skip(seen: Seq<Difficulty>, next: Seq<Difficulty>, best: Option<u32>)
    requires
        next.len() == seen.len() + 1,
        forall|k: int| 0 <= k < seen.len() ==> next[k] == seen[k],
        next[seen.len() as int] is Global,
        is_max_local(seen, best),
    ensures
        is_max_local(next, best),
{
    match best {
        None => {
            assert forall|k: int| 0 <= k < next.len() implies !(#[trigger] next[k] is Local) by {
                if k < seen.len() {
                    assert(!(seen[k] is Local));
                }
            }
        },
        Some(m) => {
            let k = choose|k: int| 0 <= k < seen.len() && #[trigger] seen[k] == Difficulty::Local(m);
            assert(next[k] == Difficulty::Local(m));
            assert forall|j: int|
                0 <= j < next.len() && #[trigger] next[j] is Local implies next[j]->Local_0 <= m by {
                if j < seen.len() {
                    assert(seen[j] is Local);
                }
            }
        },
    }
}

/// A local round does not change the largest global difficulty.
proof fn lemma_max_global_skip(seen: Seq<Difficulty>, next: Seq<Difficulty>, best: Option<u32>)
    requires
        next.len() == seen.len() + 1,
        forall|k: int| 0 <= k < seen.len() ==> next[k] == seen[k],
        next[seen.len() as int] is Local,
        is_max_global(seen, best),
    ensures
        is_max_global(next, best),
{
    match best {
        None => {
            assert forall|k: int| 0 <= k < next.len() implies !(#[trigger] next[k] is Global) by {
                if k < seen.len() {
                    assert(!(seen[k] is Global));
                }
            }
        },
        Some(m) => {
            let k = choose|k: int|
                0 <= k < seen.len() && #[trigger] seen[k] == Difficulty::Global(m);
            assert(next[k] == Difficulty::Global(m));
            assert forall|j: int|
                0 <= j < next.len() && #[trigger] next[j] is Global implies next[j]->Global_0
                <= m by {
                if j < seen.len() {
                    assert(seen[j] is Global);
                }
            }
        },
    }
}

/// The character of a decimal digit.
pub open spec fn digit_char(d: nat) -> char {
    seq!['0', '1', '2', '3', '4', '5', '6', '7', '8', '9'][d as int]
}

/// A number written in decimal digits.
pub open spec fn decimal(n: nat) -> Seq<char>
    decreases n,
{
    if n < 10 {
        seq![digit_char(n)]
    } else {
        decimal(n / 10).push(digit_char(n % 10))
    }
}

/// A largest difficulty as it is written: `None`, or `Some(..)` around the
/// number.
pub open spec fn maximum_text(best: Option<u32>) -> Seq<char> {
    match best {
        None => "None"@,
        Some(n) => "Some("@ + decimal(n as nat) + ")"@,
    }
}

/// The line written for a solved puzzle with `steps` rounds and the given
/// largest difficulties.
pub open spec fn solved_text(steps: usize, max_local: Option<u32>, max_global: Option<u32>) -> Seq<
    char,
> {
    "Solved steps:"@ + decimal(steps as nat) + " max-local-difficulty:"@ + maximum_text(max_local)
        + " max-global-difficulty:"@ + maximum_text(max_global)
}

/// `format!` of the standard library, on the summary line of a solved
/// puzzle: the number of rounds is written in decimal digits by `{}`, and
/// each largest difficulty by `{:?}` as `None` or as `Some(..)` around its
/// decimal digits.
#[verifier::external_body]
fn format_solved(steps: usize, max_local: Option<u32>, max_global: Option<u32>) -> (text: String)
    ensures
        text@ == solved_text(steps, max_local, max_global),
{
    format!(
        "Solved steps:{} max-local-difficulty:{:?} max-global-difficulty:{:?}",
        steps, max_local, max_global
    )
}

impl Outcome {
    /// One line that says how the run ended: for a solved puzzle the number
    /// of rounds and the largest difficulties, else that further rules are
    /// needed, or that time ran out.
    pub fn summary(&self) -> (text: String)
        ensures
            self is Timeout ==> text@ == "Timeout"@,
            self is Unsolvable ==> text@ == "Requires additional rules"@,
            self is Solved ==> exists|local: Option<u32>, global: Option<u32>|
                is_max_local(levels(self->Solved_0@), local) && is_max_global(
                    levels(self->Solved_0@),
                    global,
                ) && text@ == #[trigger] solved_text(self->Solved_0@.len() as usize, local, global),
    {
        match self {
            Outcome::Unsolvable => "Requires additional rules".to_owned(),
            Outcome::Timeout => "Timeout".to_owned(),
            Outcome::Solved(findings_vec) => {
                let (max_local, max_global) = difficulty_of_findings_vec(findings_vec);
                let text = format_solved(findings_vec.len(), max_local, max_global);
                assert(is_max_local(levels(findings_vec@), max_local) && is_max_global(
                    levels(findings_vec@),
                    max_global,
                ) && text@ == solved_text(findings_vec@.len() as usize, max_local, max_global));
                text
            },
        }
    }
}


/// What each round of a history found, as a step.
pub open spec fn steps(history: Seq<Findings>) -> Seq<Step> {
    Seq::new(
        history.len(),
        |i: int| Step { cells: history[i].found()@, difficulty: history[i].level() },
    )
}

/// The cells that some round of a history determined.
pub open spec fn found_in(history: Seq<Findings>) -> Set<Coords> {
    Set::new(
        |c: Coords| exists|i: int| 0 <= i < history.len() && (#[trigger] history[i]).found()@.contains(c),
    )
}

/// Whether every round of a history determined at least one cell, and none
/// that an earlier round had determined.
pub open spec fn each_round_new(history: Seq<Findings>) -> bool {
    forall|i: int|
        0 <= i < history.len() ==> !((#[trigger] history[i]).found()@ =~= Set::<Coords>::empty())
            && history[i].found()@.disjoint(found_in(history.take(i)))
}

/// What the solver holds, as a snapshot.
pub open spec fn snapshot(constraints: &Constraints, progress: &Progress) -> Snapshot {
    Snapshot {
        hidden: views(constraints.hidden()@),
        visible: views(constraints.visible()@),
        known: progress.known(),
        unknowns: progress.unknowns()@,
    }
}

/// The keys of all constraints that are hidden or visible.
pub open spec fn live_keys(constraints: &Constraints) -> Set<Coords> {
    constraints.hidden()@.dom().union(constraints.visible()@.dom())
}

/// The first part of a round: reveals the constraints of the known cells,
/// narrows the visible constraints by what is known, and drops those that
/// have nothing left to say.
fn settle_round(constraints: &mut Constraints, progress: &Progress, Ghost(t): Ghost<World>)
    requires
        old(constraints).wf(),
        old(constraints).sound(t),
        progress.wf(),
        progress.known().submap_of(t),
        progress.unknowns()@ == t.dom().difference(progress.known().dom()),
        !t.contains_key(reserved_coords()),
        old(constraints).hidden()@.dom().subset_of(t.dom()),
        global_covers(old(constraints), progress),
    ensures
        final(constraints).wf(),
        final(constraints).sound(t),
        scopes_within(views(final(constraints).visible()@), progress.unknowns()@),
        snapshot(final(constraints), progress) == settle(snapshot(old(constraints), progress)),
        live_keys(final(constraints)).subset_of(live_keys(old(constraints))),
        final(constraints).hidden()@.dom().subset_of(t.dom()),
        global_covers(final(constraints), progress),
        progress.unknowns()@ =~= Set::<Coords>::empty() ==> final(constraints).hidden()@.dom()
            =~= Set::<Coords>::empty() && final(constraints).visible()@.dom() =~= Set::<
            Coords,
        >::empty(),
{
    let visible_cells = progress.visible_cells();
    let ghost known = progress.known();
    let ghost h0 = constraints.hidden()@;
    let ghost v0 = constraints.visible()@;
    constraints.reveal_cells(&visible_cells);
    let ghost h1 = constraints.hidden()@;
    let ghost v1 = constraints.visible()@;
    constraints.narrow(&visible_cells, progress);
    let ghost v2 = constraints.visible()@;
    proof {
        assert(known.restrict(visible_cells@) =~= known);
        lemma_before_gc(t, known, h0, v0, v1, v2);
    }
    constraints.gc();
    proof {
        let v3 = constraints.visible()@;
        lemma_settle(t, progress.unknowns()@, known, h0, v0, h1, v1, v2, v3);
        assert(views(h1).dom() =~= constraints.hidden()@.dom());
        assert(views(v3).dom() =~= v3.dom());
        assert(views(h0).dom() =~= h0.dom());
        assert(views(v0).dom() =~= v0.dom());
        lemma_settled_registry(t, snapshot(old(constraints), progress));
    }
}

/// What settling leaves of the constraints: none once every cell is known,
/// and at least the one on the total number of blue cells until then.
proof fn lemma_settled_registry(t: World, s: Snapshot)
    requires
        s.known.submap_of(t),
        s.unknowns == t.dom().difference(s.known.dom()),
        !t.contains_key(reserved_coords()),
        s.hidden.dom().subset_of(t.dom()),
        all_admit(s.hidden, t),
        all_admit(s.visible, t),
        !(s.unknowns =~= Set::<Coords>::empty()) ==> s.visible.contains_key(reserved_coords())
            && s.unknowns.subset_of(s.visible[reserved_coords()].scope),
    ensures
        s.unknowns =~= Set::<Coords>::empty() ==> settle(s).hidden.dom() =~= Set::<Coords>::empty()
            && settle(s).visible.dom() =~= Set::<Coords>::empty(),
        !(s.unknowns =~= Set::<Coords>::empty()) ==> settle(s).visible.contains_key(
            reserved_coords(),
        ) && s.unknowns.subset_of(settle(s).visible[reserved_coords()].scope),
{
    if s.unknowns =~= Set::<Coords>::empty() {
        assert forall|c: Coords| s.known.dom().contains(c) <==> t.dom().contains(c) by {
            if t.dom().contains(c) && !s.known.dom().contains(c) {
                assert(s.unknowns.contains(c));
            }
        }
        assert(s.known.dom() =~= t.dom());
        assert(scopes_within(s.hidden, t.dom())) by {
            assert forall|k: Coords| #[trigger] s.hidden.contains_key(k) implies s.hidden[k].scope.subset_of(
                t.dom(),
            ) by {
                assert(s.hidden[k].admits(t));
            }
        }
        assert(scopes_within(s.visible, t.dom())) by {
            assert forall|k: Coords| #[trigger] s.visible.contains_key(k) implies s.visible[k].scope.subset_of(
                t.dom(),
            ) by {
                assert(s.visible[k].admits(t));
            }
        }
        lemma_settle_when_all_known(t, s);
    } else {
        lemma_settle_keeps_global(t, s);
    }
}

/// While a cell is unknown, the constraint on the total number of blue cells
/// is visible and has every unknown cell in its scope.
pub open spec fn global_covers(constraints: &Constraints, progress: &Progress) -> bool {
    !(progress.unknowns()@ =~= Set::<Coords>::empty()) ==> constraints.visible()@.contains_key(
        reserved_coords(),
    ) && progress.unknowns()@.subset_of(constraints.visible()@[reserved_coords()]@.scope)
}

/// What the second part of a round came to.
enum Deduction {
    /// Cells were found, with their colours, at the given difficulty.
    Found(CoordMap<Color>, Difficulty),
    /// No tier found a cell.
    Nothing,
    /// The deadline passed during a search.
    TimedOut,
}

/// The second part of a round: looks for forced cells with single
/// constraints, then with groups of clue constraints, then with all
/// constraints together.
fn deduce_round(constraints: &Constraints, env: &mut Env, defn: &Defn) -> (out: Deduction)
    requires
        constraints.wf(),
        all_admit(views(constraints.visible()@), defn.truth()),
        constraints.visible()@.dom().len() <= u32::MAX,
    ensures
        final(env).deadline() == old(env).deadline(),
        out is Nothing ==> deduce(views(constraints.visible()@)) is None,
        out is TimedOut ==> forced_by(views(constraints.visible()@)) =~= Set::<Coords>::empty(),
        out is Found ==> {
            let inv = out->Found_0;
            &&& inv.wf()
            &&& !(inv@.dom() =~= Set::<Coords>::empty())
            &&& inv@ == defn.truth().restrict(inv@.dom())
            &&& deduce(views(constraints.visible()@)) == Some(
                Step { cells: inv@.dom(), difficulty: out->Found_1 },
            )
        },
{
    let ghost vs = views(constraints.visible()@);
    let ghost t = defn.truth();
    proof {
        assert(scopes_within(vs, t.dom())) by {
            assert forall|k: Coords| #[trigger] vs.contains_key(k) implies vs[k].scope.subset_of(
                t.dom(),
            ) by {
                assert(vs[k].admits(t));
            }
        }
        lemma_joint_within(vs, t.dom());
        lemma_search_within(vs, t.dom());
        lemma_search_level(vs);
        assert(vs.dom() =~= constraints.visible()@.dom());
    }
    let trivial = constraints.trivial_invariants(defn);
    proof {
        assert(trivial@.dom() =~= forced_by(vs));
    }
    if !trivial.is_empty() {
        return Deduction::Found(trivial, Difficulty::Local(1));
    }
    env.reset_timer();
    let (compound, difficulty) = match constraints.compound_invariants(env, defn) {
        Ok(found) => found,
        Err(_) => {
            return Deduction::TimedOut;
        },
    };
    proof {
        assert(compound@.dom() =~= search(vs).0);
    }
    if !compound.is_empty() {
        return Deduction::Found(compound, difficulty);
    }
    let count = constraints.visible_count();
    let global = match constraints.global_invariants(env, defn) {
        Ok(found) => found,
        Err(_) => {
            return Deduction::TimedOut;
        },
    };
    proof {
        assert(global@ =~= t.restrict(global@.dom())) by {
            assert forall|c: Coords| global@.contains_key(c) implies t.contains_key(c) && global@[c]
                == t[c] by {
                assert(global@.dom().contains(c));
            }
        }
    }
    if global.is_empty() {
        return Deduction::Nothing;
    }
    Deduction::Found(global, Difficulty::Global(count as u32))
}

/// Solves the puzzle by deduction, round by round, and returns what each
/// round found. The result is `Unsolvable` when a round finds nothing, and
/// `Timeout` when the deadline of `env` passes during a search; a puzzle
/// that single constraints solve never times out. Each round determines at
/// least one cell that was unknown, so there are at most as many rounds as
/// cells to find. The flag is for callers that report on the run; the
/// library itself writes nothing.
pub fn solve(env: &mut Env, defn: &Defn, _verbose: bool) -> (outcome: Outcome)
    requires
        consistent(defn),
    ensures
        final(env).deadline() == old(env).deadline(),
        outcome is Solved ==> run(defn.truth(), start(defn)).solved && steps(outcome->Solved_0@)
            == run(defn.truth(), start(defn)).history,
        outcome is Solved ==> outcome->Solved_0@.len() <= start(defn).unknowns.len(),
        outcome is Solved ==> found_in(outcome->Solved_0@) == start(defn).unknowns,
        outcome is Solved ==> each_round_new(outcome->Solved_0@),
        outcome is Unsolvable ==> !run(defn.truth(), start(defn)).solved,
        outcome is Timeout ==> !plain(run(defn.truth(), start(defn))),
{
    let mut progress = Progress::of_defn(defn);
    let mut constraints = Constraints::of_defn(defn);
    let mut history: Vec<Findings> = Vec::new();
    let ghost t = defn.truth();
    let ghost expected = run(t, start(defn));
    let ghost bound = defn@.dom().insert(reserved_coords());
    let ghost first = start(defn).unknowns;
    proof {
        defn.lemma_truth_finite();
        defn.lemma_len_bound();
        defn.table().lemma_entries();
        progress.unknowns().lemma_len();
        assert(defn.shown().submap_of(t));
        assert(snapshot(&constraints, &progress) == start(defn));
        assert(steps(history@) =~= Seq::<Step>::empty());
        assert(steps(history@) + expected.history =~= expected.history);
        assert(live_keys(&constraints).subset_of(bound)) by {
            assert(views(constraints.hidden()@).dom() =~= constraints.hidden()@.dom());
            assert(views(constraints.visible()@).dom() =~= constraints.visible()@.dom());
        }
        assert(found_in(history@) =~= first.difference(progress.unknowns()@));
        assert(!t.contains_key(reserved_coords())) by {
            assert(!defn@.contains_key(reserved_coords()));
        }
        assert(constraints.hidden()@.dom().subset_of(t.dom())) by {
            assert(views(constraints.hidden()@).dom() =~= constraints.hidden()@.dom());
        }
        assert(views(constraints.visible()@).contains_key(reserved_coords()));
    }
    loop
        invariant
            env.deadline() == old(env).deadline(),
            consistent(defn),
            defn.listing().len() + 1 < u32::MAX,
            t == defn.truth(),
            expected == run(t, start(defn)),
            first == start(defn).unknowns,
            bound == defn@.dom().insert(reserved_coords()),
            bound.finite(),
            bound.len() <= defn.listing().len() + 1,
            progress.wf(),
            constraints.wf(),
            constraints.sound(t),
            progress.known().submap_of(t),
            progress.unknowns()@ == t.dom().difference(progress.known().dom()),
            live_keys(&constraints).subset_of(bound),
            expected.history == steps(history@) + run(t, snapshot(&constraints, &progress)).history,
            expected.solved == run(t, snapshot(&constraints, &progress)).solved,
            history@.len() + progress.unknowns()@.len() <= first.len(),
            first.finite(),
            progress.unknowns()@.subset_of(first),
            found_in(history@) == first.difference(progress.unknowns()@),
            each_round_new(history@),
            !t.contains_key(reserved_coords()),
            constraints.hidden()@.dom().subset_of(t.dom()),
            global_covers(&constraints, &progress),
        decreases progress.unknowns()@.len(),
    {
        let ghost before = snapshot(&constraints, &progress);
        let ghost past = history@;
        settle_round(&mut constraints, &progress, Ghost(t));
        let ghost settled = snapshot(&constraints, &progress);
        proof {
            progress.unknowns().lemma_len();
            assert(constraints.visible()@.dom().subset_of(bound));
            vstd::set_lib::lemma_len_subset(constraints.visible()@.dom(), bound);
        }
        if progress.is_solved() {
            proof {
                // Nothing is unknown, so every constraint has been exhausted.
                assert(constraints.hidden()@.dom() =~= Set::<Coords>::empty());
                assert(constraints.visible()@.dom() =~= Set::<Coords>::empty());
                assert(run(t, before).history =~= Seq::<Step>::empty());
                assert(steps(past) + Seq::<Step>::empty() =~= steps(past));
                assert(found_in(history@) =~= first);
            }
            return Outcome::Solved(history);
        }
        // A cell is unknown, so the blue count, at least, is still visible.
        assert(constraints.visible()@.contains_key(reserved_coords()));
        match deduce_round(&constraints, env, defn) {
            Deduction::TimedOut => {
                proof {
                    lemma_timed_out(t, before, steps(past), expected);
                }
                return Outcome::Timeout;
            },
            Deduction::Nothing => {
                return Outcome::Unsolvable;
            },
            Deduction::Found(invariants, difficulty) => {
                let cells = invariants.key_set();
                let ghost step = Step { cells: cells@, difficulty };
                proof {
                    lemma_joint_within(settled.visible, settled.unknowns);
                    lemma_search_within(settled.visible, settled.unknowns);
                    assert(cells@.subset_of(progress.unknowns()@));
                    cells.lemma_len();
                }
                history.push(Findings::new(difficulty, cells));
                progress.update(invariants);
                proof {
                    let next = snapshot(&constraints, &progress);
                    assert(next == advance(t, settled, step.cells));
                    assert(run(t, before).history == seq![step] + run(t, next).history);
                    assert(steps(history@) =~= steps(past).push(step));
                    assert(steps(past) + (seq![step] + run(t, next).history) =~= steps(past).push(
                        step,
                    ) + run(t, next).history);
                    progress.unknowns().lemma_len();
                    assert forall|c: Coords| found_in(history@).contains(c) <==> first.difference(
                        progress.unknowns()@,
                    ).contains(c) by {
                        if found_in(history@).contains(c) {
                            let i = choose|i: int|
                                0 <= i < history@.len() && (#[trigger] history@[i]).found()@.contains(
                                    c,
                                );
                            if i < past.len() {
                                assert(history@[i] == past[i]);
                                assert(found_in(past).contains(c));
                            }
                        }
                        if found_in(past).contains(c) {
                            let i = choose|i: int|
                                0 <= i < past.len() && (#[trigger] past[i]).found()@.contains(c);
                            assert(history@[i] == past[i]);
                        }
                        if cells@.contains(c) {
                            assert(history@[past.len() as int].found()@.contains(c));
                        }
                    }
                    assert(found_in(history@) =~= first.difference(progress.unknowns()@));
                    assert forall|i: int| 0 <= i < history@.len() implies !((
                    #[trigger] history@[i]).found()@ =~= Set::<Coords>::empty())
                        && history@[i].found()@.disjoint(found_in(history@.take(i))) by {
                        if i < past.len() {
                            assert(history@[i] == past[i]);
                            assert(history@.take(i) =~= past.take(i));
                        } else {
                            assert(history@.take(i) =~= past);
                        }
                    }
                }
            },
        }
    }
}

/// A run whose search was started at some round is not plain.
proof fn lemma_timed_out(t: World, before: Snapshot, past: Seq<Step>, expected: Run)
    requires
        !(before.unknowns =~= Set::<Coords>::empty()),
        forced_by(settle(before).visible) =~= Set::<Coords>::empty(),
        expected.history == past + run(t, before).history,
        expected.solved == run(t, before).solved,
    ensures
        !plain(expected),
{
    let r = run(t, before);
    match deduce(settle(before).visible) {
        None => {},
        Some(step) => {
            lemma_search_level(settle(before).visible);
            assert(step.difficulty != Difficulty::Local(1));
            assert(r.history[0] == step);
            assert(expected.history[past.len() as int] == step);
        },
    }
}

} // verus!
