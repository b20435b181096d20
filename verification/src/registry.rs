//! The constraints of a puzzle: hidden until their cell is revealed, then
//! visible while they still say something, and exhausted afterwards.

use crate::constraint::{
    clue_of, consistent, global_blue_count, global_view, line, line_cells, zone18, zone18_cells,
    zone6, zone6_cells,
};
use crate::coord_map::CoordMap;
use crate::coord_set::{lemma_take_next_set, CoordSet};
use crate::defn::{reserved_coords, Cell, Color, Defn, Modifier};
use crate::misc::Coords;
use crate::env::{Env, Timeout};
use crate::multiverse::Multiverse;
use crate::progress::Progress;
use crate::worlds::{
    joint, lemma_invariants_agree_with_truth, lemma_joint_insert, lemma_joint_keeps_truth,
    lemma_joint_nothing, lemma_learn_all_next, lemma_learn_all_nothing,
    lemma_learn_all_restrict, MultiverseView, State, World,
};
use vstd::prelude::*;

verus! {

/// What each multiverse of a map stands for.
pub open spec fn views(m: Map<Coords, Multiverse>) -> Map<Coords, MultiverseView> {
    Map::new(|k: Coords| m.contains_key(k), |k: Coords| m[k]@)
}

/// Every multiverse of the map is well formed.
pub open spec fn all_wf(m: Map<Coords, Multiverse>) -> bool {
    forall|k: Coords| #[trigger] m.contains_key(k) ==> m[k].wf()
}

/// Every multiverse of the map admits the colouring `t`.
pub open spec fn all_admit(vs: Map<Coords, MultiverseView>, t: World) -> bool {
    forall|k: Coords| #[trigger] vs.contains_key(k) ==> vs[k].admits(t)
}

/// Each multiverse after learning what is known.
pub open spec fn narrowed(
    vs: Map<Coords, MultiverseView>,
    known: World,
) -> Map<Coords, MultiverseView> {
    Map::new(|k: Coords| vs.contains_key(k), |k: Coords| vs[k].learn_all(known))
}

/// The multiverses that still have a scope.
pub open spec fn running(vs: Map<Coords, MultiverseView>) -> Map<Coords, MultiverseView> {
    Map::new(|k: Coords| vs.contains_key(k) && vs[k].state() != State::Empty, |k: Coords| vs[k])
}

/// The keys of the multiverses whose scope is empty.
pub open spec fn spent(vs: Map<Coords, MultiverseView>) -> Set<Coords> {
    Set::new(|k: Coords| vs.contains_key(k) && vs[k].state() == State::Empty)
}

/// The multiverse that the clue of the cell at `c` starts with.
pub open spec fn first_clue(defn: &Defn, c: Coords) -> MultiverseView {
    match defn.cell(c) {
        Cell::Line { o, m } => clue_of(defn, line_cells(defn, c, o), m, false),
        Cell::Zone6 { m, .. } => clue_of(defn, zone6_cells(defn, c), m, true),
        _ => clue_of(defn, zone18_cells(defn, c), Modifier::Plain, false),
    }
}

/// The constraints that start hidden: those of the cells that count their
/// neighbours.
pub open spec fn first_hidden(defn: &Defn) -> Map<Coords, MultiverseView> {
    Map::new(
        |c: Coords| defn@.contains_key(c) && (defn.cell(c) is Zone6 || defn.cell(c) is Zone18),
        |c: Coords| first_clue(defn, c),
    )
}

/// The constraints that start visible: those of the line clues, and the
/// total number of blue cells under the reserved coordinate.
pub open spec fn first_visible(defn: &Defn) -> Map<Coords, MultiverseView> {
    Map::new(
        |c: Coords| (defn@.contains_key(c) && defn.cell(c) is Line) || c == reserved_coords(),
        |c: Coords|
            if c == reserved_coords() {
                global_view(defn)
            } else {
                first_clue(defn, c)
            },
    )
}

/// Revealing the same cells a second time changes nothing.
pub proof fn lemma_reveal_idempotent(
    hidden: Map<Coords, Multiverse>,
    visible: Map<Coords, Multiverse>,
    cells: Set<Coords>,
)
    ensures
        hidden.remove_keys(cells).remove_keys(cells) == hidden.remove_keys(cells),
        visible.union_prefer_right(hidden.restrict(cells)).union_prefer_right(
            hidden.remove_keys(cells).restrict(cells),
        ) == visible.union_prefer_right(hidden.restrict(cells)),
{
    assert(hidden.remove_keys(cells).remove_keys(cells) =~= hidden.remove_keys(cells));
    assert(visible.union_prefer_right(hidden.restrict(cells)).union_prefer_right(
        hidden.remove_keys(cells).restrict(cells),
    ) =~= visible.union_prefer_right(hidden.restrict(cells)));
}

/// Every entry of `a` is an entry of `b`.
pub open spec fn part_of<V>(a: Map<Coords, V>, b: Map<Coords, V>) -> bool {
    forall|k: Coords| #[trigger] a.contains_key(k) ==> b.contains_key(k) && a[k] == b[k]
}

/// A map with one more multiverse: what it stands for, and what stays true
/// of all its multiverses.
pub proof fn lemma_views_insert(m: Map<Coords, Multiverse>, k: Coords, v: Multiverse, t: World)
    ensures
        views(m.insert(k, v)) == views(m).insert(k, v@),
        all_wf(m) && v.wf() ==> all_wf(m.insert(k, v)),
        all_admit(views(m), t) && v@.admits(t) ==> all_admit(views(m.insert(k, v)), t),
{
    let n = m.insert(k, v);
    assert(views(n) =~= views(m).insert(k, v@));
    if all_wf(m) && v.wf() {
        assert forall|j: Coords| #[trigger] n.contains_key(j) implies n[j].wf() by {
            if j != k {
                assert(m.contains_key(j));
            }
        }
    }
    if all_admit(views(m), t) && v@.admits(t) {
        assert forall|j: Coords| #[trigger] views(n).contains_key(j) implies views(n)[j].admits(
            t,
        ) by {
            if j != k {
                assert(views(m).contains_key(j));
            }
        }
    }
}

/// The multiverse of the clue of `cell`, which sits at `coords`, if it has
/// one.
fn clue_for(defn: &Defn, coords: Coords, cell: Cell) -> (out: Option<Multiverse>)
    requires
        defn.wf(),
        defn@.contains_key(coords),
        cell == defn.cell(coords),
    ensures
        out is Some <==> (cell is Line || cell is Zone6 || cell is Zone18),
        out is Some ==> out.unwrap().wf() && out.unwrap()@ == first_clue(defn, coords),
        out is Some && consistent(defn) ==> out.unwrap()@.admits(defn.truth()),
{
    proof {
        if consistent(defn) {
            assert(crate::constraint::clue_true(defn, coords));
        }
    }
    match cell {
        Cell::Empty => None,
        Cell::Zone0 { .. } => None,
        Cell::Line { m, o } => Some(line(defn, coords, o, m)),
        Cell::Zone6 { m, .. } => Some(zone6(defn, coords, m)),
        Cell::Zone18 { .. } => Some(zone18(defn, coords)),
    }
}

/// The cells that some multiverse among those with a key in `keys` forces
/// to a colour.
pub open spec fn forced_among(vs: Map<Coords, MultiverseView>, keys: Set<Coords>) -> Set<Coords> {
    Set::new(
        |c: Coords|
            exists|k: Coords|
                keys.contains(k) && #[trigger] vs.contains_key(k) && vs[k].invariants().contains_key(
                    c,
                ),
    )
}

/// The cells that some multiverse of the map forces to a colour.
pub open spec fn forced_by(vs: Map<Coords, MultiverseView>) -> Set<Coords> {
    forced_among(vs, vs.dom())
}

/// `mv` after learning what `progress` knows of the cells among
/// `visible_cells`, or `None` when its scope has none of those cells.
fn narrow_one(mv: &Multiverse, visible_cells: &CoordSet, progress: &Progress) -> (out: Option<
    Multiverse,
>)
    requires
        mv.wf(),
        visible_cells.wf(),
        progress.wf(),
    ensures
        out is Some ==> out.unwrap().wf() && out.unwrap()@ == mv@.learn_all(
            progress.known().restrict(visible_cells@),
        ),
        out is None ==> mv@ == mv@.learn_all(progress.known().restrict(visible_cells@)),
{
    let inter = mv.scope().intersection(visible_cells);
    let ghost b = mv@;
    let ghost known = progress.known();
    let ghost cells = inter.seq();
    proof {
        mv.lemma_view();
        inter.lemma_len();
        lemma_learn_all_restrict(b, known.restrict(visible_cells@), b.scope);
        assert(known.restrict(visible_cells@).restrict(b.scope) =~= known.restrict(inter@));
    }
    if inter.is_empty() {
        proof {
            assert(known.restrict(inter@) =~= Map::<Coords, Color>::empty());
            lemma_learn_all_nothing(b, known.restrict(inter@));
        }
        return None;
    }
    let mut cur = mv.copy();
    proof {
        assert(known.restrict(cells.take(0).to_set()) =~= Map::<Coords, Color>::empty());
        lemma_learn_all_nothing(b, known.restrict(cells.take(0).to_set()));
    }
    let mut j: usize = 0;
    while j < inter.len()
        invariant
            j <= cells.len(),
            cells == inter.seq(),
            cells.no_duplicates(),
            progress.wf(),
            known == progress.known(),
            b.wf(),
            cur.wf(),
            cur@ == b.learn_all(known.restrict(cells.take(j as int).to_set())),
        decreases cells.len() - j,
    {
        let c = inter.nth(j);
        proof {
            lemma_learn_all_next(b, known, cells, j as int);
        }
        if progress.blue_cells().contains(&c) {
            cur = cur.learn(&c, Color::Blue);
        } else if progress.black_cells().contains(&c) {
            cur = cur.learn(&c, Color::Black);
        }
        j = j + 1;
    }
    proof {
        assert(cells.take(j as int) =~= cells);
    }
    Some(cur)
}

/// Puts every entry of `more` into `out`.
pub fn absorb(out: &mut CoordMap<Color>, more: &CoordMap<Color>)
    requires
        old(out).wf(),
        more.wf(),
    ensures
        final(out).wf(),
        final(out)@ == old(out)@.union_prefer_right(more@),
{
    let ghost start = out@;
    let ghost keys = more.key_seq();
    proof {
        more.lemma_entries();
    }
    let mut i: usize = 0;
    while i < more.len()
        invariant
            i <= keys.len(),
            keys == more.key_seq(),
            more.wf(),
            more@.dom() == keys.to_set(),
            out.wf(),
            out@ == start.union_prefer_right(more@.restrict(keys.take(i as int).to_set())),
        decreases keys.len() - i,
    {
        let c = more.key_at(i);
        let col = *more.value_at(i);
        proof {
            lemma_take_next_set(keys, i as int);
        }
        out.insert(c, col);
        assert(out@ =~= start.union_prefer_right(more@.restrict(keys.take(i + 1).to_set())));
        i = i + 1;
    }
    proof {
        assert(keys.take(i as int) =~= keys);
        assert(more@.restrict(keys.to_set()) =~= more@);
    }
}

/// Solver constraints. They correspond to the numbers in the actual game.
/// The hidden ones are yet to be revealed, the visible ones are the active
/// set, and the exhausted ones carry no uncertainty any more.
#[derive(Debug)]
pub struct Constraints {
    constraints_hidden: CoordMap<Multiverse>,
    constraints_visible: CoordMap<Multiverse>,
    constraints_exhausted: CoordSet,
}

impl Constraints {
    /// The constraints whose cell is not revealed yet.
    pub closed spec fn hidden(&self) -> CoordMap<Multiverse> {
        self.constraints_hidden
    }

    /// The constraints that take part in deduction.
    pub closed spec fn visible(&self) -> CoordMap<Multiverse> {
        self.constraints_visible
    }

    /// The keys of the constraints that have nothing left to say.
    pub closed spec fn exhausted(&self) -> CoordSet {
        self.constraints_exhausted
    }

    /// The three collections are in order and every multiverse is well
    /// formed.
    pub open spec fn wf(&self) -> bool {
        &&& self.hidden().wf()
        &&& self.visible().wf()
        &&& self.exhausted().wf()
        &&& all_wf(self.hidden()@)
        &&& all_wf(self.visible()@)
    }

    /// Every constraint, hidden or visible, admits the colouring `t`.
    pub open spec fn sound(&self, t: World) -> bool {
        &&& all_admit(views(self.hidden()@), t)
        &&& all_admit(views(self.visible()@), t)
    }

    /// The constraints of a puzzle at its start. A line clue is visible at
    /// once, the clue of a cell is hidden until the cell is revealed, and
    /// the total number of blue cells is visible under the reserved
    /// coordinate.
    pub fn of_defn(defn: &Defn) -> (out: Constraints)
        requires
            defn.wf(),
        ensures
            out.wf(),
            views(out.hidden()@) == first_hidden(defn),
            views(out.visible()@) == first_visible(defn),
            out.exhausted()@ == Set::<Coords>::empty(),
            consistent(defn) ==> out.sound(defn.truth()),
    {
        let mut hidden: CoordMap<Multiverse> = CoordMap::new();
        let mut visible: CoordMap<Multiverse> = CoordMap::new();
        let exhausted = CoordSet::new();
        let ghost listing = defn.listing();
        let ghost t = defn.truth();
        let n = defn.len();
        let mut i: usize = 0;
        proof {
            defn.table().lemma_entries();
        }
        while i < n
            invariant
                i <= n,
                n == listing.len(),
                defn.wf(),
                listing == defn.listing(),
                listing.to_set() == defn@.dom(),
                t == defn.truth(),
                hidden.wf(),
                visible.wf(),
                all_wf(hidden@),
                all_wf(visible@),
                views(hidden@) == first_hidden(defn).restrict(listing.take(i as int).to_set()),
                views(visible@) == first_visible(defn).remove(reserved_coords()).restrict(
                    listing.take(i as int).to_set(),
                ),
                consistent(defn) ==> all_admit(views(hidden@), t) && all_admit(views(visible@), t),
            decreases n - i,
        {
            let coords = defn.coords_at(i);
            let cell = defn.cell_at(i);
            let ghost after = listing.take(i + 1).to_set();
            proof {
                lemma_take_next_set(listing, i as int);
                assert(defn@.contains_key(coords));
            }
            match clue_for(defn, coords, cell) {
                None => {},
                Some(mv) => {
                    proof {
                        lemma_views_insert(hidden@, coords, mv, t);
                        lemma_views_insert(visible@, coords, mv, t);
                    }
                    match cell {
                        Cell::Line { .. } => {
                            visible.insert(coords, mv);
                        },
                        _ => {
                            hidden.insert(coords, mv);
                        },
                    }
                },
            }
            proof {
                assert(views(hidden@) =~= first_hidden(defn).restrict(after));
                assert(views(visible@) =~= first_visible(defn).remove(reserved_coords()).restrict(
                    after,
                ));
            }
            i = i + 1;
        }
        let global = global_blue_count(defn);
        proof {
            lemma_views_insert(visible@, reserved_coords(), global, t);
            assert(listing.take(i as int) =~= listing);
            assert(!defn@.contains_key(reserved_coords()));
            if consistent(defn) {
                assert(global@.admits(t));
            }
        }
        visible.insert(Defn::reserved(), global);
        let out = Constraints {
            constraints_hidden: hidden,
            constraints_visible: visible,
            constraints_exhausted: exhausted,
        };
        proof {
            assert(views(out.hidden()@) =~= first_hidden(defn));
            assert(views(out.visible()@) =~= first_visible(defn).remove(reserved_coords()).restrict(
                listing.to_set(),
            ).insert(reserved_coords(), global_view(defn)));
            assert(views(out.visible()@) =~= first_visible(defn));
        }
        out
    }

    /// Whether no constraint is hidden or visible any more.
    pub fn is_solved(&self) -> (b: bool)
        ensures
            b == (self.visible()@.dom() == Set::<Coords>::empty() && self.hidden()@.dom()
                == Set::<Coords>::empty()),
    {
        self.constraints_visible.is_empty() && self.constraints_hidden.is_empty()
    }

    /// The constraints whose cell is not revealed yet.
    pub fn hidden_constraints(&self) -> (m: &CoordMap<Multiverse>)
        ensures
            *m == self.hidden(),
    {
        &self.constraints_hidden
    }

    /// The keys of the constraints that have nothing left to say.
    pub fn exhausted_keys(&self) -> (s: &CoordSet)
        ensures
            *s == self.exhausted(),
    {
        &self.constraints_exhausted
    }

    /// The constraints that take part in deduction.
    pub fn visible_constraints(&self) -> (m: &CoordMap<Multiverse>)
        ensures
            *m == self.visible(),
    {
        &self.constraints_visible
    }

    /// The number of visible constraints.
    pub fn visible_count(&self) -> (n: usize)
        ensures
            n == self.visible().key_seq().len(),
            self.wf() ==> n == self.visible()@.dom().len(),
    {
        self.constraints_visible.len()
    }

    /// Moves every hidden constraint whose cell is among `visible_cells` to
    /// the visible ones.
    pub fn reveal_cells(&mut self, visible_cells: &CoordSet)
        requires
            old(self).wf(),
            visible_cells.wf(),
        ensures
            final(self).wf(),
            final(self).hidden()@ == old(self).hidden()@.remove_keys(visible_cells@),
            final(self).visible()@ == old(self).visible()@.union_prefer_right(
                old(self).hidden()@.restrict(visible_cells@),
            ),
            final(self).exhausted() == old(self).exhausted(),
    {
        let ghost hidden0 = self.constraints_hidden@;
        let ghost visible0 = self.constraints_visible@;
        let ghost cells = visible_cells@;
        let mut kept: CoordMap<Multiverse> = CoordMap::new();
        let mut left = self.constraints_hidden.len();
        while left > 0
            invariant
                left == self.constraints_hidden.key_seq().len(),
                self.constraints_hidden.wf(),
                self.constraints_visible.wf(),
                self.constraints_exhausted == old(self).constraints_exhausted,
                kept.wf(),
                visible_cells.wf(),
                cells == visible_cells@,
                all_wf(hidden0),
                all_wf(visible0),
                all_wf(self.constraints_visible@),
                all_wf(kept@),
                part_of(self.constraints_hidden@, hidden0),
                kept@ == hidden0.remove_keys(self.constraints_hidden@.dom()).remove_keys(cells),
                self.constraints_visible@ == visible0.union_prefer_right(
                    hidden0.remove_keys(self.constraints_hidden@.dom()).restrict(cells),
                ),
            decreases left,
        {
            let ghost rest0 = self.constraints_hidden@;
            let ghost kept0 = kept@;
            let ghost vis0 = self.constraints_visible@;
            let (k, mv) = self.constraints_hidden.pop_last().unwrap();
            let ghost rest1 = self.constraints_hidden@;
            proof {
                assert(rest0.contains_key(k) && rest0[k] == mv);
                assert(hidden0.contains_key(k) && hidden0[k] == mv);
                assert(mv.wf());
            }
            proof {
                lemma_views_insert(vis0, k, mv, Map::empty());
                lemma_views_insert(kept0, k, mv, Map::empty());
            }
            if visible_cells.contains(&k) {
                self.constraints_visible.insert(k, mv);
            } else {
                kept.insert(k, mv);
            }
            proof {
                assert(kept@ =~= hidden0.remove_keys(rest1.dom()).remove_keys(cells));
                assert(self.constraints_visible@ =~= visible0.union_prefer_right(
                    hidden0.remove_keys(rest1.dom()).restrict(cells),
                ));
            }
            left = left - 1;
        }
        proof {
            assert(self.constraints_hidden@.dom() =~= Set::<Coords>::empty()) by {
                self.constraints_hidden.lemma_entries();
                assert(self.constraints_hidden.key_seq().to_set() =~= Set::<Coords>::empty());
            }
            assert(hidden0.remove_keys(self.constraints_hidden@.dom()) =~= hidden0);
        }
        self.constraints_hidden = kept;
    }

    /// Moves every visible constraint whose scope is empty to the exhausted
    /// ones. No visible constraint may be stuck.
    pub fn gc(&mut self)
        requires
            old(self).wf(),
            forall|k: Coords| #[trigger]
                old(self).visible()@.contains_key(k) ==> old(self).visible()@[k]@.state()
                    != State::Stuck,
        ensures
            final(self).wf(),
            final(self).hidden() == old(self).hidden(),
            final(self).visible()@.submap_of(old(self).visible()@),
            views(final(self).visible()@) == running(views(old(self).visible()@)),
            final(self).exhausted()@ == old(self).exhausted()@.union(
                spent(views(old(self).visible()@)),
            ),
            forall|k: Coords| #[trigger]
                final(self).visible()@.contains_key(k) ==> final(self).visible()@[k]@.state()
                    == State::Running,
    {
        let ghost visible0 = self.constraints_visible@;
        let ghost exhausted0 = self.constraints_exhausted@;
        let mut kept: CoordMap<Multiverse> = CoordMap::new();
        let mut left = self.constraints_visible.len();
        while left > 0
            invariant
                left == self.constraints_visible.key_seq().len(),
                self.constraints_visible.wf(),
                self.constraints_exhausted.wf(),
                self.constraints_hidden == old(self).constraints_hidden,
                kept.wf(),
                all_wf(visible0),
                all_wf(kept@),
                forall|k: Coords| #[trigger]
                    visible0.contains_key(k) ==> visible0[k]@.state() != State::Stuck,
                part_of(self.constraints_visible@, visible0),
                part_of(kept@, visible0),
                forall|k: Coords|
                    kept@.contains_key(k) <==> (visible0.contains_key(k)
                        && !self.constraints_visible@.contains_key(k) && (#[trigger] visible0[k])@.state()
                        != State::Empty),
                forall|k: Coords|
                    self.constraints_exhausted@.contains(k) <==> (exhausted0.contains(k) || (
                    visible0.contains_key(k) && !self.constraints_visible@.contains_key(k) && (
                    #[trigger] visible0[k])@.state() == State::Empty)),
            decreases left,
        {
            let ghost kept0 = kept@;
            let ghost rest0 = self.constraints_visible@;
            let (k, mv) = self.constraints_visible.pop_last().unwrap();
            proof {
                assert(rest0.contains_key(k) && rest0[k] == mv);
                assert(visible0.contains_key(k) && visible0[k] == mv);
                assert(mv.wf());
            }
            proof {
                lemma_views_insert(kept0, k, mv, Map::empty());
            }
            match mv.state() {
                State::Empty => {
                    self.constraints_exhausted.insert(k);
                },
                _ => {
                    kept.insert(k, mv);
                },
            }
            left = left - 1;
        }
        proof {
            assert(self.constraints_visible@.dom() =~= Set::<Coords>::empty()) by {
                self.constraints_visible.lemma_entries();
                assert(self.constraints_visible.key_seq().to_set() =~= Set::<Coords>::empty());
            }
            assert forall|k: Coords| #[trigger] kept@.contains_key(k) implies kept@[k]@.state()
                == State::Running by {
                assert(visible0.contains_key(k));
                assert(kept@[k] == visible0[k]);
            }
            assert forall|k: Coords| views(kept@).contains_key(k) <==> running(
                views(visible0),
            ).contains_key(k) by {
                if visible0.contains_key(k) {
                    assert(views(visible0)[k] == visible0[k]@);
                }
            }
            assert forall|k: Coords| views(kept@).contains_key(k) implies views(kept@)[k]
                == running(views(visible0))[k] by {
                assert(kept@[k] == visible0[k]);
            }
            assert(views(kept@) =~= running(views(visible0)));
            assert forall|k: Coords|
                self.constraints_exhausted@.contains(k) <==> exhausted0.union(
                    spent(views(visible0)),
                ).contains(k) by {
                if visible0.contains_key(k) {
                    assert(views(visible0)[k] == visible0[k]@);
                }
            }
            assert(self.constraints_exhausted@ =~= exhausted0.union(spent(views(visible0))));
        }
        proof {
            assert(kept@.submap_of(visible0)) by {
                assert forall|k: Coords| #[trigger] kept@.dom().contains(k) implies #[trigger] visible0.dom().contains(k)
                    && kept@[k] == visible0[k] by {
                    assert(kept@.contains_key(k));
                }
            }
        }
        self.constraints_visible = kept;
    }

    /// Narrows every visible constraint by what `progress` knows of the
    /// cells among `visible_cells`.
    pub fn narrow(&mut self, visible_cells: &CoordSet, progress: &Progress)
        requires
            old(self).wf(),
            visible_cells.wf(),
            progress.wf(),
        ensures
            final(self).wf(),
            final(self).hidden() == old(self).hidden(),
            final(self).exhausted() == old(self).exhausted(),
            views(final(self).visible()@) == narrowed(
                views(old(self).visible()@),
                progress.known().restrict(visible_cells@),
            ),
    {
        let ghost keys = self.constraints_visible.key_seq();
        let ghost vals0 = self.constraints_visible.val_seq();
        let ghost visible0 = self.constraints_visible@;
        let ghost known = progress.known().restrict(visible_cells@);
        proof {
            self.constraints_visible.lemma_entries();
            assert forall|j: int| 0 <= j < vals0.len() implies (#[trigger] vals0[j]).wf() by {
                assert(visible0.contains_key(keys[j]));
                assert(visible0[keys[j]] == vals0[j]);
            }
        }
        let n = self.constraints_visible.len();
        let mut i: usize = 0;
        while i < n
            invariant
                i <= n,
                n == keys.len(),
                visible_cells.wf(),
                progress.wf(),
                known == progress.known().restrict(visible_cells@),
                self.constraints_hidden == old(self).constraints_hidden,
                self.constraints_exhausted == old(self).constraints_exhausted,
                self.constraints_visible.wf(),
                self.constraints_visible.key_seq() == keys,
                self.constraints_visible.val_seq().len() == vals0.len(),
                vals0.len() == keys.len(),
                forall|j: int| 0 <= j < vals0.len() ==> (#[trigger] vals0[j]).wf(),
                forall|j: int|
                    0 <= j < i ==> (#[trigger] self.constraints_visible.val_seq()[j]).wf()
                        && self.constraints_visible.val_seq()[j]@ == vals0[j]@.learn_all(known),
                forall|j: int|
                    i <= j < vals0.len() ==> #[trigger] self.constraints_visible.val_seq()[j]
                        == vals0[j],
            decreases n - i,
        {
            let fresh = narrow_one(self.constraints_visible.value_at(i), visible_cells, progress);
            match fresh {
                Some(mv) => {
                    self.constraints_visible.set_at(i, mv);
                },
                None => {},
            }
            i = i + 1;
        }
        proof {
            self.constraints_visible.lemma_entries();
            let now = self.constraints_visible@;
            let vals1 = self.constraints_visible.val_seq();
            assert(now.dom() =~= visible0.dom());
            assert forall|k: Coords| #[trigger] now.contains_key(k) implies now[k].wf() && now[k]@
                == visible0[k]@.learn_all(known) by {
                let j = keys.index_of(k);
                assert(keys[j] == k);
                assert(now[keys[j]] == vals1[j]);
                assert(visible0[keys[j]] == vals0[j]);
            }
            assert(views(now) =~= narrowed(views(visible0), known));
        }
    }

    /// The cells that some visible constraint forces to a colour, each with
    /// that colour, which is its colour in the solution.
    pub fn trivial_invariants(&self, defn: &Defn) -> (out: CoordMap<Color>)
        requires
            self.wf(),
            all_admit(views(self.visible()@), defn.truth()),
        ensures
            out.wf(),
            out@ == defn.truth().restrict(forced_by(views(self.visible()@))),
    {
        let mut invariants: CoordMap<Color> = CoordMap::new();
        let ghost keys = self.constraints_visible.key_seq();
        let ghost vs = views(self.constraints_visible@);
        let ghost t = defn.truth();
        proof {
            self.constraints_visible.lemma_entries();
            assert(invariants@ =~= t.restrict(forced_among(vs, keys.take(0).to_set())));
        }
        let n = self.constraints_visible.len();
        let mut i: usize = 0;
        while i < n
            invariant
                i <= n,
                n == keys.len(),
                self.wf(),
                keys == self.constraints_visible.key_seq(),
                vs == views(self.constraints_visible@),
                vs.dom() == keys.to_set(),
                t == defn.truth(),
                all_admit(vs, t),
                invariants.wf(),
                invariants@ == t.restrict(forced_among(vs, keys.take(i as int).to_set())),
            decreases n - i,
        {
            let mv = self.constraints_visible.value_at(i);
            let ghost k = keys[i as int];
            proof {
                self.constraints_visible.lemma_entries();
                assert(vs.contains_key(k));
                assert(self.constraints_visible@.contains_key(k));
                assert(mv@ == vs[k]);
            }
            let found = mv.invariants();
            absorb(&mut invariants, &found);
            proof {
                lemma_take_next_set(keys, i as int);
                let before = forced_among(vs, keys.take(i as int).to_set());
                let after = forced_among(vs, keys.take(i + 1).to_set());
                assert forall|c: Coords| found@.contains_key(c) implies t.contains_key(c) && found@[c]
                    == t[c] by {
                    lemma_invariants_agree_with_truth(vs[k], t, c);
                }
                assert forall|c: Coords| after.contains(c) <==> (before.contains(c)
                    || found@.contains_key(c)) by {
                    if after.contains(c) {
                        let j = choose|j: Coords|
                            keys.take(i + 1).to_set().contains(j) && #[trigger] vs.contains_key(j)
                                && vs[j].invariants().contains_key(c);
                        if j != k {
                            assert(keys.take(i as int).to_set().contains(j) && vs.contains_key(j));
                        }
                    }
                    if before.contains(c) {
                        let j = choose|j: Coords|
                            keys.take(i as int).to_set().contains(j) && #[trigger] vs.contains_key(
                                j,
                            ) && vs[j].invariants().contains_key(c);
                        assert(keys.take(i + 1).to_set().contains(j) && vs.contains_key(j));
                    }
                    if found@.contains_key(c) {
                        assert(keys.take(i + 1).to_set().contains(k) && vs.contains_key(k));
                    }
                }
                assert(invariants@ =~= t.restrict(after));
            }
            i = i + 1;
        }
        proof {
            assert(keys.take(i as int) =~= keys);
        }
        invariants
    }

    /// The cells that all visible constraints together force to a colour,
    /// each with that colour, which is its colour in the solution. The
    /// constraints are merged from the last key to the first, and the
    /// deadline is consulted before each merge.
    pub fn global_invariants(&self, env: &mut Env, defn: &Defn) -> (res: Result<
        CoordMap<Color>,
        Timeout,
    >)
        requires
            self.wf(),
            all_admit(views(self.visible()@), defn.truth()),
        ensures
            final(env).deadline() == old(env).deadline(),
            res is Ok ==> res.unwrap().wf() && res.unwrap()@ == joint(
                views(self.visible()@),
            ).invariants() && res.unwrap()@.submap_of(defn.truth()),
            self.visible().key_seq().len() == 0 ==> res is Ok,
    {
        let ghost keys = self.constraints_visible.key_seq();
        let ghost vs = views(self.constraints_visible@);
        let ghost t = defn.truth();
        let mut mv = Multiverse::empty();
        let n = self.constraints_visible.len();
        let mut i: usize = n;
        proof {
            self.constraints_visible.lemma_entries();
            lemma_joint_nothing();
            assert(keys.skip(n as int).to_set() =~= Set::<Coords>::empty());
            assert(vs.restrict(keys.skip(n as int).to_set()) =~= Map::<Coords, MultiverseView>::empty());
        }
        while i > 0
            invariant
                env.deadline() == old(env).deadline(),
                i <= n,
                n == keys.len(),
                self.wf(),
                keys == self.constraints_visible.key_seq(),
                keys.no_duplicates(),
                vs == views(self.constraints_visible@),
                vs.dom() == keys.to_set(),
                mv.wf(),
                mv@ == joint(vs.restrict(keys.skip(i as int).to_set())),
            decreases i,
        {
            match env.check_timeout() {
                Err(e) => {
                    return Err(e);
                },
                Ok(_) => {},
            }
            i = i - 1;
            let mv2 = self.constraints_visible.value_at(i);
            proof {
                let k = keys[i as int];
                let done = vs.restrict(keys.skip(i + 1).to_set());
                self.constraints_visible.lemma_entries();
                crate::seqs::lemma_skip_prev_set(keys, i + 1);
                let rest = keys.skip(i + 1);
                assert(!done.contains_key(k)) by {
                    if rest.contains(k) {
                        let j = choose|j: int| 0 <= j < rest.len() && rest[j] == k;
                        assert(keys[i + 1 + j] == keys[i as int]);
                    }
                }
                assert(vs.contains_key(k));
                assert(mv2@ == vs[k]);
                lemma_joint_insert(done, k, vs[k]);
                assert(done.insert(k, vs[k]) =~= vs.restrict(keys.skip(i as int).to_set()));
            }
            mv = mv.merge(mv2);
        }
        let invariants = mv.invariants();
        proof {
            assert(keys.skip(0) =~= keys);
            assert(vs.restrict(keys.to_set()) =~= vs);
            lemma_joint_keeps_truth(vs, t);
            assert forall|c: Coords| #[trigger] invariants@.dom().contains(c) implies #[trigger] t.dom().contains(
                c,
            ) && invariants@[c] == t[c] by {
                lemma_invariants_agree_with_truth(joint(vs), t, c);
            }
        }
        Ok(invariants)
    }
}

} // verus!
