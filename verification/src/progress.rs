//! What the solver knows so far: which cells are blue, which are black, and
//! which are still unknown.

use crate::coord_map::CoordMap;
use crate::coord_set::{lemma_take_next_set, CoordSet};
use crate::defn::{color_of_cell, Color, Defn};
use crate::misc::Coords;
use crate::worlds::World;
use vstd::prelude::*;

verus! {

/// Solver progress. Finished when no cell is unknown.
#[derive(Debug)]
pub struct Progress {
    blues: CoordSet,
    blacks: CoordSet,
    unknowns: CoordSet,
}

/// The cells of `findings` that are in `among` and have colour `col`.
pub open spec fn colored(
    findings: Map<Coords, Color>,
    among: Set<Coords>,
    col: Color,
) -> Set<Coords> {
    Set::new(|c: Coords| among.contains(c) && findings.contains_key(c) && findings[c] == col)
}

impl Progress {
    /// The cells known to be blue.
    pub closed spec fn blues(&self) -> CoordSet {
        self.blues
    }

    /// The cells known to be black.
    pub closed spec fn blacks(&self) -> CoordSet {
        self.blacks
    }

    /// The cells whose colour is not known yet.
    pub closed spec fn unknowns(&self) -> CoordSet {
        self.unknowns
    }

    /// The three sets are in order and share no cell.
    pub open spec fn wf(&self) -> bool {
        &&& self.blues().wf()
        &&& self.blacks().wf()
        &&& self.unknowns().wf()
        &&& self.blues()@.disjoint(self.blacks()@)
        &&& self.blues()@.disjoint(self.unknowns()@)
        &&& self.blacks()@.disjoint(self.unknowns()@)
    }

    /// The cells whose colour is known.
    pub open spec fn seen(&self) -> Set<Coords> {
        self.blues()@.union(self.blacks()@)
    }

    /// The colours that are known.
    pub open spec fn known(&self) -> World {
        Map::new(
            |c: Coords| self.blues()@.contains(c) || self.blacks()@.contains(c),
            |c: Coords|
                if self.blues()@.contains(c) {
                    Color::Blue
                } else {
                    Color::Black
                },
        )
    }

    /// The progress at the start of a puzzle: the cells that are shown are
    /// known, all other cells with a colour are unknown.
    pub fn of_defn(defn: &Defn) -> (out: Progress)
        requires
            defn.wf(),
        ensures
            out.wf(),
            out.known() == defn.shown(),
            out.unknowns()@ == defn.truth().dom().difference(defn.shown().dom()),
    {
        let mut blues = CoordSet::new();
        let mut blacks = CoordSet::new();
        let mut unknowns = CoordSet::new();
        let ghost listing = defn.listing();
        let ghost shown = defn.shown();
        let ghost truth = defn.truth();
        let n = defn.len();
        let mut i: usize = 0;
        while i < n
            invariant
                i <= n,
                n == listing.len(),
                defn.wf(),
                listing == defn.listing(),
                shown == defn.shown(),
                truth == defn.truth(),
                blues.wf(),
                blacks.wf(),
                unknowns.wf(),
                blues@ == colored(shown, listing.take(i as int).to_set(), Color::Blue),
                blacks@ == colored(shown, listing.take(i as int).to_set(), Color::Black),
                unknowns@ == listing.take(i as int).to_set().intersect(
                    truth.dom().difference(shown.dom()),
                ),
            decreases n - i,
        {
            let c = defn.coords_at(i);
            let cell = defn.cell_at(i);
            proof {
                lemma_take_next_set(listing, i as int);
            }
            let ghost after = listing.take(i + 1).to_set();
            match color_of_cell(&cell) {
                None => {},
                Some(color) => {
                    if !cell.is_revealed() {
                        unknowns.insert(c);
                    } else {
                        match color {
                            Color::Black => {
                                blacks.insert(c);
                            },
                            Color::Blue => {
                                blues.insert(c);
                            },
                        }
                    }
                },
            }
            proof {
                assert(blues@ =~= colored(shown, after, Color::Blue));
                assert(blacks@ =~= colored(shown, after, Color::Black));
                assert(unknowns@ =~= after.intersect(truth.dom().difference(shown.dom())));
            }
            i = i + 1;
        }
        let out = Progress { blues, blacks, unknowns };
        proof {
            assert(listing.take(i as int) =~= listing);
            defn.table().lemma_entries();
            assert(listing.to_set() == defn@.dom());
            assert(out.known() =~= shown);
            assert(out.unknowns()@ =~= truth.dom().difference(shown.dom()));
        }
        out
    }

    /// Whether no cell is unknown.
    pub fn is_solved(&self) -> (b: bool)
        ensures
            b == (self.unknowns()@ == Set::<Coords>::empty()),
    {
        self.unknowns.is_empty()
    }

    /// The number of cells that are still unknown.
    pub fn unknown_count(&self) -> (n: usize)
        ensures
            n == self.unknowns().seq().len(),
            self.wf() ==> n == self.unknowns()@.len(),
    {
        self.unknowns.len()
    }

    /// The cells known to be blue.
    pub fn blue_cells(&self) -> (s: &CoordSet)
        ensures
            *s == self.blues(),
    {
        &self.blues
    }

    /// The cells known to be black.
    pub fn black_cells(&self) -> (s: &CoordSet)
        ensures
            *s == self.blacks(),
    {
        &self.blacks
    }

    /// The cells whose colour is not known yet.
    pub fn unknown_cells(&self) -> (s: &CoordSet)
        ensures
            *s == self.unknowns(),
    {
        &self.unknowns
    }

    /// The cells whose colour is known: the blue and the black ones.
    pub fn visible_cells(&self) -> (out: CoordSet)
        requires
            self.wf(),
        ensures
            out.wf(),
            out@ == self.seen(),
            out@ == self.known().dom(),
    {
        let out = self.blacks.union(&self.blues);
        assert(out@ =~= self.seen());
        assert(out@ =~= self.known().dom());
        out
    }

    /// Records the colours in `findings`, each of a cell that was unknown:
    /// every such cell leaves the unknown ones and joins those of its colour.
    /// With at least one finding, fewer cells are unknown afterwards.
    pub fn update(&mut self, findings: CoordMap<Color>)
        requires
            old(self).wf(),
            findings.wf(),
            findings@.dom().subset_of(old(self).unknowns()@),
        ensures
            final(self).wf(),
            final(self).unknowns()@ == old(self).unknowns()@.difference(findings@.dom()),
            final(self).known() == old(self).known().union_prefer_right(findings@),
            final(self).unknowns()@.len() + findings@.dom().len() == old(self).unknowns()@.len(),
            findings@.dom().len() > 0 ==> final(self).unknowns()@.len() < old(self).unknowns()@.len(),
    {
        let ghost keys = findings.key_seq();
        let ghost map = findings@;
        let ghost blues0 = self.blues@;
        let ghost blacks0 = self.blacks@;
        let ghost unknowns0 = self.unknowns@;
        let ghost count0 = self.unknowns.seq().len();
        proof {
            findings.lemma_entries();
            self.unknowns.lemma_len();
        }
        let n = findings.len();
        let mut i: usize = 0;
        while i < n
            invariant
                i <= n,
                n == keys.len(),
                findings.wf(),
                keys == findings.key_seq(),
                map == findings@,
                keys.no_duplicates(),
                map.dom() == keys.to_set(),
                map.dom().subset_of(unknowns0),
                blues0.disjoint(blacks0),
                blues0.disjoint(unknowns0),
                blacks0.disjoint(unknowns0),
                self.blues.wf(),
                self.blacks.wf(),
                self.unknowns.wf(),
                self.unknowns@ == unknowns0.difference(keys.take(i as int).to_set()),
                self.unknowns.seq().len() + i == count0,
                self.blues@ == blues0.union(colored(map, keys.take(i as int).to_set(), Color::Blue)),
                self.blacks@ == blacks0.union(
                    colored(map, keys.take(i as int).to_set(), Color::Black),
                ),
            decreases n - i,
        {
            let c = findings.key_at(i);
            let color = *findings.value_at(i);
            let ghost before = keys.take(i as int).to_set();
            let ghost after = keys.take(i + 1).to_set();
            proof {
                lemma_take_next_set(keys, i as int);
                assert(map.dom().contains(c));
                assert(!before.contains(c)) by {
                    if keys.take(i as int).contains(c) {
                        let k = choose|k: int|
                            0 <= k < keys.take(i as int).len() && keys.take(i as int)[k] == c;
                        assert(keys[k] == keys[i as int]);
                    }
                }
            }
            self.unknowns.remove(&c);
            match color {
                Color::Black => {
                    self.blacks.insert(c);
                },
                Color::Blue => {
                    self.blues.insert(c);
                },
            }
            proof {
                assert(self.unknowns@ =~= unknowns0.difference(after));
                assert(self.blues@ =~= blues0.union(colored(map, after, Color::Blue)));
                assert(self.blacks@ =~= blacks0.union(colored(map, after, Color::Black)));
            }
            i = i + 1;
        }
        proof {
            assert(keys.take(i as int) =~= keys);
            self.unknowns.lemma_len();
            assert(self.blues()@.disjoint(self.blacks()@));
            assert(self.blues()@.disjoint(self.unknowns()@));
            assert(self.blacks()@.disjoint(self.unknowns()@));
            assert(self.known() =~= old(self).known().union_prefer_right(map));
        }
    }
}

} // verus!
