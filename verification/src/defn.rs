//! The puzzle definition: which cell sits where, and what it shows.

use crate::coord_map::CoordMap;
use crate::coord_set::strictly_sorted;
use crate::misc::{coords_lt, Coords};
use vstd::prelude::*;

verus! {

/// The colour of a cell.
#[derive(Debug, Copy, Clone, PartialEq, Eq, Structural, Hash)]
pub enum Color {
    Blue,
    Black,
}

/// What a clue says beyond the number of blue cells.
#[derive(Debug, Copy, Clone, PartialEq, Eq, Structural, Hash)]
pub enum Modifier {
    /// Only the number of blue cells.
    Plain,
    /// The blue cells follow each other without a gap.
    Consecutive,
    /// The blue cells do not all follow each other.
    NonConsecutive,
}

/// The direction in which a line clue looks.
#[derive(Debug, Copy, Clone, PartialEq, Eq, Structural, Hash)]
pub enum Orientation {
    /// Straight down: `r` grows, `q` stays.
    Down,
    /// Down and to the right: `q` grows, `r` stays.
    DownRight,
    /// Down and to the left: `r` grows, `q` shrinks.
    DownLeft,
}

/// One cell of a puzzle.
#[derive(Debug, Copy, Clone, PartialEq, Eq, Structural, Hash)]
pub enum Cell {
    /// Nothing there.
    Empty,
    /// A clue outside the grid about the cells of one line.
    Line { o: Orientation, m: Modifier },
    /// A cell that carries no clue.
    Zone0 { revealed: bool, color: Color },
    /// A black cell that counts the blue cells among its six neighbours.
    Zone6 { revealed: bool, m: Modifier },
    /// A blue cell that counts the blue cells among the eighteen cells of the
    /// two rings around it.
    Zone18 { revealed: bool },
}

impl Cell {
    /// Whether the cell has a colour to find out.
    pub open spec fn clueable(self) -> bool {
        self is Zone0 || self is Zone6 || self is Zone18
    }

    /// The colour of a cell that has one. A cell with a six-neighbour clue is
    /// black, one with an eighteen-neighbour clue is blue.
    pub open spec fn color(self) -> Color {
        match self {
            Cell::Zone0 { color, .. } => color,
            Cell::Zone18 { .. } => Color::Blue,
            _ => Color::Black,
        }
    }

    /// Whether the cell shows its colour from the start.
    pub open spec fn shown(self) -> bool {
        match self {
            Cell::Zone0 { revealed, .. } => revealed,
            Cell::Zone6 { revealed, .. } => revealed,
            Cell::Zone18 { revealed } => revealed,
            _ => false,
        }
    }

    /// Whether the cell has a colour to find out.
    pub fn is_clueable(&self) -> (b: bool)
        ensures
            b == self.clueable(),
    {
        match self {
            Cell::Zone0 { .. } => true,
            Cell::Zone6 { .. } => true,
            Cell::Zone18 { .. } => true,
            _ => false,
        }
    }

    /// Whether the cell shows its colour from the start.
    pub fn is_revealed(&self) -> (b: bool)
        ensures
            b == self.shown(),
    {
        match self {
            Cell::Zone0 { revealed, .. } => *revealed,
            Cell::Zone6 { revealed, .. } => *revealed,
            Cell::Zone18 { revealed } => *revealed,
            _ => false,
        }
    }
}

/// The colour of a cell, if it has one.
pub fn color_of_cell(cell: &Cell) -> (col: Option<Color>)
    ensures
        col is Some <==> cell.clueable(),
        col is Some ==> col.unwrap() == cell.color(),
{
    match cell {
        Cell::Empty => None,
        Cell::Line { .. } => None,
        Cell::Zone0 { color, .. } => Some(*color),
        Cell::Zone6 { .. } => Some(Color::Black),
        Cell::Zone18 { .. } => Some(Color::Blue),
    }
}


/// The coordinate that no cell may have. The solver files the constraint on
/// the total number of blue cells under it.
pub open spec fn reserved_coords() -> Coords {
    Coords { q: 999, r: 0 }
}

/// Whether a cell may sit at `c`: the two rings around `c` can be
/// represented, and `c` is not the reserved coordinate.
pub open spec fn placeable(c: Coords) -> bool {
    c.has_room(2) && c != reserved_coords()
}

/// The place of a coordinate among all those at which a cell may sit, in
/// their order.
pub open spec fn rank(c: Coords) -> int {
    (c.q + 32766) * 65532 + (c.r + 32766)
}

/// In a strictly increasing listing of coordinates at which cells may sit,
/// each has at least the rank of its position.
pub proof fn lemma_rank_grows(keys: Seq<Coords>, i: int)
    requires
        strictly_sorted(keys),
        forall|k: int| 0 <= k < keys.len() ==> (#[trigger] keys[k]).has_room(2),
        0 <= i < keys.len(),
    ensures
        i <= rank(keys[i]) < 65532 * 65532,
    decreases i,
{
    if i > 0 {
        lemma_rank_grows(keys, i - 1);
        assert(coords_lt(keys[i - 1], keys[i]));
        assert(keys[i - 1].has_room(2));
    }
    assert(keys[i].has_room(2));
}

/// A puzzle: the cells of the grid by their coordinates, and the number of
/// blue cells that the puzzle declares.
#[derive(Debug)]
pub struct Defn {
    cells: CoordMap<Cell>,
    blue_total: usize,
}

impl View for Defn {
    type V = Map<Coords, Cell>;

    open spec fn view(&self) -> Map<Coords, Cell> {
        self.table()@
    }
}

impl Defn {
    /// The cells as an ordered map.
    pub closed spec fn table(&self) -> CoordMap<Cell> {
        self.cells
    }

    /// The number of blue cells that the puzzle declares.
    pub closed spec fn declared_blue(&self) -> nat {
        self.blue_total as nat
    }

    /// The coordinates that have a cell, in increasing order.
    pub open spec fn listing(&self) -> Seq<Coords> {
        self.table().key_seq()
    }

    /// The cells are kept in order, and each sits at a placeable coordinate.
    pub open spec fn wf(&self) -> bool {
        &&& self.table().wf()
        &&& forall|c: Coords| #[trigger] self@.contains_key(c) ==> placeable(c)
    }

    /// The cell at `c`; `Empty` where the puzzle has none.
    pub open spec fn cell(&self, c: Coords) -> Cell {
        if self@.contains_key(c) {
            self@[c]
        } else {
            Cell::Empty
        }
    }

    /// Whether the cell at `c` has a colour to find out.
    pub open spec fn clueable(&self, c: Coords) -> bool {
        self.cell(c).clueable()
    }

    /// Whether the cell at `c` has a colour that is not shown from the start.
    pub open spec fn covered(&self, c: Coords) -> bool {
        self.cell(c).clueable() && !self.cell(c).shown()
    }

    /// The solution: the colour of every cell that has one.
    pub open spec fn truth(&self) -> Map<Coords, Color> {
        Map::new(|c: Coords| self.clueable(c), |c: Coords| self.cell(c).color())
    }

    /// The part of the solution that is shown from the start.
    pub open spec fn shown(&self) -> Map<Coords, Color> {
        Map::new(|c: Coords| self.cell(c).clueable() && self.cell(c).shown(), |c: Coords| self.cell(c).color())
    }

    /// Every cell with a colour has a cell in the puzzle, so there are
    /// finitely many of them.
    pub proof fn lemma_truth_finite(&self)
        requires
            self.wf(),
        ensures
            self@.dom().finite(),
            self.truth().dom().subset_of(self@.dom()),
            self.truth().dom().finite(),
            self.shown().dom().subset_of(self.truth().dom()),
            self.shown().dom().finite(),
    {
        self.table().lemma_entries();
        vstd::set_lib::lemma_len_subset(self.truth().dom(), self@.dom());
        vstd::set_lib::lemma_len_subset(self.shown().dom(), self.truth().dom());
    }

    /// A puzzle has fewer cells than a 32-bit number can count: there are
    /// only so many coordinates at which a cell may sit.
    pub proof fn lemma_len_bound(&self)
        requires
            self.wf(),
        ensures
            self.listing().len() <= 65532 * 65532,
            self.listing().len() + 1 < u32::MAX,
    {
        let keys = self.listing();
        self.table().lemma_entries();
        assert forall|k: int| 0 <= k < keys.len() implies (#[trigger] keys[k]).has_room(2) by {
            assert(self@.contains_key(keys[k]));
            assert(placeable(keys[k]));
        }
        if keys.len() > 0 {
            lemma_rank_grows(keys, keys.len() - 1);
        }
    }

    /// The coordinate that no cell may have.
    pub fn reserved() -> (c: Coords)
        ensures
            c == reserved_coords(),
    {
        Coords::new(999, 0, -999)
    }

    /// A puzzle without cells that declares `blue_total` blue cells.
    pub fn new(blue_total: usize) -> (out: Defn)
        ensures
            out.wf(),
            out@ == Map::<Coords, Cell>::empty(),
            out.declared_blue() == blue_total,
    {
        Defn { cells: CoordMap::new(), blue_total }
    }

    /// The same cells with another number of declared blue cells.
    pub fn with_blue_total(self, blue_total: usize) -> (out: Defn)
        ensures
            out.table() == self.table(),
            out@ == self@,
            out.wf() == self.wf(),
            out.declared_blue() == blue_total,
    {
        Defn { cells: self.cells, blue_total }
    }

    /// Puts `cell` at `coords`, replacing what was there. Returns `false`,
    /// and changes nothing, when no cell may sit at `coords`.
    pub fn insert(&mut self, coords: Coords, cell: Cell) -> (done: bool)
        requires
            old(self).wf(),
        ensures
            final(self).wf(),
            done == placeable(coords),
            done ==> final(self)@ == old(self)@.insert(coords, cell),
            !done ==> final(self)@ == old(self)@,
            final(self).declared_blue() == old(self).declared_blue(),
    {
        let fits = -32766 <= coords.q && coords.q <= 32765 && -32766 <= coords.r && coords.r
            <= 32765;
        if !fits || (coords.q == 999 && coords.r == 0) {
            return false;
        }
        self.cells.insert(coords, cell);
        proof {
            assert(placeable(coords));
            assert(self@ == old(self)@.insert(coords, cell));
            assert forall|c: Coords| #[trigger] self@.contains_key(c) implies placeable(c) by {
                if c != coords {
                    assert(old(self)@.contains_key(c));
                }
            }
        }
        true
    }

    /// The number of blue cells that the puzzle declares.
    pub fn blue_total(&self) -> (n: usize)
        ensures
            n == self.declared_blue(),
    {
        self.blue_total
    }

    /// The number of coordinates that have a cell.
    pub fn len(&self) -> (n: usize)
        ensures
            n == self.listing().len(),
    {
        self.cells.len()
    }

    /// The `i`-th coordinate that has a cell, in increasing order.
    pub fn coords_at(&self, i: usize) -> (c: Coords)
        requires
            self.wf(),
            i < self.listing().len(),
        ensures
            c == self.listing()[i as int],
            self@.contains_key(c),
            placeable(c),
    {
        proof {
            self.table().lemma_entries();
        }
        self.cells.key_at(i)
    }

    /// The cell at the `i`-th coordinate.
    pub fn cell_at(&self, i: usize) -> (cell: Cell)
        requires
            self.wf(),
            i < self.listing().len(),
        ensures
            cell == self.cell(self.listing()[i as int]),
            self@.contains_key(self.listing()[i as int]),
    {
        *self.cells.value_at(i)
    }

    /// The cell at `coords`; `Empty` where the puzzle has none.
    pub fn get(&self, coords: &Coords) -> (cell: Cell)
        requires
            self.wf(),
        ensures
            cell == self.cell(*coords),
    {
        match self.cells.get(coords) {
            Some(cell) => *cell,
            None => Cell::Empty,
        }
    }
}

} // verus!
