//! Clues as multiverses: every colouring of a clue's cells that the clue
//! allows.

use crate::coord_map::{lemma_zip_map, zip_map};
use crate::defn::{Cell, Color, Defn, Modifier, Orientation};
use crate::misc::{binomial, Coords};
use crate::multiverse::{row_worlds, rows_fit, rows_of, rows_view, Multiverse};
use crate::seqs::{lemma_filter_member, lemma_filter_no_duplicates, lemma_take_push};
use crate::worlds::{MultiverseView, World};
use vstd::prelude::*;

verus! {

/// The number of blue entries of a row.
pub open spec fn blue_count(row: Seq<Color>) -> nat
    decreases row.len(),
{
    if row.len() == 0 {
        0
    } else {
        blue_count(row.drop_last()) + if row.last() == Color::Blue {
            1nat
        } else {
            0nat
        }
    }
}

/// Whether a run of blue entries begins at position `p`: the entry is blue
/// and the one before it is not. On a ring the last entry comes before the
/// first.
pub open spec fn starts_run(row: Seq<Color>, ring: bool, p: int) -> bool {
    &&& row[p] == Color::Blue
    &&& if p > 0 {
        row[p - 1] != Color::Blue
    } else {
        !ring || row[row.len() - 1] != Color::Blue
    }
}

/// The number of runs that begin before position `n`.
pub open spec fn run_starts(row: Seq<Color>, ring: bool, n: int) -> nat
    decreases n,
{
    if n <= 0 {
        0
    } else {
        run_starts(row, ring, n - 1) + if starts_run(row, ring, n - 1) {
            1nat
        } else {
            0nat
        }
    }
}

/// The number of separate runs of blue entries. A ring that is blue all
/// round has none that begins anywhere, and counts as having no run.
pub open spec fn blue_runs(row: Seq<Color>, ring: bool) -> nat {
    run_starts(row, ring, row.len() as int)
}

/// What a modifier asks of the blue entries: nothing, that they form at most
/// one run, or that they form at least two.
pub open spec fn modifier_holds(m: Modifier, row: Seq<Color>, ring: bool) -> bool {
    match m {
        Modifier::Plain => true,
        Modifier::Consecutive => blue_runs(row, ring) <= 1,
        Modifier::NonConsecutive => blue_runs(row, ring) >= 2,
    }
}

/// Whether a row has `blue` blue entries, arranged as the modifier asks.
pub open spec fn clue_holds(row: Seq<Color>, blue: int, m: Modifier, ring: bool) -> bool {
    blue_count(row) == blue && modifier_holds(m, row, ring)
}

/// The colours that a world gives to the cells, in their order.
pub open spec fn colors_along(cells: Seq<Coords>, w: World) -> Seq<Color> {
    Seq::new(cells.len(), |p: int| w[cells[p]])
}

/// The multiverse of a clue: the scope is the cells, and the worlds are the
/// colourings with `blue` blue cells, arranged along the order of `cells` as
/// the modifier asks.
pub open spec fn clue_view(
    cells: Seq<Coords>,
    blue: int,
    m: Modifier,
    ring: bool,
) -> MultiverseView {
    MultiverseView {
        scope: cells.to_set(),
        worlds: Set::new(
            |w: World|
                w.dom() =~= cells.to_set() && clue_holds(colors_along(cells, w), blue, m, ring),
        ),
    }
}

/// Each row with one more entry, `col`, at its end.
pub open spec fn extended(rows: Seq<Seq<Color>>, col: Color) -> Seq<Seq<Color>> {
    Seq::new(rows.len(), |i: int| rows[i].push(col))
}

/// Every row of `n` entries of which `k` are blue: first those that end in
/// black, then those that end in blue.
pub open spec fn count_rows(n: nat, k: nat) -> Seq<Seq<Color>>
    decreases n,
{
    if n == 0 {
        if k == 0 {
            seq![Seq::<Color>::empty()]
        } else {
            Seq::<Seq<Color>>::empty()
        }
    } else {
        let black = extended(count_rows((n - 1) as nat, k), Color::Black);
        if k == 0 {
            black
        } else {
            black + extended(count_rows((n - 1) as nat, (k - 1) as nat), Color::Blue)
        }
    }
}

/// [`count_rows`] lists each row of `n` entries with `k` blue ones exactly
/// once, so there are `binomial(n, k)` of them.
pub proof fn lemma_count_rows(n: nat, k: nat)
    ensures
        forall|x: Seq<Color>| #[trigger]
            count_rows(n, k).contains(x) <==> x.len() == n && blue_count(x) == k,
        count_rows(n, k).no_duplicates(),
        count_rows(n, k).len() == binomial(n, k),
    decreases n,
{
    let out = count_rows(n, k);
    if n == 0 {
        assert forall|x: Seq<Color>| #[trigger]
            out.contains(x) <==> x.len() == n && blue_count(x) == k by {
            if out.contains(x) {
                let i = choose|i: int| 0 <= i < out.len() && out[i] == x;
            }
            if x.len() == 0 && blue_count(x) == k {
                assert(x =~= Seq::<Color>::empty());
                assert(out[0] == x);
            }
        }
    } else {
        let m = (n - 1) as nat;
        let a = count_rows(m, k);
        let black = extended(a, Color::Black);
        lemma_count_rows(m, k);
        if k > 0 {
            lemma_count_rows(m, (k - 1) as nat);
        }
        let b = if k > 0 { count_rows(m, (k - 1) as nat) } else { Seq::empty() };
        let blue = extended(b, Color::Blue);
        assert(out =~= black + blue);
        assert forall|x: Seq<Color>| #[trigger]
            out.contains(x) <==> x.len() == n && blue_count(x) == k by {
            if out.contains(x) {
                let i = choose|i: int| 0 <= i < out.len() && out[i] == x;
                if i < black.len() {
                    assert(x == a[i].push(Color::Black));
                    assert(a.contains(a[i]));
                    assert(x.drop_last() =~= a[i]);
                } else {
                    let j = i - black.len();
                    assert(x == b[j].push(Color::Blue));
                    assert(b.contains(b[j]));
                    assert(x.drop_last() =~= b[j]);
                }
            }
            if x.len() == n && blue_count(x) == k {
                let r = x.drop_last();
                assert(x =~= r.push(x.last()));
                if x.last() == Color::Black {
                    assert(a.contains(r));
                    let i = choose|i: int| 0 <= i < a.len() && a[i] == r;
                    assert(out[i] == x);
                } else {
                    assert(k > 0);
                    assert(b.contains(r));
                    let j = choose|j: int| 0 <= j < b.len() && b[j] == r;
                    assert(out[black.len() + j] == x);
                }
            }
        }
        assert forall|i: int, j: int| 0 <= i < out.len() && 0 <= j < out.len() && i != j implies out[i]
            != out[j] by {
            let ri = if i < black.len() { a[i] } else { b[i - black.len()] };
            let rj = if j < black.len() { a[j] } else { b[j - black.len()] };
            assert(out[i].drop_last() =~= ri);
            assert(out[j].drop_last() =~= rj);
            assert(out[i].last() == if i < black.len() { Color::Black } else { Color::Blue });
            assert(out[j].last() == if j < black.len() { Color::Black } else { Color::Blue });
        }
    }
}

/// The rows of a clue's multiverse, as a filter of [`count_rows`], stand for
/// exactly the worlds of [`clue_view`].
pub proof fn lemma_clue_rows(cells: Seq<Coords>, blue: nat, m: Modifier, ring: bool)
    requires
        cells.no_duplicates(),
    ensures
        rows_view(
            cells,
            count_rows(cells.len(), blue).filter(|r: Seq<Color>| modifier_holds(m, r, ring)),
        ) == clue_view(cells, blue as int, m, ring),
        rows_fit(
            cells,
            count_rows(cells.len(), blue).filter(|r: Seq<Color>| modifier_holds(m, r, ring)),
        ),
        count_rows(cells.len(), blue).filter(
            |r: Seq<Color>| modifier_holds(m, r, ring),
        ).no_duplicates(),
{
    let pred = |r: Seq<Color>| modifier_holds(m, r, ring);
    let all = count_rows(cells.len(), blue);
    let rows = all.filter(pred);
    lemma_count_rows(cells.len(), blue);
    lemma_filter_no_duplicates(all, pred);
    assert forall|i: int| 0 <= i < rows.len() implies (#[trigger] rows[i]).len() == cells.len() by {
        assert(rows.contains(rows[i]));
        lemma_filter_member(all, pred, rows[i]);
    }
    let a = rows_view(cells, rows);
    let b = clue_view(cells, blue as int, m, ring);
    let ws = row_worlds(cells, rows);
    assert forall|w: World| a.worlds.contains(w) <==> b.worlds.contains(w) by {
        if a.worlds.contains(w) {
            let i = choose|i: int| 0 <= i < ws.len() && ws[i] == w;
            assert(rows.contains(rows[i]));
            lemma_filter_member(all, pred, rows[i]);
            lemma_zip_map(cells, rows[i]);
            assert(colors_along(cells, w) =~= rows[i]);
        }
        if b.worlds.contains(w) {
            let r = colors_along(cells, w);
            assert(all.contains(r));
            lemma_filter_member(all, pred, r);
            let i = choose|i: int| 0 <= i < rows.len() && rows[i] == r;
            lemma_zip_map(cells, r);
            assert(zip_map(cells, r) =~= w) by {
                assert forall|c: Coords| cells.contains(c) implies zip_map(cells, r)[c] == w[c] by {
                    let p = cells.index_of(c);
                    assert(cells[p] == c);
                }
            }
            assert(ws[i] == w);
        }
    }
    assert(a.worlds =~= b.worlds);
}

/// The number of blue entries of a row.
pub fn count_blue(row: &Vec<Color>) -> (n: usize)
    ensures
        n == blue_count(row@),
{
    let mut n: usize = 0;
    let mut p: usize = 0;
    while p < row.len()
        invariant
            p <= row.len(),
            n <= p,
            n == blue_count(row@.take(p as int)),
        decreases row.len() - p,
    {
        proof {
            lemma_take_push(row@, p as int);
            assert(row@.take(p + 1).drop_last() =~= row@.take(p as int));
        }
        if row[p] == Color::Blue {
            n = n + 1;
        }
        p = p + 1;
    }
    assert(row@.take(p as int) =~= row@);
    n
}

/// The number of separate runs of blue entries.
pub fn count_runs(row: &Vec<Color>, ring: bool) -> (n: usize)
    ensures
        n == blue_runs(row@, ring),
{
    let mut n: usize = 0;
    let mut p: usize = 0;
    while p < row.len()
        invariant
            p <= row.len(),
            n <= p,
            n == run_starts(row@, ring, p as int),
        decreases row.len() - p,
    {
        if row[p] == Color::Blue {
            let before_is_blue = if p > 0 {
                row[p - 1] == Color::Blue
            } else {
                ring && row[row.len() - 1] == Color::Blue
            };
            if !before_is_blue {
                n = n + 1;
            }
        }
        p = p + 1;
    }
    n
}

/// Whether the blue entries of a row are arranged as the modifier asks.
pub fn check_modifier(m: Modifier, row: &Vec<Color>, ring: bool) -> (ok: bool)
    ensures
        ok == modifier_holds(m, row@, ring),
{
    match m {
        Modifier::Plain => true,
        Modifier::Consecutive => count_runs(row, ring) <= 1,
        Modifier::NonConsecutive => count_runs(row, ring) >= 2,
    }
}

/// Adds to `out` each row of `rows` with `col` at its end.
fn extend_rows(rows: &Vec<Vec<Color>>, col: Color, out: &mut Vec<Vec<Color>>)
    ensures
        rows_of(final(out)@) == rows_of(old(out)@) + extended(rows_of(rows@), col),
{
    let ghost start = rows_of(out@);
    let mut i: usize = 0;
    while i < rows.len()
        invariant
            i <= rows.len(),
            rows_of(out@) == start + extended(rows_of(rows@), col).take(i as int),
        decreases rows.len() - i,
    {
        let mut row = crate::multiverse::copy_row(&rows[i]);
        row.push(col);
        let ghost before = rows_of(out@);
        out.push(row);
        proof {
            assert(rows_of(out@) =~= before.push(rows_of(rows@)[i as int].push(col)));
            assert(rows_of(out@) =~= start + extended(rows_of(rows@), col).take(i + 1));
        }
        i = i + 1;
    }
    assert(extended(rows_of(rows@), col).take(i as int) =~= extended(rows_of(rows@), col));
}

/// Every row of `n` entries of which `k` are blue.
pub fn rows_with_count(n: usize, k: usize) -> (out: Vec<Vec<Color>>)
    ensures
        rows_of(out@) == count_rows(n as nat, k as nat),
    decreases n,
{
    let mut out: Vec<Vec<Color>> = Vec::new();
    if n == 0 {
        if k == 0 {
            out.push(Vec::new());
            assert(rows_of(out@) =~= seq![Seq::<Color>::empty()]);
        } else {
            assert(rows_of(out@) =~= Seq::<Seq<Color>>::empty());
        }
        return out;
    }
    let shorter = rows_with_count(n - 1, k);
    extend_rows(&shorter, Color::Black, &mut out);
    assert(rows_of(out@) =~= extended(count_rows((n - 1) as nat, k as nat), Color::Black));
    if k > 0 {
        let fewer = rows_with_count(n - 1, k - 1);
        extend_rows(&fewer, Color::Blue, &mut out);
    }
    out
}

/// The multiverse of a clue over `cells`: every colouring with `blue` blue
/// cells, arranged along the order of `cells` as the modifier asks. `ring`
/// says whether the last cell is followed by the first. Returns `None` when
/// a coordinate occurs twice in `cells`.
pub fn enumerate(
    cells: &Vec<Coords>,
    blue: usize,
    m: Modifier,
    ring: bool,
) -> (out: Option<Multiverse>)
    ensures
        out is Some <==> cells@.no_duplicates(),
        out is Some ==> out.unwrap().wf() && out.unwrap()@ == clue_view(
            cells@,
            blue as int,
            m,
            ring,
        ),
        out is Some && m is Plain ==> out.unwrap()@.worlds.len() == binomial(
            cells@.len(),
            blue as nat,
        ),
{
    if !crate::multiverse::distinct_cells(cells) {
        return None;
    }
    let all = rows_with_count(cells.len(), blue);
    let ghost pred = |r: Seq<Color>| modifier_holds(m, r, ring);
    let mut kept: Vec<Vec<Color>> = Vec::new();
    let mut i: usize = 0;
    while i < all.len()
        invariant
            i <= all.len(),
            pred == |r: Seq<Color>| modifier_holds(m, r, ring),
            rows_of(kept@) == rows_of(all@).take(i as int).filter(pred),
        decreases all.len() - i,
    {
        proof {
            lemma_take_push(rows_of(all@), i as int);
            rows_of(all@).take(i as int).lemma_filter_push(rows_of(all@)[i as int], pred);
        }
        if check_modifier(m, &all[i], ring) {
            let ghost before = rows_of(kept@);
            kept.push(crate::multiverse::copy_row(&all[i]));
            assert(rows_of(kept@) =~= before.push(rows_of(all@)[i as int]));
        }
        i = i + 1;
    }
    proof {
        assert(rows_of(all@).take(i as int) =~= rows_of(all@));
        lemma_clue_rows(cells@, blue as nat, m, ring);
        lemma_count_rows(cells@.len(), blue as nat);
    }
    let out = Multiverse::from_distinct_rows(cells, &kept);
    proof {
        out.lemma_view();
        if m is Plain {
            assert forall|k: int| 0 <= k < rows_of(all@).len() implies pred(
                #[trigger] rows_of(all@)[k],
            ) by {}
            lemma_filter_all(rows_of(all@), pred);
        }
    }
    Some(out)
}

/// A filter that every item passes changes nothing.
pub proof fn lemma_filter_all<T>(s: Seq<T>, pred: spec_fn(T) -> bool)
    requires
        forall|k: int| 0 <= k < s.len() ==> pred(#[trigger] s[k]),
    ensures
        s.filter(pred) == s,
    decreases s.len(),
{
    reveal(Seq::filter);
    if s.len() > 0 {
        lemma_filter_all(s.drop_last(), pred);
        assert(s.drop_last().push(s.last()) =~= s);
    }
}


/// Whether `c` lies on the line that leaves `start` in direction `o`.
pub open spec fn on_line(start: Coords, o: Orientation, c: Coords) -> bool {
    match o {
        Orientation::Down => c.q == start.q && c.r > start.r,
        Orientation::DownRight => c.r == start.r && c.q > start.q,
        Orientation::DownLeft => c.q + c.r == start.q + start.r && c.r > start.r,
    }
}

/// The cells with a colour on the line that leaves `start` in direction `o`,
/// nearest first.
pub open spec fn line_cells(defn: &Defn, start: Coords, o: Orientation) -> Seq<Coords> {
    let along = defn.listing().filter(|c: Coords| defn.clueable(c) && on_line(start, o, c));
    if o is DownLeft {
        along.reverse()
    } else {
        along
    }
}

/// The cells with a colour among `candidates`, in their order.
pub open spec fn clueable_among(defn: &Defn, candidates: Seq<Coords>) -> Seq<Coords> {
    candidates.filter(|c: Coords| defn.clueable(c))
}

/// The cells with a colour among the six neighbours of `center`, clockwise
/// from the top.
pub open spec fn zone6_cells(defn: &Defn, center: Coords) -> Seq<Coords> {
    clueable_among(defn, center.spec_neighbors6())
}

/// The cells with a colour among the eighteen cells of the two rings around
/// `center`.
pub open spec fn zone18_cells(defn: &Defn, center: Coords) -> Seq<Coords> {
    clueable_among(defn, center.spec_neighbors18())
}

/// Every cell with a colour, in increasing order.
pub open spec fn all_cells(defn: &Defn) -> Seq<Coords> {
    defn.listing().filter(|c: Coords| defn.clueable(c))
}

/// The cells whose colour is shown from the start, in increasing order.
pub open spec fn shown_cells(defn: &Defn) -> Seq<Coords> {
    defn.listing().filter(|c: Coords| defn.clueable(c) && defn.cell(c).shown())
}

/// The cells whose colour is not shown from the start, in increasing order.
pub open spec fn covered_cells(defn: &Defn) -> Seq<Coords> {
    defn.listing().filter(|c: Coords| defn.covered(c))
}

/// The number of cells among `cells` that are blue in the solution.
pub open spec fn true_blue(defn: &Defn, cells: Seq<Coords>) -> nat {
    blue_count(colors_along(cells, defn.truth()))
}

/// The multiverse of a clue of the puzzle over `cells`: the colourings with
/// as many blue cells as the solution has there, arranged as the modifier
/// asks, after learning the cells that are shown from the start.
pub open spec fn clue_of(
    defn: &Defn,
    cells: Seq<Coords>,
    m: Modifier,
    ring: bool,
) -> MultiverseView {
    clue_view(cells, true_blue(defn, cells) as int, m, ring).learn_all(defn.shown())
}

/// The multiverse of the total number of blue cells: the colourings of the
/// cells that are not shown with as many blue cells as the puzzle declares
/// beyond those that are shown.
pub open spec fn global_view(defn: &Defn) -> MultiverseView {
    clue_view(
        covered_cells(defn),
        defn.declared_blue() - true_blue(defn, shown_cells(defn)),
        Modifier::Plain,
        false,
    )
}

/// The colours along a sequence with one more cell.
pub proof fn lemma_colors_push(cells: Seq<Coords>, c: Coords, w: World)
    ensures
        colors_along(cells.push(c), w) == colors_along(cells, w).push(w[c]),
        blue_count(colors_along(cells.push(c), w)) == blue_count(colors_along(cells, w)) + if w[c]
            == Color::Blue {
            1nat
        } else {
            0nat
        },
{
    assert(colors_along(cells.push(c), w) =~= colors_along(cells, w).push(w[c]));
    assert(colors_along(cells, w).push(w[c]).drop_last() =~= colors_along(cells, w));
}

/// The blue cells of a sequence are those of the part that passes a test
/// and those of the part that fails it.
pub proof fn lemma_blue_split(
    s: Seq<Coords>,
    w: World,
    whole: spec_fn(Coords) -> bool,
    yes: spec_fn(Coords) -> bool,
    no: spec_fn(Coords) -> bool,
)
    requires
        forall|c: Coords| #[trigger] whole(c) <==> (yes(c) || no(c)),
        forall|c: Coords| !(#[trigger] yes(c) && no(c)),
    ensures
        blue_count(colors_along(s.filter(whole), w)) == blue_count(colors_along(s.filter(yes), w))
            + blue_count(colors_along(s.filter(no), w)),
    decreases s.len(),
{
    reveal(Seq::filter);
    if s.len() > 0 {
        let init = s.drop_last();
        let c = s.last();
        lemma_blue_split(init, w, whole, yes, no);
        lemma_colors_push(init.filter(whole), c, w);
        lemma_colors_push(init.filter(yes), c, w);
        lemma_colors_push(init.filter(no), c, w);
    }
}

/// The solution is a world of a clue that is true of it.
pub proof fn lemma_clue_admits_truth(defn: &Defn, cells: Seq<Coords>, m: Modifier, ring: bool)
    requires
        forall|i: int| 0 <= i < cells.len() ==> defn.clueable(#[trigger] cells[i]),
        modifier_holds(m, colors_along(cells, defn.truth()), ring),
    ensures
        clue_view(cells, true_blue(defn, cells) as int, m, ring).admits(defn.truth()),
{
    let t = defn.truth();
    let w = t.restrict(cells.to_set());
    assert(w.dom() =~= cells.to_set()) by {
        assert forall|c: Coords| cells.to_set().contains(c) implies t.contains_key(c) by {
            let i = choose|i: int| 0 <= i < cells.len() && cells[i] == c;
            assert(defn.clueable(cells[i]));
        }
    }
    assert(colors_along(cells, w) =~= colors_along(cells, t)) by {
        assert forall|p: int| 0 <= p < cells.len() implies w[cells[p]] == t[cells[p]] by {
            assert(cells.to_set().contains(cells[p]));
        }
    }
}

/// The six neighbours of a cell are six different cells.
pub proof fn lemma_neighbors6_distinct(center: Coords)
    requires
        center.has_room(1),
    ensures
        center.spec_neighbors6().no_duplicates(),
{
    let n6 = center.spec_neighbors6();
    assert forall|i: int, j: int| 0 <= i < n6.len() && 0 <= j < n6.len() && i != j implies n6[i]
        != n6[j] by {
        let a = n6[i];
        let b = n6[j];
        assert(a.q - center.q == ring_dq(i) && a.r - center.r == ring_dr(i));
        assert(b.q - center.q == ring_dq(j) && b.r - center.r == ring_dr(j));
    }
}

/// The eighteen cells of the two rings around a cell are eighteen different
/// cells.
pub proof fn lemma_neighbors18_distinct(center: Coords)
    requires
        center.has_room(2),
    ensures
        center.spec_neighbors18().no_duplicates(),
{
    let n18 = center.spec_neighbors18();
    assert forall|i: int, j: int| 0 <= i < n18.len() && 0 <= j < n18.len() && i != j implies n18[i]
        != n18[j] by {
        let a = n18[i];
        let b = n18[j];
        assert(a.q - center.q == ring_dq(i) && a.r - center.r == ring_dr(i));
        assert(b.q - center.q == ring_dq(j) && b.r - center.r == ring_dr(j));
    }
}

/// How far to the right the `i`-th cell of the two rings lies.
pub open spec fn ring_dq(i: int) -> int {
    if i == 0 || i == 3 || i == 6 || i == 12 {
        0
    } else if i == 1 || i == 2 || i == 7 || i == 11 {
        1
    } else if i == 8 || i == 9 || i == 10 {
        2
    } else if i == 4 || i == 5 || i == 13 || i == 17 {
        -1
    } else {
        -2
    }
}

/// How far to the bottom-left the `i`-th cell of the two rings lies.
pub open spec fn ring_dr(i: int) -> int {
    if i == 2 || i == 5 || i == 10 || i == 16 {
        0
    } else if i == 3 || i == 4 || i == 11 || i == 15 {
        1
    } else if i == 12 || i == 13 || i == 14 {
        2
    } else if i == 0 || i == 1 || i == 9 || i == 17 {
        -1
    } else {
        -2
    }
}

/// Whether `c` lies on the line that leaves `start` in direction `o`.
pub fn is_on_line(start: &Coords, o: Orientation, c: &Coords) -> (b: bool)
    ensures
        b == on_line(*start, o, *c),
{
    match o {
        Orientation::Down => c.q == start.q && c.r > start.r,
        Orientation::DownRight => c.r == start.r && c.q > start.q,
        Orientation::DownLeft => c.q as i32 + c.r as i32 == start.q as i32 + start.r as i32 && c.r
            > start.r,
    }
}

/// The cells with a colour on the line that leaves `start` in direction `o`,
/// nearest first.
pub fn line_scope(defn: &Defn, start: &Coords, o: Orientation) -> (out: Vec<Coords>)
    requires
        defn.wf(),
    ensures
        out@ == line_cells(defn, *start, o),
        out@.no_duplicates(),
        forall|i: int| 0 <= i < out@.len() ==> defn.clueable(#[trigger] out@[i]),
{
    let ghost pred = |c: Coords| defn.clueable(c) && on_line(*start, o, c);
    let ghost listing = defn.listing();
    let mut along: Vec<Coords> = Vec::new();
    let n = defn.len();
    let mut i: usize = 0;
    while i < n
        invariant
            i <= n,
            n == listing.len(),
            defn.wf(),
            listing == defn.listing(),
            pred == |c: Coords| defn.clueable(c) && on_line(*start, o, c),
            along@ == listing.take(i as int).filter(pred),
        decreases n - i,
    {
        let c = defn.coords_at(i);
        let cell = defn.cell_at(i);
        proof {
            lemma_take_push(listing, i as int);
            listing.take(i as int).lemma_filter_push(c, pred);
        }
        if cell.is_clueable() && is_on_line(start, o, &c) {
            along.push(c);
        }
        i = i + 1;
    }
    proof {
        assert(listing.take(i as int) =~= listing);
        defn.table().lemma_entries();
        lemma_filter_no_duplicates(listing, pred);
        assert forall|k: int| 0 <= k < along@.len() implies defn.clueable(#[trigger] along@[k]) by {
            listing.lemma_filter_pred(pred, k);
        }
    }
    match o {
        Orientation::DownLeft => {
            let mut out: Vec<Coords> = Vec::new();
            let mut k: usize = along.len();
            while k > 0
                invariant
                    k <= along.len(),
                    out@.len() == along.len() - k,
                    forall|j: int| 0 <= j < out@.len() ==> out@[j] == along@[along.len() - 1 - j],
                decreases k,
            {
                k = k - 1;
                out.push(along[k]);
            }
            assert(out@ =~= along@.reverse());
            out
        },
        _ => along,
    }
}

/// The cells with a colour among `candidates`, in their order.
pub fn pick_clueable(defn: &Defn, candidates: &Vec<Coords>) -> (out: Vec<Coords>)
    requires
        defn.wf(),
    ensures
        out@ == clueable_among(defn, candidates@),
        candidates@.no_duplicates() ==> out@.no_duplicates(),
        forall|i: int| 0 <= i < out@.len() ==> defn.clueable(#[trigger] out@[i]),
{
    let ghost pred = |c: Coords| defn.clueable(c);
    let mut out: Vec<Coords> = Vec::new();
    let mut i: usize = 0;
    while i < candidates.len()
        invariant
            i <= candidates.len(),
            defn.wf(),
            pred == |c: Coords| defn.clueable(c),
            out@ == candidates@.take(i as int).filter(pred),
        decreases candidates.len() - i,
    {
        let c = candidates[i];
        proof {
            lemma_take_push(candidates@, i as int);
            candidates@.take(i as int).lemma_filter_push(c, pred);
        }
        if defn.get(&c).is_clueable() {
            out.push(c);
        }
        i = i + 1;
    }
    proof {
        assert(candidates@.take(i as int) =~= candidates@);
        if candidates@.no_duplicates() {
            lemma_filter_no_duplicates(candidates@, pred);
        }
        assert forall|k: int| 0 <= k < out@.len() implies defn.clueable(#[trigger] out@[k]) by {
            candidates@.lemma_filter_pred(pred, k);
        }
    }
    out
}

/// The number of cells among `cells` that are blue in the solution.
pub(crate) fn count_true_blue(defn: &Defn, cells: &Vec<Coords>) -> (n: usize)
    requires
        defn.wf(),
        forall|i: int| 0 <= i < cells@.len() ==> defn.clueable(#[trigger] cells@[i]),
    ensures
        n == true_blue(defn, cells@),
        n <= cells@.len(),
{
    let mut n: usize = 0;
    let mut i: usize = 0;
    while i < cells.len()
        invariant
            i <= cells.len(),
            n <= i,
            defn.wf(),
            forall|i: int| 0 <= i < cells@.len() ==> defn.clueable(#[trigger] cells@[i]),
            n == true_blue(defn, cells@.take(i as int)),
        decreases cells.len() - i,
    {
        let cell = defn.get(&cells[i]);
        proof {
            assert(defn.clueable(cells@[i as int]));
            lemma_take_push(cells@, i as int);
            lemma_colors_push(cells@.take(i as int), cells@[i as int], defn.truth());
        }
        match crate::defn::color_of_cell(&cell) {
            Some(Color::Blue) => {
                n = n + 1;
            },
            _ => {},
        }
        i = i + 1;
    }
    assert(cells@.take(i as int) =~= cells@);
    n
}

/// Narrows `base` by each cell of `cells` that is shown from the start.
fn learn_shown(defn: &Defn, base: Multiverse, cells: &Vec<Coords>) -> (out: Multiverse)
    requires
        defn.wf(),
        base.wf(),
        cells@.no_duplicates(),
        base@.scope.subset_of(cells@.to_set()),
    ensures
        out.wf(),
        out@ == base@.learn_all(defn.shown()),
{
    let ghost b = base@;
    let ghost shown = defn.shown();
    proof {
        base.lemma_view();
        assert(shown.restrict(cells@.take(0).to_set()) =~= Map::<Coords, Color>::empty());
        crate::worlds::lemma_learn_all_nothing(b, shown.restrict(cells@.take(0).to_set()));
    }
    let mut mv = base;
    let mut i: usize = 0;
    while i < cells.len()
        invariant
            i <= cells.len(),
            defn.wf(),
            cells@.no_duplicates(),
            b.wf(),
            shown == defn.shown(),
            mv.wf(),
            mv@ == b.learn_all(shown.restrict(cells@.take(i as int).to_set())),
        decreases cells.len() - i,
    {
        let c = cells[i];
        let cell = defn.get(&c);
        proof {
            crate::worlds::lemma_learn_all_next(b, shown, cells@, i as int);
        }
        match crate::defn::color_of_cell(&cell) {
            Some(col) => {
                if cell.is_revealed() {
                    mv = mv.learn(&c, col);
                }
            },
            None => {},
        }
        i = i + 1;
    }
    proof {
        assert(cells@.take(i as int) =~= cells@);
        crate::worlds::lemma_learn_all_restrict(b, shown, cells@.to_set());
    }
    mv
}

/// The multiverse of a clue of the puzzle over `cells`, which are cells with
/// a colour, each named once: every colouring with as many blue cells as the
/// solution has there, arranged along the order of `cells` as the modifier
/// asks, narrowed by the cells that are shown from the start.
pub(crate) fn clue_over(
    defn: &Defn,
    cells: &Vec<Coords>,
    m: Modifier,
    ring: bool,
) -> (out: Multiverse)
    requires
        defn.wf(),
        cells@.no_duplicates(),
        forall|i: int| 0 <= i < cells@.len() ==> defn.clueable(#[trigger] cells@[i]),
    ensures
        out.wf(),
        out@ == clue_of(defn, cells@, m, ring),
        out@.scope.subset_of(defn.truth().dom()),
        modifier_holds(m, colors_along(cells@, defn.truth()), ring) ==> out@.admits(defn.truth()),
{
    let blue = count_true_blue(defn, cells);
    let base = enumerate(cells, blue, m, ring).unwrap();
    let mv = learn_shown(defn, base, cells);
    proof {
        lemma_clue_of_truth(defn, cells@, m, ring);
    }
    mv
}

/// The scope of a clue's multiverse lies within the cells with a colour, and
/// the multiverse admits the solution when the clue is true of it.
pub proof fn lemma_clue_of_truth(defn: &Defn, cells: Seq<Coords>, m: Modifier, ring: bool)
    requires
        forall|i: int| 0 <= i < cells.len() ==> defn.clueable(#[trigger] cells[i]),
    ensures
        clue_of(defn, cells, m, ring).scope.subset_of(defn.truth().dom()),
        modifier_holds(m, colors_along(cells, defn.truth()), ring) ==> clue_of(
            defn,
            cells,
            m,
            ring,
        ).admits(defn.truth()),
{
    let b = clue_view(cells, true_blue(defn, cells) as int, m, ring);
    let v = clue_of(defn, cells, m, ring);
    assert forall|c: Coords| v.scope.contains(c) implies defn.truth().contains_key(c) by {
        assert(cells.contains(c));
        let k = choose|k: int| 0 <= k < cells.len() && cells[k] == c;
        assert(defn.clueable(cells[k]));
    }
    if modifier_holds(m, colors_along(cells, defn.truth()), ring) {
        lemma_clue_admits_truth(defn, cells, m, ring);
        assert(defn.shown().submap_of(defn.truth()));
        crate::worlds::lemma_learn_all_keeps_truth(b, defn.truth(), defn.shown());
    }
}

/// The multiverse of the line clue at `coords` that looks in direction `o`.
pub fn line(defn: &Defn, coords: Coords, o: Orientation, m: Modifier) -> (out: Multiverse)
    requires
        defn.wf(),
    ensures
        out.wf(),
        out@ == clue_of(defn, line_cells(defn, coords, o), m, false),
        out@.scope.subset_of(defn.truth().dom()),
        modifier_holds(m, colors_along(line_cells(defn, coords, o), defn.truth()), false)
            ==> out@.admits(defn.truth()),
{
    let cells = line_scope(defn, &coords, o);
    clue_over(defn, &cells, m, false)
}

/// The multiverse of the clue that the cell at `coords` gives about its six
/// neighbours. The modifier is judged on the ring of the neighbours that
/// have a colour, clockwise, the last followed by the first.
pub fn zone6(defn: &Defn, coords: Coords, m: Modifier) -> (out: Multiverse)
    requires
        defn.wf(),
        coords.has_room(1),
    ensures
        out.wf(),
        out@ == clue_of(defn, zone6_cells(defn, coords), m, true),
        out@.scope.subset_of(defn.truth().dom()),
        modifier_holds(m, colors_along(zone6_cells(defn, coords), defn.truth()), true)
            ==> out@.admits(defn.truth()),
{
    let candidates = ring_vec(&coords, false);
    let cells = pick_clueable(defn, &candidates);
    clue_over(defn, &cells, m, true)
}

/// The multiverse of the clue that the cell at `coords` gives about the
/// eighteen cells of the two rings around it.
pub fn zone18(defn: &Defn, coords: Coords) -> (out: Multiverse)
    requires
        defn.wf(),
        coords.has_room(2),
    ensures
        out.wf(),
        out@ == clue_of(defn, zone18_cells(defn, coords), Modifier::Plain, false),
        out@.scope.subset_of(defn.truth().dom()),
        out@.admits(defn.truth()),
{
    let candidates = ring_vec(&coords, true);
    let cells = pick_clueable(defn, &candidates);
    clue_over(defn, &cells, Modifier::Plain, false)
}

/// The multiverse of the total number of blue cells: every colouring of the
/// cells that are not shown with as many blue cells as the puzzle declares
/// beyond those that are shown.
pub fn global_blue_count(defn: &Defn) -> (out: Multiverse)
    requires
        defn.wf(),
    ensures
        out.wf(),
        out@ == global_view(defn),
        out@.scope == defn.truth().dom().difference(defn.shown().dom()),
        defn.declared_blue() == true_blue(defn, all_cells(defn)) ==> out@.admits(defn.truth()),
{
    let ghost listing = defn.listing();
    let ghost is_covered = |c: Coords| defn.covered(c);
    let ghost is_shown = |c: Coords| defn.clueable(c) && defn.cell(c).shown();
    let ghost is_any = |c: Coords| defn.clueable(c);
    let mut covered: Vec<Coords> = Vec::new();
    let mut shown: Vec<Coords> = Vec::new();
    let n = defn.len();
    let mut i: usize = 0;
    while i < n
        invariant
            i <= n,
            n == listing.len(),
            defn.wf(),
            listing == defn.listing(),
            is_covered == |c: Coords| defn.covered(c),
            is_shown == |c: Coords| defn.clueable(c) && defn.cell(c).shown(),
            covered@ == listing.take(i as int).filter(is_covered),
            shown@ == listing.take(i as int).filter(is_shown),
        decreases n - i,
    {
        let c = defn.coords_at(i);
        let cell = defn.cell_at(i);
        proof {
            lemma_take_push(listing, i as int);
            listing.take(i as int).lemma_filter_push(c, is_covered);
            listing.take(i as int).lemma_filter_push(c, is_shown);
        }
        if cell.is_clueable() {
            if cell.is_revealed() {
                shown.push(c);
            } else {
                covered.push(c);
            }
        }
        i = i + 1;
    }
    proof {
        assert(listing.take(i as int) =~= listing);
        assert forall|k: int| 0 <= k < shown@.len() implies defn.clueable(#[trigger] shown@[k]) by {
            listing.lemma_filter_pred(is_shown, k);
        }
    }
    let shown_blue = count_true_blue(defn, &shown);
    let total = defn.blue_total();
    proof {
        defn.table().lemma_entries();
        lemma_filter_no_duplicates(listing, is_covered);
        lemma_blue_split(listing, defn.truth(), is_any, is_shown, is_covered);
    }
    let out = if total < shown_blue {
        let rows: Vec<Vec<Color>> = Vec::new();
        let out = Multiverse::from_distinct_rows(&covered, &rows);
        proof {
            let v = rows_view(covered@, rows_of(rows@));
            let ws = row_worlds(covered@, rows_of(rows@));
            assert(v.worlds =~= global_view(defn).worlds) by {
                assert forall|w: World| !v.worlds.contains(w) by {
                    if ws.contains(w) {
                        let k = choose|k: int| 0 <= k < ws.len() && ws[k] == w;
                    }
                }
            }
        }
        out
    } else {
        enumerate(&covered, total - shown_blue, Modifier::Plain, false).unwrap()
    };
    proof {
        let t = defn.truth();
        assert(out@.scope =~= t.dom().difference(defn.shown().dom())) by {
            assert forall|c: Coords| covered@.contains(c) <==> (t.contains_key(c)
                && !defn.shown().contains_key(c)) by {
                lemma_filter_member(listing, is_covered, c);
                if defn.covered(c) {
                    assert(defn@.contains_key(c));
                    assert(listing.to_set().contains(c));
                }
            }
        }
        if defn.declared_blue() == true_blue(defn, all_cells(defn)) {
            assert forall|k: int| 0 <= k < covered@.len() implies defn.clueable(
                #[trigger] covered@[k],
            ) by {
                listing.lemma_filter_pred(is_covered, k);
            }
            lemma_clue_admits_truth(defn, covered@, Modifier::Plain, false);
        }
    }
    out
}


/// The clue candidates around `coords` as a vector: the six neighbours, or
/// the eighteen cells of the two rings.
fn ring_vec(coords: &Coords, wide: bool) -> (out: Vec<Coords>)
    requires
        coords.has_room(if wide { 2int } else { 1int }),
    ensures
        out@ == if wide {
            coords.spec_neighbors18()
        } else {
            coords.spec_neighbors6()
        },
        out@.no_duplicates(),
{
    let mut out: Vec<Coords> = Vec::new();
    proof {
        if wide {
            lemma_neighbors18_distinct(*coords);
        } else {
            lemma_neighbors6_distinct(*coords);
        }
    }
    if wide {
        let rings = coords.neighbors18();
        let mut i: usize = 0;
        while i < 18
            invariant
                i <= 18,
                rings@.len() == 18,
                out@ == rings@.take(i as int),
            decreases 18 - i,
        {
            out.push(rings[i]);
            assert(out@ =~= rings@.take(i + 1));
            i = i + 1;
        }
        assert(rings@.take(18) =~= rings@);
    } else {
        let ring = coords.neighbors6();
        let mut i: usize = 0;
        while i < 6
            invariant
                i <= 6,
                ring@.len() == 6,
                out@ == ring@.take(i as int),
            decreases 6 - i,
        {
            out.push(ring[i]);
            assert(out@ =~= ring@.take(i + 1));
            i = i + 1;
        }
        assert(ring@.take(6) =~= ring@);
    }
    out
}

/// The colours that the solution gives to `cells`, in their order.
pub(crate) fn true_colors(defn: &Defn, cells: &Vec<Coords>) -> (out: Vec<Color>)
    requires
        defn.wf(),
        forall|i: int| 0 <= i < cells@.len() ==> defn.clueable(#[trigger] cells@[i]),
    ensures
        out@ == colors_along(cells@, defn.truth()),
{
    let mut out: Vec<Color> = Vec::new();
    let mut i: usize = 0;
    while i < cells.len()
        invariant
            i <= cells.len(),
            defn.wf(),
            forall|i: int| 0 <= i < cells@.len() ==> defn.clueable(#[trigger] cells@[i]),
            out@ == colors_along(cells@, defn.truth()).take(i as int),
        decreases cells.len() - i,
    {
        let cell = defn.get(&cells[i]);
        assert(defn.clueable(cells@[i as int]));
        let col = crate::defn::color_of_cell(&cell).unwrap();
        out.push(col);
        assert(out@ =~= colors_along(cells@, defn.truth()).take(i + 1));
        i = i + 1;
    }
    assert(colors_along(cells@, defn.truth()).take(i as int) =~= colors_along(
        cells@,
        defn.truth(),
    ));
    out
}

/// Whether the clue of the cell at `c`, if it has one, is true of the
/// solution: the blue cells it speaks of are arranged as its modifier asks.
pub open spec fn clue_true(defn: &Defn, c: Coords) -> bool {
    match defn.cell(c) {
        Cell::Line { o, m } => modifier_holds(
            m,
            colors_along(line_cells(defn, c, o), defn.truth()),
            false,
        ),
        Cell::Zone6 { m, .. } => modifier_holds(
            m,
            colors_along(zone6_cells(defn, c), defn.truth()),
            true,
        ),
        _ => true,
    }
}

/// Whether the puzzle agrees with its own solution: it declares as many blue
/// cells as there are, and every clue is true.
pub open spec fn consistent(defn: &Defn) -> bool {
    &&& defn.wf()
    &&& defn.declared_blue() == true_blue(defn, all_cells(defn))
    &&& forall|c: Coords| defn@.contains_key(c) ==> #[trigger] clue_true(defn, c)
}

/// Whether the puzzle agrees with its own solution: it declares as many blue
/// cells as there are, and every clue is true.
pub fn is_consistent(defn: &Defn) -> (ok: bool)
    requires
        defn.wf(),
    ensures
        ok == consistent(defn),
{
    let ghost listing = defn.listing();
    let ghost is_any = |c: Coords| defn.clueable(c);
    let mut all: Vec<Coords> = Vec::new();
    let n = defn.len();
    let mut i: usize = 0;
    proof {
        defn.table().lemma_entries();
    }
    while i < n
        invariant
            i <= n,
            n == listing.len(),
            defn.wf(),
            listing == defn.listing(),
            listing.to_set() == defn@.dom(),
            is_any == |c: Coords| defn.clueable(c),
            all@ == listing.take(i as int).filter(is_any),
            forall|k: int| 0 <= k < i ==> clue_true(defn, #[trigger] listing[k]),
        decreases n - i,
    {
        let c = defn.coords_at(i);
        let cell = defn.cell_at(i);
        proof {
            lemma_take_push(listing, i as int);
            listing.take(i as int).lemma_filter_push(c, is_any);
        }
        match cell {
            Cell::Line { o, m } => {
                let cells = line_scope(defn, &c, o);
                let row = true_colors(defn, &cells);
                if !check_modifier(m, &row, false) {
                    assert(!clue_true(defn, c));
                    assert(defn@.contains_key(c));
                    return false;
                }
            },
            Cell::Zone6 { m, .. } => {
                let ring = ring_vec(&c, false);
                let cells = pick_clueable(defn, &ring);
                let row = true_colors(defn, &cells);
                if !check_modifier(m, &row, true) {
                    assert(!clue_true(defn, c));
                    assert(defn@.contains_key(c));
                    return false;
                }
            },
            _ => {},
        }
        if cell.is_clueable() {
            all.push(c);
        }
        i = i + 1;
    }
    proof {
        assert(listing.take(i as int) =~= listing);
        assert forall|k: int| 0 <= k < all@.len() implies defn.clueable(#[trigger] all@[k]) by {
            listing.lemma_filter_pred(is_any, k);
        }
        assert forall|c: Coords| defn@.contains_key(c) implies #[trigger] clue_true(defn, c) by {
            assert(listing.to_set().contains(c));
            let k = choose|k: int| 0 <= k < listing.len() && listing[k] == c;
            assert(clue_true(defn, listing[k]));
        }
    }
    count_true_blue(defn, &all) == defn.blue_total()
}


/// Two puzzles with the same cells have the same solution and the same true
/// clues, whatever they declare.
pub proof fn lemma_same_cells(a: &Defn, b: &Defn)
    requires
        a.table() == b.table(),
    ensures
        a.truth() == b.truth(),
        a.shown() == b.shown(),
        all_cells(a) == all_cells(b),
        true_blue(a, all_cells(a)) == true_blue(b, all_cells(b)),
{
    assert(a.truth() =~= b.truth());
    assert(a.shown() =~= b.shown());
    let p = |c: Coords| a.clueable(c);
    let q = |c: Coords| b.clueable(c);
    assert(p =~= q);
}

} // verus!
