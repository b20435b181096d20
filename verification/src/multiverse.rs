//! The multiverse: a scope of cells and, row by row, every colouring of the
//! scope that is still possible.

use crate::coord_map::{lemma_index_of_unique, lemma_zip_map, zip_map, CoordMap};
use crate::coord_set::{
    lemma_remove_at, lemma_sorted_no_duplicates, lemma_sorted_unique, strictly_sorted, CoordSet,
};
use crate::defn::Color;
use crate::misc::Coords;
pub use crate::worlds::State;
use crate::worlds::{MultiverseView, World};
use vstd::prelude::*;

verus! {

/// The worlds that the rows stand for: row `i` colours `cells[p]` with
/// `rows[i][p]`.
pub open spec fn row_worlds(cells: Seq<Coords>, rows: Seq<Seq<Color>>) -> Seq<World> {
    Seq::new(rows.len(), |i: int| zip_map(cells, rows[i]))
}

/// The rows held by a vector of vectors.
pub open spec fn rows_of(worlds: Seq<Vec<Color>>) -> Seq<Seq<Color>> {
    Seq::new(worlds.len(), |i: int| worlds[i]@)
}

/// Every row has one colour for each cell.
pub open spec fn rows_fit(cells: Seq<Coords>, rows: Seq<Seq<Color>>) -> bool {
    forall|i: int| 0 <= i < rows.len() ==> (#[trigger] rows[i]).len() == cells.len()
}

/// The multiverse that a listing of cells and rows stands for.
pub open spec fn rows_view(cells: Seq<Coords>, rows: Seq<Seq<Color>>) -> MultiverseView {
    MultiverseView { scope: cells.to_set(), worlds: row_worlds(cells, rows).to_set() }
}

/// Two rows that stand for the same world are the same row.
pub proof fn lemma_zip_injective(cells: Seq<Coords>, r1: Seq<Color>, r2: Seq<Color>)
    requires
        cells.no_duplicates(),
        r1.len() == cells.len(),
        r2.len() == cells.len(),
        zip_map(cells, r1) == zip_map(cells, r2),
    ensures
        r1 == r2,
{
    lemma_zip_map(cells, r1);
    lemma_zip_map(cells, r2);
    assert forall|p: int| 0 <= p < cells.len() implies r1[p] == r2[p] by {
        assert(zip_map(cells, r1)[cells[p]] == r1[p]);
        assert(zip_map(cells, r2)[cells[p]] == r2[p]);
    }
    assert(r1 =~= r2);
}

/// Rows over cells without duplicates stand for a well-formed multiverse with
/// one world for each different row.
pub proof fn lemma_rows_view_wf(cells: Seq<Coords>, rows: Seq<Seq<Color>>)
    requires
        cells.no_duplicates(),
        rows_fit(cells, rows),
    ensures
        rows_view(cells, rows).wf(),
        rows.no_duplicates() ==> rows_view(cells, rows).worlds.len() == rows.len(),
        rows.len() == 0 <==> rows_view(cells, rows).stuck(),
        forall|i: int|
            0 <= i < rows.len() ==> rows_view(cells, rows).worlds.contains(
                #[trigger] zip_map(cells, rows[i]),
            ),
{
    let ws = row_worlds(cells, rows);
    let v = rows_view(cells, rows);
    vstd::seq_lib::seq_to_set_is_finite(cells);
    vstd::seq_lib::seq_to_set_is_finite(ws);
    assert forall|w: World| #[trigger] v.worlds.contains(w) implies w.dom() == v.scope by {
        let i = choose|i: int| 0 <= i < ws.len() && ws[i] == w;
        lemma_zip_map(cells, rows[i]);
    }
    assert forall|i: int| 0 <= i < rows.len() implies v.worlds.contains(
        #[trigger] zip_map(cells, rows[i]),
    ) by {
        assert(ws[i] == zip_map(cells, rows[i]));
    }
    if rows.no_duplicates() {
        assert forall|i: int, j: int| 0 <= i < ws.len() && 0 <= j < ws.len() && i != j implies ws[i]
            != ws[j] by {
            if ws[i] == ws[j] {
                lemma_zip_injective(cells, rows[i], rows[j]);
            }
        }
        ws.unique_seq_to_set();
    }
    if rows.len() > 0 {
        assert(ws[0] == zip_map(cells, rows[0]));
        assert(v.worlds.contains(ws[0]));
    } else {
        assert forall|w: World| !v.worlds.contains(w) by {
            if ws.contains(w) {
                let i = choose|i: int| 0 <= i < ws.len() && ws[i] == w;
            }
        }
    }
}

/// The rows that give position `at` the colour `col`, each without that
/// position.
pub open spec fn kept_rows(rows: Seq<Seq<Color>>, at: int, col: Color) -> Seq<Seq<Color>>
    decreases rows.len(),
{
    if rows.len() == 0 {
        Seq::empty()
    } else {
        let rest = kept_rows(rows.drop_last(), at, col);
        if rows.last()[at] == col {
            rest.push(rows.last().remove(at))
        } else {
            rest
        }
    }
}

/// Whether `x` is a row of `rows` that gives position `at` the colour `col`,
/// without that position.
pub open spec fn kept_from(rows: Seq<Seq<Color>>, at: int, col: Color, x: Seq<Color>) -> bool {
    exists|i: int|
        0 <= i < rows.len() && rows[i][at] == col && #[trigger] rows[i].remove(at) == x
}

/// What [`kept_rows`] holds.
pub proof fn lemma_kept_rows(rows: Seq<Seq<Color>>, at: int, col: Color, n: int)
    requires
        0 <= at < n,
        forall|i: int| 0 <= i < rows.len() ==> (#[trigger] rows[i]).len() == n,
    ensures
        forall|k: int|
            0 <= k < kept_rows(rows, at, col).len() ==> (#[trigger] kept_rows(
                rows,
                at,
                col,
            )[k]).len() == n - 1,
        forall|k: int|
            0 <= k < kept_rows(rows, at, col).len() ==> kept_from(
                rows,
                at,
                col,
                #[trigger] kept_rows(rows, at, col)[k],
            ),
        forall|i: int|
            0 <= i < rows.len() && rows[i][at] == col ==> kept_rows(rows, at, col).contains(
                #[trigger] rows[i].remove(at),
            ),
        rows.no_duplicates() ==> kept_rows(rows, at, col).no_duplicates(),
    decreases rows.len(),
{
    let out = kept_rows(rows, at, col);
    if rows.len() > 0 {
        let init = rows.drop_last();
        let rest = kept_rows(init, at, col);
        lemma_kept_rows(init, at, col, n);
        let last = rows.last();
        assert forall|k: int| 0 <= k < out.len() implies kept_from(rows, at, col, #[trigger] out[k]) by {
            if k < rest.len() {
                assert(kept_from(init, at, col, rest[k]));
                let i = choose|i: int|
                    0 <= i < init.len() && init[i][at] == col && #[trigger] init[i].remove(at)
                        == rest[k];
                assert(rows[i] == init[i]);
            } else {
                assert(rows[rows.len() - 1].remove(at) == out[k]);
            }
        }
        assert forall|i: int| 0 <= i < rows.len() && rows[i][at] == col implies out.contains(
            #[trigger] rows[i].remove(at),
        ) by {
            if i < init.len() {
                assert(init[i] == rows[i]);
                assert(rest.contains(init[i].remove(at)));
                let k = choose|k: int| 0 <= k < rest.len() && rest[k] == init[i].remove(at);
                assert(out[k] == rows[i].remove(at));
            } else {
                assert(out[out.len() - 1] == rows[i].remove(at));
            }
        }
        if rows.no_duplicates() {
            assert(init.no_duplicates());
            if last[at] == col {
                assert forall|k: int| 0 <= k < rest.len() implies rest[k] != last.remove(at) by {
                    assert(kept_from(init, at, col, rest[k]));
                    let i = choose|i: int|
                        0 <= i < init.len() && init[i][at] == col && #[trigger] init[i].remove(at)
                            == rest[k];
                    if init[i].remove(at) == last.remove(at) {
                        lemma_remove_same(init[i], last, at);
                        assert(rows[i] == rows[rows.len() - 1]);
                    }
                }
            }
        }
    }
}

/// Two rows that agree at `at` and everywhere else are the same row.
pub proof fn lemma_remove_same(r1: Seq<Color>, r2: Seq<Color>, at: int)
    requires
        r1.len() == r2.len(),
        0 <= at < r1.len(),
        r1[at] == r2[at],
        r1.remove(at) == r2.remove(at),
    ensures
        r1 == r2,
{
    assert forall|p: int| 0 <= p < r1.len() implies r1[p] == r2[p] by {
        if p < at {
            assert(r1.remove(at)[p] == r1[p]);
            assert(r2.remove(at)[p] == r2[p]);
        } else if p > at {
            assert(r1.remove(at)[p - 1] == r1[p]);
            assert(r2.remove(at)[p - 1] == r2[p]);
        }
    }
    assert(r1 =~= r2);
}

/// A row without position `at` stands for the world without that cell.
pub proof fn lemma_zip_remove(cells: Seq<Coords>, row: Seq<Color>, at: int)
    requires
        cells.no_duplicates(),
        row.len() == cells.len(),
        0 <= at < cells.len(),
    ensures
        zip_map(cells.remove(at), row.remove(at)) == zip_map(cells, row).remove(cells[at]),
        cells.remove(at).no_duplicates(),
{
    let c2 = cells.remove(at);
    let r2 = row.remove(at);
    assert forall|i: int, j: int| 0 <= i < c2.len() && 0 <= j < c2.len() && i != j implies c2[i]
        != c2[j] by {
        let si = if i < at { i } else { i + 1 };
        let sj = if j < at { j } else { j + 1 };
        assert(c2[i] == cells[si] && c2[j] == cells[sj]);
    }
    lemma_zip_map(cells, row);
    lemma_zip_map(c2, r2);
    let a = zip_map(c2, r2);
    let b = zip_map(cells, row).remove(cells[at]);
    assert forall|c: Coords| a.contains_key(c) <==> b.contains_key(c) by {
        if c2.contains(c) {
            let k = choose|k: int| 0 <= k < c2.len() && c2[k] == c;
            let sk = if k < at { k } else { k + 1 };
            assert(cells[sk] == c);
        }
        if cells.contains(c) && c != cells[at] {
            let k = choose|k: int| 0 <= k < cells.len() && cells[k] == c;
            let tk = if k < at { k } else { k - 1 };
            assert(c2[tk] == c);
        }
    }
    assert forall|c: Coords| a.contains_key(c) implies a[c] == b[c] by {
        let k = c2.index_of(c);
        let sk = if k < at { k } else { k + 1 };
        assert(c2[k] == c);
        assert(cells[sk] == c);
        assert(a[c2[k]] == r2[k]);
        assert(zip_map(cells, row)[cells[sk]] == row[sk]);
    }
    assert(a =~= b);
}

/// The rows kept by [`kept_rows`] stand for the multiverse after learning.
pub proof fn lemma_learn_rows(cells: Seq<Coords>, rows: Seq<Seq<Color>>, at: int, col: Color)
    requires
        cells.no_duplicates(),
        rows_fit(cells, rows),
        0 <= at < cells.len(),
    ensures
        rows_view(cells.remove(at), kept_rows(rows, at, col)) == rows_view(cells, rows).learn(
            cells[at],
            col,
        ),
{
    let c = cells[at];
    let c2 = cells.remove(at);
    let out = kept_rows(rows, at, col);
    let a = rows_view(c2, out);
    let m = rows_view(cells, rows);
    let b = m.learn(c, col);
    lemma_kept_rows(rows, at, col, cells.len() as int);
    lemma_zip_remove(cells, Seq::new(cells.len(), |p: int| col), at);
    lemma_rows_view_wf(cells, rows);
    assert(m.scope.contains(c)) by {
        assert(cells[at] == c);
    }
    assert(a.scope =~= b.scope) by {
        assert forall|x: Coords| c2.contains(x) <==> (cells.contains(x) && x != c) by {
            if c2.contains(x) {
                let k = choose|k: int| 0 <= k < c2.len() && c2[k] == x;
                let sk = if k < at { k } else { k + 1 };
                assert(cells[sk] == x);
            }
            if cells.contains(x) && x != c {
                let k = choose|k: int| 0 <= k < cells.len() && cells[k] == x;
                let tk = if k < at { k } else { k - 1 };
                assert(c2[tk] == x);
            }
        }
    }
    let wa = row_worlds(c2, out);
    let wm = row_worlds(cells, rows);
    assert forall|w: World| a.worlds.contains(w) <==> b.worlds.contains(w) by {
        if a.worlds.contains(w) {
            let k = choose|k: int| 0 <= k < wa.len() && wa[k] == w;
            assert(kept_from(rows, at, col, out[k]));
            let i = choose|i: int|
                0 <= i < rows.len() && rows[i][at] == col && #[trigger] rows[i].remove(at)
                    == out[k];
            lemma_zip_remove(cells, rows[i], at);
            lemma_zip_map(cells, rows[i]);
            let v = zip_map(cells, rows[i]);
            assert(w == v.remove(c));
            assert(v[cells[at]] == rows[i][at]);
            assert(w.insert(c, col) =~= v);
            assert(wm[i] == v);
        }
        if b.worlds.contains(w) {
            let v = w.insert(c, col);
            let i = choose|i: int| 0 <= i < wm.len() && wm[i] == v;
            lemma_zip_remove(cells, rows[i], at);
            lemma_zip_map(cells, rows[i]);
            assert(zip_map(cells, rows[i])[cells[at]] == rows[i][at]);
            assert(rows[i][at] == col);
            assert(v.remove(c) =~= w);
            assert(out.contains(rows[i].remove(at)));
            let k = choose|k: int| 0 <= k < out.len() && out[k] == rows[i].remove(at);
            assert(wa[k] == w);
        }
    }
    assert(a.worlds =~= b.worlds);
}

/// The row over the cells `u` that takes the colour of each cell from `ra`
/// where the cell is among `a`, and from `rb` otherwise.
pub open spec fn joined(
    u: Seq<Coords>,
    a: Seq<Coords>,
    b: Seq<Coords>,
    ra: Seq<Color>,
    rb: Seq<Color>,
) -> Seq<Color> {
    Seq::new(
        u.len(),
        |p: int|
            if a.contains(u[p]) {
                ra[a.index_of(u[p])]
            } else {
                rb[b.index_of(u[p])]
            },
    )
}

/// Whether the two rows give the same colour to every cell that is both
/// among `a` and among `b`.
pub open spec fn compatible(
    a: Seq<Coords>,
    b: Seq<Coords>,
    ra: Seq<Color>,
    rb: Seq<Color>,
) -> bool {
    forall|c: Coords| #[trigger] a.contains(c) && b.contains(c) ==> ra[a.index_of(c)] == rb[b.index_of(c)]
}

/// The rows that join `ra` with each row of `rbs` that is compatible with it.
pub open spec fn join_one(
    u: Seq<Coords>,
    a: Seq<Coords>,
    b: Seq<Coords>,
    ra: Seq<Color>,
    rbs: Seq<Seq<Color>>,
) -> Seq<Seq<Color>>
    decreases rbs.len(),
{
    if rbs.len() == 0 {
        Seq::empty()
    } else {
        let rest = join_one(u, a, b, ra, rbs.drop_last());
        if compatible(a, b, ra, rbs.last()) {
            rest.push(joined(u, a, b, ra, rbs.last()))
        } else {
            rest
        }
    }
}

/// The rows that join each row of `ras` with each row of `rbs` that is
/// compatible with it.
pub open spec fn join_all(
    u: Seq<Coords>,
    a: Seq<Coords>,
    b: Seq<Coords>,
    ras: Seq<Seq<Color>>,
    rbs: Seq<Seq<Color>>,
) -> Seq<Seq<Color>>
    decreases ras.len(),
{
    if ras.len() == 0 {
        Seq::empty()
    } else {
        join_all(u, a, b, ras.drop_last(), rbs) + join_one(u, a, b, ras.last(), rbs)
    }
}

/// Whether `x` joins `ra` with a compatible row of `rbs`.
pub open spec fn joined_from_one(
    u: Seq<Coords>,
    a: Seq<Coords>,
    b: Seq<Coords>,
    ra: Seq<Color>,
    rbs: Seq<Seq<Color>>,
    x: Seq<Color>,
) -> bool {
    exists|j: int|
        0 <= j < rbs.len() && compatible(a, b, ra, #[trigger] rbs[j]) && joined(u, a, b, ra, rbs[j])
            == x
}

/// Whether `x` joins a row of `ras` with a compatible row of `rbs`.
pub open spec fn joined_from(
    u: Seq<Coords>,
    a: Seq<Coords>,
    b: Seq<Coords>,
    ras: Seq<Seq<Color>>,
    rbs: Seq<Seq<Color>>,
    x: Seq<Color>,
) -> bool {
    exists|i: int| 0 <= i < ras.len() && joined_from_one(u, a, b, #[trigger] ras[i], rbs, x)
}

/// The cells `u` are those of `a` and `b` together, each listing without
/// duplicates.
pub open spec fn joins_scopes(u: Seq<Coords>, a: Seq<Coords>, b: Seq<Coords>) -> bool {
    &&& u.no_duplicates()
    &&& a.no_duplicates()
    &&& b.no_duplicates()
    &&& u.to_set() == a.to_set().union(b.to_set())
}

/// A joined row stands for a world that restricts to the worlds of the two
/// rows it was made of.
pub proof fn lemma_joined_parts(
    u: Seq<Coords>,
    a: Seq<Coords>,
    b: Seq<Coords>,
    ra: Seq<Color>,
    rb: Seq<Color>,
)
    requires
        joins_scopes(u, a, b),
        ra.len() == a.len(),
        rb.len() == b.len(),
        compatible(a, b, ra, rb),
    ensures
        joined(u, a, b, ra, rb).len() == u.len(),
        zip_map(u, joined(u, a, b, ra, rb)).dom() == u.to_set(),
        zip_map(u, joined(u, a, b, ra, rb)).restrict(a.to_set()) == zip_map(a, ra),
        zip_map(u, joined(u, a, b, ra, rb)).restrict(b.to_set()) == zip_map(b, rb),
{
    let r = joined(u, a, b, ra, rb);
    let w = zip_map(u, r);
    lemma_zip_map(u, r);
    lemma_zip_map(a, ra);
    lemma_zip_map(b, rb);
    assert forall|c: Coords| u.contains(c) implies w[c] == (if a.contains(c) {
        zip_map(a, ra)[c]
    } else {
        zip_map(b, rb)[c]
    }) by {
        let p = u.index_of(c);
        assert(u[p] == c);
        assert(w[u[p]] == r[p]);
    }
    assert forall|c: Coords| a.contains(c) implies u.contains(c) by {
        assert(a.to_set().contains(c));
        assert(u.to_set().contains(c));
    }
    assert forall|c: Coords| b.contains(c) implies u.contains(c) by {
        assert(b.to_set().contains(c));
        assert(u.to_set().contains(c));
    }
    assert(w.restrict(a.to_set()) =~= zip_map(a, ra));
    assert forall|c: Coords| b.contains(c) implies w[c] == zip_map(b, rb)[c] by {
        if a.contains(c) {
            assert(ra[a.index_of(c)] == rb[b.index_of(c)]);
        }
    }
    assert(w.restrict(b.to_set()) =~= zip_map(b, rb));
}

/// What [`join_one`] holds.
pub proof fn lemma_join_one(
    u: Seq<Coords>,
    a: Seq<Coords>,
    b: Seq<Coords>,
    ra: Seq<Color>,
    rbs: Seq<Seq<Color>>,
)
    requires
        joins_scopes(u, a, b),
        ra.len() == a.len(),
        rows_fit(b, rbs),
    ensures
        join_one(u, a, b, ra, rbs).len() <= rbs.len(),
        a.to_set().disjoint(b.to_set()) ==> join_one(u, a, b, ra, rbs).len() == rbs.len(),
        forall|k: int|
            0 <= k < join_one(u, a, b, ra, rbs).len() ==> joined_from_one(
                u,
                a,
                b,
                ra,
                rbs,
                #[trigger] join_one(u, a, b, ra, rbs)[k],
            ),
        forall|j: int|
            0 <= j < rbs.len() && compatible(a, b, ra, #[trigger] rbs[j]) ==> join_one(
                u,
                a,
                b,
                ra,
                rbs,
            ).contains(joined(u, a, b, ra, rbs[j])),
        rbs.no_duplicates() ==> join_one(u, a, b, ra, rbs).no_duplicates(),
    decreases rbs.len(),
{
    let out = join_one(u, a, b, ra, rbs);
    if rbs.len() > 0 {
        let init = rbs.drop_last();
        let last = rbs.last();
        let rest = join_one(u, a, b, ra, init);
        lemma_join_one(u, a, b, ra, init);
        if a.to_set().disjoint(b.to_set()) {
            assert forall|c: Coords| #[trigger] a.contains(c) && b.contains(c) implies ra[a.index_of(
                c,
            )] == last[b.index_of(c)] by {
                assert(a.to_set().contains(c) && b.to_set().contains(c));
            }
        }
        assert forall|k: int| 0 <= k < out.len() implies joined_from_one(
            u,
            a,
            b,
            ra,
            rbs,
            #[trigger] out[k],
        ) by {
            if k < rest.len() {
                assert(joined_from_one(u, a, b, ra, init, rest[k]));
                let j = choose|j: int|
                    0 <= j < init.len() && compatible(a, b, ra, #[trigger] init[j]) && joined(
                        u,
                        a,
                        b,
                        ra,
                        init[j],
                    ) == rest[k];
                assert(rbs[j] == init[j]);
            } else {
                assert(rbs[rbs.len() - 1] == last);
            }
        }
        assert forall|j: int|
            0 <= j < rbs.len() && compatible(a, b, ra, #[trigger] rbs[j]) implies out.contains(
            joined(u, a, b, ra, rbs[j]),
        ) by {
            if j < init.len() {
                assert(init[j] == rbs[j]);
                let x = joined(u, a, b, ra, init[j]);
                assert(rest.contains(x));
                let k = choose|k: int| 0 <= k < rest.len() && rest[k] == x;
                assert(out[k] == x);
            } else {
                assert(out[out.len() - 1] == joined(u, a, b, ra, rbs[j]));
            }
        }
        if rbs.no_duplicates() {
            assert(init.no_duplicates());
            if compatible(a, b, ra, last) {
                let x = joined(u, a, b, ra, last);
                assert forall|k: int| 0 <= k < rest.len() implies rest[k] != x by {
                    assert(joined_from_one(u, a, b, ra, init, rest[k]));
                    let j = choose|j: int|
                        0 <= j < init.len() && compatible(a, b, ra, #[trigger] init[j]) && joined(
                            u,
                            a,
                            b,
                            ra,
                            init[j],
                        ) == rest[k];
                    if rest[k] == x {
                        lemma_joined_parts(u, a, b, ra, init[j]);
                        lemma_joined_parts(u, a, b, ra, last);
                        assert(rbs[j] == init[j]);
                        lemma_zip_injective(b, init[j], last);
                        assert(rbs[j] == rbs[rbs.len() - 1]);
                    }
                }
            }
        }
    }
}

/// What [`join_all`] holds.
pub proof fn lemma_join_all(
    u: Seq<Coords>,
    a: Seq<Coords>,
    b: Seq<Coords>,
    ras: Seq<Seq<Color>>,
    rbs: Seq<Seq<Color>>,
)
    requires
        joins_scopes(u, a, b),
        rows_fit(a, ras),
        rows_fit(b, rbs),
    ensures
        join_all(u, a, b, ras, rbs).len() <= ras.len() * rbs.len(),
        a.to_set().disjoint(b.to_set()) ==> join_all(u, a, b, ras, rbs).len() == ras.len()
            * rbs.len(),
        rows_fit(u, join_all(u, a, b, ras, rbs)),
        forall|k: int|
            0 <= k < join_all(u, a, b, ras, rbs).len() ==> joined_from(
                u,
                a,
                b,
                ras,
                rbs,
                #[trigger] join_all(u, a, b, ras, rbs)[k],
            ),
        forall|i: int, j: int|
            0 <= i < ras.len() && 0 <= j < rbs.len() && compatible(
                a,
                b,
                #[trigger] ras[i],
                #[trigger] rbs[j],
            ) ==> join_all(u, a, b, ras, rbs).contains(joined(u, a, b, ras[i], rbs[j])),
    decreases ras.len(),
{
    let out = join_all(u, a, b, ras, rbs);
    if ras.len() == 0 {
        assert(ras.len() * rbs.len() == 0) by (nonlinear_arith)
            requires
                ras.len() == 0,
        ;
    } else {
        let init = ras.drop_last();
        let last = ras.last();
        let head = join_all(u, a, b, init, rbs);
        let tail = join_one(u, a, b, last, rbs);
        lemma_join_all(u, a, b, init, rbs);
        lemma_join_one(u, a, b, last, rbs);
        assert(out == head + tail);
        assert(init.len() * rbs.len() + rbs.len() == ras.len() * rbs.len()) by (nonlinear_arith)
            requires
                init.len() + 1 == ras.len(),
        ;
        assert forall|k: int| 0 <= k < out.len() implies joined_from(
            u,
            a,
            b,
            ras,
            rbs,
            #[trigger] out[k],
        ) by {
            if k < head.len() {
                assert(out[k] == head[k]);
                assert(joined_from(u, a, b, init, rbs, head[k]));
                let i = choose|i: int|
                    0 <= i < init.len() && joined_from_one(u, a, b, #[trigger] init[i], rbs, head[k]);
                assert(ras[i] == init[i]);
            } else {
                assert(out[k] == tail[k - head.len()]);
                assert(ras[ras.len() - 1] == last);
            }
        }
        assert forall|k: int| 0 <= k < out.len() implies (#[trigger] out[k]).len() == u.len() by {
            assert(joined_from(u, a, b, ras, rbs, out[k]));
        }
        assert forall|i: int, j: int|
            0 <= i < ras.len() && 0 <= j < rbs.len() && compatible(
                a,
                b,
                #[trigger] ras[i],
                #[trigger] rbs[j],
            ) implies out.contains(joined(u, a, b, ras[i], rbs[j])) by {
            let x = joined(u, a, b, ras[i], rbs[j]);
            if i < init.len() {
                assert(init[i] == ras[i]);
                assert(head.contains(x));
                let k = choose|k: int| 0 <= k < head.len() && head[k] == x;
                assert(out[k] == x);
            } else {
                assert(tail.contains(x));
                let k = choose|k: int| 0 <= k < tail.len() && tail[k] == x;
                assert(out[head.len() + k] == x);
            }
        }
    }
}

/// [`join_all`] lists no row twice when its inputs do not.
pub proof fn lemma_join_all_distinct(
    u: Seq<Coords>,
    a: Seq<Coords>,
    b: Seq<Coords>,
    ras: Seq<Seq<Color>>,
    rbs: Seq<Seq<Color>>,
)
    requires
        joins_scopes(u, a, b),
        rows_fit(a, ras),
        rows_fit(b, rbs),
        ras.no_duplicates(),
        rbs.no_duplicates(),
    ensures
        join_all(u, a, b, ras, rbs).no_duplicates(),
    decreases ras.len(),
{
    let out = join_all(u, a, b, ras, rbs);
    if ras.len() > 0 {
        let init = ras.drop_last();
        let last = ras.last();
        let head = join_all(u, a, b, init, rbs);
        let tail = join_one(u, a, b, last, rbs);
        lemma_join_all_distinct(u, a, b, init, rbs);
        lemma_join_all(u, a, b, init, rbs);
        lemma_join_one(u, a, b, last, rbs);
        assert(out == head + tail);
        assert forall|h: int, t: int| 0 <= h < head.len() && 0 <= t < tail.len() implies head[h]
            != tail[t] by {
            lemma_join_cross(u, a, b, ras, rbs, head[h]);
        }
        assert forall|k: int, l: int|
            0 <= k < out.len() && 0 <= l < out.len() && k != l implies out[k] != out[l] by {
            if k < head.len() && l < head.len() {
                assert(out[k] == head[k] && out[l] == head[l]);
            } else if k >= head.len() && l >= head.len() {
                assert(out[k] == tail[k - head.len()] && out[l] == tail[l - head.len()]);
            } else if k < head.len() {
                assert(out[k] == head[k] && out[l] == tail[l - head.len()]);
            } else {
                assert(out[l] == head[l] && out[k] == tail[k - head.len()]);
            }
        }
    }
}

/// No row is joined both from the last row of `ras` and from an earlier one.
proof fn lemma_join_cross(
    u: Seq<Coords>,
    a: Seq<Coords>,
    b: Seq<Coords>,
    ras: Seq<Seq<Color>>,
    rbs: Seq<Seq<Color>>,
    x: Seq<Color>,
)
    requires
        joins_scopes(u, a, b),
        rows_fit(a, ras),
        rows_fit(b, rbs),
        ras.no_duplicates(),
        ras.len() > 0,
        joined_from(u, a, b, ras.drop_last(), rbs, x),
    ensures
        !joined_from_one(u, a, b, ras.last(), rbs, x),
{
    let init = ras.drop_last();
    let last = ras.last();
    if joined_from_one(u, a, b, last, rbs, x) {
        lemma_join_cross_inner(u, a, b, ras, rbs, x);
    }
}

/// A row joined both from the last row of `ras` and from an earlier one
/// would make those two rows the same.
proof fn lemma_join_cross_inner(
    u: Seq<Coords>,
    a: Seq<Coords>,
    b: Seq<Coords>,
    ras: Seq<Seq<Color>>,
    rbs: Seq<Seq<Color>>,
    x: Seq<Color>,
)
    requires
        joins_scopes(u, a, b),
        rows_fit(a, ras),
        rows_fit(b, rbs),
        ras.len() > 0,
        joined_from(u, a, b, ras.drop_last(), rbs, x),
        joined_from_one(u, a, b, ras.last(), rbs, x),
    ensures
        !ras.no_duplicates(),
{
    let init = ras.drop_last();
    let last = ras.last();
    let i = choose|i: int| 0 <= i < init.len() && joined_from_one(u, a, b, #[trigger] init[i], rbs, x);
    let j1 = choose|j: int|
        0 <= j < rbs.len() && compatible(a, b, init[i], #[trigger] rbs[j]) && joined(
            u,
            a,
            b,
            init[i],
            rbs[j],
        ) == x;
    let j2 = choose|j: int|
        0 <= j < rbs.len() && compatible(a, b, last, #[trigger] rbs[j]) && joined(
            u,
            a,
            b,
            last,
            rbs[j],
        ) == x;
    assert(ras[i] == init[i]);
    lemma_joined_parts(u, a, b, init[i], rbs[j1]);
    lemma_joined_parts(u, a, b, last, rbs[j2]);
    lemma_zip_injective(a, init[i], last);
    assert(ras[i] == ras[ras.len() - 1]);
}

/// The rows of [`join_all`] stand for the merge of the two multiverses.
pub proof fn lemma_merge_rows(
    u: Seq<Coords>,
    a: Seq<Coords>,
    b: Seq<Coords>,
    ras: Seq<Seq<Color>>,
    rbs: Seq<Seq<Color>>,
)
    requires
        joins_scopes(u, a, b),
        rows_fit(a, ras),
        rows_fit(b, rbs),
    ensures
        rows_view(u, join_all(u, a, b, ras, rbs)) == rows_view(a, ras).merge(rows_view(b, rbs)),
{
    let out = join_all(u, a, b, ras, rbs);
    let x = rows_view(u, out);
    let ma = rows_view(a, ras);
    let mb = rows_view(b, rbs);
    let y = ma.merge(mb);
    lemma_join_all(u, a, b, ras, rbs);
    assert(x.scope =~= y.scope);
    let wx = row_worlds(u, out);
    let wa = row_worlds(a, ras);
    let wb = row_worlds(b, rbs);
    assert forall|w: World| x.worlds.contains(w) <==> y.worlds.contains(w) by {
        if x.worlds.contains(w) {
            let k = choose|k: int| 0 <= k < wx.len() && wx[k] == w;
            assert(joined_from(u, a, b, ras, rbs, out[k]));
            let i = choose|i: int|
                0 <= i < ras.len() && joined_from_one(u, a, b, #[trigger] ras[i], rbs, out[k]);
            let j = choose|j: int|
                0 <= j < rbs.len() && compatible(a, b, ras[i], #[trigger] rbs[j]) && joined(
                    u,
                    a,
                    b,
                    ras[i],
                    rbs[j],
                ) == out[k];
            lemma_joined_parts(u, a, b, ras[i], rbs[j]);
            assert(wa[i] == zip_map(a, ras[i]));
            assert(wb[j] == zip_map(b, rbs[j]));
        }
        if y.worlds.contains(w) {
            let va = w.restrict(a.to_set());
            let vb = w.restrict(b.to_set());
            let i = choose|i: int| 0 <= i < wa.len() && wa[i] == va;
            let j = choose|j: int| 0 <= j < wb.len() && wb[j] == vb;
            lemma_zip_map(a, ras[i]);
            lemma_zip_map(b, rbs[j]);
            assert forall|c: Coords| #[trigger] a.contains(c) && b.contains(c) implies ras[i][a.index_of(
                c,
            )] == rbs[j][b.index_of(c)] by {
                let pa = a.index_of(c);
                let pb = b.index_of(c);
                assert(a[pa] == c && b[pb] == c);
                assert(va[a[pa]] == ras[i][pa]);
                assert(vb[b[pb]] == rbs[j][pb]);
                assert(va[c] == w[c] && vb[c] == w[c]);
            }
            let r = joined(u, a, b, ras[i], rbs[j]);
            lemma_joined_parts(u, a, b, ras[i], rbs[j]);
            let v = zip_map(u, r);
            assert forall|c: Coords| v.contains_key(c) implies v[c] == w[c] by {
                if a.contains(c) {
                    assert(v.restrict(a.to_set())[c] == v[c]);
                    assert(va[c] == w[c]);
                } else {
                    assert(b.to_set().contains(c));
                    assert(v.restrict(b.to_set())[c] == v[c]);
                    assert(vb[c] == w[c]);
                }
            }
            assert(v =~= w);
            assert(out.contains(r));
            let k = choose|k: int| 0 <= k < out.len() && out[k] == r;
            assert(wx[k] == w);
        }
    }
    assert(x.worlds =~= y.worlds);
}

/// Whether `t` tells, for each cell of `u`, where it stands among `a`, if it
/// does.
pub open spec fn table_of(t: Seq<Option<usize>>, u: Seq<Coords>, a: Seq<Coords>) -> bool {
    &&& t.len() == u.len()
    &&& forall|p: int|
        0 <= p < u.len() ==> match #[trigger] t[p] {
            Some(k) => k < a.len() && a[k as int] == u[p],
            None => !a.contains(u[p]),
        }
}

/// For each cell of `u`, where it stands in `a`.
fn index_table(u: &CoordSet, a: &CoordSet) -> (t: Vec<Option<usize>>)
    requires
        a.wf(),
    ensures
        table_of(t@, u.seq(), a.seq()),
{
    let mut t: Vec<Option<usize>> = Vec::new();
    let mut p: usize = 0;
    while p < u.len()
        invariant
            p <= u.seq().len(),
            a.wf(),
            table_of(t@, u.seq().take(p as int), a.seq()),
        decreases u.seq().len() - p,
    {
        let c = u.nth(p);
        let (k, found) = a.find(&c);
        if found {
            t.push(Some(k));
        } else {
            t.push(None);
        }
        p = p + 1;
    }
    assert(u.seq().take(p as int) =~= u.seq());
    t
}

/// Whether two rows agree on the cells they share.
fn rows_agree(
    ta: &Vec<Option<usize>>,
    tb: &Vec<Option<usize>>,
    ra: &Vec<Color>,
    rb: &Vec<Color>,
    Ghost(u): Ghost<Seq<Coords>>,
    Ghost(a): Ghost<Seq<Coords>>,
    Ghost(b): Ghost<Seq<Coords>>,
) -> (ok: bool)
    requires
        joins_scopes(u, a, b),
        table_of(ta@, u, a),
        table_of(tb@, u, b),
        ra@.len() == a.len(),
        rb@.len() == b.len(),
    ensures
        ok == compatible(a, b, ra@, rb@),
{
    let mut p: usize = 0;
    while p < ta.len()
        invariant
            p <= ta@.len(),
            joins_scopes(u, a, b),
            table_of(ta@, u, a),
            table_of(tb@, u, b),
            ra@.len() == a.len(),
            rb@.len() == b.len(),
            forall|q: int|
                0 <= q < p && a.contains(#[trigger] u[q]) && b.contains(u[q]) ==> ra@[a.index_of(
                    u[q],
                )] == rb@[b.index_of(u[q])],
        decreases ta@.len() - p,
    {
        match (ta[p], tb[p]) {
            (Some(ka), Some(kb)) => {
                proof {
                    lemma_index_of_unique(a, ka as int);
                    lemma_index_of_unique(b, kb as int);
                }
                if ra[ka] != rb[kb] {
                    assert(a.contains(u[p as int]) && b.contains(u[p as int]));
                    return false;
                }
            },
            _ => {},
        }
        p = p + 1;
    }
    proof {
        assert forall|c: Coords| #[trigger] a.contains(c) && b.contains(c) implies ra@[a.index_of(c)]
            == rb@[b.index_of(c)] by {
            assert(a.to_set().contains(c));
            assert(u.to_set().contains(c));
            let q = choose|q: int| 0 <= q < u.len() && u[q] == c;
            assert(a.contains(u[q]) && b.contains(u[q]));
        }
    }
    true
}

/// The row over `u` that takes each colour from `ra` where it can, and from
/// `rb` otherwise.
fn join_row(
    ta: &Vec<Option<usize>>,
    tb: &Vec<Option<usize>>,
    ra: &Vec<Color>,
    rb: &Vec<Color>,
    Ghost(u): Ghost<Seq<Coords>>,
    Ghost(a): Ghost<Seq<Coords>>,
    Ghost(b): Ghost<Seq<Coords>>,
) -> (out: Vec<Color>)
    requires
        joins_scopes(u, a, b),
        table_of(ta@, u, a),
        table_of(tb@, u, b),
        ra@.len() == a.len(),
        rb@.len() == b.len(),
    ensures
        out@ == joined(u, a, b, ra@, rb@),
{
    let mut out: Vec<Color> = Vec::new();
    let mut p: usize = 0;
    while p < ta.len()
        invariant
            p <= ta@.len(),
            joins_scopes(u, a, b),
            table_of(ta@, u, a),
            table_of(tb@, u, b),
            ra@.len() == a.len(),
            rb@.len() == b.len(),
            out@ == joined(u, a, b, ra@, rb@).take(p as int),
        decreases ta@.len() - p,
    {
        let col = match ta[p] {
            Some(ka) => {
                proof {
                    lemma_index_of_unique(a, ka as int);
                }
                ra[ka]
            },
            None => {
                proof {
                    assert(u.to_set().contains(u[p as int]));
                    assert(b.to_set().contains(u[p as int]));
                }
                let kb = tb[p].unwrap();
                proof {
                    lemma_index_of_unique(b, kb as int);
                }
                rb[kb]
            },
        };
        out.push(col);
        assert(out@ =~= joined(u, a, b, ra@, rb@).take(p + 1));
        p = p + 1;
    }
    assert(joined(u, a, b, ra@, rb@).take(p as int) =~= joined(u, a, b, ra@, rb@));
    out
}

/// A cell is forced to a colour exactly when every row gives it that colour.
pub proof fn lemma_forces_rows(cells: Seq<Coords>, rows: Seq<Seq<Color>>, p: int, col: Color)
    requires
        cells.no_duplicates(),
        rows_fit(cells, rows),
        0 <= p < cells.len(),
        rows.len() > 0,
    ensures
        rows_view(cells, rows).forces(cells[p], col) <==> forall|i: int|
            0 <= i < rows.len() ==> (#[trigger] rows[i])[p] == col,
{
    let m = rows_view(cells, rows);
    let ws = row_worlds(cells, rows);
    lemma_rows_view_wf(cells, rows);
    assert(m.scope.contains(cells[p])) by {
        assert(cells[p] == cells[p]);
    }
    if m.forces(cells[p], col) {
        assert forall|i: int| 0 <= i < rows.len() implies (#[trigger] rows[i])[p] == col by {
            lemma_zip_map(cells, rows[i]);
            assert(m.worlds.contains(zip_map(cells, rows[i])));
            assert(zip_map(cells, rows[i])[cells[p]] == rows[i][p]);
        }
    }
    if forall|i: int| 0 <= i < rows.len() ==> (#[trigger] rows[i])[p] == col {
        assert forall|w: World| #[trigger] m.worlds.contains(w) implies w[cells[p]] == col by {
            let i = choose|i: int| 0 <= i < ws.len() && ws[i] == w;
            lemma_zip_map(cells, rows[i]);
            assert(zip_map(cells, rows[i])[cells[p]] == rows[i][p]);
        }
    }
}

/// The row that lists, for each position of `perm`, the colour that `row`
/// has at the position named there.
pub open spec fn permuted(row: Seq<Color>, perm: Seq<usize>) -> Seq<Color> {
    Seq::new(perm.len(), |p: int| row[perm[p] as int])
}

/// Whether `perm` tells, for each cell of `sorted`, where it stands in
/// `cells`.
pub open spec fn permutes(perm: Seq<usize>, sorted: Seq<Coords>, cells: Seq<Coords>) -> bool {
    &&& perm.len() == sorted.len()
    &&& forall|p: int|
        0 <= p < perm.len() ==> (#[trigger] perm[p]) < cells.len() && cells[perm[p] as int]
            == sorted[p]
}

/// A permuted row stands for the same world as the row it was made from.
pub proof fn lemma_permuted_world(
    cells: Seq<Coords>,
    sorted: Seq<Coords>,
    perm: Seq<usize>,
    row: Seq<Color>,
)
    requires
        cells.no_duplicates(),
        sorted.no_duplicates(),
        sorted.to_set() == cells.to_set(),
        permutes(perm, sorted, cells),
        row.len() == cells.len(),
    ensures
        zip_map(sorted, permuted(row, perm)) == zip_map(cells, row),
{
    let r2 = permuted(row, perm);
    lemma_zip_map(cells, row);
    lemma_zip_map(sorted, r2);
    let a = zip_map(sorted, r2);
    let b = zip_map(cells, row);
    assert(a.dom() =~= b.dom());
    assert forall|c: Coords| a.contains_key(c) implies a[c] == b[c] by {
        let p = sorted.index_of(c);
        assert(sorted[p] == c);
        assert(a[sorted[p]] == r2[p]);
        let k = perm[p] as int;
        assert(cells[k] == c);
        assert(b[cells[k]] == row[k]);
    }
    assert(a =~= b);
}

/// A copy of a row.
pub(crate) fn copy_row(row: &Vec<Color>) -> (out: Vec<Color>)
    ensures
        out@ == row@,
{
    let mut out: Vec<Color> = Vec::new();
    let mut p: usize = 0;
    while p < row.len()
        invariant
            p <= row.len(),
            out@ == row@.take(p as int),
        decreases row.len() - p,
    {
        out.push(row[p]);
        assert(out@ =~= row@.take(p + 1));
        p = p + 1;
    }
    assert(row@.take(p as int) =~= row@);
    out
}

/// A set of cells together with every colouring of them that is still
/// possible.
#[derive(Debug)]
pub struct Multiverse {
    scope: CoordSet,
    worlds: Vec<Vec<Color>>,
}

impl View for Multiverse {
    type V = MultiverseView;

    open spec fn view(&self) -> MultiverseView {
        rows_view(self.cells(), self.rows())
    }
}

impl Multiverse {
    /// The cells of the scope in increasing order.
    pub closed spec fn cells(&self) -> Seq<Coords> {
        self.scope.seq()
    }

    /// The worlds, each as the colours of the cells in their order.
    pub closed spec fn rows(&self) -> Seq<Seq<Color>> {
        rows_of(self.worlds@)
    }

    /// The cells are strictly increasing, every row has one colour for each
    /// cell, and no row occurs twice.
    pub open spec fn wf(&self) -> bool {
        &&& strictly_sorted(self.cells())
        &&& rows_fit(self.cells(), self.rows())
        &&& self.rows().no_duplicates()
    }

    /// A well-formed multiverse stands for a well-formed model with one world
    /// for each row.
    pub proof fn lemma_view(&self)
        requires
            self.wf(),
        ensures
            self@.wf(),
            self@.worlds.len() == self.rows().len(),
            self.rows().len() == 0 <==> self@.stuck(),
            self.cells().no_duplicates(),
            self@.scope.len() == self.cells().len(),
    {
        lemma_sorted_no_duplicates(self.cells());
        lemma_rows_view_wf(self.cells(), self.rows());
    }

    /// The multiverse with an empty scope and its one, empty, colouring.
    pub fn empty() -> (out: Multiverse)
        ensures
            out.wf(),
            out@ == MultiverseView::unit(),
    {
        let mut worlds: Vec<Vec<Color>> = Vec::new();
        worlds.push(Vec::new());
        let out = Multiverse { scope: CoordSet::new(), worlds };
        proof {
            assert(out.rows().len() == 1);
            assert(out.rows()[0] =~= Seq::<Color>::empty());
            assert(out@.scope =~= Set::<Coords>::empty());
            let ws = row_worlds(out.cells(), out.rows());
            assert(ws[0] =~= Map::<Coords, Color>::empty());
            assert forall|w: World| ws.contains(w) <==> w == Map::<Coords, Color>::empty() by {
                if ws.contains(w) {
                    let i = choose|i: int| 0 <= i < ws.len() && ws[i] == w;
                }
            }
            assert(out@.worlds =~= set![Map::<Coords, Color>::empty()]);
        }
        out
    }

    /// The scope.
    pub fn scope(&self) -> (s: &CoordSet)
        ensures
            s.seq() == self.cells(),
            s@ == self@.scope,
            self.wf() ==> s.wf(),
    {
        &self.scope
    }

    /// The number of worlds.
    pub fn world_count(&self) -> (n: usize)
        ensures
            n == self.rows().len(),
            self.wf() ==> n == self@.worlds.len(),
    {
        proof {
            if self.wf() {
                self.lemma_view();
            }
        }
        self.worlds.len()
    }

    /// A copy of the multiverse.
    pub fn copy(&self) -> (out: Multiverse)
        ensures
            out.cells() == self.cells(),
            out.rows() == self.rows(),
            out@ == self@,
            self.wf() ==> out.wf(),
    {
        let mut worlds: Vec<Vec<Color>> = Vec::new();
        let mut i: usize = 0;
        while i < self.worlds.len()
            invariant
                i <= self.worlds.len(),
                worlds@.len() == i,
                forall|k: int| 0 <= k < i ==> (#[trigger] worlds@[k])@ == self.worlds@[k]@,
            decreases self.worlds.len() - i,
        {
            worlds.push(copy_row(&self.worlds[i]));
            i = i + 1;
        }
        let out = Multiverse { scope: self.scope.copy(), worlds };
        assert(out.rows() =~= self.rows());
        out
    }

    /// `Empty` when the scope is empty, `Stuck` when the scope is not empty
    /// but no world remains, `Running` otherwise.
    pub fn state(&self) -> (st: State)
        requires
            self.wf(),
        ensures
            st == self@.state(),
    {
        proof {
            self.lemma_view();
        }
        if self.scope.is_empty() {
            State::Empty
        } else if self.worlds.len() == 0 {
            State::Stuck
        } else {
            State::Running
        }
    }

    /// The multiverse after learning that `c` has colour `col`: `c` leaves the
    /// scope, and the worlds in which `c` had that colour remain. When `c` is
    /// not in the scope, the result is a copy of `self`.
    pub fn learn(&self, c: &Coords, col: Color) -> (out: Multiverse)
        requires
            self.wf(),
        ensures
            out.wf(),
            out@ == self@.learn(*c, col),
            out@.scope == self@.scope.remove(*c),
    {
        let (at, found) = self.scope.find(c);
        if !found {
            assert(self@.scope.remove(*c) =~= self@.scope);
            return self.copy();
        }
        let mut scope = self.scope.copy();
        scope.remove(c);
        let mut worlds: Vec<Vec<Color>> = Vec::new();
        let ghost rows = self.rows();
        let ghost cells = self.cells();
        proof {
            lemma_sorted_no_duplicates(cells);
            lemma_remove_at(cells, at as int);
            lemma_sorted_unique(scope.seq(), cells.remove(at as int));
        }
        let mut i: usize = 0;
        while i < self.worlds.len()
            invariant
                i <= self.worlds.len(),
                self.wf(),
                rows == self.rows(),
                cells == self.cells(),
                at < cells.len(),
                rows_of(worlds@) == kept_rows(
                    rows.take(i as int),
                    at as int,
                    col,
                ),
            decreases self.worlds.len() - i,
        {
            let row = &self.worlds[i];
            assert(row@ == rows[i as int]);
            assert(rows.take(i + 1).drop_last() =~= rows.take(i as int));
            assert(rows.take(i + 1).last() == rows[i as int]);
            if row[at] == col {
                let mut shorter = copy_row(row);
                shorter.remove(at);
                let ghost before = rows_of(worlds@);
                worlds.push(shorter);
                assert(rows_of(worlds@) =~= before.push(rows[i as int].remove(at as int)));
                assert(rows_of(worlds@) =~= kept_rows(
                    rows.take(i as int),
                    at as int,
                    col,
                ).push(rows[i as int].remove(at as int)));
            }
            i = i + 1;
        }
        let out = Multiverse { scope, worlds };
        proof {
            assert(rows.take(i as int) =~= rows);
            assert(out.rows() == kept_rows(rows, at as int, col));
            lemma_kept_rows(rows, at as int, col, cells.len() as int);
            lemma_learn_rows(cells, rows, at as int, col);
            crate::worlds::lemma_learn_scope(self@, *c, col);
        }
        out
    }

    /// The multiverse over both scopes whose worlds are the pairs of a world
    /// of `self` and a world of `other` that agree on the cells they share.
    /// It has at most as many worlds as there are pairs, and exactly as many
    /// when the scopes share no cell.
    pub fn merge(&self, other: &Multiverse) -> (out: Multiverse)
        requires
            self.wf(),
            other.wf(),
        ensures
            out.wf(),
            out@ == self@.merge(other@),
            out@.worlds.len() <= self@.worlds.len() * other@.worlds.len(),
            self@.scope.disjoint(other@.scope) ==> out@.worlds.len() == self@.worlds.len()
                * other@.worlds.len(),
    {
        let scope = self.scope.union(&other.scope);
        let ta = index_table(&scope, &self.scope);
        let tb = index_table(&scope, &other.scope);
        let ghost u = scope.seq();
        let ghost a = self.cells();
        let ghost b = other.cells();
        let ghost ras = self.rows();
        let ghost rbs = other.rows();
        proof {
            lemma_sorted_no_duplicates(u);
            lemma_sorted_no_duplicates(a);
            lemma_sorted_no_duplicates(b);
        }
        let mut worlds: Vec<Vec<Color>> = Vec::new();
        let mut i: usize = 0;
        while i < self.worlds.len()
            invariant
                i <= self.worlds.len(),
                self.wf(),
                other.wf(),
                joins_scopes(u, a, b),
                table_of(ta@, u, a),
                table_of(tb@, u, b),
                a == self.cells(),
                b == other.cells(),
                ras == self.rows(),
                rbs == other.rows(),
                rows_of(worlds@) == join_all(u, a, b, ras.take(i as int), rbs),
            decreases self.worlds.len() - i,
        {
            let ra = &self.worlds[i];
            assert(ra@ == ras[i as int]);
            let ghost head = rows_of(worlds@);
            let mut j: usize = 0;
            while j < other.worlds.len()
                invariant
                    j <= other.worlds.len(),
                    i < self.worlds.len(),
                    self.wf(),
                    other.wf(),
                    joins_scopes(u, a, b),
                    table_of(ta@, u, a),
                    table_of(tb@, u, b),
                    a == self.cells(),
                    b == other.cells(),
                    ras == self.rows(),
                    rbs == other.rows(),
                    ra@ == ras[i as int],
                    rows_of(worlds@) == head + join_one(u, a, b, ra@, rbs.take(j as int)),
                decreases other.worlds.len() - j,
            {
                let rb = &other.worlds[j];
                assert(rb@ == rbs[j as int]);
                assert(rbs.take(j + 1).drop_last() =~= rbs.take(j as int));
                assert(rbs.take(j + 1).last() == rbs[j as int]);
                if rows_agree(&ta, &tb, ra, rb, Ghost(u), Ghost(a), Ghost(b)) {
                    let row = join_row(&ta, &tb, ra, rb, Ghost(u), Ghost(a), Ghost(b));
                    let ghost before = rows_of(worlds@);
                    worlds.push(row);
                    assert(rows_of(worlds@) =~= before.push(joined(u, a, b, ra@, rb@)));
                    assert(rows_of(worlds@) =~= head + join_one(
                        u,
                        a,
                        b,
                        ra@,
                        rbs.take(j as int),
                    ).push(joined(u, a, b, ra@, rb@)));
                }
                j = j + 1;
            }
            proof {
                assert(rbs.take(j as int) =~= rbs);
                assert(ras.take(i + 1).drop_last() =~= ras.take(i as int));
                assert(ras.take(i + 1).last() == ras[i as int]);
            }
            i = i + 1;
        }
        let out = Multiverse { scope, worlds };
        proof {
            assert(ras.take(i as int) =~= ras);
            assert(out.rows() =~= rows_of(out.worlds@));
            lemma_join_all(u, a, b, ras, rbs);
            lemma_join_all_distinct(u, a, b, ras, rbs);
            lemma_merge_rows(u, a, b, ras, rbs);
            self.lemma_view();
            other.lemma_view();
            out.lemma_view();
        }
        out
    }

    /// The cells that have the same colour in every world, each with that
    /// colour. Empty when no world remains.
    pub fn invariants(&self) -> (out: CoordMap<Color>)
        requires
            self.wf(),
        ensures
            out.wf(),
            out@ == self@.invariants(),
    {
        let mut out: CoordMap<Color> = CoordMap::new();
        let ghost cells = self.cells();
        let ghost rows = self.rows();
        let ghost inv = self@.invariants();
        proof {
            self.lemma_view();
        }
        if self.worlds.len() == 0 {
            assert(out@ =~= inv);
            return out;
        }
        let mut p: usize = 0;
        while p < self.scope.len()
            invariant
                p <= cells.len(),
                self.wf(),
                cells == self.cells(),
                rows == self.rows(),
                inv == self@.invariants(),
                cells.no_duplicates(),
                rows.len() > 0,
                out.wf(),
                out@ == inv.restrict(cells.take(p as int).to_set()),
            decreases cells.len() - p,
        {
            let col = self.worlds[0][p];
            let mut same = true;
            let mut i: usize = 1;
            while i < self.worlds.len() && same
                invariant
                    1 <= i <= self.worlds.len(),
                    p < cells.len(),
                    self.wf(),
                    cells == self.cells(),
                    rows == self.rows(),
                    col == rows[0][p as int],
                    same ==> forall|k: int| 0 <= k < i ==> (#[trigger] rows[k])[p as int] == col,
                    !same ==> exists|k: int| 0 <= k < rows.len() && (#[trigger] rows[k])[p as int] != col,
                decreases self.worlds.len() - i + (if same { 1int } else { 0int }),
            {
                assert(self.worlds@[i as int]@ == rows[i as int]);
                if self.worlds[i][p] != col {
                    same = false;
                } else {
                    i = i + 1;
                }
            }
            let c = self.scope.nth(p);
            proof {
                crate::coord_set::lemma_take_next_set(cells, p as int);
                lemma_forces_rows(cells, rows, p as int, Color::Blue);
                lemma_forces_rows(cells, rows, p as int, Color::Black);
                assert(rows[0][p as int] == col);
                assert(!cells.take(p as int).to_set().contains(c)) by {
                    if cells.take(p as int).contains(c) {
                        let k = choose|k: int|
                            0 <= k < cells.take(p as int).len() && cells.take(p as int)[k] == c;
                        assert(cells[k] == cells[p as int]);
                    }
                }
            }
            if same {
                out.insert(c, col);
                proof {
                    assert(inv.contains_key(c) && inv[c] == col);
                    assert(out@ =~= inv.restrict(cells.take(p + 1).to_set()));
                }
            } else {
                proof {
                    assert(!inv.contains_key(c));
                    assert(out@ =~= inv.restrict(cells.take(p + 1).to_set()));
                }
            }
            p = p + 1;
        }
        proof {
            assert(cells.take(p as int) =~= cells);
            assert(inv.restrict(cells.to_set()) =~= inv);
        }
        out
    }

    /// The multiverse over `cells`, given in any order, whose worlds are the
    /// rows: row `i` colours `cells[p]` with `rows[i][p]`.
    pub(crate) fn from_distinct_rows(
        cells: &Vec<Coords>,
        rows: &Vec<Vec<Color>>,
    ) -> (out: Multiverse)
        requires
            cells@.no_duplicates(),
            rows_fit(cells@, rows_of(rows@)),
            rows_of(rows@).no_duplicates(),
        ensures
            out.wf(),
            out@ == rows_view(cells@, rows_of(rows@)),
            out.rows().len() == rows@.len(),
    {
        let mut scope = CoordSet::new();
        let mut k: usize = 0;
        while k < cells.len()
            invariant
                k <= cells.len(),
                scope.wf(),
                scope@ == cells@.take(k as int).to_set(),
            decreases cells.len() - k,
        {
            scope.insert(cells[k]);
            proof {
                crate::coord_set::lemma_take_next_set(cells@, k as int);
            }
            k = k + 1;
        }
        assert(cells@.take(k as int) =~= cells@);
        let ghost sorted = scope.seq();
        proof {
            lemma_sorted_no_duplicates(sorted);
            cells@.unique_seq_to_set();
        }
        // Where each cell of the sorted scope stands in `cells`.
        let mut perm: Vec<usize> = Vec::new();
        let mut p: usize = 0;
        while p < scope.len()
            invariant
                p <= sorted.len(),
                sorted == scope.seq(),
                sorted.to_set() == cells@.to_set(),
                permutes(perm@, sorted.take(p as int), cells@),
            decreases sorted.len() - p,
        {
            let c = scope.nth(p);
            let mut at: usize = 0;
            assert(cells@.to_set().contains(c));
            while cells[at] != c
                invariant
                    at < cells.len(),
                    cells@.contains(c),
                    forall|q: int| 0 <= q < at ==> cells@[q] != c,
                decreases cells.len() - at,
            {
                proof {
                    let q = choose|q: int| 0 <= q < cells@.len() && cells@[q] == c;
                    assert(q > at);
                }
                at = at + 1;
            }
            perm.push(at);
            p = p + 1;
        }
        assert(sorted.take(p as int) =~= sorted);
        let mut worlds: Vec<Vec<Color>> = Vec::new();
        let mut i: usize = 0;
        while i < rows.len()
            invariant
                i <= rows.len(),
                permutes(perm@, sorted, cells@),
                rows_fit(cells@, rows_of(rows@)),
                worlds@.len() == i,
                forall|k: int|
                    0 <= k < i ==> (#[trigger] worlds@[k])@ == permuted(rows@[k]@, perm@),
            decreases rows.len() - i,
        {
            let row = &rows[i];
            assert(rows_of(rows@)[i as int] == row@);
            let mut fresh: Vec<Color> = Vec::new();
            let mut q: usize = 0;
            while q < perm.len()
                invariant
                    q <= perm.len(),
                    permutes(perm@, sorted, cells@),
                    row@.len() == cells@.len(),
                    fresh@ == permuted(row@, perm@).take(q as int),
                decreases perm.len() - q,
            {
                fresh.push(row[perm[q]]);
                assert(fresh@ =~= permuted(row@, perm@).take(q + 1));
                q = q + 1;
            }
            assert(permuted(row@, perm@).take(q as int) =~= permuted(row@, perm@));
            worlds.push(fresh);
            i = i + 1;
        }
        let out = Multiverse { scope, worlds };
        proof {
            let src = rows_of(rows@);
            let dst = out.rows();
            assert(dst.len() == src.len());
            assert forall|k: int| 0 <= k < src.len() implies zip_map(sorted, #[trigger] dst[k])
                == zip_map(cells@, src[k]) && dst[k].len() == sorted.len() by {
                assert(dst[k] == permuted(src[k], perm@));
                lemma_permuted_world(cells@, sorted, perm@, src[k]);
            }
            assert(row_worlds(sorted, dst) =~= row_worlds(cells@, src));
            assert forall|k: int, l: int|
                0 <= k < dst.len() && 0 <= l < dst.len() && k != l implies dst[k] != dst[l] by {
                if dst[k] == dst[l] {
                    lemma_zip_injective(cells@, src[k], src[l]);
                }
            }
        }
        out
    }

    /// Whether `row` is one of the worlds.
    fn has_row(&self, row: &Vec<Color>) -> (b: bool)
        ensures
            b == self.rows().contains(row@),
    {
        let mut i: usize = 0;
        while i < self.worlds.len()
            invariant
                i <= self.worlds.len(),
                forall|k: int| 0 <= k < i ==> self.rows()[k] != row@,
            decreases self.worlds.len() - i,
        {
            if same_row(&self.worlds[i], row) {
                assert(self.rows()[i as int] == row@);
                return true;
            }
            i = i + 1;
        }
        false
    }

    /// Whether every world of `self` is a world of `other`, which has the
    /// same scope.
    fn rows_within(&self, other: &Multiverse) -> (b: bool)
        ensures
            b == (forall|k: int|
                0 <= k < self.rows().len() ==> other.rows().contains(#[trigger] self.rows()[k])),
    {
        let mut i: usize = 0;
        while i < self.worlds.len()
            invariant
                i <= self.worlds.len(),
                forall|k: int| 0 <= k < i ==> other.rows().contains(#[trigger] self.rows()[k]),
            decreases self.worlds.len() - i,
        {
            if !other.has_row(&self.worlds[i]) {
                assert(self.rows()[i as int] == self.worlds@[i as int]@);
                return false;
            }
            i = i + 1;
        }
        true
    }

    /// Whether the two multiverses have the same scope and the same worlds.
    pub fn same(&self, other: &Multiverse) -> (b: bool)
        requires
            self.wf(),
            other.wf(),
        ensures
            b == (self@ == other@),
    {
        let ghost cells = self.cells();
        let ghost a = self.rows();
        let ghost o = other.rows();
        proof {
            self.lemma_view();
            other.lemma_view();
            lemma_rows_view_wf(self.cells(), a);
            lemma_rows_view_wf(other.cells(), o);
            if self@ == other@ {
                self.scope.lemma_same_view(&other.scope);
            }
        }
        if !self.scope.same(&other.scope) {
            return false;
        }
        let b = self.rows_within(other) && other.rows_within(self);
        proof {
            let wa = row_worlds(cells, a);
            let wo = row_worlds(cells, o);
            if b {
                assert forall|w: World| self@.worlds.contains(w) <==> other@.worlds.contains(w) by {
                    if wa.contains(w) {
                        let i = choose|i: int| 0 <= i < wa.len() && wa[i] == w;
                        assert(o.contains(a[i]));
                        let j = choose|j: int| 0 <= j < o.len() && o[j] == a[i];
                        assert(wo[j] == w);
                    }
                    if wo.contains(w) {
                        let i = choose|i: int| 0 <= i < wo.len() && wo[i] == w;
                        assert(a.contains(o[i]));
                        let j = choose|j: int| 0 <= j < a.len() && a[j] == o[i];
                        assert(wa[j] == w);
                    }
                }
                assert(self@.worlds =~= other@.worlds);
            }
            if self@ == other@ {
                assert forall|k: int| 0 <= k < a.len() implies o.contains(#[trigger] a[k]) by {
                    assert(other@.worlds.contains(zip_map(cells, a[k])));
                    let j = choose|j: int| 0 <= j < wo.len() && wo[j] == zip_map(cells, a[k]);
                    lemma_zip_injective(cells, a[k], o[j]);
                }
                assert forall|k: int| 0 <= k < o.len() implies a.contains(#[trigger] o[k]) by {
                    assert(self@.worlds.contains(zip_map(cells, o[k])));
                    let j = choose|j: int| 0 <= j < wa.len() && wa[j] == zip_map(cells, o[k]);
                    lemma_zip_injective(cells, o[k], a[j]);
                }
            }
        }
        b
    }

    /// The multiverse over `cells`, given in any order, whose worlds are the
    /// rows: row `i` colours `cells[p]` with `rows[i][p]`. A row that occurs
    /// again is taken once. Returns `None` when a coordinate occurs twice in
    /// `cells`, or when a row does not have one colour for each cell.
    pub fn from_worlds(cells: &Vec<Coords>, rows: &Vec<Vec<Color>>) -> (out: Option<Multiverse>)
        ensures
            out is Some <==> cells@.no_duplicates() && rows_fit(cells@, rows_of(rows@)),
            out is Some ==> out.unwrap().wf() && out.unwrap()@ == rows_view(
                cells@,
                rows_of(rows@),
            ),
    {
        if !distinct_cells(cells) {
            return None;
        }
        let ghost all = rows_of(rows@);
        let mut kept: Vec<Vec<Color>> = Vec::new();
        let mut i: usize = 0;
        while i < rows.len()
            invariant
                i <= rows.len(),
                all == rows_of(rows@),
                rows_fit(cells@, all.take(i as int)),
                rows_fit(cells@, rows_of(kept@)),
                rows_of(kept@).no_duplicates(),
                forall|r: Seq<Color>| rows_of(kept@).contains(r) <==> all.take(i as int).contains(r),
            decreases rows.len() - i,
        {
            let row = &rows[i];
            let ghost before = rows_of(kept@);
            let ghost seen = all.take(i as int);
            assert(all[i as int] == row@);
            if row.len() != cells.len() {
                return None;
            }
            let mut dup = false;
            let mut k: usize = 0;
            while k < kept.len() && !dup
                invariant
                    k <= kept.len(),
                    before == rows_of(kept@),
                    !dup ==> forall|j: int| 0 <= j < k ==> before[j] != row@,
                    dup ==> before.contains(row@),
                decreases kept.len() - k + (if dup { 0int } else { 1int }),
            {
                if same_row(&kept[k], row) {
                    assert(before[k as int] == row@);
                    dup = true;
                } else {
                    k = k + 1;
                }
            }
            if !dup {
                kept.push(copy_row(row));
                assert(rows_of(kept@) =~= before.push(row@));
            }
            proof {
                let after = rows_of(kept@);
                let next = all.take(i + 1);
                assert(next =~= seen.push(row@));
                assert forall|r: Seq<Color>| after.contains(r) <==> next.contains(r) by {
                    if after.contains(r) {
                        let j = choose|j: int| 0 <= j < after.len() && after[j] == r;
                        if j < before.len() {
                            assert(before[j] == r);
                            assert(before.contains(r));
                            let m = choose|m: int| 0 <= m < seen.len() && seen[m] == r;
                            assert(next[m] == r);
                        } else {
                            assert(next[i as int] == r);
                        }
                    }
                    if next.contains(r) {
                        let m = choose|m: int| 0 <= m < next.len() && next[m] == r;
                        if m < i {
                            assert(seen[m] == r);
                            assert(before.contains(r));
                            let j = choose|j: int| 0 <= j < before.len() && before[j] == r;
                            assert(after[j] == r);
                        } else if dup {
                            let j = choose|j: int| 0 <= j < before.len() && before[j] == r;
                            assert(after[j] == r);
                        } else {
                            assert(after[before.len() as int] == r);
                        }
                    }
                }
                assert forall|j: int| 0 <= j < next.len() implies (#[trigger] next[j]).len()
                    == cells@.len() by {
                    if j < i {
                        assert(seen[j] == next[j]);
                    }
                }
            }
            i = i + 1;
        }
        let out = Multiverse::from_distinct_rows(cells, &kept);
        proof {
            assert(all.take(i as int) =~= all);
            let a = row_worlds(cells@, rows_of(kept@));
            let b = row_worlds(cells@, all);
            assert forall|w: World| a.contains(w) <==> b.contains(w) by {
                if a.contains(w) {
                    let j = choose|j: int| 0 <= j < a.len() && a[j] == w;
                    assert(rows_of(kept@).contains(rows_of(kept@)[j]));
                    assert(all.take(i as int).contains(rows_of(kept@)[j]));
                    assert(all.contains(rows_of(kept@)[j]));
                    let m = choose|m: int| 0 <= m < all.len() && all[m] == rows_of(kept@)[j];
                    assert(b[m] == w);
                }
                if b.contains(w) {
                    let m = choose|m: int| 0 <= m < b.len() && b[m] == w;
                    assert(all.take(i as int).contains(all[m])) by {
                        assert(all.take(i as int)[m] == all[m]);
                    }
                    assert(rows_of(kept@).contains(all[m]));
                    let j = choose|j: int|
                        0 <= j < rows_of(kept@).len() && rows_of(kept@)[j] == all[m];
                    assert(a[j] == w);
                }
            }
            assert(a.to_set() =~= b.to_set());
        }
        Some(out)
    }
}

/// Whether two rows hold the same colours.
fn same_row(a: &Vec<Color>, b: &Vec<Color>) -> (eq: bool)
    ensures
        eq == (a@ == b@),
{
    if a.len() != b.len() {
        return false;
    }
    let mut p: usize = 0;
    while p < a.len()
        invariant
            p <= a.len(),
            a.len() == b.len(),
            forall|q: int| 0 <= q < p ==> a@[q] == b@[q],
        decreases a.len() - p,
    {
        if a[p] != b[p] {
            return false;
        }
        p = p + 1;
    }
    assert(a@ =~= b@);
    true
}

/// Whether no coordinate occurs twice in `cells`.
pub fn distinct_cells(cells: &Vec<Coords>) -> (ok: bool)
    ensures
        ok == cells@.no_duplicates(),
{
    let mut seen = CoordSet::new();
    let mut i: usize = 0;
    while i < cells.len()
        invariant
            i <= cells.len(),
            seen.wf(),
            seen@ == cells@.take(i as int).to_set(),
            cells@.take(i as int).no_duplicates(),
        decreases cells.len() - i,
    {
        proof {
            crate::coord_set::lemma_take_next_set(cells@, i as int);
        }
        if !seen.insert(cells[i]) {
            proof {
                let k = choose|k: int|
                    0 <= k < cells@.take(i as int).len() && cells@.take(i as int)[k] == cells@[i as int];
                assert(cells@[k] == cells@[i as int]);
            }
            return false;
        }
        proof {
            let t = cells@.take(i + 1);
            assert forall|a: int, b: int| 0 <= a < t.len() && 0 <= b < t.len() && a != b implies t[a]
                != t[b] by {
                if a < i && b < i {
                    assert(cells@.take(i as int)[a] != cells@.take(i as int)[b]);
                } else {
                    let o = if a < i { a } else { b };
                    assert(cells@.take(i as int)[o] == cells@[o]);
                    assert(cells@.take(i as int).contains(cells@[o]));
                }
            }
        }
        i = i + 1;
    }
    assert(cells@.take(i as int) =~= cells@);
    true
}

} // verus!
