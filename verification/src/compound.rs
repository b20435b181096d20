//! Deductions from groups of constraints: constraints that share cells are
//! merged, two at a time, then three, and so on, until some group forces a
//! cell.

use crate::coord_map::CoordMap;
use crate::coord_set::CoordSet;
use crate::defn::{reserved_coords, Color, Defn};
use crate::misc::Coords;
use crate::multiverse::Multiverse;
use crate::env::{Env, Timeout};
use crate::registry::{absorb, all_admit, all_wf, views, Constraints};
use crate::solver::Difficulty;
use crate::seqs::lemma_flatten_members;
use crate::worlds::{
    joint, lemma_invariants_agree_with_truth, lemma_joint_insert, lemma_joint_keeps_truth,
    lemma_joint_single, MultiverseView, World,
};
use itertools::Itertools;
use rayon::iter::{IntoParallelRefIterator, ParallelIterator};
use vstd::prelude::*;

verus! {

/// The keys of the constraints that speak of a clue: all but the reserved
/// one.
pub open spec fn locals(vs: Map<Coords, MultiverseView>) -> Set<Coords> {
    vs.dom().remove(reserved_coords())
}

/// Whether `a` and `b` are two different clue constraints whose scopes share
/// a cell.
pub open spec fn linked(vs: Map<Coords, MultiverseView>, a: Coords, b: Coords) -> bool {
    &&& a != b
    &&& locals(vs).contains(a)
    &&& locals(vs).contains(b)
    &&& !vs[a].scope.disjoint(vs[b].scope)
}

/// The constraints that `k` is linked with.
pub open spec fn links(vs: Map<Coords, MultiverseView>, k: Coords) -> Set<Coords> {
    Set::new(|n: Coords| linked(vs, k, n))
}

/// Every pair of two items of `s`, the earlier item first: first the pairs
/// with the first item of `s`, in the order of their second item, then the
/// pairs of the rest.
pub open spec fn pairs_of(s: Seq<Coords>) -> Seq<(Coords, Coords)>
    decreases s.len(),
{
    if s.len() < 2 {
        Seq::empty()
    } else {
        Seq::new((s.len() - 1) as nat, |j: int| (s[0], s[j + 1])) + pairs_of(s.drop_first())
    }
}

/// Whether `p` pairs an item of `s` with a later one.
pub open spec fn pair_in(s: Seq<Coords>, p: (Coords, Coords)) -> bool {
    exists|i: int, j: int| 0 <= i < j < s.len() && #[trigger] s[i] == p.0 && #[trigger] s[j] == p.1
}

/// [`pairs_of`] holds the pairs of an item with a later one, and nothing
/// else.
pub proof fn lemma_pairs_of(s: Seq<Coords>)
    ensures
        forall|k: int| 0 <= k < pairs_of(s).len() ==> pair_in(s, #[trigger] pairs_of(s)[k]),
        forall|i: int, j: int|
            0 <= i < j < s.len() ==> pairs_of(s).contains((#[trigger] s[i], #[trigger] s[j])),
    decreases s.len(),
{
    let out = pairs_of(s);
    if s.len() >= 2 {
        let head = Seq::new((s.len() - 1) as nat, |j: int| (s[0], s[j + 1]));
        let rest = s.drop_first();
        let tail = pairs_of(rest);
        lemma_pairs_of(rest);
        assert(out == head + tail);
        assert forall|k: int| 0 <= k < out.len() implies pair_in(s, #[trigger] out[k]) by {
            if k < head.len() {
                assert(s[0] == out[k].0 && s[k + 1] == out[k].1);
            } else {
                let p = tail[k - head.len()];
                assert(pair_in(rest, p));
                let (i, j) = choose|i: int, j: int|
                    0 <= i < j < rest.len() && #[trigger] rest[i] == p.0 && #[trigger] rest[j]
                        == p.1;
                assert(s[i + 1] == p.0 && s[j + 1] == p.1);
            }
        }
        assert forall|i: int, j: int| 0 <= i < j < s.len() implies out.contains(
            (#[trigger] s[i], #[trigger] s[j]),
        ) by {
            if i == 0 {
                assert(out[j - 1] == (s[i], s[j]));
            } else {
                assert(rest[i - 1] == s[i] && rest[j - 1] == s[j]);
                assert(tail.contains((rest[i - 1], rest[j - 1])));
                let k = choose|k: int| 0 <= k < tail.len() && tail[k] == (s[i], s[j]);
                assert(out[head.len() + k] == (s[i], s[j]));
            }
        }
    }
}

/// `Itertools::combinations(2)` on the items of `keys`, each combination as
/// a pair: itertools yields the combinations of positions in increasing
/// order, first all those with the first position, so the pairs come as
/// [`pairs_of`] lists them.
#[verifier::external_body]
fn key_pairs(keys: &Vec<Coords>) -> (out: Vec<(Coords, Coords)>)
    ensures
        out@ == pairs_of(keys@),
{
    keys.iter().combinations(2).map(|pair| (*pair[0], *pair[1])).collect()
}

/// Whether one of the pairs is `a` with `b`, in either order.
pub open spec fn paired(ps: Seq<(Coords, Coords)>, a: Coords, b: Coords) -> bool {
    ps.contains((a, b)) || ps.contains((b, a))
}

/// The constraints that `k` is linked with, as far as the pairs tell.
pub open spec fn links_seen(
    vs: Map<Coords, MultiverseView>,
    ps: Seq<(Coords, Coords)>,
    k: Coords,
) -> Set<Coords> {
    Set::new(|n: Coords| linked(vs, k, n) && paired(ps, k, n))
}

/// What one more pair tells about the links of `k`.
pub proof fn lemma_links_seen_push(
    vs: Map<Coords, MultiverseView>,
    ps: Seq<(Coords, Coords)>,
    a: Coords,
    b: Coords,
    k: Coords,
)
    ensures
        links_seen(vs, ps.push((a, b)), k) == if linked(vs, a, b) && k == a {
            links_seen(vs, ps, k).insert(b)
        } else if linked(vs, a, b) && k == b {
            links_seen(vs, ps, k).insert(a)
        } else {
            links_seen(vs, ps, k)
        },
{
    let more = ps.push((a, b));
    assert forall|x: Coords, y: Coords| paired(more, x, y) <==> (paired(ps, x, y) || (x == a && y
        == b) || (x == b && y == a)) by {
        lemma_push_contains(ps, (a, b), (x, y));
        lemma_push_contains(ps, (a, b), (y, x));
    }
    assert(linked(vs, a, b) <==> linked(vs, b, a)) by {
        assert(vs[a].scope.disjoint(vs[b].scope) <==> vs[b].scope.disjoint(vs[a].scope));
    }
    let expected = if linked(vs, a, b) && k == a {
        links_seen(vs, ps, k).insert(b)
    } else if linked(vs, a, b) && k == b {
        links_seen(vs, ps, k).insert(a)
    } else {
        links_seen(vs, ps, k)
    };
    assert(links_seen(vs, more, k) =~= expected);
}

/// What a sequence with one more item contains.
pub proof fn lemma_push_contains<T>(s: Seq<T>, x: T, y: T)
    ensures
        s.push(x).contains(y) <==> (s.contains(y) || x == y),
{
    let t = s.push(x);
    if t.contains(y) {
        let i = choose|i: int| 0 <= i < t.len() && t[i] == y;
        if i < s.len() {
            assert(s[i] == y);
        }
    }
    if s.contains(y) {
        let i = choose|i: int| 0 <= i < s.len() && s[i] == y;
        assert(t[i] == y);
    }
    if x == y {
        assert(t[s.len() as int] == y);
    }
}

/// Once all pairs of keys have been seen, all links have been seen.
pub proof fn lemma_links_seen_all(vs: Map<Coords, MultiverseView>, keys: Seq<Coords>, k: Coords)
    requires
        keys.to_set() == vs.dom(),
    ensures
        links_seen(vs, pairs_of(keys), k) == links(vs, k),
{
    lemma_pairs_of(keys);
    assert forall|n: Coords| linked(vs, k, n) implies paired(pairs_of(keys), k, n) by {
        assert(keys.to_set().contains(k) && keys.to_set().contains(n));
        let i = choose|i: int| 0 <= i < keys.len() && keys[i] == k;
        let j = choose|j: int| 0 <= j < keys.len() && keys[j] == n;
        if i < j {
            assert(pairs_of(keys).contains((keys[i], keys[j])));
        } else {
            assert(pairs_of(keys).contains((keys[j], keys[i])));
        }
    }
    assert(links_seen(vs, pairs_of(keys), k) =~= links(vs, k));
}

/// Whether `graph` holds, for each clue constraint, the links that the pairs
/// tell of.
pub open spec fn graph_of(
    graph: Map<Coords, CoordSet>,
    vs: Map<Coords, MultiverseView>,
    ps: Seq<(Coords, Coords)>,
) -> bool {
    &&& graph.dom() == locals(vs)
    &&& forall|k: Coords| #[trigger]
        graph.contains_key(k) ==> graph[k].wf() && graph[k]@ == links_seen(vs, ps, k)
}

/// Adds `b` to the links of `a`.
fn link(graph: &mut CoordMap<CoordSet>, a: Coords, b: Coords)
    requires
        old(graph).wf(),
        old(graph)@.contains_key(a),
        forall|k: Coords| #[trigger] old(graph)@.contains_key(k) ==> old(graph)@[k].wf(),
    ensures
        final(graph).wf(),
        final(graph)@.dom() == old(graph)@.dom(),
        forall|k: Coords| #[trigger]
            final(graph)@.contains_key(k) ==> final(graph)@[k].wf() && final(graph)@[k]@ == if k
                == a {
                old(graph)@[k]@.insert(b)
            } else {
                old(graph)@[k]@
            },
{
    let mut set = graph.remove(&a).unwrap();
    set.insert(b);
    graph.insert(a, set);
    assert(graph@.dom() =~= old(graph)@.dom());
}

/// The connection graph of the visible clue constraints: for each, the
/// others whose scope shares a cell with its own.
pub fn connection_graph(visible: &CoordMap<Multiverse>) -> (graph: CoordMap<CoordSet>)
    requires
        visible.wf(),
        all_wf(visible@),
    ensures
        graph.wf(),
        graph@.dom() == locals(views(visible@)),
        forall|k: Coords| #[trigger]
            graph@.contains_key(k) ==> graph@[k].wf() && graph@[k]@ == links(views(visible@), k),
{
    let ghost vs = views(visible@);
    let keys = visible.key_set().to_vec();
    let reserved = Defn::reserved();
    let mut graph: CoordMap<CoordSet> = CoordMap::new();
    let mut i: usize = 0;
    proof {
        visible.lemma_entries();
    }
    while i < keys.len()
        invariant
            i <= keys.len(),
            reserved == reserved_coords(),
            graph.wf(),
            graph@.dom() == keys@.take(i as int).to_set().remove(reserved),
            forall|k: Coords| #[trigger]
                graph@.contains_key(k) ==> graph@[k].wf() && graph@[k]@ == Set::<Coords>::empty(),
        decreases keys.len() - i,
    {
        let k = keys[i];
        proof {
            crate::coord_set::lemma_take_next_set(keys@, i as int);
        }
        if k != reserved {
            graph.insert(k, CoordSet::new());
        }
        assert(graph@.dom() =~= keys@.take(i + 1).to_set().remove(reserved));
        i = i + 1;
    }
    let pairs = key_pairs(&keys);
    proof {
        assert(keys@.take(i as int) =~= keys@);
        lemma_pairs_of(keys@);
        assert(pairs@.take(0) =~= Seq::<(Coords, Coords)>::empty());
        assert forall|k: Coords| #[trigger] graph@.contains_key(k) implies graph@[k]@ == links_seen(
            vs,
            pairs@.take(0),
            k,
        ) by {
            assert(links_seen(vs, pairs@.take(0), k) =~= Set::<Coords>::empty());
        }
    }
    let mut p: usize = 0;
    while p < pairs.len()
        invariant
            p <= pairs.len(),
            reserved == reserved_coords(),
            visible.wf(),
            all_wf(visible@),
            vs == views(visible@),
            keys@.to_set() == vs.dom(),
            forall|k: int| 0 <= k < pairs@.len() ==> pair_in(keys@, #[trigger] pairs@[k]),
            graph.wf(),
            graph_of(graph@, vs, pairs@.take(p as int)),
        decreases pairs.len() - p,
    {
        let (k0, k1) = pairs[p];
        let ghost before = graph@;
        let ghost seen = pairs@.take(p as int);
        proof {
            crate::seqs::lemma_take_push(pairs@, p as int);
            assert(pair_in(keys@, pairs@[p as int]));
            let (i, j) = choose|i: int, j: int|
                0 <= i < j < keys@.len() && #[trigger] keys@[i] == k0 && #[trigger] keys@[j] == k1;
            assert(keys@.to_set().contains(keys@[i]) && keys@.to_set().contains(keys@[j]));
            assert forall|k: Coords| #[trigger] before.contains_key(k) implies links_seen(
                vs,
                seen.push((k0, k1)),
                k,
            ) == if linked(vs, k0, k1) && k == k0 {
                links_seen(vs, seen, k).insert(k1)
            } else if linked(vs, k0, k1) && k == k1 {
                links_seen(vs, seen, k).insert(k0)
            } else {
                links_seen(vs, seen, k)
            } by {
                lemma_links_seen_push(vs, seen, k0, k1, k);
            }
        }
        if k0 != reserved && k1 != reserved && k0 != k1 {
            let mv0 = visible.get(&k0).unwrap();
            let mv1 = visible.get(&k1).unwrap();
            if !mv0.scope().is_disjoint(mv1.scope()) {
                assert(linked(vs, k0, k1));
                link(&mut graph, k0, k1);
                link(&mut graph, k1, k0);
            } else {
                assert(!linked(vs, k0, k1));
            }
        } else {
            assert(!linked(vs, k0, k1));
        }
        p = p + 1;
    }
    proof {
        assert(pairs@.take(p as int) =~= pairs@);
        assert forall|k: Coords| #[trigger] graph@.contains_key(k) implies graph@[k]@ == links(
            vs,
            k,
        ) by {
            lemma_links_seen_all(vs, keys@, k);
        }
    }
    graph
}


/// Whether the constraint `n` can join the group `g`: it is not a member,
/// and it is linked with a member.
pub open spec fn grows_by(vs: Map<Coords, MultiverseView>, g: Set<Coords>, n: Coords) -> bool {
    !g.contains(n) && exists|k: Coords| g.contains(k) && #[trigger] linked(vs, k, n)
}

/// The groups of the `i`-th round of widening: each clue constraint alone,
/// then every group of the round before with one more constraint that can
/// join it.
pub open spec fn groups(vs: Map<Coords, MultiverseView>, i: nat) -> Set<Set<Coords>>
    decreases i,
{
    if i == 0 {
        Set::empty()
    } else if i == 1 {
        Set::new(|g: Set<Coords>| exists|k: Coords| #[trigger] locals(vs).contains(k) && g == set![k])
    } else {
        Set::new(
            |g: Set<Coords>|
                exists|h: Set<Coords>, n: Coords|
                    groups(vs, (i - 1) as nat).contains(h) && #[trigger] grows_by(vs, h, n) && g
                        == h.insert(n),
        )
    }
}

/// What the constraints of a group make together.
pub open spec fn group_view(vs: Map<Coords, MultiverseView>, g: Set<Coords>) -> MultiverseView {
    joint(vs.restrict(g))
}

/// The cells that some group of the `i`-th round forces to a colour.
pub open spec fn level_forced(vs: Map<Coords, MultiverseView>, i: nat) -> Set<Coords> {
    Set::new(
        |c: Coords|
            exists|g: Set<Coords>| #[trigger]
                groups(vs, i).contains(g) && group_view(vs, g).invariants().contains_key(c),
    )
}

/// The `i`-th round has no group.
pub open spec fn no_groups(vs: Map<Coords, MultiverseView>, i: nat) -> bool {
    forall|g: Set<Coords>| !groups(vs, i).contains(g)
}

/// The result of widening from round `i` on: the cells that the first round
/// with a forced cell forces, and the number of that round. The search ends
/// without cells at a round that has no group, and at round 1003.
pub open spec fn search_from(vs: Map<Coords, MultiverseView>, i: nat) -> (Set<Coords>, nat)
    decreases 1003 - i,
{
    if i >= 1003 {
        (Set::empty(), i)
    } else if !(level_forced(vs, i) =~= Set::<Coords>::empty()) {
        (level_forced(vs, i), i)
    } else if no_groups(vs, i) {
        (Set::empty(), i)
    } else {
        search_from(vs, i + 1)
    }
}

/// The result of widening: that of the search from round 2 on, and no cells
/// at round 2 when there is no clue constraint.
pub open spec fn search(vs: Map<Coords, MultiverseView>) -> (Set<Coords>, nat) {
    if locals(vs) =~= Set::<Coords>::empty() {
        (Set::empty(), 2)
    } else {
        search_from(vs, 2)
    }
}

/// A group of constraints with what they make together.
#[derive(Debug)]
pub struct Group {
    keys: CoordSet,
    mv: Multiverse,
}

impl Group {
    /// The keys of the constraints of the group.
    pub closed spec fn members(&self) -> CoordSet {
        self.keys
    }

    /// What the constraints of the group make together.
    pub closed spec fn merged(&self) -> Multiverse {
        self.mv
    }

    /// The group is in order and stands for what its members make together.
    pub open spec fn fits(&self, vs: Map<Coords, MultiverseView>) -> bool {
        &&& self.members().wf()
        &&& self.merged().wf()
        &&& self.members()@.subset_of(locals(vs))
        &&& self.merged()@ == group_view(vs, self.members()@)
    }
}

/// Whether one of the groups has the members `g`.
pub open spec fn has_group(gs: Seq<Group>, g: Set<Coords>) -> bool {
    exists|x: int| 0 <= x < gs.len() && (#[trigger] gs[x]).members()@ == g
}

/// Whether the groups are those of the `i`-th round.
pub open spec fn level_rep(gs: Seq<Group>, vs: Map<Coords, MultiverseView>, i: nat) -> bool {
    &&& forall|x: int|
        0 <= x < gs.len() ==> (#[trigger] gs[x]).fits(vs) && groups(vs, i).contains(
            gs[x].members()@,
        )
    &&& forall|g: Set<Coords>| #[trigger] groups(vs, i).contains(g) ==> has_group(gs, g)
}

/// Whether `e` is the group `base` with one more constraint that can join
/// it.
pub open spec fn grown_one(vs: Map<Coords, MultiverseView>, base: Set<Coords>, e: Group) -> bool {
    &&& e.fits(vs)
    &&& exists|n: Coords| #[trigger] grows_by(vs, base, n) && e.members()@ == base.insert(n)
}

/// Whether `out` holds the group `base` grown by each constraint that can
/// join it.
pub open spec fn grown(
    vs: Map<Coords, MultiverseView>,
    base: Set<Coords>,
    out: Seq<Group>,
) -> bool {
    &&& forall|x: int| 0 <= x < out.len() ==> grown_one(vs, base, #[trigger] out[x])
    &&& forall|n: Coords| #[trigger] grows_by(vs, base, n) ==> has_group(out, base.insert(n))
}

/// Whether `graph` holds the links of every clue constraint.
pub open spec fn graph_fits(graph: Map<Coords, CoordSet>, vs: Map<Coords, MultiverseView>) -> bool {
    &&& graph.dom() == locals(vs)
    &&& forall|k: Coords| #[trigger]
        graph.contains_key(k) ==> graph[k].wf() && graph[k]@ == links(vs, k)
}

/// The constraints outside `g` that are linked with a member of `from`.
pub open spec fn reach(vs: Map<Coords, MultiverseView>, g: Set<Coords>, from: Set<Coords>) -> Set<
    Coords,
> {
    Set::new(|n: Coords| !g.contains(n) && exists|k: Coords| from.contains(k) && #[trigger] linked(vs, k, n))
}

/// The constraints that can join the group with the keys `keys`.
fn neighbors_of(
    keys: &CoordSet,
    graph: &CoordMap<CoordSet>,
    Ghost(vs): Ghost<Map<Coords, MultiverseView>>,
) -> (out: CoordSet)
    requires
        keys.wf(),
        graph.wf(),
        graph_fits(graph@, vs),
    ensures
        out.wf(),
        forall|n: Coords| out@.contains(n) <==> grows_by(vs, keys@, n),
{
    let mut out = CoordSet::new();
    let ghost members = keys.seq();
    let mut a: usize = 0;
    proof {
        assert(out@ =~= reach(vs, keys@, members.take(0).to_set()));
    }
    while a < keys.len()
        invariant
            a <= members.len(),
            members == keys.seq(),
            keys.wf(),
            graph.wf(),
            graph_fits(graph@, vs),
            out.wf(),
            out@ == reach(vs, keys@, members.take(a as int).to_set()),
        decreases members.len() - a,
    {
        let k = keys.nth(a);
        let ghost done = members.take(a as int).to_set();
        proof {
            crate::coord_set::lemma_take_next_set(members, a as int);
        }
        match graph.get(&k) {
            Some(near) => {
                let ghost all = near.seq();
                let mut b: usize = 0;
                proof {
                    assert(graph@.contains_key(k));
                    assert(near@ == links(vs, k));
                    assert(all.take(0).to_set() =~= Set::<Coords>::empty());
                }
                while b < near.len()
                    invariant
                        b <= all.len(),
                        all == near.seq(),
                        near@ == links(vs, k),
                        keys.wf(),
                        out.wf(),
                        out@ == reach(vs, keys@, done).union(
                            all.take(b as int).to_set().difference(keys@),
                        ),
                    decreases all.len() - b,
                {
                    let k2 = near.nth(b);
                    proof {
                        crate::coord_set::lemma_take_next_set(all, b as int);
                    }
                    if !keys.contains(&k2) {
                        out.insert(k2);
                    }
                    assert(out@ =~= reach(vs, keys@, done).union(
                        all.take(b + 1).to_set().difference(keys@),
                    ));
                    b = b + 1;
                }
                proof {
                    assert(all.take(b as int) =~= all);
                    let next = reach(vs, keys@, done.insert(k));
                    assert forall|n: Coords| out@.contains(n) <==> next.contains(n) by {
                        if reach(vs, keys@, done).contains(n) {
                            let j = choose|j: Coords| done.contains(j) && #[trigger] linked(vs, j, n);
                            assert(done.insert(k).contains(j) && linked(vs, j, n));
                        }
                        if near@.contains(n) && !keys@.contains(n) {
                            assert(done.insert(k).contains(k) && linked(vs, k, n));
                        }
                        if next.contains(n) {
                            let j = choose|j: Coords|
                                done.insert(k).contains(j) && #[trigger] linked(vs, j, n);
                            if j != k {
                                assert(done.contains(j) && linked(vs, j, n));
                            }
                        }
                    }
                    assert(out@ =~= next);
                }
            },
            None => {
                proof {
                    let next = reach(vs, keys@, done.insert(k));
                    assert(!locals(vs).contains(k));
                    assert forall|n: Coords| out@.contains(n) <==> next.contains(n) by {
                        if out@.contains(n) {
                            let j = choose|j: Coords| done.contains(j) && #[trigger] linked(vs, j, n);
                            assert(done.insert(k).contains(j) && linked(vs, j, n));
                        }
                        if next.contains(n) {
                            let j = choose|j: Coords|
                                done.insert(k).contains(j) && #[trigger] linked(vs, j, n);
                            assert(j != k);
                            assert(done.contains(j) && linked(vs, j, n));
                        }
                    }
                    assert(out@ =~= next);
                }
            },
        }
        a = a + 1;
    }
    proof {
        assert(members.take(a as int) =~= members);
        assert forall|n: Coords| out@.contains(n) <==> grows_by(vs, keys@, n) by {
            if out@.contains(n) {
                let j = choose|j: Coords| keys@.contains(j) && #[trigger] linked(vs, j, n);
                assert(keys@.contains(j) && linked(vs, j, n));
            }
            if grows_by(vs, keys@, n) {
                let j = choose|j: Coords| keys@.contains(j) && #[trigger] linked(vs, j, n);
                assert(members.to_set().contains(j) && linked(vs, j, n));
            }
        }
    }
    out
}

/// A group that fits, merged with one more constraint that can join it,
/// stands for the larger group.
pub proof fn lemma_group_grows(vs: Map<Coords, MultiverseView>, g: Set<Coords>, n: Coords)
    requires
        grows_by(vs, g, n),
    ensures
        group_view(vs, g).merge(vs[n]) == group_view(vs, g.insert(n)),
        locals(vs).contains(n),
{
    let k = choose|k: Coords| g.contains(k) && #[trigger] linked(vs, k, n);
    lemma_joint_insert(vs.restrict(g), n, vs[n]);
    assert(vs.restrict(g).insert(n, vs[n]) =~= vs.restrict(g.insert(n)));
}

/// The group grown by each constraint that can join it: for each, the keys
/// with that constraint, and the group's multiverse merged with that of the
/// constraint.
pub fn grow_group(
    group: &Group,
    graph: &CoordMap<CoordSet>,
    visible: &CoordMap<Multiverse>,
) -> (out: Vec<Group>)
    requires
        visible.wf(),
        all_wf(visible@),
        graph.wf(),
        graph_fits(graph@, views(visible@)),
        group.fits(views(visible@)),
    ensures
        grown(views(visible@), group.members()@, out@),
{
    let ghost vs = views(visible@);
    let ghost base = group.keys@;
    let near = neighbors_of(&group.keys, graph, Ghost(vs));
    let ghost cand = near.seq();
    let mut out: Vec<Group> = Vec::new();
    let mut x: usize = 0;
    while x < near.len()
        invariant
            x <= cand.len(),
            cand == near.seq(),
            near.wf(),
            forall|n: Coords| near@.contains(n) <==> grows_by(vs, base, n),
            visible.wf(),
            all_wf(visible@),
            vs == views(visible@),
            base == group.keys@,
            group.fits(vs),
            out@.len() == x,
            forall|y: int|
                0 <= y < x ==> grown_one(vs, base, #[trigger] out@[y]) && out@[y].members()@
                    == base.insert(cand[y]),
        decreases cand.len() - x,
    {
        let n = near.nth(x);
        proof {
            assert(near@.contains(n));
            lemma_group_grows(vs, base, n);
            assert(vs.contains_key(n));
        }
        let mut keys = group.keys.copy();
        keys.insert(n);
        let other = visible.get(&n).unwrap();
        let merged = group.mv.merge(other);
        let ghost before = out@;
        out.push(Group { keys, mv: merged });
        proof {
            let e = out@[x as int];
            assert(e.members()@ == base.insert(n));
            assert(e.merged()@ == group_view(vs, e.members()@));
            assert(grows_by(vs, base, n) && e.members()@ == base.insert(n));
            assert(e.fits(vs));
            assert forall|y: int| 0 <= y < x implies out@[y] == before[y] by {}
        }
        x = x + 1;
    }
    proof {
        assert forall|n: Coords| #[trigger] grows_by(vs, base, n) implies has_group(
            out@,
            base.insert(n),
        ) by {
            assert(near@.contains(n));
            let y = choose|y: int| 0 <= y < cand.len() && cand[y] == n;
            assert(out@[y].members()@ == base.insert(n));
        }
    }
    out
}

/// Whether `out` puts together, in the order of the groups, what each group
/// grows to.
pub open spec fn grown_all(
    vs: Map<Coords, MultiverseView>,
    gs: Seq<Group>,
    out: Seq<Group>,
) -> bool {
    exists|pieces: Seq<Seq<Group>>|
        {
            &&& pieces.len() == gs.len()
            &&& forall|x: int|
                0 <= x < pieces.len() ==> grown(vs, gs[x].members()@, #[trigger] pieces[x])
            &&& out == pieces.flatten()
        }
}

/// `par_iter`, `flat_map` and `collect` of rayon, over the groups: each
/// group is handed to [`grow_group`], and what comes back for the groups is
/// put together in the order of the groups.
#[verifier::external_body]
fn grow_all(
    groups: &Vec<Group>,
    graph: &CoordMap<CoordSet>,
    visible: &CoordMap<Multiverse>,
) -> (out: Vec<Group>)
    requires
        visible.wf(),
        all_wf(visible@),
        graph.wf(),
        graph_fits(graph@, views(visible@)),
        forall|x: int| 0 <= x < groups@.len() ==> (#[trigger] groups@[x]).fits(views(visible@)),
    ensures
        grown_all(views(visible@), groups@, out@),
{
    groups.par_iter().flat_map(|group| grow_group(group, graph, visible)).collect()
}


/// What the groups of one round grow to is the groups of the next round.
pub proof fn lemma_grown_level(
    vs: Map<Coords, MultiverseView>,
    gs: Seq<Group>,
    out: Seq<Group>,
    d: nat,
)
    requires
        d >= 2,
        level_rep(gs, vs, (d - 1) as nat),
        grown_all(vs, gs, out),
    ensures
        forall|y: int|
            0 <= y < out.len() ==> (#[trigger] out[y]).fits(vs) && groups(vs, d).contains(
                out[y].members()@,
            ),
        forall|g: Set<Coords>| #[trigger] groups(vs, d).contains(g) ==> has_group(out, g),
{
    let pieces = choose|pieces: Seq<Seq<Group>>|
        {
            &&& pieces.len() == gs.len()
            &&& forall|x: int|
                0 <= x < pieces.len() ==> grown(vs, gs[x].members()@, #[trigger] pieces[x])
            &&& out == pieces.flatten()
        };
    assert forall|y: int| 0 <= y < out.len() implies (#[trigger] out[y]).fits(vs) && groups(
        vs,
        d,
    ).contains(out[y].members()@) by {
        let e = out[y];
        assert(out.contains(e));
        lemma_flatten_members(pieces, e);
        let x = choose|x: int| 0 <= x < pieces.len() && (#[trigger] pieces[x]).contains(e);
        let z = choose|z: int| 0 <= z < pieces[x].len() && pieces[x][z] == e;
        assert(grown_one(vs, gs[x].members()@, pieces[x][z]));
        let base = gs[x].members()@;
        let n = choose|n: Coords| #[trigger] grows_by(vs, base, n) && e.members()@ == base.insert(n);
        assert(groups(vs, (d - 1) as nat).contains(base));
        assert(grows_by(vs, base, n));
    }
    assert forall|g: Set<Coords>| #[trigger] groups(vs, d).contains(g) implies has_group(out, g) by {
        let (h, n) = choose|h: Set<Coords>, n: Coords|
            groups(vs, (d - 1) as nat).contains(h) && #[trigger] grows_by(vs, h, n) && g
                == h.insert(n);
        assert(has_group(gs, h));
        let x = choose|x: int| 0 <= x < gs.len() && (#[trigger] gs[x]).members()@ == h;
        assert(grown(vs, gs[x].members()@, pieces[x]));
        assert(has_group(pieces[x], h.insert(n)));
        let z = choose|z: int| 0 <= z < pieces[x].len() && (#[trigger] pieces[x][z]).members()@ == g;
        let e = pieces[x][z];
        assert(pieces[x].contains(e));
        lemma_flatten_members(pieces, e);
        let y = choose|y: int| 0 <= y < out.len() && out[y] == e;
        assert(out[y].members()@ == g);
    }
}

/// Whether some group of `gs` has the keys `keys`.
fn holds_keys(gs: &Vec<Group>, keys: &CoordSet) -> (b: bool)
    requires
        keys.wf(),
        forall|x: int| 0 <= x < gs@.len() ==> (#[trigger] gs@[x]).members().wf(),
    ensures
        b == has_group(gs@, keys@),
{
    let mut x: usize = 0;
    while x < gs.len()
        invariant
            x <= gs.len(),
            keys.wf(),
            forall|y: int| 0 <= y < gs@.len() ==> (#[trigger] gs@[y]).members().wf(),
            forall|y: int| 0 <= y < x ==> (#[trigger] gs@[y]).members()@ != keys@,
        decreases gs.len() - x,
    {
        if gs[x].keys.same(keys) {
            return true;
        }
        x = x + 1;
    }
    false
}

/// The groups of `entries`, each set of keys once.
fn distinct_groups(
    entries: Vec<Group>,
    Ghost(vs): Ghost<Map<Coords, MultiverseView>>,
) -> (out: Vec<Group>)
    requires
        forall|y: int| 0 <= y < entries@.len() ==> (#[trigger] entries@[y]).fits(vs),
    ensures
        forall|x: int| 0 <= x < out@.len() ==> entries@.contains(#[trigger] out@[x]),
        forall|y: int| 0 <= y < entries@.len() ==> has_group(out@, (#[trigger] entries@[y]).members()@),
        forall|x: int, z: int|
            0 <= x < out@.len() && 0 <= z < out@.len() && x != z ==> (#[trigger] out@[x]).members()@
                != (#[trigger] out@[z]).members()@,
{
    let ghost all = entries@;
    let mut rest = entries;
    let mut out: Vec<Group> = Vec::new();
    while rest.len() > 0
        invariant
            rest@.len() <= all.len(),
            rest@ == all.take(rest@.len() as int),
            forall|y: int| 0 <= y < all.len() ==> (#[trigger] all[y]).fits(vs),
            forall|x: int| 0 <= x < out@.len() ==> all.contains(#[trigger] out@[x]),
            forall|y: int| rest@.len() <= y < all.len() ==> has_group(out@, (#[trigger] all[y]).members()@),
            forall|x: int, z: int|
                0 <= x < out@.len() && 0 <= z < out@.len() && x != z ==> (#[trigger] out@[x]).members()@
                    != (#[trigger] out@[z]).members()@,
        decreases rest@.len(),
    {
        let ghost at = rest@.len() - 1;
        let ghost before = out@;
        let e = rest.pop().unwrap();
        proof {
            assert(e == all[at]);
            assert(rest@ =~= all.take(at));
            assert forall|x: int| 0 <= x < before.len() implies (#[trigger] before[x]).members().wf() by {
                let y = choose|y: int| 0 <= y < all.len() && all[y] == before[x];
                assert(all[y].fits(vs));
            }
        }
        if !holds_keys(&out, &e.keys) {
            out.push(e);
            proof {
                assert(out@[before.len() as int] == all[at]);
                assert forall|x: int| 0 <= x < before.len() implies out@[x] == before[x] by {}
                assert forall|y: int| at <= y < all.len() implies has_group(
                    out@,
                    (#[trigger] all[y]).members()@,
                ) by {
                    if y == at {
                        assert(out@[before.len() as int].members()@ == all[y].members()@);
                    } else {
                        let x = choose|x: int|
                            0 <= x < before.len() && (#[trigger] before[x]).members()@
                                == all[y].members()@;
                        assert(out@[x].members()@ == all[y].members()@);
                    }
                }
            }
        }
    }
    out
}

/// The cells that one of the first `x` groups forces to a colour.
pub open spec fn forced_upto(gs: Seq<Group>, x: int) -> Set<Coords> {
    Set::new(
        |c: Coords|
            exists|y: int| 0 <= y < x && (#[trigger] gs[y]).merged()@.invariants().contains_key(c),
    )
}

/// The cells that some group forces to a colour, each with that colour.
fn collect_forced(
    gs: &Vec<Group>,
    Ghost(vs): Ghost<Map<Coords, MultiverseView>>,
    Ghost(t): Ghost<World>,
    Ghost(d): Ghost<nat>,
) -> (out: CoordMap<Color>)
    requires
        level_rep(gs@, vs, d),
        all_admit(vs, t),
    ensures
        out.wf(),
        out@ == t.restrict(level_forced(vs, d)),
{
    let mut out: CoordMap<Color> = CoordMap::new();
    let mut x: usize = 0;
    proof {
        assert(out@ =~= t.restrict(forced_upto(gs@, 0)));
    }
    while x < gs.len()
        invariant
            x <= gs.len(),
            level_rep(gs@, vs, d),
            all_admit(vs, t),
            out.wf(),
            out@ == t.restrict(forced_upto(gs@, x as int)),
        decreases gs.len() - x,
    {
        let g = &gs[x];
        proof {
            assert(g.fits(vs));
        }
        let found = g.mv.invariants();
        absorb(&mut out, &found);
        proof {
            let before = forced_upto(gs@, x as int);
            let after = forced_upto(gs@, x + 1);
            let part = vs.restrict(g.members()@);
            assert forall|k: Coords| #[trigger] part.contains_key(k) implies part[k].admits(t) by {
                assert(vs.contains_key(k));
            }
            lemma_joint_keeps_truth(part, t);
            assert forall|c: Coords| found@.contains_key(c) implies t.contains_key(c) && found@[c]
                == t[c] by {
                lemma_invariants_agree_with_truth(g.merged()@, t, c);
            }
            assert forall|c: Coords| after.contains(c) <==> (before.contains(c)
                || found@.contains_key(c)) by {
                if after.contains(c) {
                    let y = choose|y: int|
                        0 <= y < x + 1 && (#[trigger] gs@[y]).merged()@.invariants().contains_key(c);
                    if y < x {
                        assert(before.contains(c));
                    }
                }
                if before.contains(c) {
                    let y = choose|y: int|
                        0 <= y < x && (#[trigger] gs@[y]).merged()@.invariants().contains_key(c);
                    assert(0 <= y < x + 1 && gs@[y].merged()@.invariants().contains_key(c));
                }
                if found@.contains_key(c) {
                    assert(0 <= x < x + 1 && gs@[x as int].merged()@.invariants().contains_key(c));
                }
            }
            assert(out@ =~= t.restrict(after));
        }
        x = x + 1;
    }
    proof {
        let all = forced_upto(gs@, gs@.len() as int);
        let want = level_forced(vs, d);
        assert forall|c: Coords| all.contains(c) <==> want.contains(c) by {
            if all.contains(c) {
                let y = choose|y: int|
                    0 <= y < gs@.len() && (#[trigger] gs@[y]).merged()@.invariants().contains_key(c);
                assert(gs@[y].fits(vs));
                assert(groups(vs, d).contains(gs@[y].members()@));
            }
            if want.contains(c) {
                let g = choose|g: Set<Coords>| #[trigger]
                    groups(vs, d).contains(g) && group_view(vs, g).invariants().contains_key(c);
                assert(has_group(gs@, g));
                let y = choose|y: int| 0 <= y < gs@.len() && (#[trigger] gs@[y]).members()@ == g;
                assert(gs@[y].fits(vs));
            }
        }
        assert(all =~= want);
    }
    out
}

/// Each visible clue constraint as a group of its own.
fn single_groups(visible: &CoordMap<Multiverse>) -> (out: Vec<Group>)
    requires
        visible.wf(),
        all_wf(visible@),
    ensures
        level_rep(out@, views(visible@), 1),
        out@.len() == 0 <==> locals(views(visible@)) =~= Set::<Coords>::empty(),
{
    let ghost vs = views(visible@);
    let ghost keys = visible.key_seq();
    let reserved = Defn::reserved();
    let mut out: Vec<Group> = Vec::new();
    let n = visible.len();
    let mut i: usize = 0;
    proof {
        visible.lemma_entries();
    }
    while i < n
        invariant
            i <= n,
            n == keys.len(),
            reserved == reserved_coords(),
            visible.wf(),
            all_wf(visible@),
            vs == views(visible@),
            keys == visible.key_seq(),
            vs.dom() == keys.to_set(),
            forall|x: int|
                0 <= x < out@.len() ==> (#[trigger] out@[x]).fits(vs) && groups(vs, 1).contains(
                    out@[x].members()@,
                ),
            forall|k: Coords|
                keys.take(i as int).to_set().contains(k) && k != reserved ==> has_group(
                    out@,
                    #[trigger] set![k],
                ),
            out@.len() == 0 ==> forall|k: Coords|
                keys.take(i as int).to_set().contains(k) ==> k == reserved,
        decreases n - i,
    {
        let k = visible.key_at(i);
        let ghost before = out@;
        proof {
            crate::coord_set::lemma_take_next_set(keys, i as int);
        }
        if k != reserved {
            let mv = visible.value_at(i);
            proof {
                assert(vs.contains_key(k));
                assert(visible@.contains_key(k));
                mv.lemma_view();
                lemma_joint_single(vs, k);
            }
            out.push(Group { keys: CoordSet::singleton(k), mv: mv.copy() });
            proof {
                let e = out@[before.len() as int];
                assert(e.members()@ == set![k]);
                assert(locals(vs).contains(k));
                assert(e.fits(vs));
                assert forall|x: int| 0 <= x < before.len() implies out@[x] == before[x] by {}
                assert forall|j: Coords|
                    keys.take(i + 1).to_set().contains(j) && j != reserved implies has_group(
                    out@,
                    #[trigger] set![j],
                ) by {
                    if j == k {
                        assert(out@[before.len() as int].members()@ == set![j]);
                    } else {
                        assert(has_group(before, set![j]));
                        let x = choose|x: int|
                            0 <= x < before.len() && (#[trigger] before[x]).members()@ == set![j];
                        assert(out@[x].members()@ == set![j]);
                    }
                }
            }
        }
        i = i + 1;
    }
    proof {
        assert(keys.take(i as int) =~= keys);
        assert forall|g: Set<Coords>| #[trigger] groups(vs, 1).contains(g) implies has_group(
            out@,
            g,
        ) by {
            let k = choose|k: Coords| #[trigger] locals(vs).contains(k) && g == set![k];
            assert(keys.to_set().contains(k));
        }
        if out@.len() == 0 {
            assert(locals(vs) =~= Set::<Coords>::empty());
        } else {
            assert(out@[0].fits(vs));
            let g = out@[0].members()@;
            let k = choose|k: Coords| #[trigger] locals(vs).contains(k) && g == set![k];
            assert(locals(vs).contains(k));
        }
    }
    out
}

impl Constraints {
    /// Looks for cells that a group of visible clue constraints forces to a
    /// colour, with groups of two, then three, and so on. Returns the cells
    /// of the first round that forces any, each with its colour, and the
    /// number of that round as the difficulty. The search ends without
    /// cells where no group can grow, and after 1001 rounds. The deadline is
    /// consulted before each round.
    pub fn compound_invariants(&self, env: &mut Env, defn: &Defn) -> (res: Result<
        (CoordMap<Color>, Difficulty),
        Timeout,
    >)
        requires
            self.wf(),
            all_admit(views(self.visible()@), defn.truth()),
        ensures
            final(env).deadline() == old(env).deadline(),
            res is Ok ==> res.unwrap().0.wf() && res.unwrap().0@ == defn.truth().restrict(
                search(views(self.visible()@)).0,
            ) && res.unwrap().1 == Difficulty::Local(search(views(self.visible()@)).1 as u32),
            locals(views(self.visible()@)) =~= Set::<Coords>::empty() ==> res is Ok,
    {
        let visible = self.visible_constraints();
        let ghost vs = views(visible@);
        let ghost t = defn.truth();
        let graph = connection_graph(visible);
        let mut current = single_groups(visible);
        let mut invariants: CoordMap<Color> = CoordMap::new();
        let mut difficulty: u32 = 2;
        if current.len() == 0 {
            assert(invariants@ =~= t.restrict(Set::<Coords>::empty()));
            return Ok((invariants, Difficulty::Local(difficulty)));
        }
        let mut iteration: u32 = 0;
        loop
            invariant
                env.deadline() == old(env).deadline(),
                self.wf(),
                visible == self.visible(),
                vs == views(visible@),
                t == defn.truth(),
                all_admit(vs, t),
                graph.wf(),
                graph_fits(graph@, vs),
                iteration + 2 == difficulty,
                difficulty <= 1002,
                level_rep(current@, vs, (difficulty - 1) as nat),
                !(locals(vs) =~= Set::<Coords>::empty()),
                search(vs) == search_from(vs, difficulty as nat),
            decreases 1001 - iteration,
        {
            iteration = iteration + 1;
            match env.check_timeout() {
                Err(e) => {
                    return Err(e);
                },
                Ok(_) => {},
            }
            let grown = grow_all(&current, &graph, visible);
            proof {
                lemma_grown_level(vs, current@, grown@, difficulty as nat);
            }
            let ghost wide = grown@;
            current = distinct_groups(grown, Ghost(vs));
            proof {
                assert forall|x: int| 0 <= x < current@.len() implies (#[trigger] current@[x]).fits(vs)
                    && groups(vs, difficulty as nat).contains(current@[x].members()@) by {
                    let y = choose|y: int| 0 <= y < wide.len() && wide[y] == current@[x];
                    assert(wide[y].fits(vs));
                }
                assert forall|g: Set<Coords>| #[trigger]
                    groups(vs, difficulty as nat).contains(g) implies has_group(current@, g) by {
                    assert(has_group(wide, g));
                    let y = choose|y: int| 0 <= y < wide.len() && (#[trigger] wide[y]).members()@ == g;
                    assert(has_group(current@, wide[y].members()@));
                }
            }
            invariants = collect_forced(&current, Ghost(vs), Ghost(t), Ghost(difficulty as nat));
            if !invariants.is_empty() {
                proof {
                    assert(!(level_forced(vs, difficulty as nat) =~= Set::<Coords>::empty())) by {
                        if level_forced(vs, difficulty as nat) =~= Set::<Coords>::empty() {
                            assert(invariants@.dom() =~= Set::<Coords>::empty());
                        }
                    }
                }
                return Ok((invariants, Difficulty::Local(difficulty)));
            }
            proof {
                assert(level_forced(vs, difficulty as nat) =~= Set::<Coords>::empty()) by {
                    assert forall|c: Coords| !level_forced(vs, difficulty as nat).contains(c) by {
                        if level_forced(vs, difficulty as nat).contains(c) {
                            let g = choose|g: Set<Coords>| #[trigger]
                                groups(vs, difficulty as nat).contains(g) && group_view(
                                    vs,
                                    g,
                                ).invariants().contains_key(c);
                            let part = vs.restrict(g);
                            assert forall|k: Coords| #[trigger] part.contains_key(k) implies part[k].admits(
                                t,
                            ) by {
                                assert(vs.contains_key(k));
                            }
                            lemma_joint_keeps_truth(part, t);
                            lemma_invariants_agree_with_truth(group_view(vs, g), t, c);
                            assert(invariants@.contains_key(c));
                        }
                    }
                }
                assert(invariants@ =~= t.restrict(Set::<Coords>::empty()));
            }
            if current.len() == 0 {
                proof {
                    assert(no_groups(vs, difficulty as nat)) by {
                        assert forall|g: Set<Coords>| !groups(vs, difficulty as nat).contains(g) by {
                            if groups(vs, difficulty as nat).contains(g) {
                                assert(has_group(current@, g));
                            }
                        }
                    }
                }
                return Ok((invariants, Difficulty::Local(difficulty)));
            }
            proof {
                assert(!no_groups(vs, difficulty as nat)) by {
                    assert(groups(vs, difficulty as nat).contains(current@[0].members()@));
                }
            }
            proof {
                assert(search_from(vs, difficulty as nat) == search_from(vs, (difficulty + 1) as nat));
            }
            difficulty = difficulty + 1;
            if iteration > 1000 {
                proof {
                    assert(difficulty == 1003);
                    assert(search_from(vs, 1003) == (Set::<Coords>::empty(), 1003nat));
                }
                return Ok((invariants, Difficulty::Local(difficulty)));
            }
        }
    }
}

} // verus!
