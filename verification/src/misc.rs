//! Hexagon cube coordinates and the binomial coefficient.

use vstd::prelude::*;

verus! {

/// Cube coordinates for a hexagon tiling with flat-topped cells.
///
/// `q` grows towards the right and `r` towards the bottom-left. The third
/// component `s` grows towards the top-left and is always `-(q + r)`, so it is
/// not stored. Values are ordered by `q`, then by `r`.
#[derive(Debug, Copy, Clone, PartialEq, Eq, Structural, PartialOrd, Ord, Hash)]
pub struct Coords {
    pub q: i16,
    pub r: i16,
}

/// The strict order of coordinates: by `q`, then by `r`.
pub open spec fn coords_lt(a: Coords, b: Coords) -> bool {
    a.q < b.q || (a.q == b.q && a.r < b.r)
}

impl Coords {
    /// The coordinate `(q + dq, r + dr)`, where it fits.
    pub open spec fn shifted(self, dq: int, dr: int) -> Coords
        recommends
            self.has_room(if dq < 0 { -dq } else { dq }),
            self.has_room(if dr < 0 { -dr } else { dr }),
    {
        Coords { q: (self.q + dq) as i16, r: (self.r + dr) as i16 }
    }

    /// Whether every coordinate within `d` steps of `self` can be represented.
    pub open spec fn has_room(self, d: int) -> bool {
        &&& i16::MIN + d <= self.q <= i16::MAX - d
        &&& i16::MIN + d <= self.r <= i16::MAX - d
    }

    /// Number of steps between two cells: the largest of the three component
    /// differences.
    pub open spec fn distance(self, other: Coords) -> int {
        let dq = other.q - self.q;
        let dr = other.r - self.r;
        let ds = -dq - dr;
        let aq = if dq < 0 { -dq } else { dq };
        let ar = if dr < 0 { -dr } else { dr };
        let a_s = if ds < 0 { -ds } else { ds };
        if aq >= ar && aq >= a_s {
            aq
        } else if ar >= a_s {
            ar
        } else {
            a_s
        }
    }

    /// The six cells next to `self`, clockwise from the top.
    pub open spec fn spec_neighbors6(self) -> Seq<Coords> {
        seq![
            self.shifted(0, -1),
            self.shifted(1, -1),
            self.shifted(1, 0),
            self.shifted(0, 1),
            self.shifted(-1, 1),
            self.shifted(-1, 0),
        ]
    }

    /// The eighteen cells one or two steps away from `self`: the inner ring
    /// clockwise from the top, then the outer ring clockwise from the top.
    pub open spec fn spec_neighbors18(self) -> Seq<Coords> {
        seq![
            self.shifted(0, -1),
            self.shifted(1, -1),
            self.shifted(1, 0),
            self.shifted(0, 1),
            self.shifted(-1, 1),
            self.shifted(-1, 0),
            self.shifted(0, -2),
            self.shifted(1, -2),
            self.shifted(2, -2),
            self.shifted(2, -1),
            self.shifted(2, 0),
            self.shifted(1, 1),
            self.shifted(0, 2),
            self.shifted(-1, 2),
            self.shifted(-2, 2),
            self.shifted(-2, 1),
            self.shifted(-2, 0),
            self.shifted(-1, -1),
        ]
    }

    /// Builds a coordinate from its three components, which must sum to zero.
    pub fn new(q: isize, r: isize, s: isize) -> (c: Coords)
        requires
            q + r + s == 0,
            i16::MIN <= q <= i16::MAX,
            i16::MIN <= r <= i16::MAX,
        ensures
            c.q == q,
            c.r == r,
    {
        Coords { q: q as i16, r: r as i16 }
    }

    /// The first component.
    pub open spec fn spec_q(&self) -> isize {
        self.q as isize
    }

    /// The second component.
    pub open spec fn spec_r(&self) -> isize {
        self.r as isize
    }

    /// The third component, `-(q + r)`.
    pub open spec fn spec_s(&self) -> isize {
        (-(self.q as int) - (self.r as int)) as isize
    }

    /// The first component: it grows towards the right.
    #[verifier::when_used_as_spec(spec_q)]
    pub fn q(&self) -> (v: isize)
        ensures
            v == self.q,
    {
        self.q as isize
    }

    /// The second component: it grows towards the bottom-left.
    #[verifier::when_used_as_spec(spec_r)]
    pub fn r(&self) -> (v: isize)
        ensures
            v == self.r,
    {
        self.r as isize
    }

    /// The third component, `-(q + r)`: it grows towards the top-left.
    #[verifier::when_used_as_spec(spec_s)]
    pub fn s(&self) -> (v: isize)
        ensures
            v == -(self.q as int) - (self.r as int),
            self.q + self.r + v == 0,
    {
        -(self.q as isize) - (self.r as isize)
    }

    /// Whether `self` comes strictly before `other`.
    pub fn precedes(&self, other: &Coords) -> (b: bool)
        ensures
            b == coords_lt(*self, *other),
    {
        self.q < other.q || (self.q == other.q && self.r < other.r)
    }

    /// Returns the coordinates of the 6 direct neighbors, ordered clockwise
    /// starting from the top.
    pub fn neighbors6(&self) -> (ring: [Coords; 6])
        requires
            self.has_room(1),
        ensures
            ring@ == self.spec_neighbors6(),
    {
        let (q, r, s) = (self.q(), self.r(), self.s());
        let ring = [
            Self::new(q + 0, r - 1, s + 1),
            Self::new(q + 1, r - 1, s + 0),
            Self::new(q + 1, r + 0, s - 1),
            Self::new(q + 0, r + 1, s - 1),
            Self::new(q - 1, r + 1, s + 0),
            Self::new(q - 1, r + 0, s + 1),
        ];
        assert(ring@ =~= self.spec_neighbors6());
        ring
    }

    /// Returns the coordinates of the 18 closest neighbors.
    pub fn neighbors18(&self) -> (rings: [Coords; 18])
        requires
            self.has_room(2),
        ensures
            rings@ == self.spec_neighbors18(),
    {
        let (q, r, s) = (self.q(), self.r(), self.s());
        let rings = [
            Self::new(q + 0, r - 1, s + 1),
            Self::new(q + 1, r - 1, s + 0),
            Self::new(q + 1, r + 0, s - 1),
            Self::new(q + 0, r + 1, s - 1),
            Self::new(q - 1, r + 1, s + 0),
            Self::new(q - 1, r + 0, s + 1),
            Self::new(q + 0, r - 2, s + 2),
            Self::new(q + 1, r - 2, s + 1),
            Self::new(q + 2, r - 2, s + 0),
            Self::new(q + 2, r - 1, s - 1),
            Self::new(q + 2, r + 0, s - 2),
            Self::new(q + 1, r + 1, s - 2),
            Self::new(q + 0, r + 2, s - 2),
            Self::new(q - 1, r + 2, s - 1),
            Self::new(q - 2, r + 2, s + 0),
            Self::new(q - 2, r + 1, s + 1),
            Self::new(q - 2, r + 0, s + 2),
            Self::new(q - 1, r - 1, s + 2),
        ];
        assert(rings@ =~= self.spec_neighbors18());
        rings
    }
}

impl std::ops::Add for Coords {
    type Output = Coords;

    /// The sum, component by component.
    fn add(self, other: Coords) -> (sum: Coords) {
        Coords::new(self.q() + other.q(), self.r() + other.r(), self.s() + other.s())
    }
}

impl vstd::std_specs::ops::AddSpecImpl for Coords {
    open spec fn obeys_add_spec() -> bool {
        true
    }

    open spec fn add_req(self, other: Coords) -> bool {
        &&& i16::MIN <= self.q + other.q <= i16::MAX
        &&& i16::MIN <= self.r + other.r <= i16::MAX
    }

    open spec fn add_spec(self, other: Coords) -> Coords {
        Coords { q: (self.q + other.q) as i16, r: (self.r + other.r) as i16 }
    }
}

impl std::ops::Sub for Coords {
    type Output = Coords;

    /// The difference, component by component.
    fn sub(self, other: Coords) -> (diff: Coords) {
        Coords::new(self.q() - other.q(), self.r() - other.r(), self.s() - other.s())
    }
}

impl vstd::std_specs::ops::SubSpecImpl for Coords {
    open spec fn obeys_sub_spec() -> bool {
        true
    }

    open spec fn sub_req(self, other: Coords) -> bool {
        &&& i16::MIN <= self.q - other.q <= i16::MAX
        &&& i16::MIN <= self.r - other.r <= i16::MAX
    }

    open spec fn sub_spec(self, other: Coords) -> Coords {
        Coords { q: (self.q - other.q) as i16, r: (self.r - other.r) as i16 }
    }
}

/// The order of coordinates is a strict total order.
pub proof fn lemma_coords_order(a: Coords, b: Coords, c: Coords)
    ensures
        !coords_lt(a, a),
        coords_lt(a, b) && coords_lt(b, c) ==> coords_lt(a, c),
        coords_lt(a, b) || a == b || coords_lt(b, a),
        !(coords_lt(a, b) && coords_lt(b, a)),
{
}

/// The eighteen neighbours are exactly the cells one or two steps away.
pub proof fn lemma_neighbors18_are_two_rings(center: Coords, c: Coords)
    requires
        center.has_room(2),
    ensures
        center.spec_neighbors18().contains(c) <==> 1 <= center.distance(c) <= 2,
        center.spec_neighbors6().contains(c) <==> center.distance(c) == 1,
{
    let n18 = center.spec_neighbors18();
    let n6 = center.spec_neighbors6();
    let dq = c.q - center.q;
    let dr = c.r - center.r;
    if 1 <= center.distance(c) <= 2 {
        let i: int = if dq == 0 && dr == -1 { 0 } else if dq == 1 && dr == -1 { 1 }
            else if dq == 1 && dr == 0 { 2 } else if dq == 0 && dr == 1 { 3 }
            else if dq == -1 && dr == 1 { 4 } else if dq == -1 && dr == 0 { 5 }
            else if dq == 0 && dr == -2 { 6 } else if dq == 1 && dr == -2 { 7 }
            else if dq == 2 && dr == -2 { 8 } else if dq == 2 && dr == -1 { 9 }
            else if dq == 2 && dr == 0 { 10 } else if dq == 1 && dr == 1 { 11 }
            else if dq == 0 && dr == 2 { 12 } else if dq == -1 && dr == 2 { 13 }
            else if dq == -2 && dr == 2 { 14 } else if dq == -2 && dr == 1 { 15 }
            else if dq == -2 && dr == 0 { 16 } else { 17 };
        assert(n18[i] == c);
        if center.distance(c) == 1 {
            assert(n6[i] == c);
        }
    }
    if n18.contains(c) {
        let i = choose|i: int| 0 <= i < n18.len() && n18[i] == c;
        assert(n18[i] == c);
    }
    if n6.contains(c) {
        let i = choose|i: int| 0 <= i < n6.len() && n6[i] == c;
        assert(n6[i] == c);
    }
}

/// The binomial coefficient, by the rule of Pascal's triangle: the number of
/// ways to pick `k` items out of `n`.
pub open spec fn binomial(n: nat, k: nat) -> nat
    decreases n,
{
    if k == 0 {
        1
    } else if n == 0 {
        0
    } else {
        binomial((n - 1) as nat, (k - 1) as nat) + binomial((n - 1) as nat, k)
    }
}

/// The smaller of `k` and `n - k`: the number of factors that [`n_choose_k`]
/// multiplies.
pub open spec fn binomial_steps(n: nat, k: nat) -> nat
    recommends
        k <= n,
{
    if k > n - k {
        (n - k) as nat
    } else {
        k
    }
}

/// Whether [`n_choose_k`] can compute `binomial(n, k)` in 64 bits: none of
/// the products it forms on the way exceeds `u64::MAX`.
pub open spec fn binomial_fits(n: nat, k: nat) -> bool
    recommends
        k <= n,
{
    forall|i: nat| i < binomial_steps(n, k) ==> #[trigger] binomial(n, i) * (n - i) <= u64::MAX
}

/// Nothing can be picked beyond what is there.
pub proof fn lemma_binomial_beyond(n: nat, k: nat)
    requires
        k > n,
    ensures
        binomial(n, k) == 0,
    decreases n,
{
    if n > 0 {
        lemma_binomial_beyond((n - 1) as nat, (k - 1) as nat);
        lemma_binomial_beyond((n - 1) as nat, k);
    }
}

/// There is one way to pick everything.
pub proof fn lemma_binomial_all(n: nat)
    ensures
        binomial(n, n) == 1,
    decreases n,
{
    if n > 0 {
        lemma_binomial_all((n - 1) as nat);
        lemma_binomial_beyond((n - 1) as nat, n);
    }
}

/// Picking `k` items is leaving `n - k` out.
pub proof fn lemma_binomial_symmetric(n: nat, k: nat)
    requires
        k <= n,
    ensures
        binomial(n, k) == binomial(n, (n - k) as nat),
    decreases n,
{
    if k == 0 || k == n {
        lemma_binomial_all(n);
    } else {
        lemma_binomial_symmetric((n - 1) as nat, (k - 1) as nat);
        lemma_binomial_symmetric((n - 1) as nat, k);
    }
}

/// The step from one entry of a row to the next:
/// `binomial(n, k + 1) * (k + 1) == binomial(n, k) * (n - k)`.
pub proof fn lemma_binomial_step(n: nat, k: nat)
    requires
        k < n,
    ensures
        binomial(n, k + 1) * (k + 1) == binomial(n, k) * (n - k),
    decreases n,
{
    let m = (n - 1) as nat;
    let a = binomial(m, k) as int;
    let b = binomial(m, k + 1) as int;
    assert(binomial(n, k + 1) == a + b);
    if k < m {
        lemma_binomial_step(m, k);
        assert(b * (k + 1) == a * (m - k));
    } else {
        lemma_binomial_beyond(m, k + 1);
        assert(b * (k + 1) == a * (m - k)) by (nonlinear_arith)
            requires
                b == 0,
                m - k == 0,
        ;
    }
    assert((a + b) * (k + 1) == a * n) by (nonlinear_arith)
        requires
            b * (k + 1) == a * (m - k),
            m == n - 1,
    ;
    if k == 0 {
        assert(binomial(n, 0) == 1);
        assert(a == 1);
        assert(binomial(n, k) * (n - k) == a * n) by (nonlinear_arith)
            requires
                binomial(n, k) == 1,
                a == 1,
                k == 0,
        ;
    } else {
        let c = binomial(m, (k - 1) as nat) as int;
        assert(binomial(n, k) == c + a);
        lemma_binomial_step(m, (k - 1) as nat);
        assert(a * k == c * (m - (k - 1)));
        assert((c + a) * (n - k) == a * n) by (nonlinear_arith)
            requires
                a * k == c * (m - (k - 1)),
                m == n - 1,
        ;
    }
}

/// Computes `binomial(n, k)` by multiplying and dividing along row `n` of
/// Pascal's triangle, from the nearer end. Returns `None` when one of the
/// intermediate products does not fit in 64 bits.
pub fn n_choose_k(n: u64, k: u64) -> (res: Option<u64>)
    requires
        k <= n,
    ensures
        res is Some <==> binomial_fits(n as nat, k as nat),
        res is Some ==> res.unwrap() == binomial(n as nat, k as nat),
{
    let steps: u64 = if k > n - k { n - k } else { k };
    proof {
        lemma_binomial_symmetric(n as nat, k as nat);
    }
    let mut result: u64 = 1;
    let mut i: u64 = 0;
    while i < steps
        invariant
            i <= steps,
            steps <= n - steps,
            steps == binomial_steps(n as nat, k as nat),
            result == binomial(n as nat, i as nat),
            forall|j: nat| j < i ==> #[trigger] binomial(n as nat, j) * (n - j) <= u64::MAX,
        decreases steps - i,
    {
        let fact: u64 = n - i;
        let quot: u64 = i + 1;
        proof {
            lemma_binomial_step(n as nat, i as nat);
        }
        match result.checked_mul(fact) {
            None => {
                assert(!(binomial(n as nat, i as nat) * (n - i as nat) <= u64::MAX));
                return None;
            },
            Some(res) => {
                assert(res == binomial(n as nat, (i + 1) as nat) * quot);
                assert(res / quot == binomial(n as nat, (i + 1) as nat)) by (nonlinear_arith)
                    requires
                        res == binomial(n as nat, (i + 1) as nat) * quot,
                        quot > 0,
                ;
                result = res / quot;
            },
        }
        i = i + 1;
    }
    Some(result)
}

} // verus!
