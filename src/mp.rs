//! Batch facility location after Mettu and Plaxton: each point gets a radius from the local
//! density, and points are opened as facilities in ascending radius order unless an open
//! facility already lies close enough.

use vstd::prelude::*;

use vstd::arithmetic::div_mod::lemma_fundamental_div_mod;

use crate::bmor::Ratio;
use crate::distance::{lemma_dist_symmetric_self, Metric};
use crate::facility::{
    centers_of, dispatched, lemma_unit_total_weight, points_of, total_cost, total_weight, weights_of, Facilities, Facility,
    FacilityView,
};
use crate::scale::well_shaped;

verus! {

/// `sum_{j < n} max(0, r - d(p_i, p_j))`: how much a ball of radius `r` around point `i`
/// collects from the first `n` points.
pub open spec fn excess(m: Metric, pts: Seq<Seq<u32>>, i: int, r: nat, n: int) -> nat
    decreases n,
{
    if n <= 0 {
        0
    } else {
        excess(m, pts, i, r, n - 1) + if m.dist(pts[i], pts[n - 1]) < r {
            (r - m.dist(pts[i], pts[n - 1])) as nat
        } else {
            0
        }
    }
}

/// `r` is the least integer radius around point `i` whose ball collects at least `cost`.
pub open spec fn is_radius(m: Metric, pts: Seq<Seq<u32>>, i: int, cost: nat, r: nat) -> bool {
    &&& excess(m, pts, i, r, pts.len() as int) >= cost
    &&& (r == 0 || excess(m, pts, i, (r - 1) as nat, pts.len() as int) < cost)
}

/// The radius of point `i`.
pub open spec fn radius(m: Metric, pts: Seq<Seq<u32>>, i: int, cost: nat) -> nat {
    choose|r: nat| is_radius(m, pts, i, cost, r)
}

/// The smaller of two numbers.
pub open spec fn min_nat(a: nat, b: nat) -> nat {
    if a <= b {
        a
    } else {
        b
    }
}

/// `d <= alpha * r`.
pub open spec fn within(d: nat, r: nat, alpha: Ratio) -> bool {
    d * alpha.den <= alpha.num * r
}

proof fn lemma_excess_mono(m: Metric, pts: Seq<Seq<u32>>, i: int, r1: nat, r2: nat, n: int)
    requires
        r1 <= r2,
    ensures
        excess(m, pts, i, r1, n) <= excess(m, pts, i, r2, n),
    decreases n,
{
    if n > 0 {
        lemma_excess_mono(m, pts, i, r1, r2, n - 1);
    }
}

proof fn lemma_excess_self(m: Metric, pts: Seq<Seq<u32>>, i: int, r: nat, n: int)
    requires
        0 <= i < n <= pts.len(),
        pts[i].len() == pts[i].len(),
    ensures
        excess(m, pts, i, r, n) >= r,
    decreases n,
{
    lemma_dist_symmetric_self(m, pts[i], pts[i]);
    if n - 1 > i {
        lemma_excess_self(m, pts, i, r, n - 1);
    }
}

proof fn lemma_radius_unique(m: Metric, pts: Seq<Seq<u32>>, i: int, cost: nat, r: nat)
    requires
        is_radius(m, pts, i, cost, r),
    ensures
        radius(m, pts, i, cost) == r,
{
    let q = radius(m, pts, i, cost);
    assert(is_radius(m, pts, i, cost, q));
    if q < r {
        lemma_excess_mono(m, pts, i, q, (r - 1) as nat, pts.len() as int);
    } else if r < q {
        lemma_excess_mono(m, pts, i, r, (q - 1) as nat, pts.len() as int);
    }
}

/// Proof that `d > floor(x / den)` exactly when `d * den > x`.
proof fn lemma_above_floor(d: nat, x: nat, den: nat)
    requires
        den > 0,
    ensures
        (d > x / den) <==> (d * den > x),
{
    lemma_fundamental_div_mod(x as int, den as int);
    let q = x / den;
    let rem = x % den;
    assert(0 <= rem < den);
    assert(x == den * q + rem);
    if d > q {
        assert(d * den > x) by (nonlinear_arith)
            requires
                d >= q + 1,
                x == den * q + rem,
                rem < den,
        ;
    } else {
        assert(d * den <= x) by (nonlinear_arith)
            requires
                d <= q,
                x == den * q + rem,
                rem >= 0,
                den > 0,
        ;
    }
}

/// Number of `true` entries among the first `n`.
pub open spec fn count_true(s: Seq<bool>, n: int) -> nat
    decreases n,
{
    if n <= 0 {
        0
    } else {
        count_true(s, n - 1) + if s[n - 1] {
            1nat
        } else {
            0
        }
    }
}

proof fn lemma_count_update(s: Seq<bool>, i: int, n: int)
    requires
        0 <= i < s.len(),
        0 <= n <= s.len(),
        !s[i],
    ensures
        count_true(s.update(i, true), n) == count_true(s, n) + if i < n {
            1nat
        } else {
            0
        },
    decreases n,
{
    if n > 0 {
        lemma_count_update(s, i, n - 1);
    }
}

proof fn lemma_count_missing(s: Seq<bool>, i: int, n: int)
    requires
        0 <= i < n <= s.len(),
        !s[i],
    ensures
        count_true(s, n) < n,
    decreases n,
{
    if n - 1 > i {
        lemma_count_missing(s, i, n - 1);
    } else {
        lemma_count_le(s, n - 1);
    }
}

proof fn lemma_count_zero(s: Seq<bool>, n: int)
    requires
        0 <= n <= s.len(),
        forall|j: int| 0 <= j < s.len() ==> !s[j],
    ensures
        count_true(s, n) == 0,
    decreases n,
{
    if n > 0 {
        lemma_count_zero(s, n - 1);
    }
}

proof fn lemma_count_all(s: Seq<bool>, n: int)
    requires
        0 <= n <= s.len(),
        forall|j: int| 0 <= j < s.len() ==> s[j],
    ensures
        count_true(s, n) == n,
    decreases n,
{
    if n > 0 {
        lemma_count_all(s, n - 1);
    }
}

proof fn lemma_count_le(s: Seq<bool>, n: int)
    requires
        0 <= n <= s.len(),
    ensures
        count_true(s, n) <= n,
    decreases n,
{
    if n > 0 {
        lemma_count_le(s, n - 1);
    }
}

/// `alpha` lies in `(0, 1]`.
pub open spec fn valid_alpha(alpha: Ratio) -> bool {
    alpha.den > 0 && alpha.num > 0 && alpha.num <= alpha.den
}

/// Point `i` lies within `alpha` times radius `r` of some facility of `fs`.
pub open spec fn covered(m: Metric, fs: Seq<FacilityView>, p: Seq<u32>, r: nat, alpha: Ratio) -> bool {
    exists|a: int| 0 <= a < fs.len() && within(#[trigger] m.dist(fs[a].center, p), r, alpha)
}

/// The first index of least radius among the points not yet processed.
fn select_next(radii: &Vec<u64>, done: &Vec<bool>) -> (best: usize)
    requires
        radii@.len() == done@.len(),
        count_true(done@, done@.len() as int) < done@.len(),
    ensures
        best < done@.len(),
        !done@[best as int],
        forall|j: int| 0 <= j < done@.len() && !done@[j] ==> radii@[best as int] <= #[trigger] radii@[j],
{
    let n = done.len();
    let mut best: usize = n;
    let mut k: usize = 0;
    while k < n
        invariant
            radii@.len() == n,
            done@.len() == n,
            k <= n,
            best == n || (best < k && !done@[best as int]),
            best == n ==> forall|j: int| 0 <= j < k ==> #[trigger] done@[j],
            best < n ==> forall|j: int| 0 <= j < k && !done@[j] ==> radii@[best as int] <= #[trigger] radii@[j],
        decreases n - k,
    {
        if !done[k] && (best == n || radii[k] < radii[best]) {
            best = k;
        }
        k = k + 1;
    }
    if best == n {
        proof {
            lemma_count_all(done@, n as int);
        }
    }
    best
}

/// What holds while points are processed in ascending radius order: the facilities are
/// processed points with no weight yet, opened in ascending radius order, each beyond
/// `alpha` times its radius from the earlier ones; processed points have radii at most
/// those of the others, and each lies within `alpha` times its radius of a facility.
#[verifier::opaque]
pub open spec fn greedy_inv(
    m: Metric,
    pts: Seq<Seq<u32>>,
    c: nat,
    alpha: Ratio,
    fs: Seq<FacilityView>,
    done: Seq<bool>,
) -> bool {
    &&& done.len() == pts.len()
    &&& forall|a: int|
        0 <= a < fs.len() ==> {
            &&& (#[trigger] fs[a]).data_id < pts.len()
            &&& done[fs[a].data_id as int]
            &&& fs[a].center == pts[fs[a].data_id as int]
            &&& fs[a].weight == 0
            &&& fs[a].cost == 0
        }
    &&& forall|p: int, q: int|
        0 <= p < pts.len() && 0 <= q < pts.len() && done[p] && !done[q] ==> #[trigger] radius(m, pts, p, c)
            <= #[trigger] radius(m, pts, q, c)
    &&& forall|a: int, b: int|
        #![trigger fs[a], fs[b]]
        0 <= a < b < fs.len() ==> radius(m, pts, fs[a].data_id as int, c) <= radius(m, pts, fs[b].data_id as int, c)
    &&& forall|a: int, b: int|
        0 <= a < b < fs.len() ==> !within(
            #[trigger] m.dist(fs[a].center, fs[b].center),
            radius(m, pts, fs[b].data_id as int, c),
            alpha,
        )
    &&& forall|j: int| 0 <= j < pts.len() && #[trigger] done[j] ==> covered(m, fs, pts[j], radius(m, pts, j, c), alpha)
}

/// The batch engine: the points, their metric, and the cost of opening a facility, which
/// sets the scale of the radii.
pub struct MettuPlaxton {
    points: Vec<Vec<u32>>,
    distance: Metric,
    facility_cost: u64,
}

impl MettuPlaxton {
    pub closed spec fn pts(&self) -> Seq<Seq<u32>> {
        points_of(self.points@)
    }

    pub closed spec fn metric(&self) -> Metric {
        self.distance
    }

    pub closed spec fn cost(&self) -> nat {
        self.facility_cost as nat
    }

    pub closed spec fn wf(&self) -> bool {
        well_shaped(self.points@)
    }

    /// Dimension of the points (0 when there is none).
    pub closed spec fn dim(&self) -> nat {
        if self.points@.len() == 0 {
            0
        } else {
            self.points@[0]@.len()
        }
    }

    pub fn new(points: Vec<Vec<u32>>, distance: Metric, facility_cost: u64) -> (r: Self)
        requires
            well_shaped(points@),
        ensures
            r.wf(),
            r.pts() == points_of(points@),
            r.metric() == distance,
            r.cost() == facility_cost,
    {
        MettuPlaxton { points, distance, facility_cost }
    }

    /// How much the ball of radius `r` around point `i` collects.
    fn excess_of(&self, i: usize, r: u64) -> (e: u128)
        requires
            self.wf(),
            i < self.points@.len(),
        ensures
            e == excess(self.metric(), self.pts(), i as int, r as nat, self.pts().len() as int),
    {
        let n = self.points.len();
        let ghost pts = self.pts();
        let mut acc: u128 = 0;
        let mut j: usize = 0;
        while j < n
            invariant
                self.wf(),
                n == self.points@.len(),
                pts == self.pts(),
                pts.len() == n,
                i < n,
                j <= n,
                acc == excess(self.metric(), pts, i as int, r as nat, j as int),
                acc <= j * r,
            decreases n - j,
        {
            assert(pts[i as int] == self.points@[i as int]@ && pts[j as int] == self.points@[j as int]@);
            assert(self.points@[i as int]@.len() == self.points@[0]@.len());
            assert(self.points@[j as int]@.len() == self.points@[0]@.len());
            let d = self.distance.eval(&self.points[i], &self.points[j]);
            assert(j * r + r == (j + 1) * r) by (nonlinear_arith);
            assert((j + 1) * r <= 18446744073709551615 * 18446744073709551615) by (nonlinear_arith)
                requires
                    j + 1 <= 18446744073709551615,
                    r <= 18446744073709551615,
            ;
            if d < r {
                acc = acc + (r - d) as u128;
            }
            j = j + 1;
        }
        acc
    }

    /// The radius of point `i`, found by bisection.
    pub fn radius_of(&self, i: usize) -> (r: u64)
        requires
            self.wf(),
            i < self.pts().len(),
        ensures
            r as nat == radius(self.metric(), self.pts(), i as int, self.cost()),
    {
        let ghost m = self.metric();
        let ghost pts = self.pts();
        let ghost c = self.cost();
        proof {
            lemma_excess_self(m, pts, i as int, c, pts.len() as int);
        }
        let mut lo: u64 = 0;
        let mut hi: u64 = self.facility_cost;
        while lo < hi
            invariant
                self.wf(),
                m == self.metric(),
                pts == self.pts(),
                c == self.cost(),
                i < pts.len(),
                lo <= hi,
                excess(m, pts, i as int, hi as nat, pts.len() as int) >= c,
                lo == 0 || excess(m, pts, i as int, (lo - 1) as nat, pts.len() as int) < c,
            decreases hi - lo,
        {
            let mid = lo + (hi - lo) / 2;
            if self.excess_of(i, mid) >= self.facility_cost as u128 {
                hi = mid;
            } else {
                lo = mid + 1;
            }
        }
        proof {
            lemma_radius_unique(m, pts, i as int, c, hi as nat);
        }
        hi
    }
    /// Processes the unprocessed point of least radius: opens it unless a facility lies
    /// within `alpha` times its radius.
    #[verifier::rlimit(60)]
    fn greedy_step(&self, fac: &mut Facilities, done: &mut Vec<bool>, radii: &Vec<u64>, alpha: Ratio)
        requires
            self.wf(),
            old(fac).wf(),
            old(fac).metric() == self.metric(),
            self.pts().len() > 0 ==> old(fac).dim() == self.pts()[0].len(),
            valid_alpha(alpha),
            radii@.len() == self.pts().len(),
            forall|j: int| 0 <= j < self.pts().len() ==> (#[trigger] radii@[j]) as nat == radius(self.metric(), self.pts(), j, self.cost()),
            old(done)@.len() == self.pts().len(),
            count_true(old(done)@, self.pts().len() as int) < self.pts().len(),
            greedy_inv(self.metric(), self.pts(), self.cost(), alpha, old(fac)@, old(done)@),
        ensures
            final(fac).wf(),
            final(fac).metric() == old(fac).metric(),
            final(fac).dim() == old(fac).dim(),
            final(done)@.len() == old(done)@.len(),
            count_true(final(done)@, self.pts().len() as int) == count_true(old(done)@, self.pts().len() as int) + 1,
            greedy_inv(self.metric(), self.pts(), self.cost(), alpha, final(fac)@, final(done)@),
    {
        let ghost m = self.metric();
        let ghost pts = self.pts();
        let ghost c = self.cost();
        let ghost n = pts.len() as int;
        proof {
            reveal(greedy_inv);
        }
        let best = select_next(radii, done);
        let ghost old_done = done@;
        let ghost old_fac = fac@;
        let rb = radii[best];
        proof {
            assert(self.points@[best as int]@ == pts[best as int]);
            assert(self.points@[best as int]@.len() == self.points@[0]@.len());
        }
        assert(alpha.num * rb <= 4294967295 * 18446744073709551615) by (nonlinear_arith)
            requires
                alpha.num <= 4294967295,
                rb <= 18446744073709551615,
        ;
        let x: u128 = (alpha.num as u128) * (rb as u128);
        proof {
            assert(x <= alpha.den * rb) by (nonlinear_arith)
                requires
                    x == alpha.num * rb,
                    alpha.num <= alpha.den,
            ;
            assert(alpha.den * rb < (rb + 1) * alpha.den) by (nonlinear_arith)
                requires
                    alpha.den > 0,
            ;
            lemma_above_floor((rb + 1) as nat, x as nat, alpha.den as nat);
        }
        let dmax: u64 = (x / (alpha.den as u128)) as u64;
        let ghost fac0 = *fac;
        assert(rb as nat == radius(m, pts, best as int, c));
        let matched = fac.match_point(&self.points[best], dmax);
        done.set(best, true);
        proof {
            lemma_count_update(old_done, best as int, n);
            assert forall|p: int, q: int|
                0 <= p < n && 0 <= q < n && done@[p] && !done@[q] implies #[trigger] radius(m, pts, p, c)
                    <= #[trigger] radius(m, pts, q, c) by {
                if p == best {
                    assert(!old_done[q]);
                    assert(radii@[best as int] <= radii@[q]);
                } else {
                    assert(old_done[p] && !old_done[q]);
                }
            }
        }
        if !matched {
            let f = Facility::new(best, &self.points[best]);
            let ghost fv = f@;
            fac.insert(f);
            proof {
                let nb = old_fac.len() as int;
                assert(fac@[nb] == fv);
                assert forall|a: int| 0 <= a < old_fac.len() implies !within(
                    #[trigger] m.dist(old_fac[a].center, pts[best as int]),
                    radius(m, pts, best as int, c),
                    alpha,
                ) by {
                    assert(!(fac0.dist_to(a, pts[best as int]) <= dmax));
                    lemma_above_floor(m.dist(old_fac[a].center, pts[best as int]), x as nat, alpha.den as nat);
                }
                lemma_dist_symmetric_self(m, pts[best as int], pts[best as int]);
                assert(fv.center == self.points@[best as int]@);
                assert(fac@[nb].center == pts[best as int]);
                assert(m.dist(fac@[nb].center, pts[best as int]) == 0);
                assert(0 * alpha.den <= alpha.num * radius(m, pts, best as int, c)) by (nonlinear_arith);
                assert(within(m.dist(fac@[nb].center, pts[best as int]), radius(m, pts, best as int, c), alpha));
                assert forall|j: int| 0 <= j < n && #[trigger] done@[j] implies covered(
                    m,
                    fac@,
                    pts[j],
                    radius(m, pts, j, c),
                    alpha,
                ) by {
                    if j != best {
                        assert(old_done[j]);
                        let a = choose|a: int|
                            0 <= a < old_fac.len() && within(
                                #[trigger] m.dist(old_fac[a].center, pts[j]),
                                radius(m, pts, j, c),
                                alpha,
                            );
                        assert(fac@[a] == old_fac[a]);
                    }
                }
                assert forall|a: int, b: int|
                    #![trigger fac@[a], fac@[b]]
                    0 <= a < b < fac@.len() implies radius(m, pts, fac@[a].data_id as int, c) <= radius(
                        m,
                        pts,
                        fac@[b].data_id as int,
                        c,
                    ) by {
                    if b == nb {
                        assert(old_done[old_fac[a].data_id as int]);
                        assert(!old_done[best as int]);
                    } else {
                        assert(fac@[a] == old_fac[a] && fac@[b] == old_fac[b]);
                    }
                }
                assert forall|a: int, b: int| 0 <= a < b < fac@.len() implies !within(
                    #[trigger] m.dist(fac@[a].center, fac@[b].center),
                    radius(m, pts, fac@[b].data_id as int, c),
                    alpha,
                ) by {
                    if b != nb {
                        assert(fac@[a] == old_fac[a] && fac@[b] == old_fac[b]);
                    } else {
                        assert(fac@[a] == old_fac[a]);
                    }
                }
                assert forall|a: int| 0 <= a < fac@.len() implies {
                    &&& (#[trigger] fac@[a]).data_id < n
                    &&& done@[fac@[a].data_id as int]
                    &&& fac@[a].center == pts[fac@[a].data_id as int]
                    &&& fac@[a].weight == 0
                    &&& fac@[a].cost == 0
                } by {
                    if a != nb {
                        assert(fac@[a] == old_fac[a]);
                    }
                }
                reveal(greedy_inv);
            }
        } else {
            proof {
                let a = choose|a: int| 0 <= a < fac@.len() && fac.dist_to(a, self.points@[best as int]@) <= dmax;
                lemma_above_floor(fac.dist_to(a, pts[best as int]), x as nat, alpha.den as nat);
                assert(within(m.dist(fac@[a].center, pts[best as int]), radius(m, pts, best as int, c), alpha));
                reveal(greedy_inv);
            }
        }
    }

    /// Opens facilities: points are taken in ascending radius order (the lowest index first
    /// among equal radii), and a point is opened unless an open facility lies within `alpha`
    /// times its radius. Every point ends up within `alpha` times its radius of a facility,
    /// and each facility lies beyond `alpha` times its radius from those opened before it.
    pub fn construct_centers(&self, alpha: Ratio) -> (r: Facilities)
        requires
            self.wf(),
            valid_alpha(alpha),
        ensures
            r.wf(),
            r.metric() == self.metric(),
            r.dim() == self.dim(),
            forall|a: int|
                0 <= a < r@.len() ==> {
                    &&& (#[trigger] r@[a]).data_id < self.pts().len()
                    &&& r@[a].center == self.pts()[r@[a].data_id as int]
                    &&& r@[a].weight == 0
                    &&& r@[a].cost == 0
                },
            forall|a: int, b: int|
                #![trigger r@[a], r@[b]]
                0 <= a < b < r@.len() ==> radius(self.metric(), self.pts(), r@[a].data_id as int, self.cost())
                    <= radius(self.metric(), self.pts(), r@[b].data_id as int, self.cost()),
            forall|a: int, b: int|
                0 <= a < b < r@.len() ==> !within(
                    #[trigger] self.metric().dist(r@[a].center, r@[b].center),
                    radius(self.metric(), self.pts(), r@[b].data_id as int, self.cost()),
                    alpha,
                ),
            forall|a: int, b: int|
                0 <= a < r@.len() && 0 <= b < r@.len() && a != b ==> !within(
                    #[trigger] self.metric().dist(r@[a].center, r@[b].center),
                    min_nat(
                        radius(self.metric(), self.pts(), r@[a].data_id as int, self.cost()),
                        radius(self.metric(), self.pts(), r@[b].data_id as int, self.cost()),
                    ),
                    alpha,
                ),
            forall|i: int|
                0 <= i < self.pts().len() ==> covered(
                    self.metric(),
                    r@,
                    #[trigger] self.pts()[i],
                    radius(self.metric(), self.pts(), i, self.cost()),
                    alpha,
                ),
    {
        let n = self.points.len();
        let ghost m = self.metric();
        let ghost pts = self.pts();
        let ghost c = self.cost();
        let dim: usize = if n == 0 {
            0
        } else {
            self.points[0].len()
        };
        let mut radii: Vec<u64> = Vec::with_capacity(n);
        let mut done: Vec<bool> = Vec::with_capacity(n);
        let mut i: usize = 0;
        while i < n
            invariant
                self.wf(),
                n == pts.len(),
                pts == self.pts(),
                m == self.metric(),
                c == self.cost(),
                i <= n,
                radii@.len() == i,
                done@.len() == i,
                forall|j: int| 0 <= j < i ==> (#[trigger] radii@[j]) as nat == radius(m, pts, j, c),
                forall|j: int| 0 <= j < i ==> !(#[trigger] done@[j]),
            decreases n - i,
        {
            radii.push(self.radius_of(i));
            done.push(false);
            i = i + 1;
        }
        let mut fac = Facilities::new(n, self.distance, dim);
        proof {
            lemma_count_zero(done@, n as int);
            reveal(greedy_inv);
        }
        let mut step: usize = 0;
        while step < n
            invariant
                self.wf(),
                n == pts.len(),
                pts == self.pts(),
                m == self.metric(),
                c == self.cost(),
                fac.wf(),
                fac.metric() == m,
                fac.dim() == dim,
                n > 0 ==> dim == pts[0].len(),
                valid_alpha(alpha),
                radii@.len() == n,
                done@.len() == n,
                step <= n,
                count_true(done@, n as int) == step,
                forall|j: int| 0 <= j < n ==> (#[trigger] radii@[j]) as nat == radius(m, pts, j, c),
                greedy_inv(m, pts, c, alpha, fac@, done@),
            decreases n - step,
        {
            self.greedy_step(&mut fac, &mut done, &radii, alpha);
            step = step + 1;
        }
        proof {
            reveal(greedy_inv);
            assert forall|j: int| 0 <= j < n implies #[trigger] done@[j] by {
                if !done@[j] {
                    lemma_count_missing(done@, j, n as int);
                }
            }
            assert forall|j: int| 0 <= j < n implies covered(m, fac@, #[trigger] pts[j], radius(m, pts, j, c), alpha) by {
                assert(done@[j]);
            }
            let fs = fac@;
            assert forall|a: int, b: int| 0 <= a < fs.len() && 0 <= b < fs.len() && a != b implies !within(
                #[trigger] m.dist(fs[a].center, fs[b].center),
                min_nat(radius(m, pts, fs[a].data_id as int, c), radius(m, pts, fs[b].data_id as int, c)),
                alpha,
            ) by {
                let (lo, hi) = if a < b { (a, b) } else { (b, a) };
                let rl = radius(m, pts, fs[lo].data_id as int, c);
                let rh = radius(m, pts, fs[hi].data_id as int, c);
                assert(rl <= rh);
                assert(fs[lo].center.len() == fs[hi].center.len());
                lemma_dist_symmetric_self(m, fs[lo].center, fs[hi].center);
                let d = m.dist(fs[lo].center, fs[hi].center);
                assert(!within(d, rh, alpha));
                assert(alpha.num * rl <= alpha.num * rh) by (nonlinear_arith)
                    requires
                        rl <= rh,
                ;
            }
        }
        fac
    }
    /// Dispatches the engine's points, with unit weights, to the facilities of `facilities`
    /// (see `Facilities::dispatch_data`); returns the total cost.
    pub fn compute_distances(&self, facilities: &mut Facilities) -> (r: u128)
        requires
            self.wf(),
            old(facilities).wf(),
            old(facilities)@.len() > 0,
            self.pts().len() > 0 ==> old(facilities).dim() == self.pts()[0].len(),
        ensures
            final(facilities).wf(),
            final(facilities).metric() == old(facilities).metric(),
            final(facilities).dim() == old(facilities).dim(),
            dispatched(old(facilities)@, final(facilities)@, old(facilities).metric(), self.pts(), None),
            r == total_cost(old(facilities).metric(), centers_of(old(facilities)@), self.pts(), None, self.pts().len() as int),
    {
        proof {
            lemma_unit_total_weight(self.points@.len() as int);
            assert(weights_of(None::<&Vec<u64>>) == None::<Seq<u64>>);
            assert forall|i: int| 0 <= i < self.points@.len() implies (#[trigger] self.points@[i])@.len() == old(facilities).dim() by {
                assert(self.pts()[0] == self.points@[0]@);
            }
        }
        let n = self.points.len();
        assert(n <= u64::MAX);
        assert(total_weight(weights_of(None::<&Vec<u64>>), n as int) <= u64::MAX);
        facilities.dispatch_data(&self.points, None)
    }
}

} // verus!
