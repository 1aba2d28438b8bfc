//! Streaming facility location with phase restarts, after Braverman, Meyerson, Ostrovsky,
//! Roytman (ACM-SIAM 2011).

use vstd::prelude::*;

use rand_xoshiro::Xoshiro256PlusPlus;

use crate::distance::{lemma_dist_symmetric_self, Metric, DIST_BOUND, MAX_DIM};
use crate::facility::{
    centers_of, copy_point, lemma_elem_le_sums, lemma_nearest_in, lemma_sums_update, nearest_rank,
    sum_costs, sum_weights, Facilities, Facility, FacilityView,
};
use crate::rng::{next_draw, seeded_rng};
use vstd::arithmetic::power2::{lemma2_to64, lemma_pow2_unfold, pow2};

verus! {

/// Seed of the generator behind the facility-opening draws.
pub const BMOR_SEED: u64 = 1454691;

/// Largest cost ceiling a phase may have (`2^90`); keeps every running cost within `u128`.
pub const COST_UPPER_MAX: u128 = 1237940039285380274899124224;

/// `2^64`: a draw `u` stands for the fraction `u / 2^64` of the unit interval.
pub open spec fn draw_range() -> nat {
    18446744073709551616
}

/// A positive rational number `num / den`.
#[derive(Clone, Copy, Debug, PartialEq, Eq, Structural)]
pub struct Ratio {
    pub num: u32,
    pub den: u32,
}

impl Ratio {
    /// The ratio is at least one (and its denominator is not zero).
    pub open spec fn at_least_one(self) -> bool {
        self.den > 0 && self.num >= self.den
    }

    /// Smallest integer at least `x * num / den`.
    pub open spec fn scale_up(self, x: nat) -> nat {
        ((x * self.num + self.den - 1) as nat / self.den as nat) as nat
    }
}

/// Errors of the streaming engine.
#[derive(Clone, Copy, Debug, PartialEq, Eq, Structural)]
pub enum BmorError {
    /// `k` or `n` is zero, `beta` or `gamma` is below one, or the dimension is too large.
    ParameterError,
    /// A phase restart could not raise the cost scales any further.
    ScaleOverflow,
}

/// `floor(log2(n))`, with 0 for `n <= 1`.
pub open spec fn log2_floor(n: nat) -> nat
    decreases n,
{
    if n <= 1 {
        0
    } else {
        1 + log2_floor(n / 2)
    }
}

/// Proof that the base-2 logarithm of a number below `2^e` is below `e`.
proof fn lemma_log2_below(n: nat, e: nat)
    requires
        e >= 1,
        n < pow2(e),
    ensures
        log2_floor(n) < e,
    decreases e,
{
    if n > 1 {
        if e == 1 {
            lemma2_to64();
        } else {
            lemma_pow2_unfold(e);
            lemma_log2_below(n / 2, (e - 1) as nat);
        }
    }
}

/// `floor(log2(n))`.
pub fn ilog2(n: usize) -> (r: u32)
    ensures
        r as nat == log2_floor(n as nat),
        r < 64,
{
    proof {
        lemma2_to64();
        lemma_log2_below(n as nat, 64);
    }
    let mut x: usize = n;
    let mut c: u32 = 0;
    while x > 1
        invariant
            c as nat + log2_floor(x as nat) == log2_floor(n as nat),
            log2_floor(n as nat) < 64,
        decreases x,
    {
        x = x / 2;
        c = c + 1;
    }
    c
}

/// Whether a draw `u` opens a facility for a point of weight `w` at distance `d` from its
/// nearest facility: `u / 2^64 < w * d * oneplogn / li`.
pub open spec fn opens(u: u64, w: u64, d: nat, oneplogn: nat, li: u64) -> bool {
    u * li < w * d * oneplogn * draw_range()
}

/// Decides whether the draw `u` opens a new facility (see `opens`).
pub fn should_open(u: u64, weight: u64, dist: u64, oneplogn: u128, li: u64) -> (r: bool)
    requires
        dist < DIST_BOUND,
        li > 0,
    ensures
        r == opens(u, weight, dist as nat, oneplogn as nat, li),
{
    assert(weight * dist <= 18446744073709551615 * 4503599627370496) by (nonlinear_arith)
        requires
            weight <= 18446744073709551615,
            dist <= 4503599627370496,
    ;
    let wd: u128 = (weight as u128) * (dist as u128);
    assert(u * li <= 18446744073709551615 * 18446744073709551615) by (nonlinear_arith)
        requires
            u <= 18446744073709551615,
            li <= 18446744073709551615,
    ;
    let lhs: u128 = (u as u128) * (li as u128);
    proof {
        assert(u * li < draw_range() * li) by (nonlinear_arith)
            requires
                u < draw_range(),
                li > 0,
        ;
    }
    match wd.checked_mul(oneplogn) {
        None => {
            proof {
                assert(draw_range() * li <= draw_range() * (wd * oneplogn)) by (nonlinear_arith)
                    requires
                        li <= wd * oneplogn,
                ;
            }
            true
        },
        Some(q) => {
            if q >= li as u128 {
                proof {
                    assert(draw_range() * li <= draw_range() * q) by (nonlinear_arith)
                        requires
                            li <= q,
                    ;
                }
                true
            } else {
                assert(q * draw_range() < 18446744073709551615 * draw_range()) by (nonlinear_arith)
                    requires
                        q < 18446744073709551615,
                ;
                let rhs: u128 = q * 18446744073709551616u128;
                lhs < rhs
            }
        },
    }
}

/// State of the streaming engine during one phase.
pub struct BmorState {
    // (1 + log2 n) * k
    oneplogn: u128,
    phase: u64,
    // cost scale driving the opening probability
    li: u64,
    phase_cost_upper: u128,
    facility_bound: u128,
    centers: Facilities,
    // sum of the weights inserted in this phase
    absolute_weight: u64,
    total_cost: u128,
    nb_inserted: u64,
    rng: Xoshiro256PlusPlus,
}

impl BmorState {
    pub closed spec fn facilities(&self) -> Facilities {
        self.centers
    }

    pub closed spec fn oneplogn(&self) -> u128 {
        self.oneplogn
    }

    pub closed spec fn phase(&self) -> u64 {
        self.phase
    }

    pub closed spec fn li(&self) -> u64 {
        self.li
    }

    pub closed spec fn cost_upper(&self) -> u128 {
        self.phase_cost_upper
    }

    pub closed spec fn bound(&self) -> u128 {
        self.facility_bound
    }

    pub closed spec fn abs_weight(&self) -> u64 {
        self.absolute_weight
    }

    pub closed spec fn cost(&self) -> u128 {
        self.total_cost
    }

    pub closed spec fn nb_inserted(&self) -> u64 {
        self.nb_inserted
    }

    /// State of the generator the opening draws come from.
    pub closed spec fn generator(&self) -> Xoshiro256PlusPlus {
        self.rng
    }

    /// What holds in every state: the facilities' weights sum to the inserted weight and
    /// their costs to the running cost.
    pub open spec fn consistent(&self) -> bool {
        &&& self.facilities().wf()
        &&& self.li() > 0
        &&& self.bound() >= 1
        &&& self.oneplogn() >= 1
        &&& self.cost_upper() <= COST_UPPER_MAX
        &&& sum_weights(self.facilities()@) == self.abs_weight()
        &&& sum_costs(self.facilities()@) == self.cost()
        &&& self.cost() <= self.abs_weight() * DIST_BOUND
    }

    /// The phase's budgets hold: no more facilities than the bound, cost at most the ceiling.
    pub open spec fn within_budget(&self) -> bool {
        &&& self.facilities()@.len() <= self.bound()
        &&& self.cost() <= self.cost_upper()
    }

    pub open spec fn wf(&self) -> bool {
        self.consistent() && self.within_budget()
    }

    /// Two states share their parameters and their phase.
    pub open spec fn same_phase(&self, other: &BmorState) -> bool {
        &&& self.oneplogn() == other.oneplogn()
        &&& self.phase() == other.phase()
        &&& self.li() == other.li()
        &&& self.cost_upper() == other.cost_upper()
        &&& self.bound() == other.bound()
        &&& self.facilities().metric() == other.facilities().metric()
        &&& self.facilities().dim() == other.facilities().dim()
    }

    /// One insertion of point `p` (id `id`, weight `w`) with draw `u`, from `s0` to `s1`:
    /// into an empty registry, or when the draw opens, the point becomes a facility of
    /// weight `w` and cost 0; otherwise its nearest facility gains weight `w` and cost
    /// `w * d`, and so does the running cost. `ok` tells whether the budgets still hold.
    pub open spec fn step(
        s0: &BmorState,
        s1: &BmorState,
        id: usize,
        p: Seq<u32>,
        w: u64,
        u: u64,
        ok: bool,
    ) -> bool {
        let fs = s0.facilities()@;
        let m = s0.facilities().metric();
        let r = nearest_rank(m, centers_of(fs), p);
        let d = m.dist(fs[r].center, p);
        let opened = fs.len() == 0 || opens(u, w, d, s0.oneplogn() as nat, s0.li());
        &&& opened ==> s1.facilities()@ == fs.push(
            FacilityView { data_id: id, center: p, weight: w, cost: 0 },
        ) && s1.cost() == s0.cost()
        &&& !opened ==> s1.facilities()@ == fs.update(
            r,
            FacilityView {
                weight: (fs[r].weight + w) as u64,
                cost: (fs[r].cost + w * d) as u128,
                ..fs[r]
            },
        ) && s1.cost() == s0.cost() + w * d
        &&& s1.abs_weight() == s0.abs_weight() + w
        &&& s1.nb_inserted() == if s0.nb_inserted() < u64::MAX {
            s0.nb_inserted() + 1
        } else {
            s0.nb_inserted() as int
        }
        &&& s1.same_phase(s0)
        &&& ok == s1.within_budget()
    }

    /// A fresh phase-0 state: no facility, cost ceiling `upper_cost`, at most
    /// `facility_bound` facilities, generator seeded with `BMOR_SEED`.
    pub(crate) fn new(
        k: usize,
        nbdata: usize,
        alloc_size: usize,
        upper_cost: u128,
        facility_bound: u128,
        distance: Metric,
        dim: usize,
    ) -> (s: Self)
        requires
            k >= 1,
            dim <= MAX_DIM,
            facility_bound >= 1,
            upper_cost <= COST_UPPER_MAX,
        ensures
            s.wf(),
            s.facilities()@.len() == 0,
            s.facilities().metric() == distance,
            s.facilities().dim() == dim,
            s.oneplogn() == (1 + log2_floor(nbdata as nat)) * k,
            s.phase() == 0,
            s.li() == 1,
            s.cost_upper() == upper_cost,
            s.bound() == facility_bound,
            s.abs_weight() == 0,
            s.cost() == 0,
            s.nb_inserted() == 0,
    {
        let centers = Facilities::new(alloc_size, distance, dim);
        let rng = seeded_rng(BMOR_SEED);
        let lg = ilog2(nbdata);
        assert((1 + lg) * k <= 64 * 18446744073709551615) by (nonlinear_arith)
            requires
                lg < 64,
                k <= 18446744073709551615,
        ;
        assert((1 + lg) * k >= 1) by (nonlinear_arith)
            requires
                k >= 1,
        ;
        let oneplogn: u128 = (1 + lg as u128) * (k as u128);
        BmorState {
            oneplogn,
            phase: 0,
            li: 1,
            phase_cost_upper: upper_cost,
            facility_bound,
            centers,
            absolute_weight: 0,
            total_cost: 0,
            nb_inserted: 0,
            rng,
        }
    }

    pub fn get_facilities(&self) -> (r: &Facilities)
        ensures
            *r == self.facilities(),
    {
        &self.centers
    }

    /// Current phase number.
    pub fn get_phase(&self) -> (r: u64)
        ensures
            r == self.phase(),
    {
        self.phase
    }

    pub fn get_li(&self) -> (r: u64)
        ensures
            r == self.li(),
    {
        self.li
    }

    pub fn get_nb_inserted(&self) -> (r: u64)
        ensures
            r == self.nb_inserted(),
    {
        self.nb_inserted
    }

    pub fn get_phase_cost_bound(&self) -> (r: u128)
        ensures
            r == self.cost_upper(),
    {
        self.phase_cost_upper
    }

    pub fn get_facility_bound(&self) -> (r: u128)
        ensures
            r == self.bound(),
    {
        self.facility_bound
    }

    /// Sum of the weights inserted in this phase.
    pub fn get_weight(&self) -> (r: u64)
        ensures
            r == self.abs_weight(),
    {
        self.absolute_weight
    }

    /// Cost accumulated in this phase.
    pub fn get_cost(&self) -> (r: u128)
        ensures
            r == self.cost(),
    {
        self.total_cost
    }

    /// Draws the next value of the generator.
    pub(crate) fn get_unif_sample(&mut self) -> (r: u64)
        ensures
            final(self).facilities() == old(self).facilities(),
            final(self).same_phase(old(self)),
            final(self).abs_weight() == old(self).abs_weight(),
            final(self).cost() == old(self).cost(),
            final(self).nb_inserted() == old(self).nb_inserted(),
    {
        next_draw(&mut self.rng)
    }

    /// The nearest facility of `point` and its distance, `None` when there is no facility.
    pub fn get_nearest_center(&self, point: &Vec<u32>) -> (r: Option<(&Facility, u64)>)
        requires
            self.consistent(),
            point@.len() == self.facilities().dim(),
        ensures
            self.facilities()@.len() == 0 <==> r is None,
            r is Some ==> ({
                let fs = self.facilities()@;
                let rank = nearest_rank(self.facilities().metric(), centers_of(fs), point@);
                &&& r.unwrap().0@ == fs[rank]
                &&& r.unwrap().1 as nat == self.facilities().dist_to(rank, point@)
            }),
    {
        match self.centers.get_nearest_facility(point) {
            Ok((rank, dist)) => {
                proof {
                    lemma_nearest_in(
                        self.facilities().metric(),
                        centers_of(self.facilities()@),
                        point@,
                        self.facilities()@.len() as int,
                    );
                }
                match self.centers.get_facility(rank) {
                    Some(f) => Some((f, dist)),
                    None => None,
                }
            },
            Err(_) => None,
        }
    }
    /// Inserts `point` (id `rank_id`, weight `weight`) with the draw `u`, as `step` describes.
    /// Returns whether the phase's budgets still hold.
    pub fn insert_with_draw(&mut self, rank_id: usize, point: &Vec<u32>, weight: u64, u: u64) -> (ok: bool)
        requires
            old(self).consistent(),
            point@.len() == old(self).facilities().dim(),
            old(self).abs_weight() + weight <= u64::MAX,
        ensures
            final(self).consistent(),
            Self::step(old(self), final(self), rank_id, point@, weight, u, ok),
            final(self).generator() == old(self).generator(),
    {
        let ghost fs = self.centers@;
        if self.centers.len() == 0 {
            let mut f = Facility::new(rank_id, point);
            f.insert(weight, 0);
            let ghost fv = f@;
            self.centers.insert(f);
            proof {
                assert(self.centers@.drop_last() =~= fs);
            }
        } else {
            let (rank, d) = match self.centers.get_nearest_facility(point) {
                Ok(rd) => rd,
                Err(_) => {
                    proof {
                        assert(false);
                    }
                    (0, 0)
                },
            };
            proof {
                lemma_nearest_in(self.centers.metric(), centers_of(fs), point@, fs.len() as int);
                assert(centers_of(fs)[rank as int] == fs[rank as int].center);
            }
            if should_open(u, weight, d, self.oneplogn, self.li) {
                let mut f = Facility::new(rank_id, point);
                f.insert(weight, 0);
                self.centers.insert(f);
                proof {
                    assert(self.centers@.drop_last() =~= fs);
                }
            } else {
                proof {
                    lemma_elem_le_sums(fs, rank as int);
                    assert(weight * d <= weight * DIST_BOUND) by (nonlinear_arith)
                        requires
                            d < DIST_BOUND,
                    ;
                    assert(self.absolute_weight * DIST_BOUND + weight * DIST_BOUND
                        == (self.absolute_weight + weight) * DIST_BOUND) by (nonlinear_arith);
                    assert((self.absolute_weight + weight) * DIST_BOUND <= 18446744073709551615 * DIST_BOUND)
                        by (nonlinear_arith)
                        requires
                            self.absolute_weight + weight <= 18446744073709551615,
                    ;
                }
                self.centers.add_to(rank, weight, d);
                let incr: u128 = (weight as u128) * (d as u128);
                self.total_cost = self.total_cost + incr;
                proof {
                    lemma_sums_update(fs, rank as int, self.centers@[rank as int]);
                }
            }
        }
        proof {
            assert(self.absolute_weight * DIST_BOUND <= (self.absolute_weight + weight) * DIST_BOUND)
                by (nonlinear_arith);
        }
        self.absolute_weight = self.absolute_weight + weight;
        if self.nb_inserted < u64::MAX {
            self.nb_inserted = self.nb_inserted + 1;
        }
        !(self.total_cost > self.phase_cost_upper || (self.centers.len() as u128) > self.facility_bound)
    }

    /// Inserts a point with a fresh draw of the generator: some draw makes it a `step`.
    /// Returns whether the phase's budgets still hold.
    pub(crate) fn update(&mut self, rank_id: usize, point: &Vec<u32>, weight: u64) -> (ok: bool)
        requires
            old(self).consistent(),
            point@.len() == old(self).facilities().dim(),
            old(self).abs_weight() + weight <= u64::MAX,
        ensures
            final(self).consistent(),
            exists|u: u64| Self::step(old(self), final(self), rank_id, point@, weight, u, ok),
            old(self).facilities()@.len() == 0 ==> final(self).generator() == old(self).generator(),
    {
        if self.centers.len() == 0 {
            let ok = self.insert_with_draw(rank_id, point, weight, 0);
            assert(Self::step(old(self), self, rank_id, point@, weight, 0, ok));
            return ok;
        }
        let u = self.get_unif_sample();
        let ok = self.insert_with_draw(rank_id, point, weight, u);
        assert(Self::step(old(self), self, rank_id, point@, weight, u, ok));
        ok
    }

    /// Starts the next phase with cost scale `li` and cost ceiling `phase_cost_upper`: no
    /// facility, and the running sums (inserted weight, cost, number of insertions) at zero.
    pub(crate) fn reinit(&mut self, li: u64, phase_cost_upper: u128)
        requires
            old(self).consistent(),
            old(self).phase() < u64::MAX,
            li > 0,
            phase_cost_upper <= COST_UPPER_MAX,
        ensures
            final(self).wf(),
            final(self).facilities()@.len() == 0,
            final(self).phase() == old(self).phase() + 1,
            final(self).li() == li,
            final(self).cost_upper() == phase_cost_upper,
            final(self).oneplogn() == old(self).oneplogn(),
            final(self).bound() == old(self).bound(),
            final(self).facilities().metric() == old(self).facilities().metric(),
            final(self).facilities().dim() == old(self).facilities().dim(),
            final(self).abs_weight() == 0,
            final(self).cost() == 0,
            final(self).nb_inserted() == 0,
    {
        self.phase = self.phase + 1;
        self.phase_cost_upper = phase_cost_upper;
        self.li = li;
        self.centers.clear();
        self.absolute_weight = 0;
        self.total_cost = 0;
        self.nb_inserted = 0;
    }

    /// Empties the registry and the running sums, keeping the phase and its scales.
    pub(crate) fn clear_registry(&mut self)
        requires
            old(self).consistent(),
        ensures
            final(self).wf(),
            final(self).facilities()@.len() == 0,
            final(self).same_phase(old(self)),
            final(self).abs_weight() == 0,
            final(self).cost() == 0,
    {
        self.centers.clear();
        self.absolute_weight = 0;
        self.total_cost = 0;
    }
}

/// Sum of the weights of the first `n` weighted points.
pub open spec fn batch_weight(data: Seq<(u64, Vec<u32>, usize)>, n: int) -> nat
    decreases n,
{
    if n <= 0 {
        0
    } else {
        batch_weight(data, n - 1) + data[n - 1].0 as nat
    }
}

/// Proof that the weighted points of a registry carry the registry's total weight.
pub proof fn lemma_batch_weight_of_facilities(
    data: Seq<(u64, Vec<u32>, usize)>,
    fs: Seq<FacilityView>,
    n: int,
)
    requires
        data.len() == fs.len(),
        0 <= n <= fs.len(),
        forall|i: int| 0 <= i < data.len() ==> (#[trigger] data[i]).0 == fs[i].weight,
    ensures
        batch_weight(data, n) == sum_weights(fs.take(n)),
    decreases n,
{
    if n > 0 {
        lemma_batch_weight_of_facilities(data, fs, n - 1);
        assert(fs.take(n).drop_last() =~= fs.take(n - 1));
    }
}

proof fn lemma_batch_weight_prefix(a: Seq<(u64, Vec<u32>, usize)>, b: Seq<(u64, Vec<u32>, usize)>, n: int)
    requires
        0 <= n <= a.len(),
        n <= b.len(),
        forall|j: int| 0 <= j < n ==> a[j] == b[j],
    ensures
        batch_weight(a, n) == batch_weight(b, n),
    decreases n,
{
    if n > 0 {
        lemma_batch_weight_prefix(a, b, n - 1);
    }
}

proof fn lemma_batch_weight_mono(data: Seq<(u64, Vec<u32>, usize)>, i: int, n: int)
    requires
        0 <= i <= n,
    ensures
        batch_weight(data, i) <= batch_weight(data, n),
    decreases n - i,
{
    if i < n {
        lemma_batch_weight_mono(data, i, n - 1);
    }
}

/// `beta.scale_up(x)` when it is at most `COST_UPPER_MAX`, else `None`.
pub fn scale_up(x: u128, beta: Ratio) -> (r: Option<u128>)
    requires
        x <= COST_UPPER_MAX,
        beta.at_least_one(),
    ensures
        r is Some <==> beta.scale_up(x as nat) <= COST_UPPER_MAX,
        r is Some ==> r.unwrap() == beta.scale_up(x as nat),
{
    assert(x * beta.num <= COST_UPPER_MAX * 4294967295) by (nonlinear_arith)
        requires
            x <= COST_UPPER_MAX,
            beta.num <= 4294967295,
    ;
    let y: u128 = (x * (beta.num as u128) + (beta.den as u128) - 1) / (beta.den as u128);
    if y <= COST_UPPER_MAX {
        Some(y)
    } else {
        None
    }
}

/// A phase restart of `s` can raise its scales by `beta`: the phase counter, the cost scale
/// (a `u64`) and the cost ceiling (at most `COST_UPPER_MAX`) all have room.
pub open spec fn can_restart(s: &BmorState, beta: Ratio) -> bool {
    &&& s.phase() < u64::MAX
    &&& beta.scale_up(s.li() as nat) <= u64::MAX
    &&& beta.scale_up(s.cost_upper() as nat) <= COST_UPPER_MAX
}

/// `beta.scale_up` applied `q` times to `x`: a scale after `q` phase restarts.
pub open spec fn scaled(beta: Ratio, x: nat, q: nat) -> nat
    decreases q,
{
    if q == 0 {
        x
    } else {
        beta.scale_up(scaled(beta, x, (q - 1) as nat))
    }
}

proof fn lemma_scaled_add(beta: Ratio, x: nat, a: nat, b: nat)
    ensures
        scaled(beta, scaled(beta, x, a), b) == scaled(beta, x, a + b),
    decreases b,
{
    if b > 0 {
        lemma_scaled_add(beta, x, a, (b - 1) as nat);
        assert((a + b - 1) as nat == a + (b - 1) as nat);
    }
}

/// The facilities as `(id, center)` pairs.
pub open spec fn fs_pool(fs: Seq<FacilityView>) -> Seq<(usize, Seq<u32>)> {
    fs.map_values(|f: FacilityView| (f.data_id, f.center))
}

/// The weighted points as `(id, point)` pairs.
pub open spec fn batch_pool(data: Seq<(u64, Vec<u32>, usize)>) -> Seq<(usize, Seq<u32>)> {
    data.map_values(|e: (u64, Vec<u32>, usize)| (e.2, e.1@))
}

/// `x` is one of the pairs of `pool`.
pub open spec fn in_pool(pool: Seq<(usize, Seq<u32>)>, x: (usize, Seq<u32>)) -> bool {
    exists|j: int| 0 <= j < pool.len() && #[trigger] pool[j] == x
}

/// Every facility of `fs` is one of the `(id, point)` pairs of `pool`: a point with its id.
pub open spec fn from_pool(fs: Seq<FacilityView>, pool: Seq<(usize, Seq<u32>)>) -> bool {
    forall|a: int| 0 <= a < fs.len() ==> in_pool(pool, ((#[trigger] fs[a]).data_id, fs[a].center))
}

/// Facility ids increase with rank.
pub open spec fn ids_increasing(fs: Seq<FacilityView>) -> bool {
    forall|a: int, b: int| 0 <= a < b < fs.len() ==> #[trigger] fs[a].data_id < #[trigger] fs[b].data_id
}

/// Every facility id is below the ids of the weighted points from index `i` on.
pub open spec fn ids_below(fs: Seq<FacilityView>, data: Seq<(u64, Vec<u32>, usize)>, i: int) -> bool {
    forall|a: int, k: int| 0 <= a < fs.len() && i <= k < data.len() ==> #[trigger] fs[a].data_id < #[trigger] data[k].2
}

/// Facility ids increase, the points' ids increase, and the points come after the facilities.
pub open spec fn ids_in_order(fs: Seq<FacilityView>, data: Seq<(u64, Vec<u32>, usize)>) -> bool {
    &&& ids_increasing(fs)
    &&& forall|k: int, l: int| 0 <= k < l < data.len() ==> #[trigger] data[k].2 < #[trigger] data[l].2
    &&& ids_below(fs, data, 0)
}

/// All points are equal, and equal to every facility's center.
pub open spec fn uniform_block(fs: Seq<FacilityView>, data: Seq<(u64, Vec<u32>, usize)>) -> bool {
    &&& forall|k: int, l: int| 0 <= k < data.len() && 0 <= l < data.len() ==> #[trigger] data[k].1@ == #[trigger] data[l].1@
    &&& forall|a: int, k: int|
        0 <= a < fs.len() && 0 <= k < data.len() ==> (#[trigger] fs[a]).center == (#[trigger] data[k]).1@
}

proof fn lemma_from_pool_start(fs: Seq<FacilityView>, extra: Seq<(usize, Seq<u32>)>)
    ensures
        from_pool(fs, fs_pool(fs) + extra),
{
    let pool = fs_pool(fs) + extra;
    assert forall|a: int| 0 <= a < fs.len() implies in_pool(pool, ((#[trigger] fs[a]).data_id, fs[a].center)) by {
        assert(pool[a] == (fs[a].data_id, fs[a].center));
    }
}

proof fn lemma_from_pool_trans(fs: Seq<FacilityView>, mid: Seq<FacilityView>, pool: Seq<(usize, Seq<u32>)>)
    requires
        from_pool(fs, fs_pool(mid)),
        from_pool(mid, pool),
    ensures
        from_pool(fs, pool),
{
    assert forall|a: int| 0 <= a < fs.len() implies in_pool(pool, ((#[trigger] fs[a]).data_id, fs[a].center)) by {
        let mp = fs_pool(mid);
        let b = choose|b: int| 0 <= b < mp.len() && #[trigger] mp[b] == (fs[a].data_id, fs[a].center);
        assert(mp[b] == (mid[b].data_id, mid[b].center));
        let j = choose|j: int| 0 <= j < pool.len() && #[trigger] pool[j] == (mid[b].data_id, mid[b].center);
        assert(pool[j] == (fs[a].data_id, fs[a].center));
    }
}

proof fn lemma_ids_below_sub(fs: Seq<FacilityView>, mid: Seq<FacilityView>, data: Seq<(u64, Vec<u32>, usize)>, i: int)
    requires
        from_pool(fs, fs_pool(mid)),
        ids_below(mid, data, i),
    ensures
        ids_below(fs, data, i),
{
    assert forall|a: int, k: int| 0 <= a < fs.len() && i <= k < data.len() implies #[trigger] fs[a].data_id < #[trigger] data[k].2 by {
        let mp = fs_pool(mid);
        let b = choose|b: int| 0 <= b < mp.len() && #[trigger] mp[b] == (fs[a].data_id, fs[a].center);
        assert(mp[b] == (mid[b].data_id, mid[b].center));
        assert(mid[b].data_id < data[k].2);
    }
}

proof fn lemma_step_pool(
    pre: &BmorState,
    post: &BmorState,
    id: usize,
    p: Seq<u32>,
    w: u64,
    u: u64,
    ok: bool,
    pool: Seq<(usize, Seq<u32>)>,
    j0: int,
)
    requires
        pre.consistent(),
        p.len() == pre.facilities().dim(),
        BmorState::step(pre, post, id, p, w, u, ok),
        from_pool(pre.facilities()@, pool),
        0 <= j0 < pool.len(),
        pool[j0] == (id, p),
    ensures
        from_pool(post.facilities()@, pool),
{
    let fs = pre.facilities()@;
    let gs = post.facilities()@;
    let m = pre.facilities().metric();
    if fs.len() > 0 {
        lemma_nearest_in(m, centers_of(fs), p, fs.len() as int);
    }
    assert forall|a: int| 0 <= a < gs.len() implies in_pool(pool, ((#[trigger] gs[a]).data_id, gs[a].center)) by {
        if a < fs.len() && (gs[a].data_id, gs[a].center) == (fs[a].data_id, fs[a].center) {
            let j = choose|j: int| 0 <= j < pool.len() && #[trigger] pool[j] == (fs[a].data_id, fs[a].center);
        } else {
            assert(pool[j0] == (gs[a].data_id, gs[a].center));
        }
    }
}

proof fn lemma_step_ids(pre: &BmorState, post: &BmorState, data: Seq<(u64, Vec<u32>, usize)>, i: int, u: u64, ok: bool)
    requires
        pre.consistent(),
        0 <= i < data.len(),
        data[i].1@.len() == pre.facilities().dim(),
        BmorState::step(pre, post, data[i].2, data[i].1@, data[i].0, u, ok),
        ids_increasing(pre.facilities()@),
        ids_below(pre.facilities()@, data, i),
        forall|k: int, l: int| 0 <= k < l < data.len() ==> #[trigger] data[k].2 < #[trigger] data[l].2,
    ensures
        ids_increasing(post.facilities()@),
        ids_below(post.facilities()@, data, i + 1),
{
    let fs = pre.facilities()@;
    let gs = post.facilities()@;
    let m = pre.facilities().metric();
    if fs.len() > 0 {
        lemma_nearest_in(m, centers_of(fs), data[i].1@, fs.len() as int);
    }
    assert forall|a: int| 0 <= a < gs.len() implies (gs[a].data_id == data[i].2 && a == fs.len()) || (a < fs.len()
        && gs[a].data_id == fs[a].data_id) by {}
    assert forall|a: int, b: int| 0 <= a < b < gs.len() implies #[trigger] gs[a].data_id < #[trigger] gs[b].data_id by {
        if b == fs.len() {
            assert(fs[a].data_id < data[i].2);
        } else {
            assert(fs[a].data_id < fs[b].data_id);
        }
    }
    assert forall|a: int, k: int| 0 <= a < gs.len() && i + 1 <= k < data.len() implies #[trigger] gs[a].data_id
        < #[trigger] data[k].2 by {
        if a == fs.len() {
            assert(data[i].2 < data[k].2);
        } else {
            assert(fs[a].data_id < data[k].2);
        }
    }
}

proof fn lemma_step_uniform(pre: &BmorState, post: &BmorState, data: Seq<(u64, Vec<u32>, usize)>, i: int, u: u64, ok: bool)
    requires
        pre.wf(),
        0 <= i < data.len(),
        data[i].1@.len() == pre.facilities().dim(),
        BmorState::step(pre, post, data[i].2, data[i].1@, data[i].0, u, ok),
        forall|k: int, l: int| 0 <= k < data.len() && 0 <= l < data.len() ==> #[trigger] data[k].1@ == #[trigger] data[l].1@,
        forall|a: int, k: int|
            0 <= a < pre.facilities()@.len() && 0 <= k < data.len() ==> (#[trigger] pre.facilities()@[a]).center
                == (#[trigger] data[k]).1@,
    ensures
        ok,
        post.cost() == pre.cost(),
        post.facilities()@.len() == if pre.facilities()@.len() == 0 {
            1
        } else {
            pre.facilities()@.len()
        },
        forall|a: int, k: int|
            0 <= a < post.facilities()@.len() && 0 <= k < data.len() ==> (#[trigger] post.facilities()@[a]).center
                == (#[trigger] data[k]).1@,
{
    let fs = pre.facilities()@;
    let gs = post.facilities()@;
    let m = pre.facilities().metric();
    let p = data[i].1@;
    let w = data[i].0;
    if fs.len() > 0 {
        let cs = centers_of(fs);
        lemma_nearest_in(m, cs, p, fs.len() as int);
        let r = nearest_rank(m, cs, p);
        assert(fs[r].center == data[i].1@);
        lemma_dist_symmetric_self(m, p, p);
        assert(m.dist(fs[r].center, p) == 0);
        assert(w * 0nat * (pre.oneplogn() as nat) * draw_range() == 0) by (nonlinear_arith);
        assert(!opens(u, w, 0, pre.oneplogn() as nat, pre.li()));
        assert(w * 0nat == 0) by (nonlinear_arith);
        assert forall|a: int, k: int| 0 <= a < gs.len() && 0 <= k < data.len() implies (#[trigger] gs[a]).center
            == (#[trigger] data[k]).1@ by {
            assert(fs[a].center == data[k].1@);
        }
    } else {
        assert forall|a: int, k: int| 0 <= a < gs.len() && 0 <= k < data.len() implies (#[trigger] gs[a]).center
            == (#[trigger] data[k]).1@ by {
            assert(data[i].1@ == data[k].1@);
        }
    }
}

/// `data` holds the facilities `fs` as weighted points `(weight, center, id)`, in rank order.
pub open spec fn snapshot_of(data: Seq<(u64, Vec<u32>, usize)>, fs: Seq<FacilityView>) -> bool {
    &&& data.len() == fs.len()
    &&& forall|k: int|
        0 <= k < data.len() ==> (#[trigger] data[k]).0 == fs[k].weight && data[k].1@ == fs[k].center && data[k].2
            == fs[k].data_id
}

/// Some draw takes `states[k]` to `states[k + 1]` by inserting the `k`-th weighted point.
pub open spec fn chain_link(states: Seq<BmorState>, data: Seq<(u64, Vec<u32>, usize)>, k: int) -> bool {
    exists|u: u64, ok: bool| #[trigger] BmorState::step(&states[k], &states[k + 1], data[k].2, data[k].1@, data[k].0, u, ok)
}

/// `states` inserts the weighted points `data` one after the other, each by a `step`.
pub open spec fn step_chain(states: Seq<BmorState>, data: Seq<(u64, Vec<u32>, usize)>) -> bool {
    &&& states.len() == data.len() + 1
    &&& forall|k: int| 0 <= k < data.len() ==> #[trigger] chain_link(states, data, k)
}

/// All points are equal.
pub open spec fn all_equal(data: Seq<Vec<u32>>) -> bool {
    forall|i: int, j: int| 0 <= i < data.len() && 0 <= j < data.len() ==> #[trigger] data[i]@ == #[trigger] data[j]@
}

/// The points with their ids, as `(id, point)` pairs.
pub open spec fn labelled_points(data: Seq<Vec<u32>>, ids: Seq<usize>) -> Seq<(usize, Seq<u32>)> {
    Seq::new(data.len(), |k: int| (ids[k], data[k]@))
}

/// `floor(gamma * (1 + floor(log2 n)) * k)`.
pub open spec fn facility_bound_of(k: nat, n: nat, gamma: Ratio) -> nat {
    ((gamma.num * (1 + log2_floor(n)) * k) as nat / gamma.den as nat) as nat
}

/// The streaming engine's parameters.
pub struct Bmor {
    // number of centers expected
    k: usize,
    nbdata_expected: usize,
    // growth factor of the cost scales at each phase restart
    beta: Ratio,
    // slackness on the number of facilities and on the first cost ceiling
    gamma: Ratio,
    distance: Metric,
    dim: usize,
}

impl Bmor {
    pub closed spec fn k(&self) -> usize {
        self.k
    }

    pub closed spec fn nbdata(&self) -> usize {
        self.nbdata_expected
    }

    pub closed spec fn beta(&self) -> Ratio {
        self.beta
    }

    pub closed spec fn gamma(&self) -> Ratio {
        self.gamma
    }

    pub closed spec fn metric(&self) -> Metric {
        self.distance
    }

    pub closed spec fn dim(&self) -> usize {
        self.dim
    }

    pub open spec fn wf(&self) -> bool {
        &&& self.k() >= 1
        &&& self.nbdata() >= 1
        &&& self.beta().at_least_one()
        &&& self.gamma().at_least_one()
        &&& self.dim() <= MAX_DIM
    }

    /// The parameters are accepted exactly when they are in range.
    pub open spec fn valid_params(k: usize, nbdata: usize, beta: Ratio, gamma: Ratio, dim: usize) -> bool {
        k >= 1 && nbdata >= 1 && beta.at_least_one() && gamma.at_least_one() && dim <= MAX_DIM
    }

    /// An engine for about `nbdata` points of dimension `dim`, aiming at `k` centers.
    pub fn new(k: usize, nbdata: usize, beta: Ratio, gamma: Ratio, distance: Metric, dim: usize) -> (r: Result<Self, BmorError>)
        ensures
            r is Ok <==> Self::valid_params(k, nbdata, beta, gamma, dim),
            r is Err ==> r == Err::<Self, BmorError>(BmorError::ParameterError),
            r is Ok ==> ({
                let b = r.unwrap();
                &&& b.wf()
                &&& b.k() == k
                &&& b.nbdata() == nbdata
                &&& b.beta() == beta
                &&& b.gamma() == gamma
                &&& b.metric() == distance
                &&& b.dim() == dim
            }),
    {
        if k == 0 || nbdata == 0 || beta.den == 0 || beta.num < beta.den || gamma.den == 0
            || gamma.num < gamma.den || dim > MAX_DIM {
            return Err(BmorError::ParameterError);
        }
        Ok(Bmor { k, nbdata_expected: nbdata, beta, gamma, distance, dim })
    }

    /// Whether a state belongs to this engine's runs.
    pub open spec fn runs(&self, s: &BmorState) -> bool {
        &&& s.facilities().metric() == self.metric()
        &&& s.facilities().dim() == self.dim()
    }

    /// Inserts one weighted point into the state; returns whether the budgets still hold.
    pub(crate) fn add_data(&self, state: &mut BmorState, rank_id: usize, data: &Vec<u32>, weight: u64) -> (ok: bool)
        requires
            old(state).consistent(),
            data@.len() == old(state).facilities().dim(),
            old(state).abs_weight() + weight <= u64::MAX,
        ensures
            final(state).consistent(),
            exists|u: u64| BmorState::step(old(state), final(state), rank_id, data@, weight, u, ok),
    {
        state.update(rank_id, data, weight)
    }

    /// Processes weighted points `(weight, point, id)` in order. When an insertion breaks the
    /// phase's budgets, the registry is reprocessed as weighted points in a new phase whose
    /// cost scale and ceiling are raised by `beta`, and the stream goes on. Facilities are
    /// always points of the stream or earlier facilities, with their ids.
    pub fn process_weighted_block(&self, state: &mut BmorState, data: &Vec<(u64, Vec<u32>, usize)>) -> (r: Result<(), BmorError>)
        requires
            self.wf(),
            old(state).wf(),
            self.runs(old(state)),
            forall|i: int| 0 <= i < data@.len() ==> (#[trigger] data@[i]).1@.len() == self.dim(),
            old(state).abs_weight() + batch_weight(data@, data@.len() as int) <= u64::MAX,
        ensures
            final(state).consistent(),
            self.runs(final(state)),
            final(state).oneplogn() == old(state).oneplogn(),
            final(state).bound() == old(state).bound(),
            final(state).phase() >= old(state).phase(),
            final(state).li() == scaled(self.beta(), old(state).li() as nat, (final(state).phase() - old(state).phase()) as nat),
            final(state).cost_upper() == scaled(
                self.beta(),
                old(state).cost_upper() as nat,
                (final(state).phase() - old(state).phase()) as nat,
            ),
            from_pool(final(state).facilities()@, fs_pool(old(state).facilities()@) + batch_pool(data@)),
            ids_in_order(old(state).facilities()@, data@) ==> ids_increasing(final(state).facilities()@),
            uniform_block(old(state).facilities()@, data@) ==> {
                &&& r is Ok
                &&& final(state).phase() == old(state).phase()
                &&& final(state).cost() == old(state).cost()
                &&& final(state).facilities()@.len() == if old(state).facilities()@.len() == 0 && data@.len() > 0 {
                    1
                } else {
                    old(state).facilities()@.len()
                }
            },
            r is Ok ==> final(state).wf(),
            r is Ok ==> final(state).abs_weight() == old(state).abs_weight() + batch_weight(
                data@,
                data@.len() as int,
            ),
            r is Err ==> r == Err::<(), BmorError>(BmorError::ScaleOverflow),
            r is Err ==> !final(state).within_budget() && !can_restart(final(state), self.beta()),
        decreases u64::MAX - old(state).phase(),
    {
        let ghost s0 = *state;
        let ghost n = data@.len() as int;
        let ghost pool = fs_pool(s0.facilities()@) + batch_pool(data@);
        let ghost m = self.metric();
        proof {
            lemma_from_pool_start(s0.facilities()@, batch_pool(data@));
        }
        let mut i: usize = 0;
        while i < data.len()
            invariant
                self.wf(),
                state.wf(),
                self.runs(state),
                m == self.metric(),
                i <= n,
                n == data@.len(),
                forall|j: int| 0 <= j < data@.len() ==> (#[trigger] data@[j]).1@.len() == self.dim(),
                s0.abs_weight() + batch_weight(data@, n) <= u64::MAX,
                state.oneplogn() == s0.oneplogn(),
                state.bound() == s0.bound(),
                state.phase() >= s0.phase(),
                state.li() == scaled(self.beta(), s0.li() as nat, (state.phase() - s0.phase()) as nat),
                state.cost_upper() == scaled(self.beta(), s0.cost_upper() as nat, (state.phase() - s0.phase()) as nat),
                state.abs_weight() == s0.abs_weight() + batch_weight(data@, i as int),
                s0 == *old(state),
                pool == fs_pool(s0.facilities()@) + batch_pool(data@),
                from_pool(state.facilities()@, pool),
                ids_in_order(s0.facilities()@, data@) ==> ids_increasing(state.facilities()@) && ids_below(
                    state.facilities()@,
                    data@,
                    i as int,
                ),
                uniform_block(s0.facilities()@, data@) ==> {
                    &&& state.phase() == s0.phase()
                    &&& state.cost() == s0.cost()
                    &&& state.facilities()@.len() == if s0.facilities()@.len() == 0 && i > 0 {
                        1
                    } else {
                        s0.facilities()@.len()
                    }
                    &&& forall|a: int, k: int|
                        0 <= a < state.facilities()@.len() && 0 <= k < n ==> (#[trigger] state.facilities()@[a]).center
                            == (#[trigger] data@[k]).1@
                },
            decreases n - i,
        {
            proof {
                lemma_batch_weight_mono(data@, i as int + 1, n);
            }
            let ghost pre = *state;
            let ok = self.add_data(state, data[i].2, &data[i].1, data[i].0);
            proof {
                let u = choose|u: u64| BmorState::step(&pre, state, data@[i as int].2, data@[i as int].1@, data@[i as int].0, u, ok);
                assert(pool[s0.facilities()@.len() + i] == (data@[i as int].2, data@[i as int].1@));
                lemma_step_pool(&pre, state, data@[i as int].2, data@[i as int].1@, data@[i as int].0, u, ok, pool, s0.facilities()@.len() + i);
                if ids_in_order(s0.facilities()@, data@) {
                    lemma_step_ids(&pre, state, data@, i as int, u, ok);
                }
                if uniform_block(s0.facilities()@, data@) {
                    lemma_step_uniform(&pre, state, data@, i as int, u, ok);
                }
            }
            if !ok {
                let weighted_data = state.centers.get_weighted_points();
                proof {
                    lemma_batch_weight_of_facilities(
                        weighted_data@,
                        state.facilities()@,
                        weighted_data@.len() as int,
                    );
                    assert(state.facilities()@.take(weighted_data@.len() as int) =~= state.facilities()@);
                    assert forall|j: int| 0 <= j < weighted_data@.len() implies (#[trigger] weighted_data@[j]).1@.len()
                        == self.dim() by {
                        assert(state.facilities()@[j].center.len() == state.facilities().dim());
                    }
                    assert(batch_pool(weighted_data@) =~= fs_pool(state.facilities()@));
                }
                if state.phase == u64::MAX {
                    return Err(BmorError::ScaleOverflow);
                }
                let li = match scale_up(state.li as u128, self.beta) {
                    Some(x) => x,
                    None => {
                        return Err(BmorError::ScaleOverflow);
                    },
                };
                if li > u64::MAX as u128 {
                    return Err(BmorError::ScaleOverflow);
                }
                let upper = match scale_up(state.phase_cost_upper, self.beta) {
                    Some(x) => x,
                    None => {
                        return Err(BmorError::ScaleOverflow);
                    },
                };
                let ghost before = *state;
                proof {
                    assert(li as nat >= state.li()) by (nonlinear_arith)
                        requires
                            li as nat == self.beta().scale_up(state.li() as nat),
                            self.beta().num >= self.beta().den,
                            self.beta().den > 0,
                    ;
                }
                state.reinit(li as u64, upper);
                proof {
                    assert(state.li() == scaled(self.beta(), s0.li() as nat, (state.phase() - s0.phase()) as nat));
                    assert(state.cost_upper() == scaled(self.beta(), s0.cost_upper() as nat, (state.phase() - s0.phase()) as nat));
                    assert(state.facilities()@ =~= Seq::<FacilityView>::empty());
                    assert(fs_pool(state.facilities()@) + batch_pool(weighted_data@) =~= batch_pool(weighted_data@));
                    if ids_in_order(s0.facilities()@, data@) {
                        assert(ids_in_order(state.facilities()@, weighted_data@));
                    }
                }
                let ghost mid = *state;
                match self.process_weighted_block(state, &weighted_data) {
                    Ok(()) => {},
                    Err(e) => {
                        proof {
                            lemma_scaled_add(self.beta(), s0.li() as nat, (mid.phase() - s0.phase()) as nat, (state.phase() - mid.phase()) as nat);
                            lemma_scaled_add(self.beta(), s0.cost_upper() as nat, (mid.phase() - s0.phase()) as nat, (state.phase() - mid.phase()) as nat);
                            lemma_from_pool_trans(state.facilities()@, before.facilities()@, pool);
                        }
                        return Err(e);
                    },
                }
                proof {
                    lemma_scaled_add(self.beta(), s0.li() as nat, (mid.phase() - s0.phase()) as nat, (state.phase() - mid.phase()) as nat);
                    lemma_scaled_add(self.beta(), s0.cost_upper() as nat, (mid.phase() - s0.phase()) as nat, (state.phase() - mid.phase()) as nat);
                    lemma_from_pool_trans(state.facilities()@, before.facilities()@, pool);
                    if ids_in_order(s0.facilities()@, data@) {
                        lemma_ids_below_sub(state.facilities()@, before.facilities()@, data@, i as int + 1);
                    }
                }
            }
            i = i + 1;
        }
        Ok(())
    }

    /// Runs a fresh state over `data` with unit weights, ids being the ranks in `data`.
    pub fn process_block(&self, data: &Vec<Vec<u32>>) -> (r: Result<BmorState, BmorError>)
        requires
            self.wf(),
            forall|i: int| 0 <= i < data@.len() ==> (#[trigger] data@[i])@.len() == self.dim(),
        ensures
            r is Err ==> r == Err::<BmorState, BmorError>(BmorError::ScaleOverflow),
            r is Ok ==> ({
                let s = r.unwrap();
                &&& s.wf()
                &&& self.runs(&s)
                &&& s.abs_weight() == data@.len()
                &&& s.bound() == facility_bound_of(self.k() as nat, self.nbdata() as nat, self.gamma())
                &&& s.oneplogn() == (1 + log2_floor(self.nbdata() as nat)) * self.k()
                &&& s.li() == scaled(self.beta(), 1, s.phase() as nat)
                &&& s.cost_upper() == scaled(self.beta(), self.gamma().scale_up(1), s.phase() as nat)
                &&& ids_increasing(s.facilities()@)
                &&& forall|a: int|
                    0 <= a < s.facilities()@.len() ==> (#[trigger] s.facilities()@[a]).data_id < data@.len()
                        && s.facilities()@[a].center == data@[s.facilities()@[a].data_id as int]@
            }),
            all_equal(data@) ==> ({
                &&& r is Ok
                &&& r.unwrap().facilities()@.len() == if data@.len() == 0 {
                    0int
                } else {
                    1
                }
                &&& r.unwrap().cost() == 0
                &&& r.unwrap().phase() == 0
            }),
    {
        let mut ids: Vec<usize> = Vec::with_capacity(data.len());
        let mut i: usize = 0;
        while i < data.len()
            invariant
                i <= data@.len(),
                ids@.len() == i,
                forall|j: int| 0 <= j < i ==> ids@[j] == j,
            decreases data@.len() - i,
        {
            ids.push(i);
            i = i + 1;
        }
        let r = self.process_data(data, &ids);
        proof {
            if r is Ok {
                let fs = r.unwrap().facilities()@;
                let pool = labelled_points(data@, ids@);
                assert forall|a: int| 0 <= a < fs.len() implies (#[trigger] fs[a]).data_id < data@.len()
                    && fs[a].center == data@[fs[a].data_id as int]@ by {
                    let j = choose|j: int| 0 <= j < pool.len() && #[trigger] pool[j] == (fs[a].data_id, fs[a].center);
                    assert(pool[j] == (ids@[j], data@[j]@));
                }
            }
        }
        r
    }

    /// Runs a fresh phase-0 state over `data` with unit weights, `ids[i]` being the id of
    /// `data[i]`. The facility bound is `facility_bound_of(k, n, gamma)` and the first cost
    /// ceiling is `gamma` rounded up.
    pub fn process_data(&self, data: &Vec<Vec<u32>>, ids: &Vec<usize>) -> (r: Result<BmorState, BmorError>)
        requires
            self.wf(),
            ids@.len() == data@.len(),
            forall|i: int| 0 <= i < data@.len() ==> (#[trigger] data@[i])@.len() == self.dim(),
        ensures
            r is Err ==> r == Err::<BmorState, BmorError>(BmorError::ScaleOverflow),
            r is Ok ==> ({
                let s = r.unwrap();
                &&& s.wf()
                &&& self.runs(&s)
                &&& s.abs_weight() == data@.len()
                &&& s.bound() == facility_bound_of(self.k() as nat, self.nbdata() as nat, self.gamma())
                &&& s.oneplogn() == (1 + log2_floor(self.nbdata() as nat)) * self.k()
                &&& s.li() == scaled(self.beta(), 1, s.phase() as nat)
                &&& s.cost_upper() == scaled(self.beta(), self.gamma().scale_up(1), s.phase() as nat)
                &&& from_pool(s.facilities()@, labelled_points(data@, ids@))
                &&& (forall|k: int, l: int| 0 <= k < l < ids@.len() ==> #[trigger] ids@[k] < #[trigger] ids@[l])
                    ==> ids_increasing(s.facilities()@)
            }),
            all_equal(data@) ==> ({
                &&& r is Ok
                &&& r.unwrap().facilities()@.len() == if data@.len() == 0 {
                    0int
                } else {
                    1
                }
                &&& r.unwrap().cost() == 0
                &&& r.unwrap().phase() == 0
            }),
    {
        let lg = ilog2(self.nbdata_expected);
        let g = self.gamma;
        assert(g.num * (1 + lg) * self.k <= 4294967295 * 64 * 18446744073709551615) by (nonlinear_arith)
            requires
                g.num <= 4294967295,
                lg < 64,
                self.k <= 18446744073709551615,
        ;
        assert(g.num * (1 + lg) <= 4294967295 * 64) by (nonlinear_arith)
            requires
                g.num <= 4294967295,
                lg < 64,
        ;
        assert(g.num * (1 + lg) * self.k >= g.den) by (nonlinear_arith)
            requires
                g.num >= g.den,
                self.k >= 1,
        ;
        let bound: u128 = ((g.num as u128) * (1 + lg as u128) * (self.k as u128)) / (g.den as u128);
        assert(bound >= 1) by (nonlinear_arith)
            requires
                bound == (g.num * (1 + lg) * self.k) as nat / g.den as nat,
                g.num * (1 + lg) * self.k >= g.den,
                g.den > 0,
        ;
        let upper: u128 = ((g.num as u128) + (g.den as u128) - 1) / (g.den as u128);
        let alloc: usize = if bound <= 1024 {
            bound as usize
        } else {
            1024
        };
        let mut state = BmorState::new(self.k, self.nbdata_expected, alloc, upper, bound, self.distance, self.dim);
        let mut weighted_data: Vec<(u64, Vec<u32>, usize)> = Vec::with_capacity(data.len());
        let mut i: usize = 0;
        while i < data.len()
            invariant
                i <= data@.len(),
                ids@.len() == data@.len(),
                weighted_data@.len() == i,
                forall|j: int| 0 <= j < data@.len() ==> (#[trigger] data@[j])@.len() == self.dim(),
                forall|j: int|
                    0 <= j < i ==> (#[trigger] weighted_data@[j]).0 == 1 && weighted_data@[j].1@
                        == data@[j]@ && weighted_data@[j].2 == ids@[j],
                batch_weight(weighted_data@, i as int) == i,
            decreases data@.len() - i,
        {
            let ghost prev = weighted_data@;
            weighted_data.push((1, copy_point(&data[i]), ids[i]));
            proof {
                lemma_batch_weight_prefix(prev, weighted_data@, i as int);
            }
            i = i + 1;
        }
        proof {
            assert(batch_pool(weighted_data@) =~= labelled_points(data@, ids@));
            assert(fs_pool(state.facilities()@) + batch_pool(weighted_data@) =~= labelled_points(data@, ids@));
            assert(scaled(self.beta(), 1, 0) == 1);
            assert(upper as nat == self.gamma().scale_up(1));
            if all_equal(data@) {
                assert(uniform_block(state.facilities()@, weighted_data@));
            }
        }
        match self.process_weighted_block(&mut state, &weighted_data) {
            Ok(()) => Ok(state),
            Err(e) => Err(e),
        }
    }
    /// Ends the stream and hands out the registry. With `contract`, the facilities are first
    /// reinserted as weighted points into an emptied registry at the same phase, in one pass
    /// without restarts, which merges facilities that lie close to each other.
    pub fn end_data(&self, state: BmorState, contract: bool) -> (r: Facilities)
        requires
            self.wf(),
            state.wf(),
            self.runs(&state),
        ensures
            r.wf(),
            r.metric() == self.metric(),
            r.dim() == self.dim(),
            sum_weights(r@) == state.abs_weight(),
            !contract ==> r@ == state.facilities()@,
            contract ==> exists|data: Seq<(u64, Vec<u32>, usize)>, states: Seq<BmorState>|
                snapshot_of(data, state.facilities()@) && step_chain(states, data) && states[0].facilities()@.len()
                    == 0 && states[0].same_phase(&state) && states[0].abs_weight() == 0 && states[0].cost() == 0
                    && r@ == states.last().facilities()@,
    {
        let mut state = state;
        if !contract {
            return state.centers;
        }
        let ghost total = state.abs_weight();
        let weighted_data = state.centers.get_weighted_points();
        proof {
            lemma_batch_weight_of_facilities(weighted_data@, state.facilities()@, weighted_data@.len() as int);
            assert(state.facilities()@.take(weighted_data@.len() as int) =~= state.facilities()@);
            assert forall|j: int| 0 <= j < weighted_data@.len() implies (#[trigger] weighted_data@[j]).1@.len()
                == self.dim() by {
                assert(state.facilities()@[j].center.len() == state.facilities().dim());
            }
        }
        let ghost fs_before = state.facilities()@;
        let ghost s_before = state;
        state.clear_registry();
        let ghost mut states: Seq<BmorState> = seq![state];
        let mut i: usize = 0;
        while i < weighted_data.len()
            invariant
                snapshot_of(weighted_data@, fs_before),
                states.len() == i + 1,
                states.last() == state,
                states[0].facilities()@.len() == 0,
                states[0].same_phase(&s_before),
                states[0].abs_weight() == 0,
                states[0].cost() == 0,
                forall|k: int| 0 <= k < i ==> #[trigger] chain_link(states, weighted_data@, k),
                state.consistent(),
                self.runs(&state),
                i <= weighted_data@.len(),
                forall|j: int| 0 <= j < weighted_data@.len() ==> (#[trigger] weighted_data@[j]).1@.len() == self.dim(),
                batch_weight(weighted_data@, weighted_data@.len() as int) == total,
                total <= u64::MAX,
                state.abs_weight() == batch_weight(weighted_data@, i as int),
            decreases weighted_data@.len() - i,
        {
            proof {
                lemma_batch_weight_mono(weighted_data@, i as int + 1, weighted_data@.len() as int);
            }
            let ghost pre = state;
            let ok = state.update(weighted_data[i].2, &weighted_data[i].1, weighted_data[i].0);
            proof {
                let old_states = states;
                states = states.push(state);
                assert forall|k: int| 0 <= k < i + 1 implies #[trigger] chain_link(states, weighted_data@, k) by {
                    assert(states[k] == old_states[k] || k == i);
                    if k < i {
                        assert(chain_link(old_states, weighted_data@, k));
                        assert(states[k + 1] == old_states[k + 1]);
                    } else {
                        let u = choose|u: u64| BmorState::step(&pre, &state, weighted_data@[k].2, weighted_data@[k].1@, weighted_data@[k].0, u, ok);
                        assert(states[k] == pre);
                        assert(BmorState::step(&states[k], &states[k + 1], weighted_data@[k].2, weighted_data@[k].1@, weighted_data@[k].0, u, ok));
                    }
                }
            }
            i = i + 1;
        }
        proof {
            assert(snapshot_of(weighted_data@, fs_before) && step_chain(states, weighted_data@));
        }
        state.centers
    }
}

} // verus!
