//! Two-pass coreset: a streaming pass summarises the data by facilities, then each point is
//! sampled with a probability that mixes its share of the cost and its facility's share of
//! the points, and weighted by the inverse of that probability.

use vstd::prelude::*;

use crate::bmor::{Bmor, BmorError, Ratio};
use crate::distance::{Metric, DIST_BOUND, MAX_DIM};
use crate::facility::{
    centers_of, dispatched, lemma_nearest_in, lemma_unit_total_weight, nearest_rank, points_of, sum_weights,
    total_cost, total_weight, weights_of, FacilityView,
};
use crate::rng::{next_draw, seeded_rng};

verus! {

/// Seed of the generator behind the sampling draws.
pub const CORESET_SEED: u64 = 4664397;

/// Probabilities and weights are held as multiples of `2^-32`.
pub open spec fn unit() -> nat {
    4294967296
}

/// Sampling probability of a point, in units of `2^-32`: half of the target size `s` times
/// its share `d / phi` of the total cost, plus half of `s` times its facility's share
/// `1 / (nf * wf)` of the points (a share with a zero denominator counts as 0).
pub open spec fn sampling_prob(s: nat, d: nat, phi: nat, nf: nat, wf: nat) -> nat {
    (if phi > 0 {
        ((s * d * 2147483648) as int / phi as int) as nat
    } else {
        0
    }) + (if nf * wf > 0 {
        ((s * 2147483648) as int / (nf * wf) as int) as nat
    } else {
        0
    })
}

/// The point's sampling probability (see `sampling_prob`).
pub fn point_probability(s: u32, d: u64, phi: u128, nf: u64, wf: u64) -> (q: u128)
    requires
        d < DIST_BOUND,
    ensures
        q == sampling_prob(s as nat, d as nat, phi as nat, nf as nat, wf as nat),
{
    assert(s * d <= 4294967295 * 4503599627370496) by (nonlinear_arith)
        requires
            s <= 4294967295,
            d <= 4503599627370496,
    ;
    assert(s * d * 2147483648 <= 4294967295 * 4503599627370496 * 2147483648) by (nonlinear_arith)
        requires
            s * d <= 4294967295 * 4503599627370496,
    ;
    let t1: u128 = if phi > 0 {
        (s as u128) * (d as u128) * 2147483648u128 / phi
    } else {
        0
    };
    assert(nf * wf <= 18446744073709551615 * 18446744073709551615) by (nonlinear_arith)
        requires
            nf <= 18446744073709551615,
            wf <= 18446744073709551615,
    ;
    let denom: u128 = (nf as u128) * (wf as u128);
    let t2: u128 = if denom > 0 {
        (s as u128) * 2147483648u128 / denom
    } else {
        0
    };
    proof {
        if phi > 0 {
            assert(t1 <= s * d * 2147483648) by (nonlinear_arith)
                requires
                    t1 == (s * d * 2147483648) / (phi as int),
                    phi >= 1,
            ;
        }
        if denom > 0 {
            assert(t2 <= s * 2147483648) by (nonlinear_arith)
                requires
                    t2 == (s * 2147483648) / (denom as int),
                    denom >= 1,
            ;
        }
    }
    t1 + t2
}

/// With draw `u`, a point of probability `q` (units of `2^-32`) is kept when
/// `u / 2^64 < q / 2^32`; it then weighs `1 / q`, that is `2^64 / q` units of `2^-32`.
pub fn sample_point(u: u64, q: u128) -> (r: Option<u128>)
    ensures
        r is Some <==> (q > 0 && u < q * unit()),
        r is Some ==> r.unwrap() == ((unit() * unit()) as int / q as int),
{
    if q == 0 {
        return None;
    }
    if q >= 4294967296 || (u as u128) < q * 4294967296u128 {
        proof {
            if q >= 4294967296 {
                assert(q * unit() >= unit() * unit()) by (nonlinear_arith)
                    requires
                        q >= unit(),
                ;
            }
        }
        Some(18446744073709551616u128 / q)
    } else {
        None
    }
}

/// Sampling probability of point `i` of `pts` over the dispatched facilities `fs`, for a
/// target size `s` (see `sampling_prob`).
pub open spec fn coreset_prob(m: Metric, fs: Seq<FacilityView>, pts: Seq<Seq<u32>>, s: nat, i: int) -> nat {
    let cs = centers_of(fs);
    let r = nearest_rank(m, cs, pts[i]);
    sampling_prob(s, m.dist(cs[r], pts[i]), total_cost(m, cs, pts, None, pts.len() as int), fs.len(), fs[r].weight as nat)
}

/// `entries` is a sample of `pts` over the facilities `fs`: each entry is a point with
/// positive probability, weighted by the inverse of it, and every point of probability at
/// least one is in.
pub open spec fn sampled_from(entries: Seq<(usize, u128)>, m: Metric, fs: Seq<FacilityView>, pts: Seq<Seq<u32>>, s: nat) -> bool {
    &&& forall|j: int|
        0 <= j < entries.len() ==> {
            let q = coreset_prob(m, fs, pts, s, (#[trigger] entries[j]).0 as int);
            &&& q > 0
            &&& entries[j].1 == (unit() * unit()) as int / q as int
        }
    &&& forall|i: int|
        0 <= i < pts.len() && coreset_prob(m, fs, pts, s, i) >= unit() ==> exists|j: int|
            0 <= j < entries.len() && (#[trigger] entries[j]).0 == i
}

/// A weighted sample of the data: `(data id, weight in units of 2^-32)`, ids increasing.
pub struct CoreSet {
    entries: Vec<(usize, u128)>,
    nb_points: usize,
}

impl CoreSet {
    pub closed spec fn entries(&self) -> Seq<(usize, u128)> {
        self.entries@
    }

    pub closed spec fn nb_points(&self) -> usize {
        self.nb_points
    }

    /// Number of sampled points.
    pub fn len(&self) -> (r: usize)
        ensures
            r == self.entries().len(),
    {
        self.entries.len()
    }

    /// The `i`-th sampled point and its weight.
    pub fn get(&self, i: usize) -> (r: Option<(usize, u128)>)
        ensures
            i < self.entries().len() <==> r is Some,
            r is Some ==> r.unwrap() == self.entries()[i as int],
    {
        if i < self.entries.len() {
            Some(self.entries[i])
        } else {
            None
        }
    }

    /// Number of points the sample was drawn from.
    pub fn get_nb_points(&self) -> (r: usize)
        ensures
            r == self.nb_points(),
    {
        self.nb_points
    }
}

/// The two-pass coreset builder.
pub struct Coreset1 {
    bmor: Bmor,
}

impl Coreset1 {
    pub closed spec fn engine(&self) -> Bmor {
        self.bmor
    }

    /// A builder whose first pass runs `Bmor::new(k, nbdata, beta, gamma, distance, dim)`.
    pub fn new(k: usize, nbdata: usize, beta: Ratio, gamma: Ratio, distance: Metric, dim: usize) -> (r: Result<Self, BmorError>)
        ensures
            r is Ok <==> Bmor::valid_params(k, nbdata, beta, gamma, dim),
            r is Err ==> r == Err::<Self, BmorError>(BmorError::ParameterError),
            r is Ok ==> r.unwrap().engine().wf() && r.unwrap().engine().dim() == dim && r.unwrap().engine().metric()
                == distance,
    {
        match Bmor::new(k, nbdata, beta, gamma, distance, dim) {
            Ok(bmor) => Ok(Coreset1 { bmor }),
            Err(e) => Err(e),
        }
    }

    /// Builds a coreset of about `target` points of `data` (ids are ranks in `data`): the
    /// first pass summarises `data` by facilities and dispatches it to them; the second keeps
    /// each point as `sample_point` decides with its `point_probability` and a fresh draw of a
    /// generator seeded with `CORESET_SEED`.
    pub fn make_coreset(&self, data: &Vec<Vec<u32>>, target: u32) -> (r: Result<CoreSet, BmorError>)
        requires
            self.engine().wf(),
            forall|i: int| 0 <= i < data@.len() ==> (#[trigger] data@[i])@.len() == self.engine().dim(),
        ensures
            r is Err ==> r == Err::<CoreSet, BmorError>(BmorError::ScaleOverflow),
            data@.len() == 0 ==> r is Ok,
            r is Ok && data@.len() > 0 ==> exists|fs0: Seq<FacilityView>, fs: Seq<FacilityView>|
                fs0.len() > 0 && dispatched(fs0, fs, self.engine().metric(), points_of(data@), None) && sampled_from(
                    r.unwrap().entries(),
                    self.engine().metric(),
                    fs,
                    points_of(data@),
                    target as nat,
                ),
            r is Ok ==> ({
                let c = r.unwrap();
                &&& c.nb_points() == data@.len()
                &&& c.entries().len() <= data@.len()
                &&& forall|j: int| 0 <= j < c.entries().len() ==> (#[trigger] c.entries()[j]).0 < data@.len()
                &&& forall|j: int, k: int| 0 <= j < k < c.entries().len() ==> (#[trigger] c.entries()[j]).0
                    < (#[trigger] c.entries()[k]).0
            }),
    {
        let n = data.len();
        let state = match self.bmor.process_block(data) {
            Ok(s) => s,
            Err(e) => {
                return Err(e);
            },
        };
        let mut registry = self.bmor.end_data(state, false);
        let mut entries: Vec<(usize, u128)> = Vec::new();
        if n == 0 {
            return Ok(CoreSet { entries, nb_points: 0 });
        }
        proof {
            if registry@.len() == 0 {
                assert(sum_weights(registry@) == 0);
            }
            lemma_unit_total_weight(n as int);
            assert(weights_of(None::<&Vec<u64>>) == None::<Seq<u64>>);
            assert(total_weight(weights_of(None::<&Vec<u64>>), n as int) <= u64::MAX);
        }
        let ghost fs0 = registry@;
        let phi = registry.dispatch_data(data, None);
        let ghost m = registry.metric();
        let ghost pts = points_of(data@);
        let ghost fs = registry@;
        proof {
            assert(centers_of(fs) =~= centers_of(fs0));
        }
        let nf: u64 = registry.len() as u64;
        let mut rng = seeded_rng(CORESET_SEED);
        let mut i: usize = 0;
        while i < n
            invariant
                n == data@.len(),
                registry.wf(),
                registry@.len() > 0,
                registry.dim() == self.engine().dim(),
                forall|k: int| 0 <= k < data@.len() ==> (#[trigger] data@[k])@.len() == registry.dim(),
                i <= n,
                entries@.len() <= i,
                forall|j: int| 0 <= j < entries@.len() ==> (#[trigger] entries@[j]).0 < i,
                forall|j: int, k: int| 0 <= j < k < entries@.len() ==> (#[trigger] entries@[j]).0 < (#[trigger] entries@[k]).0,
                fs == registry@,
                m == registry.metric(),
                m == self.engine().metric(),
                pts == points_of(data@),
                fs0.len() > 0,
                dispatched(fs0, fs, m, pts, None),
                centers_of(fs) == centers_of(fs0),
                phi == total_cost(m, centers_of(fs), pts, None, n as int),
                nf == fs.len(),
                forall|j: int|
                    0 <= j < entries@.len() ==> {
                        let q = coreset_prob(m, fs, pts, target as nat, (#[trigger] entries@[j]).0 as int);
                        &&& q > 0
                        &&& entries@[j].1 == (unit() * unit()) as int / q as int
                    },
                forall|k: int|
                    0 <= k < i && coreset_prob(m, fs, pts, target as nat, k) >= unit() ==> exists|j: int|
                        0 <= j < entries@.len() && (#[trigger] entries@[j]).0 == k,
            decreases n - i,
        {
            let (rank, d) = match registry.get_nearest_facility(&data[i]) {
                Ok(rd) => rd,
                Err(_) => {
                    proof {
                        assert(false);
                    }
                    (0, 0)
                },
            };
            let wf: u64 = match registry.get_facility(rank) {
                Some(f) => f.get_weight(),
                None => 0,
            };
            proof {
                assert(pts[i as int] == data@[i as int]@);
                lemma_nearest_in(m, centers_of(fs), pts[i as int], fs.len() as int);
                assert(centers_of(fs)[rank as int] == fs[rank as int].center);
            }
            let q = point_probability(target, d, phi, nf, wf);
            assert(q == coreset_prob(m, fs, pts, target as nat, i as int));
            let u = next_draw(&mut rng);
            let ghost old_entries = entries@;
            match sample_point(u, q) {
                Some(w) => {
                    entries.push((i, w));
                    proof {
                        assert(entries@[old_entries.len() as int].0 == i);
                        assert forall|k: int|
                            0 <= k < i + 1 && coreset_prob(m, fs, pts, target as nat, k) >= unit() implies exists|j: int|
                                0 <= j < entries@.len() && (#[trigger] entries@[j]).0 == k by {
                            if k < i {
                                let j = choose|j: int| 0 <= j < old_entries.len() && (#[trigger] old_entries[j]).0 == k;
                                assert(entries@[j] == old_entries[j]);
                            } else {
                                assert(entries@[old_entries.len() as int].0 == k);
                            }
                        }
                    }
                },
                None => {
                    proof {
                        if q >= unit() {
                            assert(q * unit() >= unit() * unit()) by (nonlinear_arith)
                                requires
                                    q >= unit(),
                            ;
                        }
                    }
                },
            }
            i = i + 1;
        }
        let c = CoreSet { entries, nb_points: n };
        assert(sampled_from(c.entries(), m, fs, pts, target as nat));
        Ok(c)
    }
}

} // verus!
