//! Samples of distances that tell the scale of a data set.

use vstd::prelude::*;

use crate::distance::{Metric, MAX_DIM};
use crate::rng::{seeded_rng, uniform_below};

verus! {

/// Seed of the generator behind the pair sample.
pub const PAIR_SEED: u64 = 1454691;

/// Base of the seeds of the neighbourhood samples, one per anchor.
pub const NEIGHBOURHOOD_SEED: u64 = 14547;

/// All points have the dimension of the first, at most `MAX_DIM`.
pub open spec fn well_shaped(data: Seq<Vec<u32>>) -> bool {
    forall|i: int| 0 <= i < data.len() ==> (#[trigger] data[i])@.len() == data[0]@.len() && data[i]@.len() <= MAX_DIM
}

/// `floor(sqrt(n))`.
pub fn isqrt(n: usize) -> (r: usize)
    ensures
        r * r <= n < (r + 1) * (r + 1),
        r <= 4294967295,
{
    let mut r: usize = 0;
    loop
        invariant
            r * r <= n,
            r <= 4294967295,
        ensures
            r * r <= n < (r + 1) * (r + 1),
            r <= 4294967295,
        decreases n - r * r,
    {
        let next: u128 = r as u128 + 1;
        assert(next * next <= 4294967296 * 4294967296) by (nonlinear_arith)
            requires
                next <= 4294967296,
                next >= 1,
        ;
        if next * next > n as u128 {
            break;
        }
        assert((r + 1) * (r + 1) > r * r) by (nonlinear_arith);
        assert(r + 1 <= 4294967295) by (nonlinear_arith)
            requires
                (r + 1) * (r + 1) <= n,
                n <= 18446744073709551615,
        ;
        r = r + 1;
    }
    r
}

/// Distances of the pairs of distinct indices among `ps`, in order.
pub open spec fn pair_distances_spec(m: Metric, data: Seq<Vec<u32>>, ps: Seq<(usize, usize)>) -> Seq<u64>
    decreases ps.len(),
{
    if ps.len() == 0 {
        Seq::empty()
    } else {
        let rest = pair_distances_spec(m, data, ps.drop_last());
        let (i, j) = ps.last();
        if i != j {
            rest.push(m.dist(data[i as int]@, data[j as int]@) as u64)
        } else {
            rest
        }
    }
}

/// Every index of `ps` is below `n`.
pub open spec fn pairs_below(ps: Seq<(usize, usize)>, n: nat) -> bool {
    forall|k: int| 0 <= k < ps.len() ==> (#[trigger] ps[k]).0 < n && ps[k].1 < n
}

/// Number of pairs drawn for a sample of `nbsample_arg` among `n` points: at most `n * n`.
pub open spec fn sample_count(nbsample_arg: nat, n: nat) -> nat {
    if nbsample_arg < n * n {
        nbsample_arg
    } else {
        n * n
    }
}

/// The distances of the pairs `pairs` whose two indices differ, in order.
pub fn pair_distances(data: &Vec<Vec<u32>>, pairs: &Vec<(usize, usize)>, distance: Metric) -> (r: Vec<u64>)
    requires
        well_shaped(data@),
        pairs_below(pairs@, data@.len()),
    ensures
        r@ == pair_distances_spec(distance, data@, pairs@),
{
    let mut r: Vec<u64> = Vec::new();
    let mut k: usize = 0;
    while k < pairs.len()
        invariant
            well_shaped(data@),
            pairs_below(pairs@, data@.len()),
            k <= pairs@.len(),
            r@ == pair_distances_spec(distance, data@, pairs@.take(k as int)),
        decreases pairs@.len() - k,
    {
        let (i, j) = pairs[k];
        assert(pairs@.take(k + 1).drop_last() =~= pairs@.take(k as int));
        assert(pairs@.take(k + 1).last() == pairs@[k as int]);
        assert(pairs@[k as int].0 < data@.len() && pairs@[k as int].1 < data@.len());
        if i != j {
            assert(data@[i as int]@.len() == data@[0]@.len());
            assert(data@[j as int]@.len() == data@[0]@.len());
            let d = distance.eval(&data[i], &data[j]);
            r.push(d);
        }
        k = k + 1;
    }
    assert(pairs@.take(pairs@.len() as int) =~= pairs@);
    r
}

/// Distances between the pairs of distinct points among `min(nbsample_arg, n * n)` pairs of
/// indices drawn uniformly, with a generator seeded with `PAIR_SEED`.
pub fn scale_estimation(nbsample_arg: usize, data: &Vec<Vec<u32>>, distance: Metric) -> (r: Vec<u64>)
    requires
        well_shaped(data@),
    ensures
        exists|ps: Seq<(usize, usize)>|
            ps.len() == sample_count(nbsample_arg as nat, data@.len() as nat) && pairs_below(ps, data@.len())
                && r@ == pair_distances_spec(distance, data@, ps),
{
    let nbdata = data.len();
    if nbdata == 0 {
        let r: Vec<u64> = Vec::new();
        assert(r@ == pair_distances_spec(distance, data@, Seq::<(usize, usize)>::empty()));
        return r;
    }
    let mut rng = seeded_rng(PAIR_SEED);
    let nbsample: usize = match nbdata.checked_mul(nbdata) {
        Some(sq) => if nbsample_arg < sq {
            nbsample_arg
        } else {
            sq
        },
        None => nbsample_arg,
    };
    assert(nbsample == sample_count(nbsample_arg as nat, nbdata as nat));
    let mut pairs: Vec<(usize, usize)> = Vec::with_capacity(nbsample);
    let mut s: usize = 0;
    while s < nbsample
        invariant
            nbdata == data@.len(),
            nbdata > 0,
            s <= nbsample,
            pairs@.len() == s,
            pairs_below(pairs@, nbdata as nat),
        decreases nbsample - s,
    {
        let i = uniform_below(&mut rng, nbdata);
        let j = uniform_below(&mut rng, nbdata);
        pairs.push((i, j));
        s = s + 1;
    }
    pair_distances(data, &pairs, distance)
}

/// `pair` holds the smallest and the second smallest values of `d`, found at two distinct
/// positions.
pub open spec fn is_two_smallest(d: Seq<u64>, pair: (u64, u64)) -> bool {
    exists|a: int, b: int|
        0 <= a < d.len() && 0 <= b < d.len() && a != b && d[a] == pair.0 && d[b] == pair.1 && (forall|k: int|
            0 <= k < d.len() ==> pair.0 <= #[trigger] d[k]) && (forall|k: int|
            0 <= k < d.len() && k != a ==> pair.1 <= #[trigger] d[k])
}

/// The smallest and second smallest values of `d`.
pub fn two_smallest(d: &Vec<u64>) -> (r: (u64, u64))
    requires
        d@.len() >= 2,
    ensures
        is_two_smallest(d@, r),
{
    let (mut a, mut b): (usize, usize) = if d[1] < d[0] {
        (1, 0)
    } else {
        (0, 1)
    };
    let mut k: usize = 2;
    while k < d.len()
        invariant
            2 <= k <= d@.len(),
            a < k && b < k && a != b,
            forall|x: int| 0 <= x < k ==> d@[a as int] <= #[trigger] d@[x],
            forall|x: int| 0 <= x < k && x != a ==> d@[b as int] <= #[trigger] d@[x],
        decreases d@.len() - k,
    {
        if d[k] < d[a] {
            b = a;
            a = k;
        } else if d[k] < d[b] {
            b = k;
        }
        k = k + 1;
    }
    (d[a], d[b])
}

/// Distances from point `i` to the points of indices `js`, in order.
pub open spec fn dists_of(m: Metric, data: Seq<Vec<u32>>, i: int, js: Seq<usize>) -> Seq<u64> {
    js.map_values(|j: usize| m.dist(data[i]@, data[j as int]@) as u64)
}

/// `js` holds `s` distinct indices of points of `n`, none of them `i`.
pub open spec fn distinct_others(n: nat, i: int, js: Seq<usize>, s: nat) -> bool {
    &&& js.len() == s
    &&& forall|t: int| 0 <= t < js.len() ==> (#[trigger] js[t]) < n && js[t] != i
    &&& forall|t: int, u: int| 0 <= t < u < js.len() ==> js[t] != js[u]
}

/// `pair` is the smallest and second smallest distance from some point to `s` distinct
/// other points.
pub open spec fn neighbour_pair(m: Metric, data: Seq<Vec<u32>>, s: nat, pair: (u64, u64)) -> bool {
    exists|i: int, js: Seq<usize>|
        0 <= i < data.len() && distinct_others(data.len(), i, js, s) && is_two_smallest(dists_of(m, data, i, js), pair)
}

/// No value occurs twice in `p`.
pub open spec fn all_distinct(p: Seq<usize>) -> bool {
    forall|x: int, y: int| 0 <= x < y < p.len() ==> p[x] != p[y]
}

proof fn lemma_swap_distinct(p: Seq<usize>, t: int, u: int)
    requires
        0 <= t < p.len(),
        0 <= u < p.len(),
        all_distinct(p),
    ensures
        all_distinct(p.update(t, p[u]).update(u, p[t])),
{
    let q = p.update(t, p[u]).update(u, p[t]);
    assert forall|x: int, y: int| 0 <= x < y < p.len() implies #[trigger] q[x] != #[trigger] q[y] by {
        let sx = if x == u { t } else if x == t { u } else { x };
        let sy = if y == u { t } else if y == t { u } else { y };
        assert(q[x] == p[sx]);
        assert(q[y] == p[sy]);
        assert(sx != sy);
        if sx < sy {
            assert(p[sx] != p[sy]);
        } else {
            assert(p[sy] != p[sx]);
        }
    }
}

/// `s` distinct indices below `n`, none of them `i`, drawn without replacement.
fn draw_others(rng: &mut rand_xoshiro::Xoshiro256PlusPlus, n: usize, i: usize, s: usize) -> (js: Vec<usize>)
    requires
        i < n,
        s <= n - 1,
    ensures
        distinct_others(n as nat, i as int, js@, s as nat),
{
    let mut pool: Vec<usize> = Vec::with_capacity(n);
    let mut x: usize = 0;
    while x < n
        invariant
            i < n,
            x <= n,
            pool@.len() == if i < x { x - 1 } else { x as int },
            forall|t: int| 0 <= t < pool@.len() ==> (#[trigger] pool@[t]) < x && pool@[t] != i,
            forall|t: int, u: int| 0 <= t < u < pool@.len() ==> pool@[t] < pool@[u],
        decreases n - x,
    {
        if x != i {
            pool.push(x);
        }
        x = x + 1;
    }
    let len = pool.len();
    let mut t: usize = 0;
    while t < s
        invariant
            len == pool@.len(),
            len == n - 1,
            s <= len,
            t <= s,
            forall|a: int| 0 <= a < pool@.len() ==> (#[trigger] pool@[a]) < n && pool@[a] != i,
            all_distinct(pool@),
        decreases s - t,
    {
        let idx = t + uniform_below(rng, len - t);
        let a = pool[t];
        let b = pool[idx];
        proof {
            lemma_swap_distinct(pool@, t as int, idx as int);
        }
        let ghost before = pool@;
        pool.set(t, b);
        pool.set(idx, a);
        assert(pool@ == before.update(t as int, before[idx as int]).update(idx as int, before[t as int]));
        proof {
            assert forall|c: int| 0 <= c < pool@.len() implies (#[trigger] pool@[c]) < n && pool@[c] != i by {
                if c == t {
                    assert(pool@[c] == before[idx as int] || c == idx);
                }
            }
        }
        t = t + 1;
    }
    let mut js: Vec<usize> = Vec::with_capacity(s);
    let mut k: usize = 0;
    while k < s
        invariant
            len == pool@.len(),
            s <= len,
            k <= s,
            js@ == pool@.take(k as int),
        decreases s - k,
    {
        js.push(pool[k]);
        k = k + 1;
        assert(js@ =~= pool@.take(k as int));
    }
    js
}

/// For `ceil(sqrt(n))` anchors drawn at random, the smallest and second smallest distances
/// from the anchor to `ceil(sqrt(n))` distinct other points drawn at random. The anchors come
/// from a generator seeded with `NEIGHBOURHOOD_SEED`, the points around anchor `k` from one
/// seeded with `NEIGHBOURHOOD_SEED + k + 1`.
pub fn get_neighborhood_size(_nbsample_arg: usize, data: &Vec<Vec<u32>>, distance: Metric) -> (r: Vec<(u64, u64)>)
    requires
        well_shaped(data@),
        data@.len() >= 3,
    ensures
        (r@.len() - 1) * (r@.len() - 1) < data@.len() <= r@.len() * r@.len(),
        forall|k: int| 0 <= k < r@.len() ==> neighbour_pair(distance, data@, r@.len() as nat, #[trigger] r@[k]),
{
    let nbdata = data.len();
    let fl = isqrt(nbdata);
    proof {
        if fl * fl < nbdata {
            assert(fl + 1 <= nbdata) by (nonlinear_arith)
                requires
                    fl * fl < nbdata,
                    nbdata >= 2,
                    fl * fl <= nbdata < (fl + 1) * (fl + 1),
            ;
        }
    }
    let nb_sample: usize = if fl * fl < nbdata {
        fl + 1
    } else {
        fl
    };
    proof {
        if nb_sample == fl + 1 {
            assert(fl * fl < nbdata);
        }
        assert((nb_sample - 1) * (nb_sample - 1) < nbdata <= nb_sample * nb_sample) by (nonlinear_arith)
            requires
                nb_sample == fl || nb_sample == fl + 1,
                nb_sample == fl ==> fl * fl == nbdata,
                nb_sample == fl + 1 ==> fl * fl < nbdata,
                fl * fl <= nbdata < (fl + 1) * (fl + 1),
                nbdata >= 3,
        ;
        assert(2 <= nb_sample <= nbdata - 1) by (nonlinear_arith)
            requires
                (nb_sample - 1) * (nb_sample - 1) < nbdata <= nb_sample * nb_sample,
                nbdata >= 3,
                nb_sample >= 0,
        ;
    }
    let mut anchors = seeded_rng(NEIGHBOURHOOD_SEED);
    let mut r: Vec<(u64, u64)> = Vec::with_capacity(nb_sample);
    let mut k: usize = 0;
    while k < nb_sample
        invariant
            well_shaped(data@),
            nbdata == data@.len(),
            2 <= nb_sample <= nbdata - 1,
            nb_sample <= 4294967296,
            k <= nb_sample,
            r@.len() == k,
            forall|j: int| 0 <= j < r@.len() ==> neighbour_pair(distance, data@, nb_sample as nat, #[trigger] r@[j]),
        decreases nb_sample - k,
    {
        let i = uniform_below(&mut anchors, nbdata);
        let mut rng = seeded_rng(NEIGHBOURHOOD_SEED + k as u64 + 1);
        let js = draw_others(&mut rng, nbdata, i, nb_sample);
        let mut dists: Vec<u64> = Vec::with_capacity(nb_sample);
        let mut t: usize = 0;
        while t < nb_sample
            invariant
                well_shaped(data@),
                nbdata == data@.len(),
                i < nbdata,
                distinct_others(nbdata as nat, i as int, js@, nb_sample as nat),
                t <= nb_sample,
                dists@ == dists_of(distance, data@, i as int, js@).take(t as int),
            decreases nb_sample - t,
        {
            let j = js[t];
            assert(data@[i as int]@.len() == data@[0]@.len());
            assert(data@[j as int]@.len() == data@[0]@.len());
            let d = distance.eval(&data[i], &data[j]);
            dists.push(d);
            t = t + 1;
            assert(dists@ =~= dists_of(distance, data@, i as int, js@).take(t as int));
        }
        assert(dists@ =~= dists_of(distance, data@, i as int, js@));
        let pair = two_smallest(&dists);
        assert(neighbour_pair(distance, data@, nb_sample as nat, pair));
        let ghost old_r = r@;
        r.push(pair);
        proof {
            assert forall|j: int| 0 <= j < r@.len() implies neighbour_pair(distance, data@, nb_sample as nat, #[trigger] r@[j]) by {
                if j < k {
                    assert(r@[j] == old_r[j]);
                }
            }
        }
        k = k + 1;
    }
    r
}

} // verus!
