//! Facilities (tentative centers) and the registry that holds them.

use vstd::prelude::*;

use std::collections::HashMap;

use crate::distance::{Metric, DIST_BOUND, MAX_DIM};

verus! {

broadcast use vstd::std_specs::hash::group_hash_axioms;

/// What a facility holds, as mathematical values.
pub struct FacilityView {
    pub data_id: usize,
    pub center: Seq<u32>,
    pub weight: u64,
    pub cost: u128,
}

/// A center taken from the data, with the weight and the cost of the points dispatched to it.
pub struct Facility {
    d_rank: usize,
    center: Vec<u32>,
    weight: u64,
    cost: u128,
}

/// A copy of a point.
pub fn copy_point(p: &Vec<u32>) -> (r: Vec<u32>)
    ensures
        r@ == p@,
{
    let mut r: Vec<u32> = Vec::with_capacity(p.len());
    let mut i: usize = 0;
    while i < p.len()
        invariant
            i <= p@.len(),
            r@ == p@.subrange(0, i as int),
        decreases p@.len() - i,
    {
        r.push(p[i]);
        i = i + 1;
        assert(r@ =~= p@.subrange(0, i as int));
    }
    assert(r@ =~= p@);
    r
}

impl View for Facility {
    type V = FacilityView;

    closed spec fn view(&self) -> FacilityView {
        FacilityView {
            data_id: self.d_rank,
            center: self.center@,
            weight: self.weight,
            cost: self.cost,
        }
    }
}

impl Clone for Facility {
    fn clone(&self) -> (r: Self)
        ensures
            r@ == self@,
    {
        Facility { d_rank: self.d_rank, center: copy_point(&self.center), weight: self.weight, cost: self.cost }
    }
}

impl Facility {
    /// A facility centered on a data point, with no weight and no cost yet.
    pub fn new(d_rank: usize, center: &Vec<u32>) -> (f: Self)
        ensures
            f@ == (FacilityView { data_id: d_rank, center: center@, weight: 0, cost: 0 }),
    {
        Facility { d_rank, center: copy_point(center), weight: 0, cost: 0 }
    }

    /// A facility with given weight and cost, as read back from a saved registry.
    pub fn from_parts(d_rank: usize, center: &Vec<u32>, weight: u64, cost: u128) -> (f: Self)
        ensures
            f@ == (FacilityView { data_id: d_rank, center: center@, weight, cost }),
    {
        Facility { d_rank, center: copy_point(center), weight, cost }
    }

    pub fn get_position(&self) -> (r: &Vec<u32>)
        ensures
            r@ == self@.center,
    {
        &self.center
    }

    /// Id of the data point this facility is centered on.
    pub fn get_dataid(&self) -> (r: usize)
        ensures
            r == self@.data_id,
    {
        self.d_rank
    }

    /// Sum of the weights of the points dispatched to this facility.
    pub fn get_weight(&self) -> (r: u64)
        ensures
            r == self@.weight,
    {
        self.weight
    }

    /// Sum over the dispatched points of weight times distance to the center.
    pub fn get_cost(&self) -> (r: u128)
        ensures
            r == self@.cost,
    {
        self.cost
    }

    /// Adds a point of weight `weight` at distance `dist` from the center.
    pub(crate) fn insert(&mut self, weight: u64, dist: u64)
        requires
            old(self)@.weight + weight <= u64::MAX,
            old(self)@.cost + weight * dist <= u128::MAX,
        ensures
            final(self)@ == (FacilityView {
                weight: (old(self)@.weight + weight) as u64,
                cost: (old(self)@.cost + weight * dist) as u128,
                ..old(self)@
            }),
    {
        self.weight = self.weight + weight;
        let incr: u128 = (weight as u128) * (dist as u128);
        self.cost = self.cost + incr;
    }

    /// Sets weight and cost back to zero.
    pub(crate) fn reset(&mut self)
        ensures
            final(self)@ == (FacilityView { weight: 0, cost: 0, ..old(self)@ }),
    {
        self.weight = 0;
        self.cost = 0;
    }
}

/// Position of the pair `(i, j)`, `i != j`, among the `n * (n - 1)` ordered pairs of
/// distinct ranks below `n`, row by row.
pub open spec fn pair_index(n: int, i: int, j: int) -> int {
    i * (n - 1) + if j < i {
        j
    } else {
        j - 1
    }
}

/// Centers of a sequence of facilities.
pub open spec fn centers_of(fs: Seq<FacilityView>) -> Seq<Seq<u32>> {
    fs.map_values(|f: FacilityView| f.center)
}

/// Rank of the first facility at the least distance from `p` among the first `n` centers.
pub open spec fn nearest_in(m: Metric, centers: Seq<Seq<u32>>, p: Seq<u32>, n: int) -> int
    decreases n,
{
    if n <= 1 {
        0
    } else {
        let r = nearest_in(m, centers, p, n - 1);
        if m.dist(centers[n - 1], p) < m.dist(centers[r], p) {
            n - 1
        } else {
            r
        }
    }
}

/// Rank of the first facility at the least distance from `p`.
pub open spec fn nearest_rank(m: Metric, centers: Seq<Seq<u32>>, p: Seq<u32>) -> int {
    nearest_in(m, centers, p, centers.len() as int)
}

/// The nearest rank is a first minimiser of the distance to `p`.
pub proof fn lemma_nearest_in(m: Metric, centers: Seq<Seq<u32>>, p: Seq<u32>, n: int)
    requires
        1 <= n <= centers.len(),
    ensures
        0 <= nearest_in(m, centers, p, n) < n,
        forall|j: int|
            0 <= j < n ==> m.dist(centers[nearest_in(m, centers, p, n)], p) <= #[trigger] m.dist(
                centers[j],
                p,
            ),
        forall|j: int|
            0 <= j < nearest_in(m, centers, p, n) ==> m.dist(centers[nearest_in(m, centers, p, n)], p)
                < #[trigger] m.dist(centers[j], p),
    decreases n,
{
    if n > 1 {
        lemma_nearest_in(m, centers, p, n - 1);
    }
}

/// Sum of the weights of a sequence of facilities.
pub open spec fn sum_weights(fs: Seq<FacilityView>) -> nat
    decreases fs.len(),
{
    if fs.len() == 0 {
        0
    } else {
        sum_weights(fs.drop_last()) + fs.last().weight as nat
    }
}

/// Sum of the costs of a sequence of facilities.
pub open spec fn sum_costs(fs: Seq<FacilityView>) -> nat
    decreases fs.len(),
{
    if fs.len() == 0 {
        0
    } else {
        sum_costs(fs.drop_last()) + fs.last().cost as nat
    }
}

/// Proof that changing one facility changes the sums by the difference.
pub proof fn lemma_sums_update(fs: Seq<FacilityView>, r: int, x: FacilityView)
    requires
        0 <= r < fs.len(),
    ensures
        sum_weights(fs.update(r, x)) + fs[r].weight == sum_weights(fs) + x.weight,
        sum_costs(fs.update(r, x)) + fs[r].cost == sum_costs(fs) + x.cost,
    decreases fs.len(),
{
    let g = fs.update(r, x);
    if r == fs.len() - 1 {
        assert(g.drop_last() =~= fs.drop_last());
    } else {
        assert(g.drop_last() =~= fs.drop_last().update(r, x));
        lemma_sums_update(fs.drop_last(), r, x);
    }
}

/// Proof that one facility's weight and cost are at most the sums.
pub proof fn lemma_elem_le_sums(fs: Seq<FacilityView>, r: int)
    requires
        0 <= r < fs.len(),
    ensures
        fs[r].weight <= sum_weights(fs),
        fs[r].cost <= sum_costs(fs),
    decreases fs.len(),
{
    if r < fs.len() - 1 {
        lemma_elem_le_sums(fs.drop_last(), r);
    }
}

/// Proof that facilities of zero weight and zero cost sum to zero.
pub proof fn lemma_sums_zero(fs: Seq<FacilityView>)
    requires
        forall|i: int| 0 <= i < fs.len() ==> (#[trigger] fs[i]).weight == 0 && fs[i].cost == 0,
    ensures
        sum_weights(fs) == 0,
        sum_costs(fs) == 0,
    decreases fs.len(),
{
    if fs.len() > 0 {
        lemma_sums_zero(fs.drop_last());
    }
}

/// The points of a batch, as sequences.
pub open spec fn points_of(data: Seq<Vec<u32>>) -> Seq<Seq<u32>> {
    data.map_values(|v: Vec<u32>| v@)
}

/// The weights of a batch, when given.
pub open spec fn weights_of(weights: Option<&Vec<u64>>) -> Option<Seq<u64>> {
    match weights {
        Some(w) => Some(w@),
        None => None,
    }
}

/// Weight of point `i`: the given one, else 1.
pub open spec fn point_weight(ws: Option<Seq<u64>>, i: int) -> nat {
    match ws {
        Some(w) => w[i] as nat,
        None => 1,
    }
}

/// Weight of point `i` times its distance to its nearest center.
pub open spec fn point_cost(
    m: Metric,
    cs: Seq<Seq<u32>>,
    pts: Seq<Seq<u32>>,
    ws: Option<Seq<u64>>,
    i: int,
) -> nat {
    point_weight(ws, i) * m.dist(cs[nearest_rank(m, cs, pts[i])], pts[i])
}

/// Sum of the weights of the first `n` points.
pub open spec fn total_weight(ws: Option<Seq<u64>>, n: int) -> nat
    decreases n,
{
    if n <= 0 {
        0
    } else {
        total_weight(ws, n - 1) + point_weight(ws, n - 1)
    }
}

/// Sum of the costs of the first `n` points.
pub open spec fn total_cost(
    m: Metric,
    cs: Seq<Seq<u32>>,
    pts: Seq<Seq<u32>>,
    ws: Option<Seq<u64>>,
    n: int,
) -> nat
    decreases n,
{
    if n <= 0 {
        0
    } else {
        total_cost(m, cs, pts, ws, n - 1) + point_cost(m, cs, pts, ws, n - 1)
    }
}

/// Sum of the weights of those of the first `n` points whose nearest center is `f`.
pub open spec fn assigned_weight(
    m: Metric,
    cs: Seq<Seq<u32>>,
    pts: Seq<Seq<u32>>,
    ws: Option<Seq<u64>>,
    f: int,
    n: int,
) -> nat
    decreases n,
{
    if n <= 0 {
        0
    } else {
        assigned_weight(m, cs, pts, ws, f, n - 1) + if nearest_rank(m, cs, pts[n - 1]) == f {
            point_weight(ws, n - 1)
        } else {
            0
        }
    }
}

/// Sum of the costs of those of the first `n` points whose nearest center is `f`.
pub open spec fn assigned_cost(
    m: Metric,
    cs: Seq<Seq<u32>>,
    pts: Seq<Seq<u32>>,
    ws: Option<Seq<u64>>,
    f: int,
    n: int,
) -> nat
    decreases n,
{
    if n <= 0 {
        0
    } else {
        assigned_cost(m, cs, pts, ws, f, n - 1) + if nearest_rank(m, cs, pts[n - 1]) == f {
            point_cost(m, cs, pts, ws, n - 1)
        } else {
            0
        }
    }
}

/// Number of those of the first `n` points whose nearest center is `f` and whose label is `l`.
pub open spec fn label_count(
    m: Metric,
    cs: Seq<Seq<u32>>,
    pts: Seq<Seq<u32>>,
    labels: Seq<u32>,
    f: int,
    l: u32,
    n: int,
) -> nat
    decreases n,
{
    if n <= 0 {
        0
    } else {
        label_count(m, cs, pts, labels, f, l, n - 1) + if nearest_rank(m, cs, pts[n - 1]) == f
            && labels[n - 1] == l {
            1nat
        } else {
            0
        }
    }
}

proof fn lemma_label_count_bound(
    m: Metric,
    cs: Seq<Seq<u32>>,
    pts: Seq<Seq<u32>>,
    labels: Seq<u32>,
    f: int,
    l: u32,
    n: int,
)
    requires
        n >= 0,
    ensures
        label_count(m, cs, pts, labels, f, l, n) <= n,
    decreases n,
{
    if n > 0 {
        lemma_label_count_bound(m, cs, pts, labels, f, l, n - 1);
    }
}

/// Proof that unit weights sum to the number of points.
pub proof fn lemma_unit_total_weight(n: int)
    requires
        n >= 0,
    ensures
        total_weight(None, n) == n,
    decreases n,
{
    if n > 0 {
        lemma_unit_total_weight(n - 1);
    }
}

proof fn lemma_total_weight_mono(ws: Option<Seq<u64>>, i: int, n: int)
    requires
        0 <= i <= n,
    ensures
        total_weight(ws, i) <= total_weight(ws, n),
    decreases n - i,
{
    if i < n {
        lemma_total_weight_mono(ws, i, n - 1);
    }
}

/// `new` is `old` after a dispatch of the points `pts` with weights `ws`: same centers and
/// ids, and each facility's weight and cost are those of the points whose nearest center it is.
pub open spec fn dispatched(
    old: Seq<FacilityView>,
    new: Seq<FacilityView>,
    m: Metric,
    pts: Seq<Seq<u32>>,
    ws: Option<Seq<u64>>,
) -> bool {
    &&& new.len() == old.len()
    &&& forall|f: int|
        0 <= f < old.len() ==> {
            &&& (#[trigger] new[f]).center == old[f].center
            &&& new[f].data_id == old[f].data_id
            &&& new[f].weight == assigned_weight(m, centers_of(old), pts, ws, f, pts.len() as int)
            &&& new[f].cost == assigned_cost(m, centers_of(old), pts, ws, f, pts.len() as int)
        }
}

/// A dispatch depends on the registry only through its centers and metric: two registries
/// with the same centers (one read back from the saved facilities of the other, say) end a
/// dispatch of the same points with the same weights and costs.
pub proof fn lemma_dispatch_determined_by_centers(
    m: Metric,
    a0: Seq<FacilityView>,
    a1: Seq<FacilityView>,
    b0: Seq<FacilityView>,
    b1: Seq<FacilityView>,
    pts: Seq<Seq<u32>>,
    ws: Option<Seq<u64>>,
)
    requires
        centers_of(a0) == centers_of(b0),
        dispatched(a0, a1, m, pts, ws),
        dispatched(b0, b1, m, pts, ws),
    ensures
        a1.len() == b1.len(),
        forall|f: int| 0 <= f < a1.len() ==> (#[trigger] a1[f]).weight == b1[f].weight && a1[f].cost == b1[f].cost,
{
    assert(a0.len() == centers_of(a0).len());
    assert(b0.len() == centers_of(b0).len());
}

/// A registry of facilities sharing one metric, all centers of one dimension.
pub struct Facilities {
    centers: Vec<Facility>,
    distance: Metric,
    dim: usize,
}

impl View for Facilities {
    type V = Seq<FacilityView>;

    closed spec fn view(&self) -> Seq<FacilityView> {
        self.centers@.map_values(|f: Facility| f@)
    }
}

/// Error of a registry query.
#[derive(Clone, Copy, Debug, PartialEq, Eq, Structural)]
pub enum RegistryError {
    /// The registry holds no facility.
    EmptyRegistry,
}

impl Facilities {
    pub closed spec fn metric(&self) -> Metric {
        self.distance
    }

    pub closed spec fn dim(&self) -> usize {
        self.dim
    }

    /// Every center has the registry's dimension.
    pub open spec fn wf(&self) -> bool {
        &&& self.dim() <= MAX_DIM
        &&& forall|i: int| 0 <= i < self@.len() ==> (#[trigger] self@[i]).center.len() == self.dim()
    }

    /// Distance from facility `i` to `p`.
    pub open spec fn dist_to(&self, i: int, p: Seq<u32>) -> nat {
        self.metric().dist(self@[i].center, p)
    }

    /// An empty registry for centers of dimension `dim`; `size` is a capacity hint.
    pub fn new(size: usize, distance: Metric, dim: usize) -> (r: Self)
        requires
            dim <= MAX_DIM,
        ensures
            r.wf(),
            r@.len() == 0,
            r.metric() == distance,
            r.dim() == dim,
    {
        let centers: Vec<Facility> = Vec::with_capacity(size);
        let r = Facilities { centers, distance, dim };
        assert(r@ =~= Seq::<FacilityView>::empty());
        r
    }

    pub fn get_distance(&self) -> (r: Metric)
        ensures
            r == self.metric(),
    {
        self.distance
    }

    pub fn get_dim(&self) -> (r: usize)
        ensures
            r == self.dim(),
    {
        self.dim
    }

    /// Number of facilities.
    pub fn len(&self) -> (r: usize)
        ensures
            r == self@.len(),
    {
        self.centers.len()
    }

    /// Removes every facility.
    pub(crate) fn clear(&mut self)
        ensures
            final(self)@.len() == 0,
            final(self).metric() == old(self).metric(),
            final(self).dim() == old(self).dim(),
    {
        self.centers.clear();
        assert(self@ =~= Seq::<FacilityView>::empty());
    }

    /// Appends a facility.
    pub(crate) fn insert(&mut self, facility: Facility)
        requires
            old(self).wf(),
            facility@.center.len() == old(self).dim(),
        ensures
            final(self).wf(),
            final(self)@ == old(self)@.push(facility@),
            final(self).metric() == old(self).metric(),
            final(self).dim() == old(self).dim(),
    {
        let ghost v = facility@;
        self.centers.push(facility);
        assert(self@ =~= old(self)@.push(v));
    }

    /// The facility of rank `rank`, if there is one.
    pub fn get_facility(&self, rank: usize) -> (r: Option<&Facility>)
        ensures
            rank < self@.len() <==> r.is_some(),
            r.is_some() ==> r.unwrap()@ == self@[rank as int],
    {
        if rank >= self.centers.len() {
            None
        } else {
            Some(&self.centers[rank])
        }
    }

    /// A copy of the facility of rank `rank`, if there is one.
    pub fn get_cloned_facility(&self, rank: usize) -> (r: Option<Facility>)
        ensures
            rank < self@.len() <==> r.is_some(),
            r.is_some() ==> r.unwrap()@ == self@[rank as int],
    {
        if rank >= self.centers.len() {
            None
        } else {
            Some(self.centers[rank].clone())
        }
    }

    /// Whether some facility lies within distance `dmax` of `point`.
    pub fn match_point(&self, point: &Vec<u32>, dmax: u64) -> (r: bool)
        requires
            self.wf(),
            point@.len() == self.dim(),
        ensures
            r == exists|i: int| 0 <= i < self@.len() && self.dist_to(i, point@) <= dmax,
    {
        let mut i: usize = 0;
        while i < self.centers.len()
            invariant
                self.wf(),
                point@.len() == self.dim(),
                i <= self@.len(),
                forall|j: int| 0 <= j < i ==> self.dist_to(j, point@) > dmax,
            decreases self@.len() - i,
        {
            assert(self@[i as int] == self.centers@[i as int]@);
            let d = self.distance.eval(self.centers[i].get_position(), point);
            if d <= dmax {
                assert(self.dist_to(i as int, point@) <= dmax);
                return true;
            }
            i = i + 1;
        }
        false
    }

    /// Rank of the first facility at the least distance from `data`, and that distance.
    pub fn get_nearest_facility(&self, data: &Vec<u32>) -> (r: Result<(usize, u64), RegistryError>)
        requires
            self.wf(),
            data@.len() == self.dim(),
        ensures
            self@.len() == 0 <==> r is Err,
            r is Ok ==> ({
                let (rank, d) = r.unwrap();
                &&& rank == nearest_rank(self.metric(), centers_of(self@), data@)
                &&& rank < self@.len()
                &&& d as nat == self.dist_to(rank as int, data@)
                &&& d < DIST_BOUND
                &&& forall|j: int| 0 <= j < self@.len() ==> d <= #[trigger] self.dist_to(j, data@)
                &&& forall|j: int| 0 <= j < rank ==> d < #[trigger] self.dist_to(j, data@)
            }),
    {
        if self.centers.len() == 0 {
            return Err(RegistryError::EmptyRegistry);
        }
        let ghost cs = centers_of(self@);
        assert(self@[0] == self.centers@[0]@);
        let mut best: usize = 0;
        let mut bestd: u64 = self.distance.eval(self.centers[0].get_position(), data);
        let mut i: usize = 1;
        while i < self.centers.len()
            invariant
                self.wf(),
                data@.len() == self.dim(),
                cs == centers_of(self@),
                1 <= i <= self@.len(),
                best == nearest_in(self.metric(), cs, data@, i as int),
                bestd as nat == self.dist_to(best as int, data@),
                bestd < DIST_BOUND,
            decreases self@.len() - i,
        {
            assert(self@[i as int] == self.centers@[i as int]@);
            let d = self.distance.eval(self.centers[i].get_position(), data);
            proof {
                lemma_nearest_in(self.metric(), cs, data@, i as int);
            }
            if d < bestd {
                best = i;
                bestd = d;
            }
            i = i + 1;
        }
        proof {
            lemma_nearest_in(self.metric(), cs, data@, cs.len() as int);
            assert forall|j: int| 0 <= j < self@.len() implies bestd <= #[trigger] self.dist_to(j, data@) by {
                assert(cs[j] == self@[j].center);
            }
            assert forall|j: int| 0 <= j < best implies bestd < #[trigger] self.dist_to(j, data@) by {
                assert(cs[j] == self@[j].center);
            }
        }
        Ok((best, bestd))
    }
    /// Adds a point of weight `weight` at distance `dist` to the facility of rank `rank`.
    pub(crate) fn add_to(&mut self, rank: usize, weight: u64, dist: u64)
        requires
            old(self).wf(),
            rank < old(self)@.len(),
            old(self)@[rank as int].weight + weight <= u64::MAX,
            old(self)@[rank as int].cost + weight * dist <= u128::MAX,
        ensures
            final(self).wf(),
            final(self).metric() == old(self).metric(),
            final(self).dim() == old(self).dim(),
            final(self)@ == old(self)@.update(
                rank as int,
                FacilityView {
                    weight: (old(self)@[rank as int].weight + weight) as u64,
                    cost: (old(self)@[rank as int].cost + weight * dist) as u128,
                    ..old(self)@[rank as int]
                },
            ),
    {
        let ghost prev = self@;
        assert(prev[rank as int] == self.centers@[rank as int]@);
        self.centers[rank].insert(weight, dist);
        proof {
            assert(self@[rank as int] == self.centers@[rank as int]@);
            assert(self@ =~= prev.update(rank as int, self@[rank as int]));
        }
    }

    /// The facilities as weighted points: `(weight, center, data id)` in rank order.
    pub fn get_weighted_points(&self) -> (r: Vec<(u64, Vec<u32>, usize)>)
        ensures
            r@.len() == self@.len(),
            forall|i: int|
                0 <= i < r@.len() ==> (#[trigger] r@[i]).0 == self@[i].weight && r@[i].1@
                    == self@[i].center && r@[i].2 == self@[i].data_id,
    {
        let mut r: Vec<(u64, Vec<u32>, usize)> = Vec::with_capacity(self.centers.len());
        let mut i: usize = 0;
        while i < self.centers.len()
            invariant
                i <= self@.len(),
                r@.len() == i,
                forall|j: int|
                    0 <= j < i ==> (#[trigger] r@[j]).0 == self@[j].weight && r@[j].1@
                        == self@[j].center && r@[j].2 == self@[j].data_id,
            decreases self@.len() - i,
        {
            assert(self@[i as int] == self.centers@[i as int]@);
            let f = &self.centers[i];
            r.push((f.get_weight(), copy_point(f.get_position()), f.get_dataid()));
            i = i + 1;
        }
        r
    }

    /// A registry holding `facilities` in order, as read back from a saved one; `None` when a
    /// center's dimension is not `dim` or `dim` is above `MAX_DIM`.
    pub fn from_facilities(distance: Metric, dim: usize, facilities: Vec<Facility>) -> (r: Option<Self>)
        ensures
            r is Some <==> (dim <= MAX_DIM && forall|i: int|
                0 <= i < facilities@.len() ==> (#[trigger] facilities@[i])@.center.len() == dim),
            r is Some ==> ({
                let g = r.unwrap();
                &&& g.wf()
                &&& g.metric() == distance
                &&& g.dim() == dim
                &&& g@ == facilities@.map_values(|f: Facility| f@)
            }),
    {
        if dim > MAX_DIM {
            return None;
        }
        let mut i: usize = 0;
        while i < facilities.len()
            invariant
                i <= facilities@.len(),
                forall|j: int| 0 <= j < i ==> (#[trigger] facilities@[j])@.center.len() == dim,
            decreases facilities@.len() - i,
        {
            if facilities[i].get_position().len() != dim {
                return None;
            }
            i = i + 1;
        }
        let r = Facilities { centers: facilities, distance, dim };
        Some(r)
    }

    /// Sum of the facilities' weights.
    pub fn get_weight(&self) -> (r: u128)
        ensures
            r == sum_weights(self@),
    {
        let mut acc: u128 = 0;
        let mut i: usize = 0;
        while i < self.centers.len()
            invariant
                i <= self@.len(),
                acc == sum_weights(self@.take(i as int)),
                acc <= i * 18446744073709551615,
                i <= 18446744073709551615,
            decreases self@.len() - i,
        {
            assert(self@[i as int] == self.centers@[i as int]@);
            assert(self@.take(i + 1).drop_last() =~= self@.take(i as int));
            assert(i * 18446744073709551615 + 18446744073709551615 == (i + 1) * 18446744073709551615) by (nonlinear_arith);
            assert((i + 1) * 18446744073709551615 <= 18446744073709551615 * 18446744073709551615) by (nonlinear_arith)
                requires
                    i + 1 <= 18446744073709551615,
            ;
            acc = acc + self.centers[i].get_weight() as u128;
            i = i + 1;
        }
        assert(self@.take(i as int) =~= self@);
        acc
    }

    /// The facilities as `(weight, center)` pairs, in rank order.
    pub fn into_weighted_data(&self) -> (r: Vec<(u64, Vec<u32>)>)
        ensures
            r@.len() == self@.len(),
            forall|i: int|
                0 <= i < r@.len() ==> (#[trigger] r@[i]).0 == self@[i].weight && r@[i].1@ == self@[i].center,
    {
        let mut r: Vec<(u64, Vec<u32>)> = Vec::with_capacity(self.centers.len());
        let mut i: usize = 0;
        while i < self.centers.len()
            invariant
                i <= self@.len(),
                r@.len() == i,
                forall|j: int|
                    0 <= j < i ==> (#[trigger] r@[j]).0 == self@[j].weight && r@[j].1@ == self@[j].center,
            decreases self@.len() - i,
        {
            assert(self@[i as int] == self.centers@[i as int]@);
            let f = &self.centers[i];
            r.push((f.get_weight(), copy_point(f.get_position())));
            i = i + 1;
        }
        r
    }

    /// The facilities' weights and centers as two vectors, in rank order.
    pub fn get_weights_and_data(&self) -> (r: (Vec<u64>, Vec<Vec<u32>>))
        ensures
            r.0@.len() == self@.len(),
            r.1@.len() == self@.len(),
            forall|i: int| 0 <= i < self@.len() ==> (#[trigger] r.0@[i]) == self@[i].weight && r.1@[i]@ == self@[i].center,
    {
        let mut weights: Vec<u64> = Vec::with_capacity(self.centers.len());
        let mut data: Vec<Vec<u32>> = Vec::with_capacity(self.centers.len());
        let mut i: usize = 0;
        while i < self.centers.len()
            invariant
                i <= self@.len(),
                weights@.len() == i,
                data@.len() == i,
                forall|j: int| 0 <= j < i ==> (#[trigger] weights@[j]) == self@[j].weight && data@[j]@ == self@[j].center,
            decreases self@.len() - i,
        {
            assert(self@[i as int] == self.centers@[i as int]@);
            let f = &self.centers[i];
            weights.push(f.get_weight());
            data.push(copy_point(f.get_position()));
            i = i + 1;
        }
        (weights, data)
    }

    /// Distances between the centers of every two distinct facilities, row by row (see
    /// `pair_index`).
    pub fn cross_distances(&self) -> (r: Vec<u64>)
        requires
            self.wf(),
        ensures
            r@.len() == self@.len() * (self@.len() - 1),
            forall|i: int, j: int|
                0 <= i < self@.len() && 0 <= j < self@.len() && i != j ==> r@[#[trigger] pair_index(
                    self@.len() as int,
                    i,
                    j,
                )] == self.metric().dist(self@[i].center, self@[j].center),
    {
        let n = self.centers.len();
        let mut r: Vec<u64> = Vec::new();
        if n == 0 {
            return r;
        }
        let mut i: usize = 0;
        while i < n
            invariant
                self.wf(),
                n == self@.len(),
                n >= 1,
                i <= n,
                r@.len() == i * (n - 1),
                forall|a: int, b: int|
                    0 <= a < i && 0 <= b < n && a != b ==> r@[#[trigger] pair_index(n as int, a, b)]
                        == self.metric().dist(self@[a].center, self@[b].center),
            decreases n - i,
        {
            assert(self@[i as int] == self.centers@[i as int]@);
            let mut j: usize = 0;
            let ghost base = r@.len() as int;
            while j < n
                invariant
                    self.wf(),
                    n == self@.len(),
                    n >= 1,
                    i < n,
                    j <= n,
                    base == i * (n - 1),
                    r@.len() == base + if j <= i {
                        j as int
                    } else {
                        j - 1
                    },
                    forall|a: int, b: int|
                        0 <= a < i && 0 <= b < n && a != b ==> r@[#[trigger] pair_index(n as int, a, b)]
                            == self.metric().dist(self@[a].center, self@[b].center),
                    forall|b: int|
                        0 <= b < j && b != i ==> r@[#[trigger] pair_index(n as int, i as int, b)]
                            == self.metric().dist(self@[i as int].center, self@[b].center),
                decreases n - j,
            {
                if j != i {
                    assert(self@[i as int] == self.centers@[i as int]@);
                    assert(self@[j as int] == self.centers@[j as int]@);
                    let d = self.distance.eval(self.centers[i].get_position(), self.centers[j].get_position());
                    proof {
                        assert forall|a: int, b: int|
                            0 <= a < i && 0 <= b < n && a != b implies #[trigger] pair_index(n as int, a, b)
                                < base by {
                            assert(a * (n - 1) + (n - 1) <= i * (n - 1)) by (nonlinear_arith)
                                requires
                                    a < i,
                                    n >= 1,
                            ;
                        }
                    }
                    r.push(d);
                }
                j = j + 1;
            }
            proof {
                assert(i * (n - 1) + (n - 1) == (i + 1) * (n - 1)) by (nonlinear_arith);
            }
            i = i + 1;
        }
        r
    }

    /// Dispatches each point to its nearest facility: a facility's weight becomes the sum of
    /// the weights of its points (1 each when `weights` is `None`), its cost the sum of weight
    /// times distance. Returns the total cost.
    pub fn dispatch_data(&mut self, data: &Vec<Vec<u32>>, weights: Option<&Vec<u64>>) -> (r: u128)
        requires
            old(self).wf(),
            data@.len() > 0 ==> old(self)@.len() > 0,
            forall|i: int| 0 <= i < data@.len() ==> (#[trigger] data@[i])@.len() == old(self).dim(),
            weights is Some ==> weights.unwrap()@.len() == data@.len(),
            total_weight(weights_of(weights), data@.len() as int) <= u64::MAX,
        ensures
            final(self).wf(),
            final(self).metric() == old(self).metric(),
            final(self).dim() == old(self).dim(),
            dispatched(old(self)@, final(self)@, old(self).metric(), points_of(data@), weights_of(weights)),
            r == total_cost(
                old(self).metric(),
                centers_of(old(self)@),
                points_of(data@),
                weights_of(weights),
                data@.len() as int,
            ),
            sum_weights(final(self)@) == total_weight(weights_of(weights), data@.len() as int),
            sum_costs(final(self)@) == r,
    {
        let ghost old_v = self@;
        let ghost cs = centers_of(self@);
        let ghost m = self.metric();
        let ghost pts = points_of(data@);
        let ghost ws = weights_of(weights);
        let ghost n = data@.len() as int;
        let nb_facility = self.centers.len();
        let mut i: usize = 0;
        while i < nb_facility
            invariant
                nb_facility == self@.len(),
                old_v.len() == nb_facility,
                self.metric() == m,
                self.dim() == old(self).dim(),
                i <= nb_facility,
                forall|j: int|
                    0 <= j < nb_facility ==> (#[trigger] self@[j]).center == old_v[j].center
                        && self@[j].data_id == old_v[j].data_id,
                forall|j: int| 0 <= j < i ==> (#[trigger] self@[j]).weight == 0 && self@[j].cost == 0,
            decreases nb_facility - i,
        {
            let ghost prev = self@;
            assert(prev[i as int] == self.centers@[i as int]@);
            self.centers[i].reset();
            proof {
                assert(self@[i as int] == self.centers@[i as int]@);
                assert(self@ =~= prev.update(i as int, self@[i as int]));
            }
            i = i + 1;
        }
        proof {
            lemma_sums_zero(self@);
            assert(centers_of(self@) =~= cs);
        }
        let mut global_cost: u128 = 0;
        let mut item: usize = 0;
        while item < data.len()
            invariant
                nb_facility == self@.len(),
                data@.len() > 0 ==> nb_facility > 0,
                old_v.len() == nb_facility,
                self.metric() == m,
                self.dim() == old(self).dim(),
                self.wf(),
                cs == centers_of(old_v),
                centers_of(self@) == cs,
                pts == points_of(data@),
                ws == weights_of(weights),
                n == data@.len(),
                weights is Some ==> weights.unwrap()@.len() == data@.len(),
                forall|i: int| 0 <= i < data@.len() ==> (#[trigger] data@[i])@.len() == self.dim(),
                total_weight(ws, n) <= u64::MAX,
                item <= n,
                forall|j: int|
                    0 <= j < nb_facility ==> (#[trigger] self@[j]).center == old_v[j].center
                        && self@[j].data_id == old_v[j].data_id,
                forall|f: int|
                    0 <= f < nb_facility ==> (#[trigger] self@[f]).weight == assigned_weight(
                        m,
                        cs,
                        pts,
                        ws,
                        f,
                        item as int,
                    ) && self@[f].cost == assigned_cost(m, cs, pts, ws, f, item as int),
                sum_weights(self@) == total_weight(ws, item as int),
                sum_costs(self@) == global_cost,
                global_cost == total_cost(m, cs, pts, ws, item as int),
                total_cost(m, cs, pts, ws, item as int) <= total_weight(ws, item as int) * DIST_BOUND,
            decreases n - item,
        {
            let (f, d) = match self.get_nearest_facility(&data[item]) {
                Ok(fd) => fd,
                Err(_) => {
                    proof {
                        assert(false);
                    }
                    (0, 0)
                },
            };
            let w: u64 = match weights {
                Some(wv) => wv[item],
                None => 1,
            };
            let ghost old_fs = self@;
            proof {
                let k = item as int;
                assert(pts[k] == data@[k]@);
                assert(cs.len() == nb_facility);
                lemma_nearest_in(m, cs, pts[k], cs.len() as int);
                assert(w as nat == point_weight(ws, k));
                assert(cs[f as int] == self@[f as int].center);
                assert(nearest_rank(m, cs, pts[k]) == f);
                assert(point_cost(m, cs, pts, ws, k) == w * d);
                lemma_elem_le_sums(old_fs, f as int);
                lemma_total_weight_mono(ws, k + 1, n);
                assert(w * d <= w * DIST_BOUND) by (nonlinear_arith)
                    requires
                        d < DIST_BOUND,
                ;
                assert(total_weight(ws, k) * DIST_BOUND + w * DIST_BOUND == total_weight(ws, k + 1)
                    * DIST_BOUND) by (nonlinear_arith)
                    requires
                        total_weight(ws, k + 1) == total_weight(ws, k) + w,
                ;
                assert(total_weight(ws, k + 1) * DIST_BOUND <= 18446744073709551615 * DIST_BOUND)
                    by (nonlinear_arith)
                    requires
                        total_weight(ws, k + 1) <= 18446744073709551615,
                ;
            }
            self.centers[f].insert(w, d);
            let incr: u128 = (w as u128) * (d as u128);
            global_cost = global_cost + incr;
            item = item + 1;
            proof {
                let k = item as int;
                lemma_sums_update(old_fs, f as int, self@[f as int]);
                assert(self@ =~= old_fs.update(f as int, self@[f as int]));
                assert(centers_of(self@) =~= cs);
                assert forall|g: int| 0 <= g < nb_facility implies (#[trigger] self@[g]).weight
                    == assigned_weight(m, cs, pts, ws, g, k) && self@[g].cost == assigned_cost(
                    m,
                    cs,
                    pts,
                    ws,
                    g,
                    k,
                ) by {
                    assert(old_fs[g].weight == assigned_weight(m, cs, pts, ws, g, k - 1));
                    assert(old_fs[g].cost == assigned_cost(m, cs, pts, ws, g, k - 1));
                }
            }
        }
        global_cost
    }
    /// Dispatches the points as `dispatch_data` does and counts, for each facility, the labels
    /// of the points dispatched to it. Returns the total cost and one label histogram per
    /// facility, in rank order.
    pub fn dispatch_labels(
        &mut self,
        data: &Vec<Vec<u32>>,
        labels: &Vec<u32>,
        weights: Option<&Vec<u64>>,
    ) -> (r: (u128, Vec<HashMap<u32, u32>>))
        requires
            old(self).wf(),
            data@.len() > 0 ==> old(self)@.len() > 0,
            forall|i: int| 0 <= i < data@.len() ==> (#[trigger] data@[i])@.len() == old(self).dim(),
            labels@.len() == data@.len(),
            data@.len() <= u32::MAX,
            weights is Some ==> weights.unwrap()@.len() == data@.len(),
            total_weight(weights_of(weights), data@.len() as int) <= u64::MAX,
        ensures
            final(self).wf(),
            final(self).metric() == old(self).metric(),
            final(self).dim() == old(self).dim(),
            dispatched(old(self)@, final(self)@, old(self).metric(), points_of(data@), weights_of(weights)),
            r.0 == total_cost(
                old(self).metric(),
                centers_of(old(self)@),
                points_of(data@),
                weights_of(weights),
                data@.len() as int,
            ),
            sum_weights(final(self)@) == total_weight(weights_of(weights), data@.len() as int),
            sum_costs(final(self)@) == r.0,
            r.1@.len() == old(self)@.len(),
            forall|f: int, l: u32|
                0 <= f < old(self)@.len() ==> {
                    let c = label_count(
                        old(self).metric(),
                        centers_of(old(self)@),
                        points_of(data@),
                        labels@,
                        f,
                        l,
                        data@.len() as int,
                    );
                    &&& (#[trigger] r.1@[f]@.contains_key(l)) <==> c > 0
                    &&& r.1@[f]@.contains_key(l) ==> r.1@[f]@[l] == c
                },
    {
        let global_cost = self.dispatch_data(data, weights);
        proof {
            assert(centers_of(self@) =~= centers_of(old(self)@));
        }
        let ghost cs = centers_of(self@);
        let ghost m = self.metric();
        let ghost pts = points_of(data@);
        let nb_facility = self.centers.len();
        let mut distributions: Vec<HashMap<u32, u32>> = Vec::with_capacity(nb_facility);
        let mut f: usize = 0;
        while f < nb_facility
            invariant
                f <= nb_facility,
                distributions@.len() == f,
                forall|g: int| 0 <= g < f ==> (#[trigger] distributions@[g])@ == Map::<u32, u32>::empty(),
            decreases nb_facility - f,
        {
            distributions.push(HashMap::new());
            f = f + 1;
        }
        let mut i: usize = 0;
        while i < data.len()
            invariant
                self.wf(),
                nb_facility == self@.len(),
                data@.len() > 0 ==> nb_facility > 0,
                cs == centers_of(self@),
                m == self.metric(),
                pts == points_of(data@),
                labels@.len() == data@.len(),
                data@.len() <= u32::MAX,
                forall|k: int| 0 <= k < data@.len() ==> (#[trigger] data@[k])@.len() == self.dim(),
                i <= data@.len(),
                distributions@.len() == nb_facility,
                forall|g: int, l: u32|
                    0 <= g < nb_facility ==> {
                        let c = label_count(m, cs, pts, labels@, g, l, i as int);
                        &&& (#[trigger] distributions@[g]@.contains_key(l)) <==> c > 0
                        &&& distributions@[g]@.contains_key(l) ==> distributions@[g]@[l] == c
                    },
            decreases data@.len() - i,
        {
            let (rank, _d) = match self.get_nearest_facility(&data[i]) {
                Ok(fd) => fd,
                Err(_) => {
                    proof {
                        assert(false);
                    }
                    (0, 0)
                },
            };
            let l = labels[i];
            let ghost prev = distributions@;
            proof {
                assert(pts[i as int] == data@[i as int]@);
                lemma_label_count_bound(m, cs, pts, labels@, rank as int, l, i as int);
            }
            let count: u32 = match distributions[rank].get(&l) {
                Some(c) => *c,
                None => 0,
            };
            distributions[rank].insert(l, count + 1);
            proof {
                assert forall|g: int, k: u32| 0 <= g < nb_facility implies {
                    let c = label_count(m, cs, pts, labels@, g, k, i + 1);
                    &&& (#[trigger] distributions@[g]@.contains_key(k)) <==> c > 0
                    &&& distributions@[g]@.contains_key(k) ==> distributions@[g]@[k] == c
                } by {
                    if g != rank {
                        assert(distributions@[g] == prev[g]);
                    }
                }
            }
            i = i + 1;
        }
        (global_cost, distributions)
    }
}

} // verus!
