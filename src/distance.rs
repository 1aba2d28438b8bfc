//! Metrics on points with `u32` coordinates, with integer distances.

use vstd::prelude::*;

verus! {

/// Largest number of coordinates a point may have; keeps every distance below `2^52`.
pub const MAX_DIM: usize = 1048576;

/// Every distance between two points of at most `MAX_DIM` coordinates is below this bound.
pub const DIST_BOUND: u64 = 4503599627370496;

/// The distances the library knows how to compute.
#[derive(Clone, Copy, Debug, PartialEq, Eq, Structural)]
pub enum Metric {
    /// Sum of absolute coordinate differences.
    L1,
    /// Largest absolute coordinate difference.
    LInf,
    /// Euclidean distance rounded down to an integer.
    L2,
}

pub open spec fn abs_diff(a: u32, b: u32) -> nat {
    if a >= b {
        (a - b) as nat
    } else {
        (b - a) as nat
    }
}

/// Sum of the coordinate differences over the first `n` coordinates.
pub open spec fn l1_prefix(a: Seq<u32>, b: Seq<u32>, n: int) -> nat
    decreases n,
{
    if n <= 0 {
        0
    } else {
        l1_prefix(a, b, n - 1) + abs_diff(a[n - 1], b[n - 1])
    }
}

/// Largest coordinate difference over the first `n` coordinates.
pub open spec fn linf_prefix(a: Seq<u32>, b: Seq<u32>, n: int) -> nat
    decreases n,
{
    if n <= 0 {
        0
    } else {
        let m = linf_prefix(a, b, n - 1);
        let x = abs_diff(a[n - 1], b[n - 1]);
        if x > m {
            x
        } else {
            m
        }
    }
}


proof fn lemma_prefix_symmetric_self(a: Seq<u32>, b: Seq<u32>, n: int)
    requires
        0 <= n <= a.len(),
        a.len() == b.len(),
    ensures
        l1_prefix(a, b, n) == l1_prefix(b, a, n),
        linf_prefix(a, b, n) == linf_prefix(b, a, n),
        l1_prefix(a, a, n) == 0,
        linf_prefix(a, a, n) == 0,
        sq_prefix(a, b, n) == sq_prefix(b, a, n),
        sq_prefix(a, a, n) == 0,
    decreases n,
{
    if n > 0 {
        lemma_prefix_symmetric_self(a, b, n - 1);
        let x = abs_diff(a[n - 1], a[n - 1]);
        assert(x == 0);
        assert(x * x == 0) by (nonlinear_arith)
            requires
                x == 0,
        ;
        assert(abs_diff(a[n - 1], b[n - 1]) == abs_diff(b[n - 1], a[n - 1]));
    }
}

/// Proof that both metrics are symmetric and put a point at distance 0 from itself.
pub proof fn lemma_dist_symmetric_self(m: Metric, a: Seq<u32>, b: Seq<u32>)
    requires
        a.len() == b.len(),
    ensures
        m.dist(a, b) == m.dist(b, a),
        m.dist(a, a) == 0,
{
    lemma_prefix_symmetric_self(a, b, a.len() as int);
    assert(is_floor_sqrt(0, 0)) by (nonlinear_arith);
    lemma_floor_sqrt_unique(0, 0);
}

/// Sum of the squared coordinate differences over the first `n` coordinates.
pub open spec fn sq_prefix(a: Seq<u32>, b: Seq<u32>, n: int) -> nat
    decreases n,
{
    if n <= 0 {
        0
    } else {
        sq_prefix(a, b, n - 1) + abs_diff(a[n - 1], b[n - 1]) * abs_diff(a[n - 1], b[n - 1])
    }
}

/// `r` is the integer square root of `x`, rounded down.
pub open spec fn is_floor_sqrt(x: nat, r: nat) -> bool {
    r * r <= x < (r + 1) * (r + 1)
}

/// The square root of `x`, rounded down.
pub open spec fn floor_sqrt(x: nat) -> nat {
    choose|r: nat| is_floor_sqrt(x, r)
}

proof fn lemma_floor_sqrt_unique(x: nat, r: nat)
    requires
        is_floor_sqrt(x, r),
    ensures
        floor_sqrt(x) == r,
{
    let q = floor_sqrt(x);
    assert(is_floor_sqrt(x, q));
    if q < r {
        assert((q + 1) * (q + 1) <= r * r) by (nonlinear_arith)
            requires
                q + 1 <= r,
        ;
    } else if r < q {
        assert((r + 1) * (r + 1) <= q * q) by (nonlinear_arith)
            requires
                r + 1 <= q,
        ;
    }
}

/// Square root of `x`, rounded down, by bisection.
fn floor_sqrt_exec(x: u128) -> (r: u64)
    ensures
        r as nat == floor_sqrt(x as nat),
        is_floor_sqrt(x as nat, r as nat),
{
    let mut lo: u128 = 0;
    let mut hi: u128 = 18446744073709551616;
    assert(x < hi * hi) by (nonlinear_arith)
        requires
            x <= 340282366920938463463374607431768211455,
            hi == 18446744073709551616,
    ;
    while hi - lo > 1
        invariant
            lo < hi <= 18446744073709551616,
            lo * lo <= x,
            x < hi * hi,
        decreases hi - lo,
    {
        let mid: u128 = lo + (hi - lo) / 2;
        assert(mid * mid <= 18446744073709551615 * 18446744073709551615) by (nonlinear_arith)
            requires
                mid <= 18446744073709551615,
        ;
        if mid * mid <= x {
            lo = mid;
        } else {
            hi = mid;
        }
    }
    proof {
        assert(hi == lo + 1);
        lemma_floor_sqrt_unique(x as nat, lo as nat);
    }
    lo as u64
}

impl Metric {
    /// The distance between two points of equal dimension.
    pub open spec fn dist(self, a: Seq<u32>, b: Seq<u32>) -> nat {
        match self {
            Metric::L1 => l1_prefix(a, b, a.len() as int),
            Metric::LInf => linf_prefix(a, b, a.len() as int),
            Metric::L2 => floor_sqrt(sq_prefix(a, b, a.len() as int)),
        }
    }

    /// Distance between `a` and `b`.
    pub fn eval(&self, a: &Vec<u32>, b: &Vec<u32>) -> (d: u64)
        requires
            a@.len() == b@.len(),
            a@.len() <= MAX_DIM,
        ensures
            d as nat == self.dist(a@, b@),
            d < DIST_BOUND,
    {
        if let Metric::L2 = self {
            return Self::eval_l2(a, b);
        }
        let n = a.len();
        let mut acc: u64 = 0;
        let mut i: usize = 0;
        while i < n
            invariant
                n == a@.len(),
                a@.len() == b@.len(),
                n <= MAX_DIM,
                i <= n,
                *self == Metric::L1 ==> acc as nat == l1_prefix(a@, b@, i as int),
                *self == Metric::LInf ==> acc as nat == linf_prefix(a@, b@, i as int),
                acc <= i * 4294967295,
            decreases n - i,
        {
            let x: u32 = a[i];
            let y: u32 = b[i];
            let diff: u64 = if x >= y {
                (x - y) as u64
            } else {
                (y - x) as u64
            };
            assert(diff as nat == abs_diff(a@[i as int], b@[i as int]));
            assert(i * 4294967295 + 4294967295 == (i + 1) * 4294967295) by (nonlinear_arith);
            match self {
                Metric::L1 => {
                    acc = acc + diff;
                },
                Metric::LInf => {
                    if diff > acc {
                        acc = diff;
                    }
                },
                Metric::L2 => {},
            }
            i = i + 1;
        }
        assert(n * 4294967295 <= 1048576 * 4294967295) by (nonlinear_arith)
            requires
                n <= 1048576,
        ;
        acc
    }
    fn eval_l2(a: &Vec<u32>, b: &Vec<u32>) -> (d: u64)
        requires
            a@.len() == b@.len(),
            a@.len() <= MAX_DIM,
        ensures
            d as nat == floor_sqrt(sq_prefix(a@, b@, a@.len() as int)),
            d < DIST_BOUND,
    {
        let n = a.len();
        let mut acc: u128 = 0;
        let mut i: usize = 0;
        while i < n
            invariant
                n == a@.len(),
                a@.len() == b@.len(),
                n <= MAX_DIM,
                i <= n,
                acc as nat == sq_prefix(a@, b@, i as int),
                acc <= i * 18446744065119617025,
            decreases n - i,
        {
            let x: u32 = a[i];
            let y: u32 = b[i];
            let diff: u64 = if x >= y {
                (x - y) as u64
            } else {
                (y - x) as u64
            };
            assert(diff * diff <= 4294967295 * 4294967295) by (nonlinear_arith)
                requires
                    diff <= 4294967295,
            ;
            assert(i * 18446744065119617025 + 18446744065119617025 == (i + 1) * 18446744065119617025)
                by (nonlinear_arith);
            assert((i + 1) * 18446744065119617025 <= 1048576 * 18446744065119617025) by (nonlinear_arith)
                requires
                    i + 1 <= 1048576,
            ;
            let sq: u128 = (diff as u128) * (diff as u128);
            acc = acc + sq;
            i = i + 1;
        }
        let r = floor_sqrt_exec(acc);
        proof {
            assert(n * 18446744065119617025 <= 1048576 * 18446744065119617025) by (nonlinear_arith)
                requires
                    n <= 1048576,
            ;
            assert(is_floor_sqrt(acc as nat, r as nat));
            if r >= 4503599627370496 {
                assert(r * r >= 4503599627370496 * 4503599627370496) by (nonlinear_arith)
                    requires
                        r >= 4503599627370496,
                ;
            }
        }
        r
    }
}

} // verus!
