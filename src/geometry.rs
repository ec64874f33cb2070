use vstd::prelude::*;

verus! {

/// Largest absolute value of a coordinate that the library accepts.
pub const COORD_LIMIT: i64 = 1073741824;

/// Distances are measured in units of `1 / DIST_SCALE` map units.
pub const DIST_SCALE: u64 = 1024;

/// A position on the map, in whole map units.
#[derive(Clone, Copy, Debug, PartialEq, Eq, Structural)]
pub struct Point {
    pub x: i64,
    pub y: i64,
}

pub open spec fn coord_ok(c: int) -> bool {
    -COORD_LIMIT <= c <= COORD_LIMIT
}

pub open spec fn in_range(p: Point) -> bool {
    coord_ok(p.x as int) && coord_ok(p.y as int)
}

pub open spec fn all_in_range(ps: Seq<Point>) -> bool {
    forall|i: int| 0 <= i < ps.len() ==> #[trigger] in_range(ps[i])
}

/// Squared Euclidean distance.
pub open spec fn sq_dist(p: Point, q: Point) -> nat {
    ((p.x - q.x) * (p.x - q.x) + (p.y - q.y) * (p.y - q.y)) as nat
}

/// The integer square root: the largest `r` with `r * r <= n`.
pub open spec fn isqrt(n: nat) -> nat
    decreases n,
{
    if n == 0 {
        0
    } else {
        let r = isqrt((n - 1) as nat);
        if (r + 1) * (r + 1) <= n {
            r + 1
        } else {
            r
        }
    }
}

/// Euclidean distance in units of `1 / DIST_SCALE`, rounded down.
pub open spec fn dist(p: Point, q: Point) -> nat {
    isqrt((sq_dist(p, q) * (DIST_SCALE * DIST_SCALE)) as nat)
}

/// Sum of the distances from each point of `ps` to `c`.
pub open spec fn total_dist(ps: Seq<Point>, c: Point) -> nat
    decreases ps.len(),
{
    if ps.len() == 0 {
        0
    } else {
        total_dist(ps.drop_last(), c) + dist(ps.last(), c)
    }
}

pub proof fn lemma_isqrt_bounds(n: nat)
    ensures
        isqrt(n) * isqrt(n) <= n,
        n < (isqrt(n) + 1) * (isqrt(n) + 1),
    decreases n,
{
    if n > 0 {
        lemma_isqrt_bounds((n - 1) as nat);
        let r = isqrt((n - 1) as nat);
        assert((r + 1) * (r + 1) < (r + 2) * (r + 2)) by (nonlinear_arith);
        let s = isqrt(n);
        if (r + 1) * (r + 1) <= n {
            assert(s == r + 1);
            assert(s * s <= n);
            assert((s + 1) * (s + 1) == (r + 2) * (r + 2));
        } else {
            assert(s == r);
        }
        assert(s * s <= n);
        assert(n < (s + 1) * (s + 1));
    } else {
        assert(isqrt(n) == 0);
        assert(n < (isqrt(n) + 1) * (isqrt(n) + 1)) by (nonlinear_arith)
            requires n == 0, isqrt(n) == 0;
    }
}

pub proof fn lemma_isqrt_unique(n: nat, r: nat)
    requires
        r * r <= n,
        n < (r + 1) * (r + 1),
    ensures
        isqrt(n) == r,
{
    lemma_isqrt_bounds(n);
    let s = isqrt(n);
    if s < r {
        assert((s + 1) * (s + 1) <= r * r) by (nonlinear_arith)
            requires s + 1 <= r;
    } else if r < s {
        assert((r + 1) * (r + 1) <= s * s) by (nonlinear_arith)
            requires r + 1 <= s;
    }
}

/// A larger argument never gives a smaller root.
pub proof fn lemma_isqrt_monotone(a: nat, b: nat)
    requires
        a <= b,
    ensures
        isqrt(a) <= isqrt(b),
{
    lemma_isqrt_bounds(a);
    lemma_isqrt_bounds(b);
    let (ra, rb) = (isqrt(a), isqrt(b));
    if rb < ra {
        assert((rb + 1) * (rb + 1) <= ra * ra) by (nonlinear_arith)
            requires rb + 1 <= ra;
    }
}

proof fn lemma_sq_le(d: int, bound: int)
    requires
        -bound <= d <= bound,
    ensures
        d * d <= bound * bound,
{
    assert(d * d <= bound * bound) by (nonlinear_arith)
        requires -bound <= d <= bound;
}

pub proof fn lemma_sq_dist_bound(p: Point, q: Point)
    requires
        in_range(p),
        in_range(q),
    ensures
        sq_dist(p, q) <= 0x8000_0000_0000_0000,
{
    let (dx, dy) = (p.x - q.x, p.y - q.y);
    lemma_sq_le(dx, 0x8000_0000);
    lemma_sq_le(dy, 0x8000_0000);
    assert(dx * dx >= 0 && dy * dy >= 0) by (nonlinear_arith);
}

pub proof fn lemma_dist_bound(p: Point, q: Point)
    requires
        in_range(p),
        in_range(q),
    ensures
        dist(p, q) < 0x400_0000_0000,
{
    lemma_sq_dist_bound(p, q);
    let n: nat = sq_dist(p, q) * (DIST_SCALE * DIST_SCALE) as nat;
    assert(n <= 0x8000_0000_0000_0000 * 0x10_0000) by (nonlinear_arith)
        requires sq_dist(p, q) <= 0x8000_0000_0000_0000, n == sq_dist(p, q) * 0x10_0000;
    lemma_isqrt_bounds(n);
    let r = isqrt(n);
    if r >= 0x400_0000_0000 {
        assert(r * r >= 0x400_0000_0000 * 0x400_0000_0000) by (nonlinear_arith)
            requires r >= 0x400_0000_0000;
    }
}

/// Integer square root of any `u128`, by bisection.
pub fn isqrt_u128(n: u128) -> (r: u128)
    ensures
        r == isqrt(n as nat),
        r < 0x1_0000_0000_0000_0000,
{
    let mut lo: u128 = 0;
    let mut hi: u128 = 0x1_0000_0000_0000_0000;
    assert(n < hi * hi) by (nonlinear_arith)
        requires hi == 0x1_0000_0000_0000_0000, n <= u128::MAX;
    while hi - lo > 1
        invariant
            lo < hi <= 0x1_0000_0000_0000_0000,
            lo * lo <= n,
            n < hi * hi,
        decreases hi - lo,
    {
        let mid: u128 = lo + (hi - lo) / 2;
        assert(mid * mid < 0x1_0000_0000_0000_0000 * 0x1_0000_0000_0000_0000) by (nonlinear_arith)
            requires mid < 0x1_0000_0000_0000_0000;
        if mid * mid <= n {
            lo = mid;
        } else {
            hi = mid;
        }
    }
    proof {
        lemma_isqrt_unique(n as nat, lo as nat);
    }
    lo
}

/// Squared Euclidean distance between two in-range points.
pub fn sq_distance(p: &Point, q: &Point) -> (r: u64)
    requires
        in_range(*p),
        in_range(*q),
    ensures
        r == sq_dist(*p, *q),
{
    proof {
        lemma_sq_dist_bound(*p, *q);
    }
    let dx: i64 = p.x - q.x;
    let dy: i64 = p.y - q.y;
    let ax: u64 = if dx < 0 { (0 - dx) as u64 } else { dx as u64 };
    let ay: u64 = if dy < 0 { (0 - dy) as u64 } else { dy as u64 };
    proof {
        lemma_sq_le(dx as int, 0x8000_0000);
        lemma_sq_le(dy as int, 0x8000_0000);
        assert(ax * ax == dx * dx) by (nonlinear_arith)
            requires ax == dx || ax == -dx;
        assert(ay * ay == dy * dy) by (nonlinear_arith)
            requires ay == dy || ay == -dy;
    }
    ax * ax + ay * ay
}

/// Euclidean distance between two in-range points, in units of `1 / DIST_SCALE`.
pub fn distance(p: &Point, q: &Point) -> (r: u64)
    requires
        in_range(*p),
        in_range(*q),
    ensures
        r == dist(*p, *q),
        r < 0x400_0000_0000,
{
    proof {
        lemma_dist_bound(*p, *q);
    }
    let sq: u64 = sq_distance(p, q);
    let scaled: u128 = (sq as u128) * ((DIST_SCALE * DIST_SCALE) as u128);
    isqrt_u128(scaled) as u64
}

} // verus!
