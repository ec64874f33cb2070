use vstd::arithmetic::div_mod::lemma_fundamental_div_mod_converse;
use vstd::prelude::*;

use crate::geometry::{
    all_in_range, coord_ok, dist, distance, in_range, lemma_isqrt_unique, sq_dist, total_dist, Point,
    COORD_LIMIT,
};

verus! {

/// x offset of a move of length `step` in direction `d` (`+x`, `-x`, `+y`, `-y` in that order).
pub open spec fn off_x(d: int, step: nat) -> int {
    if d == 0 {
        step as int
    } else if d == 1 {
        -step
    } else {
        0
    }
}

/// y offset of a move of length `step` in direction `d`.
pub open spec fn off_y(d: int, step: nat) -> int {
    if d == 2 {
        step as int
    } else if d == 3 {
        -step
    } else {
        0
    }
}

/// Whether moving `c` by `step` in direction `d` stays inside the coordinate range.
pub open spec fn trial_ok(c: Point, step: nat, d: int) -> bool {
    coord_ok(c.x + off_x(d, step)) && coord_ok(c.y + off_y(d, step))
}

/// `c` moved by `step` in direction `d`.
pub open spec fn trial(c: Point, step: nat, d: int) -> Point {
    Point { x: (c.x + off_x(d, step)) as i64, y: (c.y + off_y(d, step)) as i64 }
}

/// The move in direction `d` stays in range and strictly lowers the summed distance.
pub open spec fn improves(ps: Seq<Point>, c: Point, step: nat, d: int) -> bool {
    trial_ok(c, step, d) && total_dist(ps, trial(c, step, d)) < total_dist(ps, c)
}

/// The first improving move among directions `d..4`, if any.
pub open spec fn first_move(ps: Seq<Point>, c: Point, step: nat, d: int) -> Option<Point>
    decreases 4 - d,
{
    if d >= 4 {
        None
    } else if improves(ps, c, step, d) {
        Some(trial(c, step, d))
    } else {
        first_move(ps, c, step, d + 1)
    }
}

/// The search from candidate `c`: while `step > eps`, adopt the first improving
/// move and scan again; when no direction improves, halve `step`. Each move is
/// judged by the summed distance at the moved position.
pub open spec fn descend(ps: Seq<Point>, c: Point, step: nat, eps: nat) -> Point
    decreases step, total_dist(ps, c),
    via descend_decreases
{
    if step <= eps {
        c
    } else {
        match first_move(ps, c, step, 0) {
            Some(t) => descend(ps, t, step, eps),
            None => descend(ps, c, step / 2, eps),
        }
    }
}

#[via_fn]
proof fn descend_decreases(ps: Seq<Point>, c: Point, step: nat, eps: nat) {
    lemma_first_move_improves(ps, c, step, 0);
}

pub open spec fn sum_x(ps: Seq<Point>) -> int
    decreases ps.len(),
{
    if ps.len() == 0 {
        0
    } else {
        sum_x(ps.drop_last()) + ps.last().x
    }
}

pub open spec fn sum_y(ps: Seq<Point>) -> int
    decreases ps.len(),
{
    if ps.len() == 0 {
        0
    } else {
        sum_y(ps.drop_last()) + ps.last().y
    }
}

/// Arithmetic mean of a nonempty point sequence, each coordinate rounded down.
pub open spec fn centroid(ps: Seq<Point>) -> Point {
    Point { x: (sum_x(ps) / ps.len() as int) as i64, y: (sum_y(ps) / ps.len() as int) as i64 }
}

/// The approximate geometric median: the search started at the centroid.
pub open spec fn median(ps: Seq<Point>, step: nat, eps: nat) -> Point {
    descend(ps, centroid(ps), step, eps)
}

/// The points of `pts` picked by `idx`, in the order of `idx`.
pub open spec fn subset(pts: Seq<Point>, idx: Seq<usize>) -> Seq<Point> {
    idx.map_values(|i: usize| pts[i as int])
}

pub open spec fn indices_ok(idx: Seq<usize>, n: int) -> bool {
    forall|j: int| 0 <= j < idx.len() ==> #[trigger] idx[j] < n
}

proof fn lemma_descend_unfold(ps: Seq<Point>, c: Point, step: nat, eps: nat)
    requires
        step > eps,
    ensures
        descend(ps, c, step, eps) == (match first_move(ps, c, step, 0) {
            Some(t) => descend(ps, t, step, eps),
            None => descend(ps, c, step / 2, eps),
        }),
{
}

/// A move that the search adopts strictly lowers the summed distance.
pub proof fn lemma_first_move_improves(ps: Seq<Point>, c: Point, step: nat, d: int)
    ensures
        first_move(ps, c, step, d) matches Some(t) ==> total_dist(ps, t) < total_dist(ps, c)
            && in_range(t),
    decreases 4 - d,
{
    if d < 4 && !improves(ps, c, step, d) {
        lemma_first_move_improves(ps, c, step, d + 1);
    }
}

/// The summed distance at the search's result is never above that at its start.
pub proof fn lemma_descend_never_worse(ps: Seq<Point>, c: Point, step: nat, eps: nat)
    ensures
        total_dist(ps, descend(ps, c, step, eps)) <= total_dist(ps, c),
    decreases step, total_dist(ps, c),
{
    if step > eps {
        lemma_first_move_improves(ps, c, step, 0);
        match first_move(ps, c, step, 0) {
            Some(t) => lemma_descend_never_worse(ps, t, step, eps),
            None => lemma_descend_never_worse(ps, c, step / 2, eps),
        }
    }
}

/// A candidate at summed distance zero is never moved.
pub proof fn lemma_descend_at_zero(ps: Seq<Point>, c: Point, step: nat, eps: nat)
    requires
        total_dist(ps, c) == 0,
    ensures
        descend(ps, c, step, eps) == c,
    decreases step,
{
    if step > eps {
        lemma_first_move_improves(ps, c, step, 0);
        lemma_descend_at_zero(ps, c, step / 2, eps);
    }
}

/// For a single point, the median search returns that point exactly.
pub proof fn lemma_median_of_one(p: Point, step: nat, eps: nat)
    requires
        in_range(p),
    ensures
        median(seq![p], step, eps) == p,
{
    let ps = seq![p];
    assert(ps.drop_last() =~= Seq::<Point>::empty());
    assert(sum_x(ps.drop_last()) == 0 && sum_y(ps.drop_last()) == 0);
    assert(sum_x(ps) == p.x);
    assert(sum_y(ps) == p.y);
    assert(centroid(ps) == p);
    assert(sq_dist(p, p) == 0);
    lemma_isqrt_unique(0, 0);
    assert(total_dist(ps.drop_last(), p) == 0);
    assert(dist(p, p) == 0);
    assert(total_dist(ps, p) == 0);
    lemma_descend_at_zero(ps, p, step, eps);
}

proof fn lemma_sums_bound(ps: Seq<Point>)
    requires
        all_in_range(ps),
    ensures
        -COORD_LIMIT * ps.len() <= sum_x(ps) <= COORD_LIMIT * ps.len(),
        -COORD_LIMIT * ps.len() <= sum_y(ps) <= COORD_LIMIT * ps.len(),
    decreases ps.len(),
{
    if ps.len() > 0 {
        lemma_sums_bound(ps.drop_last());
        let n = ps.len() as int;
        assert(COORD_LIMIT * n == COORD_LIMIT * (n - 1) + COORD_LIMIT) by (nonlinear_arith);
        assert(in_range(ps[n - 1]));
    }
}

/// Rounded-down mean of the coordinates summing to `s` over `n` points.
fn floor_mean(s: i128, n: u64) -> (r: i64)
    requires
        n > 0,
        -COORD_LIMIT * n <= s <= COORD_LIMIT * n,
    ensures
        r == (s as int) / (n as int),
        coord_ok(r as int),
{
    proof {
        assert(-0x1_0000_0000_0000_0000_0000_0000 <= s <= 0x1_0000_0000_0000_0000_0000_0000)
            by (nonlinear_arith)
            requires -COORD_LIMIT * n <= s <= COORD_LIMIT * n, n <= u64::MAX;
    }
    let ghost ni = n as int;
    let q: i128 = if s >= 0 {
        (s as u128 / n as u128) as i128
    } else {
        let m: u128 = (0 - s) as u128 + n as u128 - 1;
        let t: u128 = m / n as u128;
        proof {
            vstd::arithmetic::div_mod::lemma_fundamental_div_mod(m as int, ni);
            vstd::arithmetic::div_mod::lemma_mod_pos_bound(m as int, ni);
            assert(t <= m) by (nonlinear_arith)
                requires m == t * ni + (m as int) % ni, (m as int) % ni >= 0, ni >= 1, t >= 0;
        }
        0 - (t as i128)
    };
    proof {
        let qi = q as int;
        if s >= 0 {
            vstd::arithmetic::div_mod::lemma_fundamental_div_mod(s as int, ni);
            vstd::arithmetic::div_mod::lemma_mod_pos_bound(s as int, ni);
            assert(qi * ni <= s < qi * ni + ni) by (nonlinear_arith)
                requires qi == (s as int) / ni, s as int == ((s as int) / ni) * ni + (s as int) % ni,
                    0 <= (s as int) % ni < ni;
        } else {
            let m = -s + ni - 1;
            vstd::arithmetic::div_mod::lemma_fundamental_div_mod(m, ni);
            vstd::arithmetic::div_mod::lemma_mod_pos_bound(m, ni);
            assert(qi * ni <= s < qi * ni + ni) by (nonlinear_arith)
                requires qi == -(m / ni), m == (m / ni) * ni + m % ni, 0 <= m % ni < ni,
                    m == -s + ni - 1;
        }
        lemma_fundamental_div_mod_converse(s as int, ni, qi, s - qi * ni);
        assert(-COORD_LIMIT <= qi <= COORD_LIMIT) by (nonlinear_arith)
            requires qi * ni <= s < qi * ni + ni, -COORD_LIMIT * ni <= s <= COORD_LIMIT * ni,
                ni > 0;
    }
    q as i64
}

/// Centroid of the points of `pts` picked by `idx`.
fn centroid_of(pts: &Vec<Point>, idx: &Vec<usize>) -> (r: Point)
    requires
        idx.len() > 0,
        indices_ok(idx@, pts.len() as int),
        all_in_range(pts@),
    ensures
        r == centroid(subset(pts@, idx@)),
        in_range(r),
{
    let mut sx: i128 = 0;
    let mut sy: i128 = 0;
    let mut i: usize = 0;
    while i < idx.len()
        invariant
            i <= idx.len(),
            indices_ok(idx@, pts.len() as int),
            all_in_range(pts@),
            sx == sum_x(subset(pts@, idx@.take(i as int))),
            sy == sum_y(subset(pts@, idx@.take(i as int))),
            -COORD_LIMIT * i <= sx <= COORD_LIMIT * i,
            -COORD_LIMIT * i <= sy <= COORD_LIMIT * i,
        decreases idx.len() - i,
    {
        let p: Point = pts[idx[i]];
        proof {
            assert(in_range(pts@[idx@[i as int] as int]));
            assert(subset(pts@, idx@.take(i + 1)).drop_last() =~= subset(pts@, idx@.take(i as int)));
            assert(COORD_LIMIT * (i + 1) <= 0x1_0000_0000_0000_0000_0000_0000) by (nonlinear_arith)
                requires i < idx.len(), idx.len() <= usize::MAX;
            assert(COORD_LIMIT * (i + 1) == COORD_LIMIT * i + COORD_LIMIT) by (nonlinear_arith);
            assert(-COORD_LIMIT * (i + 1) == -COORD_LIMIT * i - COORD_LIMIT) by (nonlinear_arith);
            assert(-COORD_LIMIT * (i + 1) == -(COORD_LIMIT * (i + 1))) by (nonlinear_arith);
        }
        assert(in_range(p));
        assert(-COORD_LIMIT * (i + 1) <= sx + p.x <= COORD_LIMIT * (i + 1));
        assert(-0x1_0000_0000_0000_0000_0000_0000 <= sx + p.x <= 0x1_0000_0000_0000_0000_0000_0000);
        assert(-0x1_0000_0000_0000_0000_0000_0000 <= sy + p.y <= 0x1_0000_0000_0000_0000_0000_0000);
        sx = sx + p.x as i128;
        sy = sy + p.y as i128;
        i = i + 1;
    }
    proof {
        assert(idx@.take(idx.len() as int) =~= idx@);
    }
    let n: u64 = idx.len() as u64;
    Point { x: floor_mean(sx, n), y: floor_mean(sy, n) }
}

/// Summed distance from the points of `pts` picked by `idx` to `c`.
pub fn subset_distance(pts: &Vec<Point>, idx: &Vec<usize>, c: &Point) -> (r: u128)
    requires
        indices_ok(idx@, pts.len() as int),
        all_in_range(pts@),
        in_range(*c),
    ensures
        r == total_dist(subset(pts@, idx@), *c),
{
    let mut sum: u128 = 0;
    let mut i: usize = 0;
    while i < idx.len()
        invariant
            i <= idx.len(),
            indices_ok(idx@, pts.len() as int),
            all_in_range(pts@),
            in_range(*c),
            sum == total_dist(subset(pts@, idx@.take(i as int)), *c),
            sum <= i * 0x400_0000_0000,
        decreases idx.len() - i,
    {
        let d: u64 = distance(&pts[idx[i]], c);
        proof {
            assert(subset(pts@, idx@.take(i + 1)).drop_last() =~= subset(pts@, idx@.take(i as int)));
        }
        sum = sum + d as u128;
        i = i + 1;
    }
    proof {
        assert(idx@.take(idx.len() as int) =~= idx@);
    }
    sum
}

/// `c` moved by `step` in direction `d`, or `None` where that leaves the range.
fn trial_point(c: &Point, step: u64, d: usize) -> (r: Option<Point>)
    requires
        in_range(*c),
        d < 4,
    ensures
        r == (if trial_ok(*c, step as nat, d as int) {
            Some(trial(*c, step as nat, d as int))
        } else {
            None
        }),
{
    let s: i128 = step as i128;
    let x: i128 = if d == 0 { c.x as i128 + s } else if d == 1 { c.x as i128 - s } else { c.x as i128 };
    let y: i128 = if d == 2 { c.y as i128 + s } else if d == 3 { c.y as i128 - s } else { c.y as i128 };
    if -(COORD_LIMIT as i128) <= x && x <= COORD_LIMIT as i128 && -(COORD_LIMIT as i128) <= y
        && y <= COORD_LIMIT as i128 {
        Some(Point { x: x as i64, y: y as i64 })
    } else {
        None
    }
}

/// The first improving move from `c` and the summed distance there.
fn first_improving(pts: &Vec<Point>, idx: &Vec<usize>, c: &Point, step: u64, current: u128) -> (r:
    Option<(Point, u128)>)
    requires
        indices_ok(idx@, pts.len() as int),
        all_in_range(pts@),
        in_range(*c),
        current == total_dist(subset(pts@, idx@), *c),
    ensures
        first_move(subset(pts@, idx@), *c, step as nat, 0) == (match r {
            Some(m) => Some(m.0),
            None => None::<Point>,
        }),
        r matches Some(m) ==> m.1 == total_dist(subset(pts@, idx@), m.0),
{
    let ghost ps = subset(pts@, idx@);
    let mut d: usize = 0;
    while d < 4
        invariant
            d <= 4,
            indices_ok(idx@, pts.len() as int),
            all_in_range(pts@),
            in_range(*c),
            current == total_dist(ps, *c),
            ps == subset(pts@, idx@),
            first_move(ps, *c, step as nat, 0) == first_move(ps, *c, step as nat, d as int),
        decreases 4 - d,
    {
        if let Some(t) = trial_point(c, step, d) {
            let td: u128 = subset_distance(pts, idx, &t);
            if td < current {
                return Some((t, td));
            }
        }
        d = d + 1;
    }
    None
}

/// The search of `descend` for the points of `pts` picked by `idx`.
pub(crate) fn median_of(pts: &Vec<Point>, idx: &Vec<usize>, anneal_step: u64, anneal_epsilon: u64) -> (r: Point)
    requires
        idx.len() > 0,
        indices_ok(idx@, pts.len() as int),
        all_in_range(pts@),
    ensures
        r == median(subset(pts@, idx@), anneal_step as nat, anneal_epsilon as nat),
        in_range(r),
{
    let ghost ps = subset(pts@, idx@);
    let ghost eps = anneal_epsilon as nat;
    let start: Point = centroid_of(pts, idx);
    let mut c: Point = start;
    let mut current: u128 = subset_distance(pts, idx, &c);
    let mut step: u64 = anneal_step;
    while step > anneal_epsilon
        invariant
            indices_ok(idx@, pts.len() as int),
            all_in_range(pts@),
            ps == subset(pts@, idx@),
            eps == anneal_epsilon as nat,
            in_range(c),
            current == total_dist(ps, c),
            current <= total_dist(ps, start),
            descend(ps, c, step as nat, eps) == descend(ps, start, anneal_step as nat, eps),
        decreases step, current,
    {
        proof {
            lemma_first_move_improves(ps, c, step as nat, 0);
        }
        let next = first_improving(pts, idx, &c, step, current);
        proof {
            lemma_descend_unfold(ps, c, step as nat, eps);
        }
        match next {
            Some((t, td)) => {
                c = t;
                current = td;
            },
            None => {
                step = step / 2;
            },
        }
    }
    c
}

/// Approximate geometric median of a nonempty point set: starting at the
/// centroid, move by `anneal_step` along `+x`, `-x`, `+y`, `-y` while that
/// lowers the summed distance, halving the step until it is at most
/// `anneal_epsilon`.
pub fn find_median(points: &Vec<Point>, anneal_step: u64, anneal_epsilon: u64) -> (r: Point)
    requires
        points.len() > 0,
        all_in_range(points@),
    ensures
        r == median(points@, anneal_step as nat, anneal_epsilon as nat),
        in_range(r),
        total_dist(points@, r) <= total_dist(points@, centroid(points@)),
{
    let mut idx: Vec<usize> = Vec::new();
    let mut i: usize = 0;
    while i < points.len()
        invariant
            i <= points.len(),
            idx@.len() == i,
            forall|j: int| 0 <= j < i ==> idx@[j] == j,
        decreases points.len() - i,
    {
        idx.push(i);
        i = i + 1;
    }
    proof {
        assert(subset(points@, idx@) =~= points@);
        lemma_descend_never_worse(points@, centroid(points@), anneal_step as nat, anneal_epsilon as nat);
    }
    median_of(points, &idx, anneal_step, anneal_epsilon)
}

} // verus!
