use vstd::prelude::*;

use crate::geometry::{
    all_in_range, dist, in_range, lemma_isqrt_monotone, sq_dist, sq_distance, DIST_SCALE, Point,
};

verus! {

/// Index of the nearest among the first `m` centers: the first one at least as
/// close as every later one (a later center wins only when strictly closer).
pub open spec fn nearest_upto(p: Point, cs: Seq<Point>, m: int) -> int
    decreases m,
{
    if m <= 1 {
        0
    } else {
        let b = nearest_upto(p, cs, m - 1);
        if sq_dist(p, cs[m - 1]) < sq_dist(p, cs[b]) {
            m - 1
        } else {
            b
        }
    }
}

/// Index of the center nearest to `p`, ties going to the lowest index.
pub open spec fn nearest(p: Point, cs: Seq<Point>) -> int {
    nearest_upto(p, cs, cs.len() as int)
}

/// In increasing order, the indices below `m` of the points whose nearest center is `g`.
pub open spec fn group(pts: Seq<Point>, cs: Seq<Point>, g: int, m: int) -> Seq<usize>
    decreases m,
{
    if m <= 0 {
        Seq::empty()
    } else if nearest(pts[m - 1], cs) == g {
        group(pts, cs, g, m - 1).push((m - 1) as usize)
    } else {
        group(pts, cs, g, m - 1)
    }
}

/// The cluster of center `g`: every point whose nearest center is `g`.
pub open spec fn cluster(pts: Seq<Point>, cs: Seq<Point>, g: int) -> Seq<usize> {
    group(pts, cs, g, pts.len() as int)
}

pub proof fn lemma_nearest_upto(p: Point, cs: Seq<Point>, m: int)
    requires
        1 <= m <= cs.len(),
    ensures
        0 <= nearest_upto(p, cs, m) < m,
        forall|j: int|
            0 <= j < m ==> sq_dist(p, cs[nearest_upto(p, cs, m)]) <= #[trigger] sq_dist(p, cs[j]),
        forall|j: int|
            0 <= j < nearest_upto(p, cs, m) ==> sq_dist(p, cs[nearest_upto(p, cs, m)]) < #[trigger] sq_dist(
                p,
                cs[j],
            ),
    decreases m,
{
    if m > 1 {
        lemma_nearest_upto(p, cs, m - 1);
    }
}

proof fn lemma_group(pts: Seq<Point>, cs: Seq<Point>, g: int, m: int)
    requires
        0 <= m <= pts.len() <= usize::MAX,
    ensures
        forall|i: int| 0 <= i < pts.len() ==>
            (#[trigger] group(pts, cs, g, m).contains(i as usize) <==> (i < m && nearest(pts[i], cs) == g)),
        forall|j: int| 0 <= j < group(pts, cs, g, m).len() ==> #[trigger] group(pts, cs, g, m)[j] < m,
        group(pts, cs, g, m).no_duplicates(),
    decreases m,
{
    if m > 0 {
        lemma_group(pts, cs, g, m - 1);
        let prev = group(pts, cs, g, m - 1);
        if nearest(pts[m - 1], cs) == g {
            let cur = prev.push((m - 1) as usize);
            assert forall|i: int| 0 <= i < pts.len() implies (#[trigger] cur.contains(i as usize) <==> (
            i < m && nearest(pts[i], cs) == g)) by {
                if cur.contains(i as usize) {
                    let j = choose|j: int| 0 <= j < cur.len() && cur[j] == i as usize;
                    if j < prev.len() {
                        assert(prev.contains(i as usize));
                    }
                }
                if i == m - 1 {
                    assert(cur[prev.len() as int] == i as usize);
                } else if i < m && nearest(pts[i], cs) == g {
                    let j = choose|j: int| 0 <= j < prev.len() && prev[j] == i as usize;
                    assert(cur[j] == i as usize);
                }
            }
            assert forall|a: int, b: int| 0 <= a < cur.len() && 0 <= b < cur.len() && a != b implies cur[a]
                != cur[b] by {
                if a < prev.len() && b < prev.len() {
                } else if a < prev.len() {
                    assert(prev[a] < m - 1);
                } else if b < prev.len() {
                    assert(prev[b] < m - 1);
                }
            }
        }
    }
}

/// Every point lies in exactly one cluster, once: the cluster of its nearest center.
pub proof fn lemma_partition_complete(pts: Seq<Point>, cs: Seq<Point>)
    requires
        cs.len() >= 1,
        pts.len() <= usize::MAX,
    ensures
        forall|i: int| 0 <= i < pts.len() ==> 0 <= #[trigger] nearest(pts[i], cs) < cs.len(),
        forall|i: int, g: int|
            0 <= i < pts.len() && 0 <= g < cs.len() ==> (#[trigger] cluster(pts, cs, g).contains(
                i as usize,
            ) <==> g == nearest(pts[i], cs)),
        forall|g: int| 0 <= g < cs.len() ==> #[trigger] cluster(pts, cs, g).no_duplicates(),
        forall|g: int, j: int|
            0 <= g < cs.len() && 0 <= j < cluster(pts, cs, g).len() ==> #[trigger] cluster(pts, cs, g)[j]
                < pts.len(),
{
    assert forall|i: int| 0 <= i < pts.len() implies 0 <= #[trigger] nearest(pts[i], cs) < cs.len() by {
        lemma_nearest_upto(pts[i], cs, cs.len() as int);
    }
    assert forall|g: int| 0 <= g < cs.len() implies {
        &&& forall|i: int| 0 <= i < pts.len() ==> (#[trigger] cluster(pts, cs, g).contains(i as usize)
            <==> g == nearest(pts[i], cs))
        &&& cluster(pts, cs, g).no_duplicates()
        &&& forall|j: int| 0 <= j < cluster(pts, cs, g).len() ==> #[trigger] cluster(pts, cs, g)[j] < pts.len()
    } by {
        lemma_group(pts, cs, g, pts.len() as int);
    }
}

/// No center is strictly closer to a point than the center it is assigned to,
/// and every center of lower index is strictly farther.
pub proof fn lemma_partition_nearest(pts: Seq<Point>, cs: Seq<Point>, i: int)
    requires
        cs.len() >= 1,
        0 <= i < pts.len(),
    ensures
        forall|j: int|
            0 <= j < cs.len() ==> #[trigger] dist(pts[i], cs[j]) >= dist(pts[i], cs[nearest(pts[i], cs)]),
        forall|j: int|
            0 <= j < cs.len() ==> #[trigger] sq_dist(pts[i], cs[j]) >= sq_dist(pts[i], cs[nearest(pts[i], cs)]),
        forall|j: int|
            0 <= j < nearest(pts[i], cs) ==> #[trigger] sq_dist(pts[i], cs[j]) > sq_dist(
                pts[i],
                cs[nearest(pts[i], cs)],
            ),
{
    let p = pts[i];
    lemma_nearest_upto(p, cs, cs.len() as int);
    let n = nearest(p, cs);
    assert forall|j: int| 0 <= j < cs.len() implies #[trigger] dist(p, cs[j]) >= dist(p, cs[n]) by {
        assert(sq_dist(p, cs[n]) * (DIST_SCALE * DIST_SCALE) <= sq_dist(p, cs[j]) * (DIST_SCALE
            * DIST_SCALE)) by (nonlinear_arith)
            requires sq_dist(p, cs[n]) <= sq_dist(p, cs[j]);
        lemma_isqrt_monotone(
            (sq_dist(p, cs[n]) * (DIST_SCALE * DIST_SCALE)) as nat,
            (sq_dist(p, cs[j]) * (DIST_SCALE * DIST_SCALE)) as nat,
        );
    }
}

/// Index of the center nearest to `p`, ties going to the lowest index.
pub fn nearest_center(p: &Point, centers: &Vec<Point>) -> (r: usize)
    requires
        centers.len() >= 1,
        in_range(*p),
        all_in_range(centers@),
    ensures
        r == nearest(*p, centers@),
        r < centers.len(),
{
    let mut best: usize = 0;
    let mut best_sq: u64 = sq_distance(p, &centers[0]);
    let mut j: usize = 1;
    while j < centers.len()
        invariant
            1 <= j <= centers.len(),
            in_range(*p),
            all_in_range(centers@),
            best == nearest_upto(*p, centers@, j as int),
            best < j,
            best_sq == sq_dist(*p, centers@[best as int]),
        decreases centers.len() - j,
    {
        let d: u64 = sq_distance(p, &centers[j]);
        if d < best_sq {
            best = j;
            best_sq = d;
        }
        j = j + 1;
    }
    best
}

/// Splits the points among the centers: cluster `g` holds, in increasing order,
/// the indices of the points whose nearest center is `g`.
pub fn partition(points: &Vec<Point>, centers: &Vec<Point>) -> (r: Vec<Vec<usize>>)
    requires
        centers.len() >= 1,
        all_in_range(points@),
        all_in_range(centers@),
    ensures
        r.len() == centers.len(),
        forall|g: int| 0 <= g < r.len() ==> #[trigger] r@[g]@ == cluster(points@, centers@, g),
{
    let mut assigned: Vec<usize> = Vec::new();
    let mut i: usize = 0;
    while i < points.len()
        invariant
            i <= points.len(),
            centers.len() >= 1,
            all_in_range(points@),
            all_in_range(centers@),
            assigned.len() == i,
            forall|m: int| 0 <= m < i ==> #[trigger] assigned@[m] == nearest(points@[m], centers@),
        decreases points.len() - i,
    {
        let a: usize = nearest_center(&points[i], centers);
        assigned.push(a);
        i = i + 1;
    }
    let mut sets: Vec<Vec<usize>> = Vec::new();
    let mut g: usize = 0;
    while g < centers.len()
        invariant
            g <= centers.len(),
            assigned.len() == points.len(),
            forall|m: int| 0 <= m < points.len() ==> #[trigger] assigned@[m] == nearest(points@[m], centers@),
            sets.len() == g,
            forall|h: int| 0 <= h < g ==> #[trigger] sets@[h]@ == cluster(points@, centers@, h),
        decreases centers.len() - g,
    {
        let mut set: Vec<usize> = Vec::new();
        let mut m: usize = 0;
        while m < assigned.len()
            invariant
                m <= assigned.len(),
                assigned.len() == points.len(),
                forall|q: int| 0 <= q < points.len() ==> #[trigger] assigned@[q] == nearest(points@[q], centers@),
                set@ == group(points@, centers@, g as int, m as int),
            decreases assigned.len() - m,
        {
            if assigned[m] == g {
                set.push(m);
            }
            m = m + 1;
        }
        sets.push(set);
        g = g + 1;
    }
    sets
}

} // verus!
