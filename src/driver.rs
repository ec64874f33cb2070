use vstd::prelude::*;

use crate::config::{bounds_ok, check_config, config_issue, in_bounds, Bounds, Config, ConfigError};
use crate::geometry::{
    all_in_range, dist, distance, in_range, lemma_dist_bound, Point, DIST_SCALE,
};
use crate::median::{indices_ok, median, median_of, subset};
use crate::partition::{cluster, lemma_partition_complete, nearest, nearest_center, partition};
use crate::random::random_in;

verus! {

/// Where a driver stands in its cycle.
#[derive(Clone, Copy, Debug, PartialEq, Eq, Structural)]
pub enum Status {
    /// No centers yet.
    Uninitialized,
    /// Centers seeded (or moved by an iteration that did not converge).
    Ready,
    /// The last iteration changed the total error by less than the threshold.
    Converged,
    /// A run used all its iterations without converging.
    IterationLimitReached,
}

/// The state of a driver as the contracts see it.
pub ghost struct Snapshot {
    pub centers: Seq<Point>,
    pub sets: Seq<Seq<usize>>,
    pub last_error: Option<u128>,
    pub best: Option<u128>,
    pub best_centers: Seq<Point>,
    pub status: Status,
}

/// New position of each center: the median of its cluster, or the old
/// position where the cluster is empty.
pub open spec fn next_centers(pts: Seq<Point>, cs: Seq<Point>, step: nat, eps: nat) -> Seq<Point> {
    Seq::new(
        cs.len(),
        |g: int|
            if cluster(pts, cs, g).len() == 0 {
                cs[g]
            } else {
                median(subset(pts, cluster(pts, cs, g)), step, eps)
            },
    )
}

/// Sum over the first `m` points of the distance from each to the new position
/// of the center it was assigned to under `old`.
pub open spec fn error_upto(pts: Seq<Point>, old: Seq<Point>, new: Seq<Point>, m: int) -> nat
    decreases m,
{
    if m <= 0 {
        0
    } else {
        error_upto(pts, old, new, m - 1) + dist(pts[m - 1], new[nearest(pts[m - 1], old)])
    }
}

/// Total error of an assignment made under `old` once centers stand at `new`.
pub open spec fn total_error(pts: Seq<Point>, old: Seq<Point>, new: Seq<Point>) -> nat {
    error_upto(pts, old, new, pts.len() as int)
}

/// The new error is strictly below the best one so far (or there is none yet).
pub open spec fn beats(best: Option<u128>, e: int) -> bool {
    match best {
        Some(b) => e < b,
        None => true,
    }
}

/// The new error is within the convergence threshold of the previous one.
pub open spec fn close_to(last: Option<u128>, e: int, k_median_epsilon: nat) -> bool {
    match last {
        Some(l) => -(k_median_epsilon * DIST_SCALE) < e - l < k_median_epsilon * DIST_SCALE,
        None => false,
    }
}

/// One iteration: partition, move each nonempty cluster's center to its median,
/// measure the total error, keep the best, test convergence.
pub open spec fn iterate_spec(pts: Seq<Point>, cfg: Config, s: Snapshot) -> Snapshot {
    let sets = Seq::new(s.centers.len(), |g: int| cluster(pts, s.centers, g));
    let cs = next_centers(pts, s.centers, cfg.anneal_step as nat, cfg.anneal_epsilon as nat);
    let e = total_error(pts, s.centers, cs);
    Snapshot {
        centers: cs,
        sets: sets,
        last_error: Some(e as u128),
        best: if beats(s.best, e as int) {
            Some(e as u128)
        } else {
            s.best
        },
        best_centers: if beats(s.best, e as int) {
            cs
        } else {
            s.best_centers
        },
        status: if close_to(s.last_error, e as int, cfg.k_median_epsilon as nat) {
            Status::Converged
        } else {
            Status::Ready
        },
    }
}

/// A run of at most `n` iterations, stopping at the first that converges.
pub open spec fn run_spec(pts: Seq<Point>, cfg: Config, s: Snapshot, n: nat) -> Snapshot
    decreases n,
{
    if n == 0 {
        Snapshot { status: Status::IterationLimitReached, ..s }
    } else {
        let t = iterate_spec(pts, cfg, s);
        if t.status == Status::Converged {
            t
        } else {
            run_spec(pts, cfg, t, (n - 1) as nat)
        }
    }
}

/// The best error recorded in `t` is no worse than the one in `s`, and where it
/// is the same, so are the centers recorded with it.
pub open spec fn best_kept(s: Snapshot, t: Snapshot) -> bool {
    &&& s.best matches Some(b) ==> (t.best matches Some(c) && c <= b)
    &&& t.best == s.best ==> t.best_centers == s.best_centers
}

/// A best error is recorded and is no more than the last error.
pub open spec fn best_within_last(s: Snapshot) -> bool {
    s.best matches Some(b) && s.last_error matches Some(l) && b <= l
}

/// `s` is `prev` freshly seeded: `k` centers within `b`, empty clusters, no
/// previous error, the best solution so far kept.
pub open spec fn fresh_seed(s: Snapshot, k: nat, b: Bounds, prev: Snapshot) -> bool {
    &&& s.centers.len() == k
    &&& forall|g: int| 0 <= g < s.centers.len() ==> #[trigger] in_bounds(s.centers[g], b)
    &&& s.sets == Seq::new(k, |g: int| Seq::<usize>::empty())
    &&& s.last_error is None
    &&& s.best == prev.best
    &&& s.best_centers == prev.best_centers
    &&& s.status == Status::Ready
}

pub proof fn lemma_best_kept_trans(s: Snapshot, t: Snapshot, u: Snapshot)
    requires
        best_kept(s, t),
        best_kept(t, u),
    ensures
        best_kept(s, u),
{
}

proof fn lemma_error_bound(pts: Seq<Point>, old: Seq<Point>, new: Seq<Point>, m: int)
    requires
        0 <= m <= pts.len(),
        old.len() >= 1,
        new.len() == old.len(),
        all_in_range(pts),
        all_in_range(new),
    ensures
        error_upto(pts, old, new, m) <= m * 0x400_0000_0000,
    decreases m,
{
    if m > 0 {
        lemma_error_bound(pts, old, new, m - 1);
        crate::partition::lemma_nearest_upto(pts[m - 1], old, old.len() as int);
        lemma_dist_bound(pts[m - 1], new[nearest(pts[m - 1], old)]);
    }
}

/// Over a whole run, and so over any sequence of runs, the best error recorded
/// never rises.
pub proof fn lemma_run_keeps_best(pts: Seq<Point>, cfg: Config, s: Snapshot, n: nat)
    ensures
        best_kept(s, run_spec(pts, cfg, s, n)),
    decreases n,
{
    if n > 0 {
        let t = iterate_spec(pts, cfg, s);
        if t.status != Status::Converged {
            lemma_run_keeps_best(pts, cfg, t, (n - 1) as nat);
            lemma_best_kept_trans(s, t, run_spec(pts, cfg, t, (n - 1) as nat));
        }
    }
}

/// Once the centers no longer move, iterating again from them measures the
/// same total error as before, reports convergence, and leaves them in place.
pub proof fn lemma_fixed_point_converges(pts: Seq<Point>, cfg: Config, s: Snapshot)
    requires
        s.centers.len() >= 1,
        all_in_range(pts),
        all_in_range(s.centers),
        cfg.k_median_epsilon >= 1,
        next_centers(pts, s.centers, cfg.anneal_step as nat, cfg.anneal_epsilon as nat) == s.centers,
        s.last_error == Some(total_error(pts, s.centers, s.centers) as u128),
        pts.len() <= usize::MAX,
    ensures
        iterate_spec(pts, cfg, s).centers == s.centers,
        iterate_spec(pts, cfg, s).last_error == s.last_error,
        iterate_spec(pts, cfg, s).status == Status::Converged,
{
    lemma_error_bound(pts, s.centers, s.centers, pts.len() as int);
    assert(pts.len() * 0x400_0000_0000 <= usize::MAX * 0x400_0000_0000) by (nonlinear_arith)
        requires pts.len() <= usize::MAX;
}

/// Sum over all points of the distance from each to the position in `new` of
/// the center nearest to it in `old`.
pub fn assignment_error(points: &Vec<Point>, old: &Vec<Point>, new: &Vec<Point>) -> (r: u128)
    requires
        old.len() >= 1,
        new.len() == old.len(),
        all_in_range(points@),
        all_in_range(old@),
        all_in_range(new@),
    ensures
        r == total_error(points@, old@, new@),
{
    let mut e: u128 = 0;
    let mut i: usize = 0;
    while i < points.len()
        invariant
            i <= points.len(),
            old.len() >= 1,
            new.len() == old.len(),
            all_in_range(points@),
            all_in_range(old@),
            all_in_range(new@),
            e == error_upto(points@, old@, new@, i as int),
            e <= i * 0x400_0000_0000,
        decreases points.len() - i,
    {
        let a: usize = nearest_center(&points[i], old);
        let d: u64 = distance(&points[i], &new[a]);
        proof {
            assert((i + 1) * 0x400_0000_0000 <= usize::MAX * 0x400_0000_0000) by (nonlinear_arith)
                requires i < usize::MAX;
        }
        e = e + d as u128;
        i = i + 1;
    }
    e
}

fn copy_points(v: &Vec<Point>) -> (r: Vec<Point>)
    ensures
        r@ == v@,
{
    let mut r: Vec<Point> = Vec::new();
    let mut i: usize = 0;
    while i < v.len()
        invariant
            i <= v.len(),
            r@ == v@.take(i as int),
        decreases v.len() - i,
    {
        r.push(v[i]);
        i = i + 1;
        assert(r@ =~= v@.take(i as int));
    }
    assert(v@.take(i as int) =~= v@);
    r
}

/// The k-median clustering loop and the best solution seen over the session.
pub struct Driver {
    points: Vec<Point>,
    bounds: Bounds,
    config: Config,
    centers: Vec<Point>,
    sets: Vec<Vec<usize>>,
    last_error: Option<u128>,
    best_so_far: Option<u128>,
    best_so_far_centers: Vec<Point>,
    status: Status,
}

impl Driver {
    pub closed spec fn spec_points(&self) -> Seq<Point> {
        self.points@
    }

    pub closed spec fn spec_bounds(&self) -> Bounds {
        self.bounds
    }

    pub closed spec fn spec_config(&self) -> Config {
        self.config
    }

    pub closed spec fn view(&self) -> Snapshot {
        Snapshot {
            centers: self.centers@,
            sets: Seq::new(self.sets@.len(), |g: int| self.sets@[g]@),
            last_error: self.last_error,
            best: self.best_so_far,
            best_centers: self.best_so_far_centers@,
            status: self.status,
        }
    }

    /// The setup is accepted, and centers exist exactly when the status says so.
    pub closed spec fn wf(&self) -> bool {
        &&& config_issue(self.points@, self.bounds, self.config) is None
        &&& self.status == Status::Uninitialized ==> self.centers@.len() == 0 && self.sets@.len() == 0
        &&& self.status != Status::Uninitialized ==> self.centers@.len() == self.config.k
            && self.sets@.len() == self.config.k
        &&& all_in_range(self.centers@)
    }

    /// Whether centers have been seeded for the current `k`.
    pub closed spec fn seeded(&self) -> bool {
        self.status != Status::Uninitialized
    }

    /// A driver over `points`, or the first thing wrong with the setup.
    pub fn new(points: Vec<Point>, bounds: Bounds, config: Config) -> (r: Result<Driver, ConfigError>)
        ensures
            match r {
                Ok(d) => {
                    &&& config_issue(points@, bounds, config) is None
                    &&& d.wf()
                    &&& d.spec_points() == points@
                    &&& d.spec_bounds() == bounds
                    &&& d.spec_config() == config
                    &&& d@.centers.len() == 0
                    &&& d@.sets.len() == 0
                    &&& d@.last_error is None
                    &&& d@.best is None
                    &&& d@.best_centers.len() == 0
                    &&& d@.status == Status::Uninitialized
                },
                Err(e) => config_issue(points@, bounds, config) == Some(e),
            },
    {
        match check_config(&points, &bounds, &config) {
            Some(e) => Err(e),
            None => {
                let d = Driver {
                    points,
                    bounds,
                    config,
                    centers: Vec::new(),
                    sets: Vec::new(),
                    last_error: None,
                    best_so_far: None,
                    best_so_far_centers: Vec::new(),
                    status: Status::Uninitialized,
                };
                proof {
                    assert(d@.sets =~= Seq::<Seq<usize>>::empty());
                }
                Ok(d)
            },
        }
    }

    /// Replaces the parameters. A new `k` discards the centers, which must then be
    /// seeded again; the best solution so far is kept. A refused configuration
    /// leaves the driver as it was.
    pub fn set_config(&mut self, config: Config) -> (r: Result<(), ConfigError>)
        requires
            old(self).wf(),
        ensures
            final(self).wf(),
            final(self).spec_points() == old(self).spec_points(),
            final(self).spec_bounds() == old(self).spec_bounds(),
            final(self)@.best == old(self)@.best,
            final(self)@.best_centers == old(self)@.best_centers,
            match r {
                Ok(()) => {
                    &&& config_issue(old(self).spec_points(), old(self).spec_bounds(), config) is None
                    &&& final(self).spec_config() == config
                    &&& config.k == old(self).spec_config().k ==> final(self)@ == old(self)@
                    &&& config.k != old(self).spec_config().k ==> {
                        &&& final(self)@.centers.len() == 0
                        &&& final(self)@.sets.len() == 0
                        &&& final(self)@.last_error is None
                        &&& final(self)@.status == Status::Uninitialized
                    }
                },
                Err(e) => {
                    &&& config_issue(old(self).spec_points(), old(self).spec_bounds(), config) == Some(e)
                    &&& *final(self) == *old(self)
                },
            },
    {
        match check_config(&self.points, &self.bounds, &config) {
            Some(e) => Err(e),
            None => {
                if config.k != self.config.k {
                    self.centers = Vec::new();
                    self.sets = Vec::new();
                    self.last_error = None;
                    self.status = Status::Uninitialized;
                    proof {
                        assert(self@.sets =~= Seq::<Seq<usize>>::empty());
                    }
                }
                self.config = config;
                Ok(())
            },
        }
    }

    /// Places the `k` centers at the given positions and clears the clusters
    /// and the previous error; the best solution so far is kept.
    pub fn reseed(&mut self, centers: Vec<Point>)
        requires
            old(self).wf(),
            centers.len() == old(self).spec_config().k,
            forall|g: int| 0 <= g < centers.len() ==> #[trigger] in_bounds(centers@[g], old(self).spec_bounds()),
        ensures
            final(self).wf(),
            final(self).spec_points() == old(self).spec_points(),
            final(self).spec_bounds() == old(self).spec_bounds(),
            final(self).spec_config() == old(self).spec_config(),
            final(self)@.centers == centers@,
            final(self)@.sets == Seq::new(centers.len() as nat, |g: int| Seq::<usize>::empty()),
            final(self)@.last_error is None,
            final(self)@.best == old(self)@.best,
            final(self)@.best_centers == old(self)@.best_centers,
            final(self)@.status == Status::Ready,
    {
        let k: usize = centers.len();
        let mut sets: Vec<Vec<usize>> = Vec::new();
        let mut g: usize = 0;
        while g < k
            invariant
                g <= k,
                sets.len() == g,
                forall|h: int| 0 <= h < g ==> #[trigger] sets@[h]@ == Seq::<usize>::empty(),
            decreases k - g,
        {
            sets.push(Vec::new());
            g = g + 1;
        }
        proof {
            assert forall|g: int| 0 <= g < centers.len() implies #[trigger] in_range(centers@[g]) by {
                assert(in_bounds(centers@[g], old(self).spec_bounds()));
            }
        }
        self.centers = centers;
        self.sets = sets;
        self.last_error = None;
        self.status = Status::Ready;
        proof {
            assert(self@.sets =~= Seq::new(k as nat, |g: int| Seq::<usize>::empty()));
        }
    }

    /// Seeds the `k` centers at independent random positions within the bounds.
    pub fn reinitialize(&mut self)
        requires
            old(self).wf(),
        ensures
            final(self).wf(),
            final(self).spec_points() == old(self).spec_points(),
            final(self).spec_bounds() == old(self).spec_bounds(),
            final(self).spec_config() == old(self).spec_config(),
            final(self)@.centers.len() == old(self).spec_config().k,
            forall|g: int| 0 <= g < final(self)@.centers.len() ==> #[trigger] in_bounds(
                final(self)@.centers[g],
                final(self).spec_bounds(),
            ),
            final(self)@.sets == Seq::new(old(self).spec_config().k as nat, |g: int| Seq::<usize>::empty()),
            final(self)@.last_error is None,
            final(self)@.best == old(self)@.best,
            final(self)@.best_centers == old(self)@.best_centers,
            final(self)@.status == Status::Ready,
    {
        let mut centers: Vec<Point> = Vec::new();
        let mut g: usize = 0;
        while g < self.config.k
            invariant
                g <= self.config.k,
                self.wf(),
                centers.len() == g,
                forall|h: int| 0 <= h < g ==> #[trigger] in_bounds(centers@[h], self.bounds),
            decreases self.config.k - g,
        {
            let x: i64 = random_in(self.bounds.left, self.bounds.right);
            let y: i64 = random_in(self.bounds.top, self.bounds.bottom);
            centers.push(Point { x, y });
            g = g + 1;
        }
        self.reseed(centers);
    }
    /// One iteration: partition the points among the current centers, move the
    /// center of each nonempty cluster to its median (an empty cluster keeps its
    /// center), measure the total error, record it if it is the best so far,
    /// and test convergence against the previous error. Returns whether it converged.
    pub fn iterate(&mut self) -> (converged: bool)
        requires
            old(self).wf(),
            old(self).seeded(),
        ensures
            final(self).wf(),
            final(self).seeded(),
            final(self).spec_points() == old(self).spec_points(),
            final(self).spec_bounds() == old(self).spec_bounds(),
            final(self).spec_config() == old(self).spec_config(),
            final(self)@ == iterate_spec(old(self).spec_points(), old(self).spec_config(), old(self)@),
            converged == (final(self)@.status == Status::Converged),
            best_kept(old(self)@, final(self)@),
            best_within_last(final(self)@),
    {
        let ghost pts = self.points@;
        let ghost old_cs = self.centers@;
        let k: usize = self.config.k;
        let n: usize = self.points.len();
        proof {
            lemma_partition_complete(pts, old_cs);
        }
        let sets = partition(&self.points, &self.centers);
        let ghost next = next_centers(pts, old_cs, self.config.anneal_step as nat, self.config.anneal_epsilon as nat);
        let mut cs: Vec<Point> = Vec::new();
        let mut g: usize = 0;
        while g < k
            invariant
                g <= k,
                k == self.config.k,
                self.wf(),
                self.seeded(),
                pts == self.points@,
                old_cs == self.centers@,
                next == next_centers(pts, old_cs, self.config.anneal_step as nat, self.config.anneal_epsilon as nat),
                sets.len() == k,
                forall|h: int| 0 <= h < k ==> #[trigger] sets@[h]@ == cluster(pts, old_cs, h),
                forall|h: int, j: int|
                    0 <= h < k && 0 <= j < cluster(pts, old_cs, h).len() ==> #[trigger] cluster(pts, old_cs, h)[j]
                        < pts.len(),
                cs@ == next.take(g as int),
                all_in_range(cs@),
            decreases k - g,
        {
            let c: Point = if sets[g].len() == 0 {
                self.centers[g]
            } else {
                proof {
                    assert(indices_ok(sets@[g as int]@, self.points.len() as int)) by {
                        assert forall|j: int| 0 <= j < sets@[g as int]@.len() implies #[trigger] sets@[g as int]@[j]
                            < self.points.len() by {
                            assert(cluster(pts, old_cs, g as int)[j] < pts.len());
                        }
                    }
                }
                median_of(&self.points, &sets[g], self.config.anneal_step, self.config.anneal_epsilon)
            };
            proof {
                assert(in_range(old_cs[g as int]));
            }
            cs.push(c);
            g = g + 1;
            proof {
                assert(cs@ =~= next.take(g as int));
                assert forall|h: int| 0 <= h < cs@.len() implies #[trigger] in_range(cs@[h]) by {
                    if h < g - 1 {
                        assert(in_range(cs@.take(g - 1)[h]));
                    }
                }
            }
        }
        proof {
            assert(cs@ =~= next);
        }
        let e: u128 = assignment_error(&self.points, &self.centers, &cs);
        let converged: bool = match self.last_error {
            Some(l) => {
                let threshold: u128 = self.config.k_median_epsilon as u128 * DIST_SCALE as u128;
                if e >= l {
                    e - l < threshold
                } else {
                    l - e < threshold
                }
            },
            None => false,
        };
        let better: bool = match self.best_so_far {
            Some(b) => e < b,
            None => true,
        };
        if better {
            self.best_so_far = Some(e);
            self.best_so_far_centers = copy_points(&cs);
        }
        self.centers = cs;
        self.sets = sets;
        self.last_error = Some(e);
        self.status = if converged { Status::Converged } else { Status::Ready };
        proof {
            let t = iterate_spec(pts, self.config, old(self)@);
            assert(self@.sets =~= t.sets);
            assert(self@ == t);
        }
        converged
    }

    /// Iterates until convergence or until `k_median_max_iter` iterations have
    /// run, in which case the status becomes `IterationLimitReached`.
    pub fn run_k_median(&mut self)
        requires
            old(self).wf(),
            old(self).seeded(),
        ensures
            final(self).wf(),
            final(self).seeded(),
            final(self).spec_points() == old(self).spec_points(),
            final(self).spec_bounds() == old(self).spec_bounds(),
            final(self).spec_config() == old(self).spec_config(),
            final(self)@ == run_spec(
                old(self).spec_points(),
                old(self).spec_config(),
                old(self)@,
                old(self).spec_config().k_median_max_iter as nat,
            ),
            best_kept(old(self)@, final(self)@),
            old(self).spec_config().k_median_max_iter >= 1 ==> best_within_last(final(self)@),
    {
        let ghost pts = self.points@;
        let ghost cfg = self.config;
        let ghost target = run_spec(pts, cfg, self@, cfg.k_median_max_iter as nat);
        proof {
            lemma_run_keeps_best(pts, cfg, self@, cfg.k_median_max_iter as nat);
        }
        let max_iter: u32 = self.config.k_median_max_iter;
        let mut it: u32 = 0;
        while it < max_iter
            invariant
                it <= max_iter,
                max_iter == cfg.k_median_max_iter,
                self.wf(),
                self.seeded(),
                self.points@ == pts,
                self.config == cfg,
                pts == old(self).spec_points(),
                cfg == old(self).spec_config(),
                self.bounds == old(self).spec_bounds(),
                target == run_spec(pts, cfg, self@, (max_iter - it) as nat),
                target == run_spec(pts, cfg, old(self)@, cfg.k_median_max_iter as nat),
                best_kept(old(self)@, target),
                it > 0 ==> best_within_last(self@),
            decreases max_iter - it,
        {
            if self.iterate() {
                return;
            }
            it = it + 1;
        }
        self.status = Status::IterationLimitReached;
    }

    /// Seeds the centers at random positions and runs the clustering.
    pub fn reset_and_run(&mut self)
        requires
            old(self).wf(),
        ensures
            final(self).wf(),
            final(self).seeded(),
            final(self).spec_points() == old(self).spec_points(),
            final(self).spec_bounds() == old(self).spec_bounds(),
            final(self).spec_config() == old(self).spec_config(),
            exists|s: Snapshot|
                #[trigger] fresh_seed(s, old(self).spec_config().k as nat, old(self).spec_bounds(), old(self)@)
                    && final(self)@ == run_spec(
                    old(self).spec_points(),
                    old(self).spec_config(),
                    s,
                    old(self).spec_config().k_median_max_iter as nat,
                ),
            best_kept(old(self)@, final(self)@),
    {
        self.reinitialize();
        let ghost s = self@;
        proof {
            assert(best_kept(old(self)@, s));
        }
        self.run_k_median();
        proof {
            assert(fresh_seed(s, old(self).spec_config().k as nat, old(self).spec_bounds(), old(self)@));
            lemma_best_kept_trans(old(self)@, s, self@);
        }
    }

    /// Runs the clustering from the current centers, seeding them first where
    /// there are none for the current `k`.
    pub fn step_once(&mut self)
        requires
            old(self).wf(),
        ensures
            final(self).wf(),
            final(self).seeded(),
            final(self).spec_points() == old(self).spec_points(),
            final(self).spec_bounds() == old(self).spec_bounds(),
            final(self).spec_config() == old(self).spec_config(),
            old(self).seeded() ==> final(self)@ == run_spec(
                old(self).spec_points(),
                old(self).spec_config(),
                old(self)@,
                old(self).spec_config().k_median_max_iter as nat,
            ),
            !old(self).seeded() ==> exists|s: Snapshot|
                #[trigger] fresh_seed(s, old(self).spec_config().k as nat, old(self).spec_bounds(), old(self)@)
                    && final(self)@ == run_spec(
                    old(self).spec_points(),
                    old(self).spec_config(),
                    s,
                    old(self).spec_config().k_median_max_iter as nat,
                ),
            best_kept(old(self)@, final(self)@),
    {
        if self.status == Status::Uninitialized {
            self.reset_and_run();
        } else {
            self.run_k_median();
        }
    }

    /// What a well-formed driver guarantees: an accepted setup, points and
    /// centers in range, and centers for the current `k` exactly when seeded.
    pub proof fn lemma_wf(&self)
        requires
            self.wf(),
        ensures
            config_issue(self.spec_points(), self.spec_bounds(), self.spec_config()) is None,
            bounds_ok(self.spec_bounds()),
            all_in_range(self.spec_points()),
            1 <= self.spec_config().k <= self.spec_points().len() <= usize::MAX,
            self.spec_config().anneal_step >= 1,
            self.spec_config().anneal_epsilon >= 1,
            self.spec_config().k_median_epsilon >= 1,
            all_in_range(self@.centers),
            self.seeded() ==> self@.centers.len() == self.spec_config().k && self@.sets.len()
                == self.spec_config().k,
            !self.seeded() ==> self@.centers.len() == 0 && self@.sets.len() == 0,
    {
        assert(self.points@.len() == self.points.len());
    }

    /// Once the centers no longer move and the last error is theirs, a run
    /// converges at its first iteration, leaving the centers and the error as
    /// they were and the clusters those of these centers.
    pub proof fn lemma_stable_run(&self)
        requires
            self.wf(),
            self.seeded(),
            self.spec_config().k_median_max_iter >= 1,
            next_centers(
                self.spec_points(),
                self@.centers,
                self.spec_config().anneal_step as nat,
                self.spec_config().anneal_epsilon as nat,
            ) == self@.centers,
            self@.last_error == Some(total_error(self.spec_points(), self@.centers, self@.centers) as u128),
        ensures
            ({
                let r = run_spec(
                    self.spec_points(),
                    self.spec_config(),
                    self@,
                    self.spec_config().k_median_max_iter as nat,
                );
                &&& r.centers == self@.centers
                &&& r.last_error == self@.last_error
                &&& r.status == Status::Converged
                &&& r.sets == Seq::new(self@.centers.len(), |g: int| cluster(self.spec_points(), self@.centers, g))
            }),
    {
        self.lemma_wf();
        lemma_fixed_point_converges(self.spec_points(), self.spec_config(), self@);
    }

    /// The points being clustered.
    pub fn points(&self) -> (r: &Vec<Point>)
        ensures
            r@ == self.spec_points(),
    {
        &self.points
    }

    /// The rectangle in which centers are seeded.
    pub fn bounds(&self) -> (r: Bounds)
        ensures
            r == self.spec_bounds(),
    {
        self.bounds
    }

    /// The current parameters.
    pub fn config(&self) -> (r: Config)
        ensures
            r == self.spec_config(),
    {
        self.config
    }

    /// The current centers.
    pub fn centers(&self) -> (r: &Vec<Point>)
        ensures
            r@ == self@.centers,
    {
        &self.centers
    }

    /// The clusters of the last iteration: point indices, one list per center.
    pub fn sets(&self) -> (r: &Vec<Vec<usize>>)
        ensures
            r.len() == self@.sets.len(),
            forall|g: int| 0 <= g < r.len() ==> #[trigger] r@[g]@ == self@.sets[g],
    {
        &self.sets
    }

    /// The total error of the last iteration, in units of `1 / DIST_SCALE`.
    pub fn last_error(&self) -> (r: Option<u128>)
        ensures
            r == self@.last_error,
    {
        self.last_error
    }

    /// The lowest total error seen in this session.
    pub fn best_so_far(&self) -> (r: Option<u128>)
        ensures
            r == self@.best,
    {
        self.best_so_far
    }

    /// The centers that gave the lowest total error.
    pub fn best_so_far_centers(&self) -> (r: &Vec<Point>)
        ensures
            r@ == self@.best_centers,
    {
        &self.best_so_far_centers
    }

    /// Where the driver stands.
    pub fn status(&self) -> (r: Status)
        ensures
            r == self@.status,
    {
        self.status
    }

    /// Whether centers are seeded for the current `k`.
    pub fn is_seeded(&self) -> (r: bool)
        ensures
            r == self.seeded(),
    {
        self.status != Status::Uninitialized
    }
}

} // verus!
