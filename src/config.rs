use vstd::prelude::*;

use crate::geometry::{all_in_range, coord_ok, in_range, Point, COORD_LIMIT};

verus! {

/// The rectangle in which centers are seeded: `left <= x < right`, `top <= y < bottom`.
#[derive(Clone, Copy, Debug, PartialEq, Eq, Structural)]
pub struct Bounds {
    pub left: i64,
    pub top: i64,
    pub right: i64,
    pub bottom: i64,
}

/// Parameters of the clustering.
#[derive(Clone, Copy, Debug, PartialEq, Eq, Structural)]
pub struct Config {
    /// Number of centers.
    pub k: usize,
    /// First step of the median search, in map units.
    pub anneal_step: u64,
    /// The median search stops once its step is at most this.
    pub anneal_epsilon: u64,
    /// Most iterations of one run.
    pub k_median_max_iter: u32,
    /// A run converges when the total error changes by less than this many map units.
    pub k_median_epsilon: u64,
}

/// Why a configuration is refused.
#[derive(Clone, Copy, Debug, PartialEq, Eq, Structural)]
pub enum ConfigError {
    /// The bounds are empty or leave the coordinate range.
    InvalidBounds,
    /// A point lies outside the coordinate range.
    PointOutOfRange,
    /// `k` is zero.
    NoClusters,
    /// `k` exceeds the number of points.
    TooManyClusters,
    /// A step or an epsilon is zero.
    NonPositiveParameter,
}

pub open spec fn bounds_ok(b: Bounds) -> bool {
    &&& coord_ok(b.left as int)
    &&& coord_ok(b.top as int)
    &&& coord_ok(b.right as int)
    &&& coord_ok(b.bottom as int)
    &&& b.left < b.right
    &&& b.top < b.bottom
}

pub open spec fn in_bounds(p: Point, b: Bounds) -> bool {
    b.left <= p.x < b.right && b.top <= p.y < b.bottom
}

/// The first thing wrong with a setup, checked in the order of `ConfigError`.
pub open spec fn config_issue(pts: Seq<Point>, b: Bounds, c: Config) -> Option<ConfigError> {
    if !bounds_ok(b) {
        Some(ConfigError::InvalidBounds)
    } else if !all_in_range(pts) {
        Some(ConfigError::PointOutOfRange)
    } else if c.k == 0 {
        Some(ConfigError::NoClusters)
    } else if c.k > pts.len() {
        Some(ConfigError::TooManyClusters)
    } else if c.anneal_step == 0 || c.anneal_epsilon == 0 || c.k_median_epsilon == 0 {
        Some(ConfigError::NonPositiveParameter)
    } else {
        None
    }
}

impl Default for Config {
    /// Ten centers, search from a step of 10000 down to 1, at most ten
    /// iterations, convergence below a change of 10.
    fn default() -> (r: Config)
        ensures
            r == (Config {
                k: 10,
                anneal_step: 10000,
                anneal_epsilon: 1,
                k_median_max_iter: 10,
                k_median_epsilon: 10,
            }),
    {
        Config { k: 10, anneal_step: 10000, anneal_epsilon: 1, k_median_max_iter: 10, k_median_epsilon: 10 }
    }
}

fn coord_in_range(c: i64) -> (r: bool)
    ensures
        r == coord_ok(c as int),
{
    -COORD_LIMIT <= c && c <= COORD_LIMIT
}

/// Whether every point lies in the coordinate range.
pub fn points_in_range(points: &Vec<Point>) -> (r: bool)
    ensures
        r == all_in_range(points@),
{
    let mut i: usize = 0;
    while i < points.len()
        invariant
            i <= points.len(),
            all_in_range(points@.take(i as int)),
        decreases points.len() - i,
    {
        if !(coord_in_range(points[i].x) && coord_in_range(points[i].y)) {
            assert(!in_range(points@[i as int]));
            return false;
        }
        assert(all_in_range(points@.take(i + 1))) by {
            assert forall|j: int| 0 <= j < i + 1 implies #[trigger] in_range(points@.take(i + 1)[j]) by {
                if j < i {
                    assert(points@.take(i + 1)[j] == points@.take(i as int)[j]);
                }
            }
        }
        i = i + 1;
    }
    assert(points@.take(i as int) =~= points@);
    true
}

/// Checks a setup: `None` when it is accepted, else the first thing wrong with it.
pub fn check_config(points: &Vec<Point>, bounds: &Bounds, config: &Config) -> (r: Option<ConfigError>)
    ensures
        r == config_issue(points@, *bounds, *config),
{
    if !(coord_in_range(bounds.left) && coord_in_range(bounds.top) && coord_in_range(bounds.right)
        && coord_in_range(bounds.bottom) && bounds.left < bounds.right && bounds.top < bounds.bottom) {
        Some(ConfigError::InvalidBounds)
    } else if !points_in_range(points) {
        Some(ConfigError::PointOutOfRange)
    } else if config.k == 0 {
        Some(ConfigError::NoClusters)
    } else if config.k > points.len() {
        Some(ConfigError::TooManyClusters)
    } else if config.anneal_step == 0 || config.anneal_epsilon == 0 || config.k_median_epsilon == 0 {
        Some(ConfigError::NonPositiveParameter)
    } else {
        None
    }
}

} // verus!
