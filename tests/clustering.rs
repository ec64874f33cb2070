use station_planner::{
    assignment_error, check_config, distance, find_median, nearest_center, partition, Bounds, Config,
    ConfigError, Driver, Point, Status, DIST_SCALE,
};

fn pt(x: i64, y: i64) -> Point {
    Point { x, y }
}

fn square() -> Vec<Point> {
    vec![pt(0, 0), pt(10, 0), pt(0, 10), pt(10, 10)]
}

fn two_clusters() -> Vec<Point> {
    let offsets = [(-2, -1), (1, 2), (0, 0), (2, -1), (-1, 1)];
    let mut v: Vec<Point> = offsets.iter().map(|&(x, y)| pt(x, y)).collect();
    v.extend(offsets.iter().map(|&(x, y)| pt(1000 + x, 1000 + y)));
    v
}

fn wide_bounds() -> Bounds {
    Bounds { left: -10, top: -10, right: 1100, bottom: 1100 }
}

fn config_with_k(k: usize) -> Config {
    Config { k, ..Config::default() }
}

#[test]
fn default_config_values() {
    let c = Config::default();
    assert_eq!(c.k, 10);
    assert_eq!(c.anneal_step, 10000);
    assert_eq!(c.anneal_epsilon, 1);
    assert_eq!(c.k_median_max_iter, 10);
    assert_eq!(c.k_median_epsilon, 10);
}

#[test]
fn distance_is_scaled_euclidean() {
    assert_eq!(distance(&pt(0, 0), &pt(3, 4)), 5 * DIST_SCALE);
    assert_eq!(distance(&pt(0, 0), &pt(1, 1)), 1448);
    assert_eq!(distance(&pt(7, -3), &pt(7, -3)), 0);
}

#[test]
fn median_of_square_is_its_center() {
    assert_eq!(find_median(&square(), 10000, 1), pt(5, 5));
}

#[test]
fn median_of_one_point_is_that_point() {
    assert_eq!(find_median(&vec![pt(-123, 456)], 10000, 1), pt(-123, 456));
    assert_eq!(find_median(&vec![pt(7, 7)], 3, 1), pt(7, 7));
}

#[test]
fn median_never_worse_than_centroid() {
    let pts = vec![pt(0, 0), pt(0, 0), pt(0, 0), pt(100, 0), pt(0, 100)];
    let m = find_median(&pts, 10000, 1);
    let centroid = pt(20, 20);
    let total = |c: &Point| pts.iter().map(|p| distance(p, c) as u128).sum::<u128>();
    assert!(total(&m) <= total(&centroid));
    assert!(total(&m) < total(&centroid));
}

#[test]
fn nearest_center_prefers_lowest_index_on_tie() {
    let centers = vec![pt(-5, 0), pt(5, 0), pt(0, 1)];
    assert_eq!(nearest_center(&pt(0, 10), &centers), 2);
    assert_eq!(nearest_center(&pt(0, -100), &centers), 0);
    assert_eq!(nearest_center(&pt(3, -10), &centers), 1);
}

#[test]
fn partition_covers_every_point_once() {
    let pts = two_clusters();
    let centers = vec![pt(500, 500), pt(0, 0), pt(990, 990)];
    let sets = partition(&pts, &centers);
    assert_eq!(sets.len(), 3);
    let mut seen = vec![0usize; pts.len()];
    for set in &sets {
        for &i in set {
            seen[i] += 1;
        }
    }
    assert!(seen.iter().all(|&c| c == 1));
    assert_eq!(sets[0], Vec::<usize>::new());
    assert_eq!(sets[1], vec![0, 1, 2, 3, 4]);
    assert_eq!(sets[2], vec![5, 6, 7, 8, 9]);
}

#[test]
fn partition_assigns_a_nearest_center() {
    let pts = vec![pt(0, 0), pt(9, 9), pt(4, 4), pt(6, 5)];
    let centers = vec![pt(10, 10), pt(1, 1)];
    let sets = partition(&pts, &centers);
    for (g, set) in sets.iter().enumerate() {
        for &i in set {
            let d = distance(&pts[i], &centers[g]);
            assert!(centers.iter().all(|c| distance(&pts[i], c) >= d));
        }
    }
    assert_eq!(sets[0], vec![1, 3]);
    assert_eq!(sets[1], vec![0, 2]);
}

#[test]
fn too_many_clusters_is_refused() {
    let pts = vec![pt(0, 0), pt(1, 1), pt(2, 2)];
    let r = Driver::new(pts, wide_bounds(), config_with_k(5));
    assert_eq!(r.err(), Some(ConfigError::TooManyClusters));
}

#[test]
fn each_configuration_error() {
    let pts = square();
    let b = wide_bounds();
    let bad_bounds = Bounds { left: 5, top: 0, right: 5, bottom: 10 };
    assert_eq!(check_config(&pts, &bad_bounds, &config_with_k(1)), Some(ConfigError::InvalidBounds));
    let far = vec![pt(0, 0), pt(1 << 31, 0)];
    assert_eq!(check_config(&far, &b, &config_with_k(1)), Some(ConfigError::PointOutOfRange));
    assert_eq!(check_config(&pts, &b, &config_with_k(0)), Some(ConfigError::NoClusters));
    assert_eq!(check_config(&pts, &b, &config_with_k(5)), Some(ConfigError::TooManyClusters));
    let zero_step = Config { anneal_step: 0, ..config_with_k(2) };
    assert_eq!(check_config(&pts, &b, &zero_step), Some(ConfigError::NonPositiveParameter));
    let zero_eps = Config { anneal_epsilon: 0, ..config_with_k(2) };
    assert_eq!(check_config(&pts, &b, &zero_eps), Some(ConfigError::NonPositiveParameter));
    let zero_kme = Config { k_median_epsilon: 0, ..config_with_k(2) };
    assert_eq!(check_config(&pts, &b, &zero_kme), Some(ConfigError::NonPositiveParameter));
    assert_eq!(check_config(&pts, &b, &config_with_k(4)), None);
}

#[test]
fn new_driver_is_uninitialized() {
    let d = Driver::new(square(), wide_bounds(), config_with_k(2)).unwrap();
    assert_eq!(d.status(), Status::Uninitialized);
    assert!(!d.is_seeded());
    assert!(d.centers().is_empty());
    assert_eq!(d.best_so_far(), None);
    assert_eq!(d.last_error(), None);
}

#[test]
fn two_tight_clusters_are_found() {
    let pts = two_clusters();
    let mut d = Driver::new(pts.clone(), wide_bounds(), config_with_k(2)).unwrap();
    d.reseed(vec![pt(100, 50), pt(900, 950)]);
    d.run_k_median();
    assert_eq!(d.status(), Status::Converged);
    let c = d.centers();
    assert!(-2 <= c[0].x && c[0].x <= 2 && -1 <= c[0].y && c[0].y <= 2);
    assert!(998 <= c[1].x && c[1].x <= 1002 && 999 <= c[1].y && c[1].y <= 1002);
    assert_eq!(d.last_error(), Some(16630));
    let two = d.last_error().unwrap();

    let mut one = Driver::new(pts, wide_bounds(), config_with_k(1)).unwrap();
    one.reseed(vec![pt(300, 300)]);
    one.run_k_median();
    assert_eq!(one.centers()[0], pt(500, 500));
    assert_eq!(one.last_error(), Some(7240778));
    assert!(two * 100 < one.last_error().unwrap());
}

#[test]
fn iteration_records_sets_and_best() {
    let pts = two_clusters();
    let mut d = Driver::new(pts, wide_bounds(), config_with_k(2)).unwrap();
    d.reseed(vec![pt(100, 50), pt(900, 950)]);
    assert!(!d.iterate());
    assert_eq!(d.status(), Status::Ready);
    assert_eq!(d.sets()[0], vec![0, 1, 2, 3, 4]);
    assert_eq!(d.sets()[1], vec![5, 6, 7, 8, 9]);
    assert_eq!(d.best_so_far(), Some(16630));
    assert_eq!(d.best_so_far_centers(), &vec![pt(0, 0), pt(1000, 1000)]);
    assert!(d.iterate());
    assert_eq!(d.status(), Status::Converged);
}

#[test]
fn empty_cluster_keeps_its_center() {
    let pts = square();
    let mut d = Driver::new(pts, wide_bounds(), config_with_k(2)).unwrap();
    d.reseed(vec![pt(5, 5), pt(1000, 1000)]);
    d.iterate();
    assert_eq!(d.centers()[1], pt(1000, 1000));
    assert!(d.sets()[1].is_empty());
    assert_eq!(d.centers()[0], pt(5, 5));
}

#[test]
fn iteration_limit_is_reported() {
    let pts = two_clusters();
    let cfg = Config { k: 2, k_median_max_iter: 1, ..Config::default() };
    let mut d = Driver::new(pts, wide_bounds(), cfg).unwrap();
    d.reseed(vec![pt(100, 50), pt(900, 950)]);
    d.run_k_median();
    assert_eq!(d.status(), Status::IterationLimitReached);
    assert_eq!(d.last_error(), Some(16630));
}

#[test]
fn best_so_far_never_rises() {
    let pts = two_clusters();
    let mut d = Driver::new(pts, wide_bounds(), config_with_k(2)).unwrap();
    let mut previous: Option<u128> = None;
    for _ in 0..20 {
        d.reset_and_run();
        let best = d.best_so_far().unwrap();
        if let Some(p) = previous {
            assert!(best <= p);
        }
        assert!(best <= d.last_error().unwrap());
        previous = Some(best);
    }
}

#[test]
fn rerunning_converged_centers_gives_same_error() {
    let pts = two_clusters();
    let mut d = Driver::new(pts.clone(), wide_bounds(), config_with_k(2)).unwrap();
    d.reseed(vec![pt(100, 50), pt(900, 950)]);
    d.run_k_median();
    assert_eq!(d.status(), Status::Converged);
    let centers = d.centers().clone();
    let first = assignment_error(&pts, &centers, &centers);
    let second = assignment_error(&pts, &centers, &centers);
    assert_eq!(first, second);
    assert_eq!(Some(first), d.last_error());
    assert!(d.iterate());
    assert_eq!(d.centers(), &centers);
    assert_eq!(d.last_error(), Some(first));
}

#[test]
fn random_seeding_stays_in_bounds() {
    let pts: Vec<Point> = (0..12).map(|i| pt(i * 10, i * 7)).collect();
    let bounds = Bounds { left: -500, top: -400, right: 500, bottom: 400 };
    let mut d = Driver::new(pts, bounds, config_with_k(10)).unwrap();
    d.reinitialize();
    assert_eq!(d.status(), Status::Ready);
    assert_eq!(d.centers().len(), 10);
    assert!(d.centers().iter().all(|c| -500 <= c.x && c.x < 500 && -400 <= c.y && c.y < 400));
    assert!(d.centers().iter().any(|c| c.x != -500 || c.y != -400));
    assert!(d.sets().iter().all(|s| s.is_empty()));
}

#[test]
fn step_once_seeds_when_needed() {
    let mut d = Driver::new(square(), wide_bounds(), config_with_k(1)).unwrap();
    d.step_once();
    assert!(d.is_seeded());
    assert_eq!(d.centers()[0], pt(5, 5));
}

#[test]
fn changing_k_discards_centers() {
    let mut d = Driver::new(square(), wide_bounds(), config_with_k(1)).unwrap();
    d.reseed(vec![pt(1, 1)]);
    d.run_k_median();
    let best = d.best_so_far();
    assert_eq!(d.set_config(config_with_k(9)), Err(ConfigError::TooManyClusters));
    assert!(d.is_seeded());
    assert_eq!(d.set_config(config_with_k(2)), Ok(()));
    assert!(!d.is_seeded());
    assert_eq!(d.best_so_far(), best);
    assert_eq!(d.config().k, 2);
}

#[test]
fn best_centers_change_only_with_best() {
    let pts = two_clusters();
    let mut d = Driver::new(pts, wide_bounds(), config_with_k(2)).unwrap();
    d.reseed(vec![pt(100, 50), pt(900, 950)]);
    d.run_k_median();
    let best = d.best_so_far();
    let centers = d.best_so_far_centers().clone();
    assert_eq!(best, Some(16630));
    for _ in 0..10 {
        d.reset_and_run();
        assert!(d.best_so_far().unwrap() <= d.last_error().unwrap());
        if d.best_so_far() == best {
            assert_eq!(d.best_so_far_centers(), &centers);
        }
    }
}
