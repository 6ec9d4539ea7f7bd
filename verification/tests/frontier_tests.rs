use lang_const_empirical::frontier::{pareto_frontier, smallest_points};
use lang_const_empirical::point::{choose_point, height, rank, Point, INFINITY_KEY};

fn pt(b1: i64, b2: i64, size: f64) -> Point {
    Point { b1, b2, b_max: height(b1, b2), lambda_key: size.to_bits() }
}

fn pairs(points: &[Point]) -> Vec<(i64, u64)> {
    let mut v: Vec<(i64, u64)> = points.iter().map(|p| (p.b_max, p.lambda_key)).collect();
    v.sort();
    v
}

#[test]
fn size_keys_order_like_sizes() {
    let sizes = [0.0f64, 1e-300, 0.5, 1.0, 2.0, 1e300, f64::INFINITY];
    for w in sizes.windows(2) {
        assert!(w[0].to_bits() < w[1].to_bits());
    }
    assert_eq!(f64::INFINITY.to_bits(), INFINITY_KEY);
    assert!(f64::NAN.to_bits() > INFINITY_KEY);
}

#[test]
fn rank_keeps_order() {
    assert_eq!(rank(i64::MIN), 0);
    assert_eq!(rank(-1), (1u64 << 63) - 1);
    assert_eq!(rank(0), 1u64 << 63);
    assert_eq!(rank(i64::MAX), u64::MAX);
}

#[test]
fn choose_point_takes_the_smaller_side() {
    let p = choose_point(7, Some(-3), Some(-2), true, 11, 22);
    assert_eq!(p, Some(Point { b1: 7, b2: -3, b_max: 7, lambda_key: 11 }));
    let q = choose_point(7, Some(-3), Some(-2), false, 11, 22);
    assert_eq!(q, Some(Point { b1: 7, b2: -2, b_max: 7, lambda_key: 22 }));
    let r = choose_point(-2, Some(-9), Some(-8), true, 5, 6);
    assert_eq!(r.map(|p| p.b_max), Some(9));
}

#[test]
fn choose_point_records_nothing_for_an_unfit_rounding() {
    assert_eq!(choose_point(3, None, Some(4), true, 1, 2), None);
    assert_eq!(choose_point(3, Some(4), None, false, 1, 2), None);
    let p = choose_point(3, None, Some(4), false, 1, 2);
    assert_eq!(p, Some(Point { b1: 3, b2: 4, b_max: 4, lambda_key: 2 }));
    let q = choose_point(3, Some(2), None, true, 1, 2);
    assert_eq!(q, Some(Point { b1: 3, b2: 2, b_max: 3, lambda_key: 1 }));
}

#[test]
fn choose_point_is_symmetric_under_negation() {
    let size_down = 0.25f64.to_bits();
    let size_up = 0.5f64.to_bits();
    let p = choose_point(12, Some(-17), Some(-16), true, size_down, size_up).unwrap();
    let m = choose_point(-12, Some(16), Some(17), false, size_up, size_down).unwrap();
    assert_eq!((m.b1, m.b2, m.b_max, m.lambda_key), (-p.b1, -p.b2, p.b_max, p.lambda_key));
    assert_eq!(height(-5, 9), height(5, -9));
}

#[test]
fn height_wraps_like_i64() {
    assert_eq!(height(i64::MIN, 5), 5);
    assert_eq!(height(-5, 3), 5);
    assert_eq!(height(i64::MIN, -7), 7);
}

#[test]
fn frontier_of_a_small_set() {
    let points = vec![
        pt(1, 1, 0.5),
        pt(2, 3, 0.1),
        pt(3, 4, 0.2),
        pt(5, 7, 0.01),
        pt(4, 6, 0.3),
        pt(-6, -8, 0.001),
    ];
    let f = pareto_frontier(&points);
    let got: Vec<(i64, i64)> = f.iter().map(|p| (p.b1, p.b2)).collect();
    assert_eq!(got, vec![(1, 1), (2, 3), (5, 7), (-6, -8)]);
}

#[test]
fn frontier_keeps_the_first_of_equal_points() {
    let points = vec![pt(2, 1, 0.25), pt(1, 2, 0.25), pt(-2, 0, 0.25)];
    let f = pareto_frontier(&points);
    assert_eq!(f.len(), 1);
    assert_eq!((f[0].b1, f[0].b2), (2, 1));
}

#[test]
fn frontier_leaves_out_infinite_and_nan_sizes() {
    let points = vec![pt(1, 0, f64::INFINITY), pt(2, 0, f64::NAN), pt(3, 1, 0.75)];
    let f = pareto_frontier(&points);
    assert_eq!(f.len(), 1);
    assert_eq!(f[0].b1, 3);
    assert!(pareto_frontier(&vec![pt(1, 0, f64::INFINITY)]).is_empty());
    assert!(pareto_frontier(&Vec::new()).is_empty());
}

#[test]
fn frontier_is_idempotent() {
    let points: Vec<Point> = (1..200)
        .map(|b1: i64| pt(b1, (b1 * 7) % 13 - 6, 1.0 / ((b1 * 31 % 97) as f64 + 1.0)))
        .collect();
    let f = pareto_frontier(&points);
    assert_eq!(pareto_frontier(&f), f);
    for w in f.windows(2) {
        assert!(w[0].b_max < w[1].b_max);
        assert!(w[0].lambda_key > w[1].lambda_key);
    }
}

#[test]
fn frontier_of_chunk_frontiers_is_the_frontier() {
    let points: Vec<Point> = (1..500)
        .map(|b1: i64| pt(b1, -(b1 * 3) / 2, ((b1 * 7919) % 1009) as f64 / 1009.0 + 1e-9))
        .collect();
    let whole = pareto_frontier(&points);
    let mut prefiltered: Vec<Point> = Vec::new();
    for chunk in points.chunks(37) {
        prefiltered.extend(pareto_frontier(&chunk.to_vec()));
    }
    let merged = pareto_frontier(&prefiltered);
    assert_eq!(pairs(&merged), pairs(&whole));
    assert_eq!(merged, whole);
}

#[test]
fn smallest_points_by_size_then_position() {
    let points = vec![pt(1, 0, 0.3), pt(2, 0, 0.1), pt(3, 0, 0.2), pt(4, 0, 0.1), pt(5, 0, f64::INFINITY)];
    let s = smallest_points(&points, 3);
    let got: Vec<i64> = s.iter().map(|p| p.b1).collect();
    assert_eq!(got, vec![2, 4, 3]);
    let all = smallest_points(&points, 100);
    let got_all: Vec<i64> = all.iter().map(|p| p.b1).collect();
    assert_eq!(got_all, vec![2, 4, 3, 1, 5]);
    assert!(smallest_points(&points, 0).is_empty());
}

#[test]
fn resumed_points_join_without_filtering() {
    let earlier: Vec<Point> = (1..50).map(|b1: i64| pt(b1, -b1, 1.0 / (b1 as f64))).collect();
    let later: Vec<Point> = (50..120).map(|b1: i64| pt(b1, 1 - b1, ((b1 * 13) % 17) as f64 + 0.5)).collect();
    let mut all = earlier.clone();
    all.extend(later.iter().copied());
    let mut candidates = pareto_frontier(&earlier);
    candidates.extend(pareto_frontier(&later));
    let mut carried = earlier.clone();
    carried.extend(pareto_frontier(&later));
    assert_eq!(pareto_frontier(&candidates), pareto_frontier(&all));
    assert_eq!(pareto_frontier(&carried), pareto_frontier(&all));
}
