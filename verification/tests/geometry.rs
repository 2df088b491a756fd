use rmm::algorithm::{
    eu_distance, isqrt, linear_reference_distance, linestring_distance, Line, Point,
};
use rmm::score::{add_scores, ep_log, ln_ratio, EP_LOG_FLOOR, TP_LOG_FLOOR};
use rmm::MMError;

fn pt(x: i64, y: i64) -> Point {
    Point { x, y }
}

#[test]
fn isqrt_exact_values() {
    assert_eq!(isqrt(0), 0);
    assert_eq!(isqrt(1), 1);
    assert_eq!(isqrt(10), 3);
    assert_eq!(isqrt(16), 4);
    assert_eq!(isqrt(u64::MAX as u128 * u64::MAX as u128), u64::MAX);
}

#[test]
fn euclidean_distance_is_floored_hypotenuse() {
    assert_eq!(eu_distance(&pt(0, 0), &pt(3, 4)), 5);
    assert_eq!(eu_distance(&pt(0, 0), &pt(1, 1)), 1);
    assert_eq!(eu_distance(&pt(-3, 0), &pt(0, 4)), 5);
    assert_eq!(eu_distance(&pt(7, 7), &pt(7, 7)), 0);
}

#[test]
fn linear_reference_projects_onto_segment() {
    // A vertical polyline; the query point projects perpendicularly.
    let line = vec![pt(0, 0), pt(0, 100000)];
    let (d, off, cp) = linear_reference_distance(&pt(100, 20000), &line);
    assert_eq!(d, 100);
    assert_eq!(off, 20000);
    assert_eq!(cp, pt(0, 20000));
}

#[test]
fn linear_reference_clamps_to_endpoints() {
    let line = vec![pt(0, 0), pt(0, 100)];
    // Beyond the far end: the closest point is the endpoint.
    let (d, off, cp) = linear_reference_distance(&pt(0, 150), &line);
    assert_eq!(cp, pt(0, 100));
    assert_eq!(off, 100);
    assert_eq!(d, 50);
    // Before the start: the closest point is the start.
    let (d2, off2, cp2) = linear_reference_distance(&pt(30, -40), &line);
    assert_eq!(cp2, pt(0, 0));
    assert_eq!(off2, 0);
    assert_eq!(d2, 50);
}

#[test]
fn linear_reference_offset_accumulates_segments() {
    // Two segments of lengths 5 and 6; the query projects onto the
    // second one.
    let line = vec![pt(0, 0), pt(3, 4), pt(3, 10)];
    let (d, off, cp) = linear_reference_distance(&pt(2, 7), &line);
    assert_eq!(cp, pt(3, 7));
    assert_eq!(d, 1);
    assert_eq!(off, 5 + 3);
}

#[test]
fn linear_reference_first_minimum_wins() {
    // A degenerate double-back: both segments are at distance 0 from
    // the query; the earlier segment supplies the offset.
    let line = vec![pt(0, 0), pt(0, 10), pt(0, 0)];
    let (d, off, _) = linear_reference_distance(&pt(0, 5), &line);
    assert_eq!(d, 0);
    assert_eq!(off, 5);
}

#[test]
fn linestring_distance_sums_segment_lengths() {
    let line = Line(vec![pt(0, 0), pt(3, 4), pt(3, 10)]);
    assert_eq!(linestring_distance(&line), Ok(11));
}

#[test]
fn linestring_distance_rejects_degenerate_geometry() {
    assert_eq!(
        linestring_distance(&Line(vec![pt(1, 1)])),
        Err(MMError::InvalidGeometry)
    );
    assert_eq!(
        linestring_distance(&Line(Vec::new())),
        Err(MMError::InvalidGeometry)
    );
}

#[test]
fn emission_log_matches_gaussian_formula() {
    // -(dist^2 / (2 err^2)) in micro-nats: -(100^2 / (2 * 1000^2)) nats.
    assert_eq!(ep_log(100, 1000), -5000);
    assert_eq!(ep_log(0, 1000), 0);
    assert_eq!(ep_log(1000, 1000), -500_000);
}

#[test]
fn emission_log_clamps_at_floor() {
    // A distance vastly larger than the GPS error underflows any
    // double-precision probability: the log clamps at the floor.
    assert_eq!(ep_log(1_000_000, 1), EP_LOG_FLOOR);
    assert!(EP_LOG_FLOOR < -708_000_000);
}

#[test]
fn transition_log_of_equal_distances_is_zero() {
    assert_eq!(ln_ratio(5, 5), 0);
    assert_eq!(ln_ratio(1, 1), 0);
}

#[test]
fn transition_log_of_half_ratio_is_minus_ln_two() {
    // ln(1/2) in micro-nats as the fixed-point iteration computes it.
    assert_eq!(ln_ratio(1, 2), -693_147);
    assert_eq!(ln_ratio(50, 100), -693_147);
    assert_eq!(ln_ratio(1, 4), -1_386_294);
}

#[test]
fn transition_log_stays_within_bounds() {
    // The most extreme ratio the type admits still yields a finite,
    // bounded log: probabilities stay strictly positive.
    let extreme = ln_ratio(1, u64::MAX);
    assert!(TP_LOG_FLOOR <= extreme && extreme < 0);
    let mild = ln_ratio(999_999, 1_000_000);
    assert!(TP_LOG_FLOOR <= mild && mild <= 0);
}

#[test]
fn scores_add_and_saturate() {
    assert_eq!(add_scores(-5000, -5000, 0), -10000);
    assert_eq!(add_scores(-5000, 0, -693_147), -698_147);
    assert_eq!(add_scores(i64::MIN + 1, -10, -10), i64::MIN);
}
