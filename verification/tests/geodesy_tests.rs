//! Scenario checks of the geodesy collaborator's contract, exercised the
//! way the pipeline uses it: floating-point results are converted to the
//! crate's fixed-point values and fed through its validating stages.

use streetwarp::geom::Coordinate;
use streetwarp::sampler::merge_interpolated;
use geo::InterpolatePoint;
use geo::Distance;
use geo::Bearing;

fn c(lat_udeg: i64, lng_udeg: i64) -> Coordinate {
    Coordinate::new(lat_udeg, lng_udeg).unwrap()
}

fn to_point(a: &Coordinate) -> geo::Point {
    geo::Point::new(a.lng_udeg as f64 * 1e-6, a.lat_udeg as f64 * 1e-6)
}

fn geodesic_mm(a: &Coordinate, b: &Coordinate) -> u64 {
    (geo::Geodesic.distance(to_point(a), to_point(b)) * 1000.0).round() as u64
}

fn bearing_mdeg(a: &Coordinate, b: &Coordinate) -> u32 {
    let m = (geo::Haversine.bearing(to_point(a), to_point(b)) * 1000.0).round() as u32;
    if m == 360_000 {
        0
    } else {
        m
    }
}

fn fill_mm(a: &Coordinate, b: &Coordinate, step_mm: u64) -> Vec<Coordinate> {
    geo::Haversine
        .points_along_line(to_point(a), to_point(b), step_mm as f64 * 1e-3, false)
        .map(|p| Coordinate {
            lat_udeg: (p.y() * 1e6).round() as i64,
            lng_udeg: (p.x() * 1e6).round() as i64,
        })
        .collect()
}

/// The distance from a coordinate to itself is zero.
#[test]
fn distance_of_point_to_itself_is_zero() {
    let a = c(52_520_008, 13_404_954);
    assert_eq!(geodesic_mm(&a, &a), 0);
    let b = c(-33_868_820, 151_209_290);
    assert_eq!(geodesic_mm(&b, &b), 0);
}

/// The bearing between two points on one meridian is due north, and stays
/// so when both points are translated along that meridian.
#[test]
fn bearing_invariant_under_meridian_translation() {
    let a = c(47_000_000, 9_000_000);
    let b = c(48_000_000, 9_000_000);
    let northward = bearing_mdeg(&a, &b);
    assert_eq!(northward, 0);
    let shift = 5_000_000;
    let a2 = c(47_000_000 + shift, 9_000_000);
    let b2 = c(48_000_000 + shift, 9_000_000);
    assert_eq!(bearing_mdeg(&a2, &b2), northward);
}

/// Interpolation between two meridian points yields points strictly between
/// the endpoints, monotonically ordered along the segment.
#[test]
fn interpolation_stays_between_and_ordered() {
    let a = c(48_000_000, 9_000_000);
    let b = c(48_008_990, 9_000_000); // roughly one kilometer north
    let step = geodesic_mm(&a, &b) / 4;
    let fill = fill_mm(&a, &b, step);
    assert!(!fill.is_empty());
    let mut prev = a.lat_udeg;
    for p in &fill {
        assert_eq!(p.lng_udeg, a.lng_udeg);
        assert!(p.lat_udeg > prev);
        assert!(p.lat_udeg < b.lat_udeg);
        prev = p.lat_udeg;
    }
    // The pipeline accepts the fill: every produced coordinate is in range.
    let merged = merge_interpolated(&vec![a, b], &vec![fill.clone()], 4).unwrap();
    assert_eq!(merged, fill);
}

/// A step at least as long as the whole segment yields no intermediate
/// points.
#[test]
fn interpolation_empty_when_step_covers_segment() {
    let a = c(48_000_000, 9_000_000);
    let b = c(48_000_899, 9_000_000); // roughly one hundred meters
    let step = 2 * geodesic_mm(&a, &b);
    assert!(fill_mm(&a, &b, step).is_empty());
}
