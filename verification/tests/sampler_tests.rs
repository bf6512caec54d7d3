use geo::Bearing;
use geo::Distance;
use streetwarp::geom::Coordinate;
use streetwarp::sampler::{
    attach_bearings, merge_interpolated, plan_interpolation, sample_points_by_distance,
    total_distance_mm, SampleError,
};

fn c(lat_udeg: i64, lng_udeg: i64) -> Coordinate {
    Coordinate::new(lat_udeg, lng_udeg).unwrap()
}

/// Geodesic distance in millimeters, as the caller's geodesy collaborator
/// measures it.
fn geodesic_mm(a: &Coordinate, b: &Coordinate) -> u64 {
    let pa = geo::Point::new(a.lng_udeg as f64 * 1e-6, a.lat_udeg as f64 * 1e-6);
    let pb = geo::Point::new(b.lng_udeg as f64 * 1e-6, b.lat_udeg as f64 * 1e-6);
    (geo::Geodesic.distance(pa, pb) * 1000.0).round() as u64
}

fn bearing_mdeg(a: &Coordinate, b: &Coordinate) -> u32 {
    let pa = geo::Point::new(a.lng_udeg as f64 * 1e-6, a.lat_udeg as f64 * 1e-6);
    let pb = geo::Point::new(b.lng_udeg as f64 * 1e-6, b.lat_udeg as f64 * 1e-6);
    let m = (geo::Haversine.bearing(pa, pb) * 1000.0).round() as u32;
    if m == 360_000 {
        0
    } else {
        m
    }
}

fn segment_distances(points: &[Coordinate]) -> Vec<u64> {
    points
        .windows(2)
        .map(|w| geodesic_mm(&w[0], &w[1]))
        .collect()
}

/// Three collinear points about 100 m apart on one meridian, a target of
/// three frames and no interpolation: the sampler returns the three original
/// points unchanged, and every bearing is the same northward heading.
#[test]
fn collinear_track_passes_through_unchanged() {
    let points = vec![c(48_000_000, 9_000_000), c(48_000_899, 9_000_000), c(48_001_798, 9_000_000)];
    let spacing = segment_distances(&points);
    let plans = plan_interpolation(&points, &spacing, 1).unwrap();
    assert!(plans.is_empty());
    let merged = merge_interpolated(&points, &Vec::new(), 1).unwrap();
    assert_eq!(merged, points);
    let distances = segment_distances(&merged);
    let sampled = sample_points_by_distance(&merged, &distances, 3).unwrap();
    assert_eq!(sampled, points);
    let bearings: Vec<u32> = sampled
        .windows(2)
        .map(|w| bearing_mdeg(&w[0], &w[1]))
        .collect();
    let viewpoints = attach_bearings(&sampled, &bearings).unwrap();
    assert_eq!(viewpoints.len(), 3);
    let b = viewpoints[0].bearing_mdeg;
    assert_eq!(viewpoints[1].bearing_mdeg, b);
    assert_eq!(viewpoints[2].bearing_mdeg, b);
    assert_eq!(b, 0); // due north along the meridian
    for (vp, p) in viewpoints.iter().zip(points.iter()) {
        assert_eq!(vp.coord, *p);
    }
}

/// The sample is never longer than the target, never empty, and starts at
/// the first track point.
#[test]
fn sampler_caps_at_target_count() {
    let points = vec![
        c(48_000_000, 9_000_000),
        c(48_000_899, 9_000_000),
        c(48_001_798, 9_000_000),
        c(48_002_697, 9_000_000),
        c(48_003_596, 9_000_000),
    ];
    let distances = segment_distances(&points);
    let sampled = sample_points_by_distance(&points, &distances, 3).unwrap();
    assert!(!sampled.is_empty());
    assert!(sampled.len() <= 3);
    assert_eq!(sampled[0], points[0]);
}

/// The fudged step divisor guarantees the final point is captured.
#[test]
fn sampler_keeps_last_point() {
    let points = vec![
        c(48_000_000, 9_000_000),
        c(48_000_899, 9_000_000),
        c(48_001_798, 9_000_000),
        c(48_002_697, 9_000_000),
        c(48_003_596, 9_000_000),
    ];
    let distances = segment_distances(&points);
    let sampled = sample_points_by_distance(&points, &distances, 5).unwrap();
    assert_eq!(sampled.len(), 5);
    assert_eq!(*sampled.last().unwrap(), *points.last().unwrap());
}

#[test]
fn sampler_rejects_empty_track() {
    let points: Vec<Coordinate> = Vec::new();
    let distances: Vec<u64> = Vec::new();
    assert_eq!(
        sample_points_by_distance(&points, &distances, 3),
        Err(SampleError::LengthMismatch)
    );
}

#[test]
fn sampler_rejects_zero_target() {
    let points = vec![c(0, 0), c(1000, 0)];
    let distances = vec![100u64];
    assert_eq!(
        sample_points_by_distance(&points, &distances, 0),
        Err(SampleError::TargetTooSmall)
    );
}

/// A track whose exact fixed-point products would not fit is rejected, not
/// miscomputed.
#[test]
fn sampler_rejects_overlong_track() {
    let mut points = Vec::new();
    for i in 0..22i64 {
        points.push(c(i * 1000, 0));
    }
    let distances = vec![u64::MAX; 21];
    assert_eq!(
        sample_points_by_distance(&points, &distances, usize::MAX),
        Err(SampleError::TrackTooLong)
    );
}

/// The planned step is the measured spacing over the factor, floored at one
/// millimeter.
#[test]
fn plan_steps_divide_spacing() {
    let points = vec![c(0, 0), c(1000, 0), c(2000, 0)];
    let spacing = vec![1000u64, 3u64];
    let plans = plan_interpolation(&points, &spacing, 4).unwrap();
    assert_eq!(plans.len(), 2);
    assert_eq!(plans[0].start, points[0]);
    assert_eq!(plans[0].end, points[1]);
    assert_eq!(plans[0].step_mm, 250);
    assert_eq!(plans[1].step_mm, 1);
}

#[test]
fn plan_rejects_mismatched_spacing() {
    let points = vec![c(0, 0), c(1000, 0)];
    let spacing = vec![100u64, 100u64];
    assert_eq!(
        plan_interpolation(&points, &spacing, 2),
        Err(SampleError::LengthMismatch)
    );
}

/// With a factor of at least two the merged track is exactly the
/// concatenated fills, originals dropped.
#[test]
fn merge_concatenates_fills() {
    let points = vec![c(0, 0), c(2000, 0), c(4000, 0)];
    let fills = vec![vec![c(500, 0), c(1500, 0)], vec![c(2500, 0), c(3500, 0)]];
    let merged = merge_interpolated(&points, &fills, 2).unwrap();
    assert_eq!(
        merged,
        vec![c(500, 0), c(1500, 0), c(2500, 0), c(3500, 0)]
    );
}

#[test]
fn merge_rejects_out_of_range_fill() {
    let points = vec![c(0, 0), c(2000, 0)];
    let bad = Coordinate { lat_udeg: 91_000_000, lng_udeg: 0 };
    let fills = vec![vec![bad, c(1000, 0)]];
    assert_eq!(
        merge_interpolated(&points, &fills, 2),
        Err(SampleError::CoordinateOutOfRange)
    );
}

#[test]
fn merge_rejects_collapsed_track() {
    let points = vec![c(0, 0), c(2000, 0)];
    let fills = vec![vec![c(1000, 0)]];
    assert_eq!(
        merge_interpolated(&points, &fills, 2),
        Err(SampleError::TooFewPoints)
    );
}

/// The final viewpoint reuses the bearing of the segment before it.
#[test]
fn attach_extrapolates_last_bearing() {
    let points = vec![c(0, 0), c(1000, 0), c(2000, 0)];
    let bearings = vec![10_000u32, 20_000u32];
    let viewpoints = attach_bearings(&points, &bearings).unwrap();
    assert_eq!(viewpoints.len(), 3);
    assert_eq!(viewpoints[0].bearing_mdeg, 10_000);
    assert_eq!(viewpoints[1].bearing_mdeg, 20_000);
    assert_eq!(viewpoints[2].bearing_mdeg, 20_000);
}

#[test]
fn attach_rejects_full_turn_bearing() {
    let points = vec![c(0, 0), c(1000, 0)];
    let bearings = vec![360_000u32];
    assert_eq!(
        attach_bearings(&points, &bearings),
        Err(SampleError::BearingOutOfRange)
    );
}

#[test]
fn attach_rejects_single_point() {
    let points = vec![c(0, 0)];
    let bearings: Vec<u32> = Vec::new();
    assert_eq!(
        attach_bearings(&points, &bearings),
        Err(SampleError::TooFewPoints)
    );
}

#[test]
fn total_distance_sums_segments() {
    assert_eq!(total_distance_mm(&vec![1u64, 2, 3]), 6);
    assert_eq!(total_distance_mm(&Vec::new()), 0);
    assert_eq!(
        total_distance_mm(&vec![u64::MAX, u64::MAX]),
        2 * (u64::MAX as u128)
    );
}

#[test]
fn coordinate_constructor_validates_ranges() {
    assert!(Coordinate::new(90_000_000, 180_000_000).is_some());
    assert!(Coordinate::new(-90_000_000, -180_000_000).is_some());
    assert!(Coordinate::new(90_000_001, 0).is_none());
    assert!(Coordinate::new(0, -180_000_001).is_none());
}
