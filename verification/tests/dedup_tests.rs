use streetwarp::dedup::{average_error_mm, deduplicate, DedupError, ImageryMetadata, TileStatus};
use streetwarp::geom::{Coordinate, OrientedViewpoint};
use geo::Distance;

fn vp(lat_udeg: i64) -> OrientedViewpoint {
    OrientedViewpoint {
        coord: Coordinate::new(lat_udeg, 0).unwrap(),
        bearing_mdeg: 90_000,
    }
}

fn md(tile: &str, status: TileStatus) -> ImageryMetadata {
    ImageryMetadata {
        tile_id: tile.to_string(),
        location: Coordinate::new(0, 0).unwrap(),
        status,
        capture_date: "2020-01".to_string(),
    }
}

/// Adjacent records with one tile identifier collapse to the record with
/// the least positional error; a reappearance after an interruption starts
/// a fresh group.
#[test]
fn dedup_groups_by_adjacency() {
    let viewpoints = vec![vp(0), vp(1), vp(2), vp(3)];
    let metadata = vec![
        md("a", TileStatus::Usable),
        md("a", TileStatus::Usable),
        md("b", TileStatus::Usable),
        md("a", TileStatus::Usable),
    ];
    let errors = vec![5u64, 3, 1, 2];
    let out = deduplicate(&viewpoints, &metadata, &errors).unwrap();
    assert_eq!(out.errors_mm, vec![3, 1, 2]);
    assert_eq!(out.viewpoints, vec![vp(1), vp(2), vp(3)]);
    let tiles: Vec<&str> = out.metadata.iter().map(|m| m.tile_id.as_str()).collect();
    assert_eq!(tiles, vec!["a", "b", "a"]);
}

/// Records whose status is not usable are dropped before grouping.
#[test]
fn dedup_drops_unusable_records() {
    let viewpoints = vec![vp(0), vp(1), vp(2)];
    let metadata = vec![
        md("a", TileStatus::Usable),
        md("b", TileStatus::Unusable),
        md("a", TileStatus::Usable),
    ];
    let errors = vec![7u64, 1, 9];
    let out = deduplicate(&viewpoints, &metadata, &errors).unwrap();
    // With the unusable record gone, the two usable ones are adjacent and
    // share a tile, so one group remains.
    assert_eq!(out.errors_mm, vec![7]);
    assert_eq!(out.viewpoints, vec![vp(0)]);
}

/// Equal errors keep the first-seen record: the minimum is stable.
#[test]
fn dedup_tie_keeps_first_seen() {
    let viewpoints = vec![vp(0), vp(1)];
    let metadata = vec![md("a", TileStatus::Usable), md("a", TileStatus::Usable)];
    let errors = vec![4u64, 4];
    let out = deduplicate(&viewpoints, &metadata, &errors).unwrap();
    assert_eq!(out.viewpoints, vec![vp(0)]);
    assert_eq!(out.errors_mm, vec![4]);
}

/// Never more groups than usable records.
#[test]
fn dedup_group_count_bounded_by_usable() {
    let viewpoints = vec![vp(0), vp(1), vp(2), vp(3), vp(4)];
    let metadata = vec![
        md("a", TileStatus::Usable),
        md("b", TileStatus::Unusable),
        md("a", TileStatus::Usable),
        md("c", TileStatus::Usable),
        md("c", TileStatus::Unusable),
    ];
    let errors = vec![1u64, 1, 1, 1, 1];
    let usable = metadata
        .iter()
        .filter(|m| m.status == TileStatus::Usable)
        .count();
    let out = deduplicate(&viewpoints, &metadata, &errors).unwrap();
    assert!(out.viewpoints.len() <= usable);
    assert_eq!(out.viewpoints.len(), out.metadata.len());
    assert_eq!(out.viewpoints.len(), out.errors_mm.len());
}

#[test]
fn dedup_rejects_length_mismatch() {
    let viewpoints = vec![vp(0), vp(1)];
    let metadata = vec![md("a", TileStatus::Usable)];
    let errors = vec![1u64, 2];
    assert!(matches!(
        deduplicate(&viewpoints, &metadata, &errors),
        Err(DedupError::LengthMismatch)
    ));
}

#[test]
fn dedup_of_nothing_is_empty() {
    let viewpoints: Vec<OrientedViewpoint> = Vec::new();
    let metadata: Vec<ImageryMetadata> = Vec::new();
    let errors: Vec<u64> = Vec::new();
    let out = deduplicate(&viewpoints, &metadata, &errors).unwrap();
    assert!(out.viewpoints.is_empty());
    assert!(out.metadata.is_empty());
    assert!(out.errors_mm.is_empty());
}

#[test]
fn average_error_rounds_down() {
    assert_eq!(average_error_mm(&vec![2u64, 4, 7]), Some(4));
    assert_eq!(average_error_mm(&vec![5u64]), Some(5));
    assert_eq!(average_error_mm(&Vec::new()), None);
}

/// A corrected location identical to the requested one has zero positional
/// error, and the error column carries through deduplication untouched.
#[test]
fn dedup_zero_error_when_correction_agrees() {
    let requested = Coordinate::new(48_000_000, 9_000_000).unwrap();
    let p = geo::Point::new(
        requested.lng_udeg as f64 * 1e-6,
        requested.lat_udeg as f64 * 1e-6,
    );
    let err_mm = (geo::Geodesic.distance(p, p) * 1000.0).round() as u64;
    assert_eq!(err_mm, 0);
    let viewpoints = vec![OrientedViewpoint { coord: requested, bearing_mdeg: 0 }];
    let metadata = vec![ImageryMetadata {
        tile_id: "t".to_string(),
        location: requested,
        status: TileStatus::Usable,
        capture_date: String::new(),
    }];
    let out = deduplicate(&viewpoints, &metadata, &vec![err_mm]).unwrap();
    assert_eq!(out.errors_mm, vec![0]);
}
