use thalweg::bathymetry::{Bathymetry, Position};
use thalweg::generator::{improve, ThalwegGenerator};

// 0.01 degree in 1e-7 degree units; about 1113 m in the planar model
const HUNDREDTH_DEG: i64 = 100_000;

fn colinear_cloud() -> Vec<Bathymetry> {
    vec![
        Bathymetry::new(0, 0, 10_000),
        Bathymetry::new(0, HUNDREDTH_DEG, 12_000),
        Bathymetry::new(0, 2 * HUNDREDTH_DEG, 8_000),
    ]
}

// integer check of the planar radius comparison used by the library
fn within_meters(a: Position, b: Position, r: u64) -> bool {
    let dlat = (a.lat_e7 - b.lat_e7) as i128;
    let dlon = (a.lon_e7 - b.lon_e7) as i128;
    let d2 = (dlat * dlat + dlon * dlon) as u128;
    d2 * 111_320u128 * 111_320u128 <= (r as u128) * (r as u128) * 10_000_000u128 * 10_000_000u128
}

#[test]
fn neighbors_within_includes_center_point() {
    let cloud = colinear_cloud();
    let p = cloud[1];
    let generator = ThalwegGenerator::new(cloud, 1200, false);
    let neighbors = generator.neighbors_within(p.position(), 1200);
    assert!(neighbors.contains(&p));
    // a zero radius still includes the point itself
    let only_self = generator.neighbors_within(p.position(), 0);
    assert!(only_self.contains(&p));
}

#[test]
fn nearest_snaps_to_recorded_sounding() {
    let cloud = colinear_cloud();
    let generator = ThalwegGenerator::new(cloud.clone(), 1200, false);
    let near_b = Position {
        lat_e7: 10,
        lon_e7: HUNDREDTH_DEG + 10,
    };
    assert_eq!(generator.nearest(near_b), Some(cloud[1]));
    let empty = ThalwegGenerator::new(vec![], 1200, false);
    assert_eq!(empty.nearest(near_b), None);
}

#[test]
fn thalweg_connects_colinear_cloud() {
    let cloud = colinear_cloud();
    let generator = ThalwegGenerator::new(cloud.clone(), 1200, false);
    let path = generator.thalweg(cloud[0], cloud[2]);
    assert_eq!(path, Some(vec![cloud[0], cloud[1], cloud[2]]));
}

#[test]
fn thalweg_weighting_keeps_only_route() {
    let cloud = colinear_cloud();
    let generator = ThalwegGenerator::new(cloud.clone(), 1200, true);
    let path = generator.thalweg(cloud[0], cloud[2]);
    assert_eq!(path, Some(vec![cloud[0], cloud[1], cloud[2]]));
}

#[test]
fn thalweg_absent_outside_component() {
    // with the radius below the gap no hop can cross it
    let cloud = colinear_cloud();
    let generator = ThalwegGenerator::new(cloud.clone(), 1000, false);
    assert_eq!(generator.thalweg(cloud[0], cloud[2]), None);
    // both endpoints in the same component again once the radius grows
    let wide = ThalwegGenerator::new(cloud.clone(), 3000, false);
    assert!(wide.thalweg(cloud[0], cloud[2]).is_some());
}

#[test]
fn from_path_preserves_length_and_uses_cloud() {
    let cloud = colinear_cloud();
    let generator = ThalwegGenerator::new(cloud.clone(), 1200, false);
    let dense = vec![
        Bathymetry::new(5, 5, 0),
        Bathymetry::new(0, HUNDREDTH_DEG - 3, 0),
        Bathymetry::new(-5, 2 * HUNDREDTH_DEG + 9, 0),
        Bathymetry::new(1, 1, 0),
    ];
    let snapped = generator.from_path(&dense);
    assert_eq!(snapped.len(), dense.len());
    for p in &snapped {
        assert!(cloud.contains(p));
    }
    assert_eq!(snapped[0], cloud[0]);
    assert_eq!(snapped[1], cloud[1]);
    assert_eq!(snapped[2], cloud[2]);
    assert_eq!(snapped[3], cloud[0]);
}

#[test]
fn add_midpoints_doubles_path() {
    let cloud = colinear_cloud();
    let generator = ThalwegGenerator::new(cloud.clone(), 1200, false);
    let path = vec![cloud[0], cloud[2]];
    let dense = generator.add_midpoints(&path);
    assert_eq!(dense.len(), 3);
    assert_eq!(dense[0], cloud[0]);
    assert_eq!(dense[1], cloud[1]);
    assert_eq!(dense[2], cloud[2]);
    let single = generator.add_midpoints(&vec![cloud[0]]);
    assert_eq!(single, vec![cloud[0]]);
}

#[test]
fn sink_is_idempotent_at_fixed_point() {
    // a deep sounding close to the path; everything within range
    let cloud = vec![
        Bathymetry::new(0, 0, 1_000),
        Bathymetry::new(0, 50, 100_000),
        Bathymetry::new(0, 100, 1_000),
        Bathymetry::new(0, 60, 2_000),
    ];
    let generator = ThalwegGenerator::new(cloud.clone(), 1000, false);
    let path = vec![cloud[0], cloud[3], cloud[2]];
    let s1 = generator.sink(&path);
    assert_eq!(s1, vec![cloud[0], cloud[1], cloud[2]]);
    let s2 = generator.sink(&s1);
    assert_eq!(s2, s1);
    let s3 = generator.sink(&s2);
    assert_eq!(s3, s2);
}

#[test]
fn sink_keeps_endpoints() {
    let cloud = vec![
        Bathymetry::new(0, 0, 1_000),
        Bathymetry::new(0, 50, 100_000),
        Bathymetry::new(0, 100, 1_000),
    ];
    let generator = ThalwegGenerator::new(cloud.clone(), 1000, false);
    let path = vec![cloud[0], cloud[2]];
    // no interior points: nothing changes, endpoints stay
    assert_eq!(generator.sink(&path), path);
}

#[test]
fn shrink_merges_near_duplicates_and_keeps_endpoints() {
    let a = Bathymetry::new(0, 0, 1_000);
    let b1 = Bathymetry::new(0, HUNDREDTH_DEG, 2_000);
    let b2 = Bathymetry::new(0, HUNDREDTH_DEG + 10, 3_000);
    let b3 = Bathymetry::new(0, HUNDREDTH_DEG + 20, 4_000);
    let c = Bathymetry::new(0, 2 * HUNDREDTH_DEG, 5_000);
    let cloud = vec![a, b1, b2, b3, c];
    let generator = ThalwegGenerator::new(cloud.clone(), 1000, false);
    let path = vec![a, b1, b2, b3, c];
    let shrunk = generator.shrink(&path);
    assert!(shrunk.len() <= path.len());
    assert_eq!(shrunk.first(), path.first());
    assert_eq!(shrunk.last(), path.last());
    // the run b1 b2 b3 collapses onto its first point
    assert_eq!(shrunk, vec![a, b1, c]);
}

#[test]
fn shrink_handles_trivial_paths() {
    let a = Bathymetry::new(0, 0, 1_000);
    let generator = ThalwegGenerator::new(vec![a], 1000, false);
    assert_eq!(generator.shrink(&vec![]), vec![]);
    assert_eq!(generator.shrink(&vec![a]), vec![a]);
}

#[test]
fn simplify_drops_colinear_interior_points() {
    let a = Bathymetry::new(0, 0, 1_000);
    let b = Bathymetry::new(0, HUNDREDTH_DEG, 1_000);
    let c = Bathymetry::new(0, 2 * HUNDREDTH_DEG, 1_000);
    let generator = ThalwegGenerator::new(vec![a, b, c], 1200, false);
    let simplified = generator.simplify(&vec![a, b, c]);
    assert_eq!(simplified, vec![a, c]);
}

#[test]
fn simplify_keeps_a_sharp_corner() {
    let a = Bathymetry::new(0, 0, 1_000);
    // well off the line between its neighbors
    let b = Bathymetry::new(HUNDREDTH_DEG, HUNDREDTH_DEG, 1_000);
    let c = Bathymetry::new(0, 2 * HUNDREDTH_DEG, 1_000);
    let generator = ThalwegGenerator::new(vec![a, b, c], 1200, false);
    let simplified = generator.simplify(&vec![a, b, c]);
    assert_eq!(simplified, vec![a, b, c]);
}

#[test]
fn populate_keeps_input_points_and_meets_spacing() {
    // soundings sitting exactly on the interpolation grid of the segment:
    // 500 000 units cut into 8 pieces of 62 500 units (about 696 m)
    let mut cloud = vec![];
    for k in 0..9 {
        cloud.push(Bathymetry::new(0, k * 62_500, 1_000 + k));
    }
    let generator = ThalwegGenerator::new(cloud.clone(), 1_000, false);
    let path = vec![cloud[0], cloud[8]];
    let dense = generator.populate(&path);
    assert_eq!(dense.first(), path.first());
    assert_eq!(dense.last(), path.last());
    assert_eq!(dense.len(), 9);
    for pair in dense.windows(2) {
        assert!(within_meters(pair[0].position(), pair[1].position(), 1_001));
    }
    for p in &dense {
        assert!(cloud.contains(p));
    }
}

#[test]
fn improve_converges_on_small_cloud() {
    let cloud = colinear_cloud();
    let generator = ThalwegGenerator::new(cloud.clone(), 1200, false);
    let raw = generator.thalweg(cloud[0], cloud[2]).expect("route exists");
    let improved = improve(&raw, &generator).expect("refinement converges");
    assert!(improved.len() >= 2);
    assert_eq!(improved.first(), raw.first());
    assert_eq!(improved.last(), raw.last());
}
