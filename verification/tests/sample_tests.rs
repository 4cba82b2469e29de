use landform::node::Node;
use landform::sample::{collect_outlets, collect_samples, sample_points};

#[test]
fn sample_points_stay_inside_bounds() {
    let pts = sample_points(200, 10, 7, 11);
    assert_eq!(pts.len(), 200);
    for (x, y) in pts {
        assert!(0 <= x && x < 10);
        assert!(0 <= y && y < 7);
    }
}

#[test]
fn sample_points_are_reproducible_for_a_seed() {
    let a = sample_points(64, 200_000, 150_000, 77);
    let b = sample_points(64, 200_000, 150_000, 77);
    assert_eq!(a, b);
}

#[test]
fn sample_points_spread_over_the_domain() {
    // A generator that ignored its draw would return one repeated point.
    let pts = sample_points(64, 1_000_000, 1_000_000, 5);
    let first = pts[0];
    assert!(pts.iter().any(|p| *p != first), "all sampled points are identical");
}

#[test]
fn collect_samples_keeps_points_with_values_in_order() {
    let points = vec![(1, 2), (3, 4), (5, 6), (7, 8)];
    let attrs = vec![Some((10, true)), None, Some((20, false)), None];
    let nodes = collect_samples(&points, &attrs);
    assert_eq!(nodes.len(), 2);
    assert_eq!(nodes[0], Node { x: 1, y: 2, erodibility: 10, is_ocean: true });
    assert_eq!(nodes[1], Node { x: 5, y: 6, erodibility: 20, is_ocean: false });
}

#[test]
fn collect_samples_of_all_misses_is_empty() {
    let points = vec![(1, 1), (2, 2)];
    let attrs: Vec<Option<(i64, bool)>> = vec![None, None];
    assert!(collect_samples(&points, &attrs).is_empty());
}

#[test]
fn collect_outlets_returns_ascending_ocean_indices() {
    let nodes = vec![
        Node { x: 0, y: 0, erodibility: 1, is_ocean: true },
        Node { x: 1, y: 0, erodibility: 1, is_ocean: false },
        Node { x: 2, y: 0, erodibility: 1, is_ocean: true },
        Node { x: 3, y: 0, erodibility: 1, is_ocean: true },
    ];
    assert_eq!(collect_outlets(&nodes), vec![0, 2, 3]);
    let land = vec![Node { x: 0, y: 0, erodibility: 1, is_ocean: false }];
    assert!(collect_outlets(&land).is_empty());
}
