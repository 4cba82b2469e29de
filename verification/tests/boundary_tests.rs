use landform::boundary::{nearest_index, synthesize_boundary, BoundaryError};
use landform::node::Node;

fn node(x: i64, y: i64, erodibility: i64, is_ocean: bool) -> Node {
    Node { x, y, erodibility, is_ocean }
}

#[test]
fn empty_raw_nodes_fail_synthesis() {
    let nodes: Vec<Node> = Vec::new();
    let r = synthesize_boundary(&nodes, 1000, 1000, 2);
    assert_eq!(r, Err(BoundaryError::EmptyNodes));
}

#[test]
fn corners_inherit_nearest_attributes() {
    let nodes = vec![node(10, 10, 100, true), node(900, 900, 200, false)];
    let out = synthesize_boundary(&nodes, 1000, 1000, 1).unwrap();
    assert_eq!(out.len(), 4);
    // Counterclockwise from the origin: the four corners.
    assert_eq!((out[0].x, out[0].y), (0, 0));
    assert_eq!((out[1].x, out[1].y), (1000, 0));
    assert_eq!((out[2].x, out[2].y), (1000, 1000));
    assert_eq!((out[3].x, out[3].y), (0, 1000));
    // (0,0) is nearest the first raw node; the other corners the second.
    assert_eq!((out[0].erodibility, out[0].is_ocean), (100, true));
    assert_eq!((out[1].erodibility, out[1].is_ocean), (200, false));
    assert_eq!((out[2].erodibility, out[2].is_ocean), (200, false));
    assert_eq!((out[3].erodibility, out[3].is_ocean), (200, false));
}

#[test]
fn edge_density_two_adds_edge_midpoints() {
    let nodes = vec![node(1, 1, 7, false)];
    let out = synthesize_boundary(&nodes, 1000, 800, 2).unwrap();
    let positions: Vec<(i64, i64)> = out.iter().map(|n| (n.x, n.y)).collect();
    assert_eq!(
        positions,
        vec![
            (0, 0),
            (500, 0),
            (1000, 0),
            (1000, 400),
            (1000, 800),
            (500, 800),
            (0, 800),
            (0, 400),
        ]
    );
    for n in &out {
        assert_eq!((n.erodibility, n.is_ocean), (7, false));
    }
}

#[test]
fn equidistant_tie_goes_to_earliest_raw_node() {
    // Both raw nodes are equally far from the origin corner.
    let nodes = vec![node(10, 0, 1, true), node(0, 10, 2, false)];
    let out = synthesize_boundary(&nodes, 100, 100, 1).unwrap();
    assert_eq!((out[0].x, out[0].y), (0, 0));
    assert_eq!((out[0].erodibility, out[0].is_ocean), (1, true));
}

#[test]
fn nearest_index_picks_minimum_and_breaks_ties_low() {
    let nodes = vec![node(50, 50, 0, false), node(10, 10, 0, false), node(10, 10, 0, false)];
    assert_eq!(nearest_index(&nodes, 0, 0), 1);
    assert_eq!(nearest_index(&nodes, 60, 60), 0);
}

#[test]
fn zero_edge_density_yields_no_boundary_nodes() {
    let nodes = vec![node(5, 5, 3, true)];
    let out = synthesize_boundary(&nodes, 1000, 1000, 0).unwrap();
    assert!(out.is_empty());
}
