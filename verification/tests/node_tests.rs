use landform::node::{scale_nodes, Node, FP_ONE};

fn node(x: i64, y: i64, erodibility: i64, is_ocean: bool) -> Node {
    Node { x, y, erodibility, is_ocean }
}

#[test]
fn lerp_blends_positions_and_erodibility_linearly() {
    let a = node(0, 100, 1000, true);
    let b = node(1000, 300, 3000, false);
    let quarter = a.lerp(&b, 250);
    assert_eq!((quarter.x, quarter.y, quarter.erodibility), (250, 150, 1500));
    let start = a.lerp(&b, 0);
    assert_eq!((start.x, start.y, start.erodibility), (0, 100, 1000));
    let end = a.lerp(&b, FP_ONE);
    assert_eq!((end.x, end.y, end.erodibility), (1000, 300, 3000));
}

#[test]
fn lerp_ocean_flag_switches_at_the_midpoint() {
    let a = node(0, 0, 1, true);
    let b = node(1000, 1000, 1, false);
    assert!(a.lerp(&b, 0).is_ocean);
    assert!(a.lerp(&b, 499).is_ocean);
    assert!(!a.lerp(&b, 500).is_ocean);
    assert!(!a.lerp(&b, 1000).is_ocean);
}

#[test]
fn scale_nodes_rescales_into_the_domain() {
    let raw = vec![node(0, 0, 5, true), node(256, 128, 6, false), node(512, 512, 7, true)];
    let scaled = scale_nodes(&raw, 200_000, 512, 100_000, 512);
    assert_eq!(scaled.len(), 3);
    assert_eq!((scaled[0].x, scaled[0].y), (0, 0));
    assert_eq!((scaled[1].x, scaled[1].y), (100_000, 25_000));
    assert_eq!((scaled[2].x, scaled[2].y), (200_000, 100_000));
    assert_eq!((scaled[1].erodibility, scaled[1].is_ocean), (6, false));
}
