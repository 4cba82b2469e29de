use landform::node::Node;
use landform::preview::{nearest_node_buffer, set_nearest_node_buffer};

fn node(x: i64, y: i64) -> Node {
    Node { x, y, erodibility: 1, is_ocean: false }
}

#[test]
fn empty_seed_set_yields_empty_preview() {
    let nodes: Vec<Node> = Vec::new();
    let flat = nearest_node_buffer(4, 4, 1, &nodes);
    assert_eq!(flat.len(), 0);
    let grid = set_nearest_node_buffer(4, 4, 1, &nodes);
    assert_eq!(grid.len(), 0);
}

#[test]
fn single_seed_labels_whole_raster() {
    let nodes = vec![node(0, 0)];
    let flat = nearest_node_buffer(4, 4, 1, &nodes);
    assert_eq!(flat.len(), 16);
    for label in flat {
        assert_eq!(label, 0);
    }
}

#[test]
fn two_corner_seeds_split_raster_along_diagonal() {
    let nodes = vec![node(0, 0), node(7, 7)];
    let flat = nearest_node_buffer(8, 8, 1, &nodes);
    assert_eq!(flat.len(), 64);
    let mut correct_first: i64 = 0;
    let mut correct_second: i64 = 0;
    for py in 0..8i64 {
        for px in 0..8i64 {
            let label = flat[(py * 8 + px) as usize];
            assert!(label < 2);
            let d0 = px * px + py * py;
            let d1 = (px - 7) * (px - 7) + (py - 7) * (py - 7);
            if d0 < d1 && label == 0 {
                correct_first += 1;
            }
            if d1 < d0 && label == 1 {
                correct_second += 1;
            }
        }
    }
    assert!(correct_first >= 28, "first region kept only {} closer pixels", correct_first);
    assert!(correct_second >= 28, "second region kept only {} closer pixels", correct_second);
}

#[test]
fn preview_grid_shape_matches_dimensions() {
    let nodes = vec![node(2, 2), node(10, 2)];
    let grid = set_nearest_node_buffer(12, 3, 1, &nodes);
    assert_eq!(grid.len(), 3);
    for row in &grid {
        assert_eq!(row.len(), 12);
        for &label in row {
            assert!(label < 2);
        }
    }
    // The pixel at each seed's own position carries that seed's index.
    assert_eq!(grid[2][2], 0);
    assert_eq!(grid[2][10], 1);
}

#[test]
fn preview_respects_pixel_scale() {
    // Seeds in domain units; pixels are 10 units apart.
    let nodes = vec![node(0, 0), node(110, 0)];
    let flat = nearest_node_buffer(12, 1, 10, &nodes);
    assert_eq!(flat.len(), 12);
    // Pixel 0 sits on the first seed, pixel 11 on the second.
    assert_eq!(flat[0], 0);
    assert_eq!(flat[11], 1);
    // Pixels nearer the first seed in domain units keep label 0.
    for px in 0..=5 {
        assert_eq!(flat[px], 0, "pixel {} should be nearer the first seed", px);
    }
    for px in 6..12 {
        assert_eq!(flat[px], 1, "pixel {} should be nearer the second seed", px);
    }
}

#[test]
fn coinciding_seeds_give_the_pixel_to_the_earliest() {
    // Both seeds start the fill at the same pixel; the earlier index wins.
    let nodes = vec![node(3, 3), node(3, 3)];
    let grid = set_nearest_node_buffer(6, 6, 1, &nodes);
    assert_eq!(grid[3][3], 0);
}

#[test]
fn flat_buffer_is_the_row_major_flattening_of_the_grid() {
    let nodes = vec![node(1, 2), node(9, 1), node(4, 6)];
    let grid = set_nearest_node_buffer(10, 8, 1, &nodes);
    let flat = nearest_node_buffer(10, 8, 1, &nodes);
    assert_eq!(flat.len(), 80);
    for y in 0..8 {
        for x in 0..10 {
            assert_eq!(flat[y * 10 + x], grid[y][x]);
        }
    }
}
