use point_tiler::manifest::{geometric_error_um, TileContent, TileNode, TileTree, GE_ROOT_UM};

fn content(z: u8, x: u32, y: u32) -> TileContent {
    TileContent {
        zxy: (z, x, y),
        min_lng_bits: 0.0_f64.to_bits(),
        max_lng_bits: 1.0_f64.to_bits(),
        min_lat_bits: 0.0_f64.to_bits(),
        max_lat_bits: 1.0_f64.to_bits(),
        min_height_bits: 0.0_f64.to_bits(),
        max_height_bits: 10.0_f64.to_bits(),
    }
}

#[test]
fn geometric_error_halves_per_level() {
    assert_eq!(GE_ROOT_UM, 40075016686000 / 128);
    assert_eq!(geometric_error_um(0), GE_ROOT_UM);
    assert_eq!(geometric_error_um(1), GE_ROOT_UM / 2);
    assert_eq!(geometric_error_um(4), GE_ROOT_UM / 16);
    for z in 0u8..30 {
        assert!(geometric_error_um(z) >= geometric_error_um(z + 1));
    }
}

fn assert_monotone(n: &TileNode) {
    for c in n.children.iter() {
        assert!(c.geometric_error_um <= n.geometric_error_um);
        assert_eq!(c.key.0, n.key.0 + 1);
        assert_monotone(c);
    }
}

#[test]
fn tree_errors_never_grow_toward_the_leaves() {
    let mut tree = TileTree::new();
    tree.add_content(content(0, 0, 0));
    tree.add_content(content(1, 1, 0));
    tree.add_content(content(2, 2, 1));
    tree.add_content(content(2, 3, 0));
    let root = tree.build_node(0, 0, 0, 2).unwrap();
    assert_eq!(root.key, (0, 0, 0));
    assert_eq!(root.geometric_error_um, geometric_error_um(0));
    assert_monotone(&root);
}

#[test]
fn one_leaf_gives_one_node_per_level() {
    // A single point produces one tile on every level of its path.
    let mut tree = TileTree::new();
    tree.add_content(content(0, 0, 0));
    tree.add_content(content(1, 1, 1));
    tree.add_content(content(2, 3, 2));
    let root = tree.build_node(0, 0, 0, 2).unwrap();
    assert_eq!(root.children.len(), 1);
    assert_eq!(root.children[0].key, (1, 1, 1));
    assert_eq!(root.children[0].children.len(), 1);
    assert_eq!(root.children[0].children[0].key, (2, 3, 2));
    assert!(root.children[0].children[0].content.is_some());
}

#[test]
fn absent_subtrees_build_no_node() {
    let mut tree = TileTree::new();
    tree.add_content(content(1, 0, 0));
    assert!(tree.build_node(1, 1, 1, 3).is_none());
    assert!(tree.build_node(1, 0, 0, 3).is_some());
}
