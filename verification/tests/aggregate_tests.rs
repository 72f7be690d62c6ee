use point_tiler::aggregate::{aggregate_zoom_level, parent_tile, TileBucket};
use point_tiler::point::Point;

fn bucket(z: u8, x: u32, y: u32, tags: &[u64]) -> TileBucket {
    TileBucket {
        key: (z, x, y),
        points: tags.iter().map(|&t| Point::from_coords(t, 0, 0)).collect(),
    }
}

#[test]
fn parent_tile_halves_coordinates() {
    assert_eq!(parent_tile(18, 7, 10), (17, 3, 5));
    assert_eq!(parent_tile(1, 1, 1), (0, 0, 0));
}

#[test]
fn four_siblings_merge_into_one_parent() {
    let x = 100u32;
    let y = 200u32;
    let children = vec![
        bucket(18, 2 * x, 2 * y, &[1]),
        bucket(18, 2 * x + 1, 2 * y, &[2, 3]),
        bucket(18, 2 * x, 2 * y + 1, &[4, 5, 6]),
        bucket(18, 2 * x + 1, 2 * y + 1, &[7, 8, 9, 10]),
    ];
    let parents = aggregate_zoom_level(children, 17);
    assert_eq!(parents.len(), 1);
    assert_eq!(parents[0].key, (17, x, y));
    let mut tags: Vec<u64> = parents[0].points.iter().map(|p| p.x_bits).collect();
    tags.sort();
    assert_eq!(tags, (1..=10).collect::<Vec<u64>>());
}

#[test]
fn unrelated_children_get_their_own_parents() {
    let children = vec![
        bucket(5, 0, 0, &[1]),
        bucket(5, 2, 2, &[2]),
        bucket(5, 3, 3, &[3]),
    ];
    let parents = aggregate_zoom_level(children, 4);
    assert_eq!(parents.len(), 2);
    let mut keys: Vec<(u8, u32, u32)> = parents.iter().map(|b| b.key).collect();
    keys.sort();
    assert_eq!(keys, vec![(4, 0, 0), (4, 1, 1)]);
}

#[test]
fn empty_level_aggregates_to_nothing() {
    let parents = aggregate_zoom_level(Vec::new(), 10);
    assert!(parents.is_empty());
}
