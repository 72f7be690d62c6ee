use point_tiler::point::Point;
use point_tiler::tileid::TileIdMethod;
use point_tiler::tiler::{
    channel_capacity, choose_workflow, estimate_total_size, group_sorted_pairs, key_points,
    sort_run, Workflow,
};

fn tagged(tag: u64) -> Point {
    Point::from_coords(tag, 0, 0)
}

#[test]
fn keyed_points_carry_their_leaf_tile_id() {
    let points = vec![tagged(1), tagged(2)];
    let xys = vec![(3u32, 5u32), (3u32, 5u32)];
    let keyed = key_points(points, &xys, 4);
    let expect = TileIdMethod::Morton.zxy_to_id(4, 3, 5);
    assert_eq!(keyed.len(), 2);
    assert_eq!(keyed[0].key.tile_id, expect);
    assert_eq!(keyed[1].key.tile_id, expect);
    assert_eq!(keyed[0].point.x_bits, 1);
    assert_eq!(keyed[1].point.x_bits, 2);
}

#[test]
fn runs_sort_by_tile_id() {
    let points = vec![tagged(1), tagged(2), tagged(3), tagged(4)];
    let xys = vec![(9u32, 9u32), (0u32, 0u32), (9u32, 9u32), (1u32, 0u32)];
    let keyed = key_points(points, &xys, 4);
    let sorted = sort_run(keyed);
    assert_eq!(sorted.len(), 4);
    for w in 0..sorted.len() - 1 {
        assert!(sorted[w].key.tile_id <= sorted[w + 1].key.tile_id);
    }
    let mut tags: Vec<u64> = sorted.iter().map(|k| k.point.x_bits).collect();
    tags.sort();
    assert_eq!(tags, vec![1, 2, 3, 4]);
}

#[test]
fn grouping_buckets_points_under_their_own_key() {
    let points = vec![tagged(1), tagged(2), tagged(3), tagged(4), tagged(5)];
    let xys = vec![
        (0u32, 0u32),
        (7u32, 7u32),
        (0u32, 0u32),
        (7u32, 7u32),
        (2u32, 1u32),
    ];
    let keyed = key_points(points, &xys, 3);
    let sorted = sort_run(keyed);
    let groups = group_sorted_pairs(sorted);
    assert_eq!(groups.len(), 3);
    for w in 0..groups.len() - 1 {
        assert!(groups[w].key.tile_id < groups[w + 1].key.tile_id);
    }
    let total: usize = groups.iter().map(|g| g.points.len()).sum();
    assert_eq!(total, 5);
    let id_a = TileIdMethod::Morton.zxy_to_id(3, 0, 0);
    let bucket_a = groups.iter().find(|g| g.key.tile_id == id_a).unwrap();
    let mut tags: Vec<u64> = bucket_a.points.iter().map(|p| p.x_bits).collect();
    tags.sort();
    assert_eq!(tags, vec![1, 3]);
}

#[test]
fn workflow_choice_follows_the_budget() {
    assert_eq!(choose_workflow(100, 100), Workflow::InMemory);
    assert_eq!(choose_workflow(101, 100), Workflow::ExternalSort);
    assert_eq!(choose_workflow(0, 0), Workflow::InMemory);
}

#[test]
fn size_estimate_sums_and_saturates() {
    assert_eq!(estimate_total_size(&vec![1, 2, 3]), 6);
    assert_eq!(estimate_total_size(&vec![]), 0);
    assert_eq!(estimate_total_size(&vec![u64::MAX, 1]), u64::MAX);
}

#[test]
fn channel_capacity_matches_the_budget_formula() {
    // 4096 MiB over 960 MB chunks leaves four chunks in flight.
    assert_eq!(channel_capacity(4096 * 1024 * 1024, 2), 4);
    // A tiny budget still buffers one chunk per the floor, then the
    // per-core minimum takes over.
    assert_eq!(channel_capacity(1, 1), 2);
    assert_eq!(channel_capacity(1, 8), 16);
}
