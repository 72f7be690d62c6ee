use point_tiler::decimate::{decimate_by_voxel, VoxelPoint};
use point_tiler::morton::interleave_bits;
use point_tiler::point::Point;

fn entry(vx: u32, vy: u32, vz: u32, dist_key: u64, tag: u64) -> VoxelPoint {
    VoxelPoint { vx, vy, vz, dist_key, point: Point::from_coords(tag, 0, 0) }
}

#[test]
fn identical_cells_collapse_to_one_point() {
    let entries = vec![
        entry(10, 10, 10, 5, 1),
        entry(10, 10, 10, 5, 2),
        entry(10, 10, 10, 5, 3),
    ];
    let out = decimate_by_voxel(entries);
    assert_eq!(out.len(), 1);
    // Equal distances: the earliest entry wins.
    assert_eq!(out[0].point.x_bits, 1);
}

#[test]
fn closest_point_wins_its_cell() {
    let entries = vec![
        entry(3, 4, 5, 90, 1),
        entry(3, 4, 5, 10, 2),
        entry(3, 4, 5, 50, 3),
    ];
    let out = decimate_by_voxel(entries);
    assert_eq!(out.len(), 1);
    assert_eq!(out[0].point.x_bits, 2);
    assert_eq!(out[0].dist_key, 10);
}

#[test]
fn output_is_in_morton_order() {
    let entries = vec![
        entry(7, 7, 7, 0, 1),
        entry(0, 0, 0, 0, 2),
        entry(1, 2, 3, 0, 3),
        entry(5, 0, 1, 0, 4),
    ];
    let out = decimate_by_voxel(entries);
    assert_eq!(out.len(), 4);
    let codes: Vec<u64> = out.iter().map(|e| interleave_bits(e.vx, e.vy, e.vz)).collect();
    for w in codes.windows(2) {
        assert!(w[0] < w[1]);
    }
}

#[test]
fn decimation_is_idempotent() {
    let entries = vec![
        entry(1, 1, 1, 3, 1),
        entry(1, 1, 1, 2, 2),
        entry(0, 5, 2, 9, 3),
        entry(4, 4, 4, 1, 4),
        entry(0, 5, 2, 9, 5),
    ];
    let once = decimate_by_voxel(entries);
    let snapshot: Vec<(u32, u32, u32, u64, u64)> =
        once.iter().map(|e| (e.vx, e.vy, e.vz, e.dist_key, e.point.x_bits)).collect();
    let twice = decimate_by_voxel(once);
    let again: Vec<(u32, u32, u32, u64, u64)> =
        twice.iter().map(|e| (e.vx, e.vy, e.vz, e.dist_key, e.point.x_bits)).collect();
    assert_eq!(snapshot, again);
}

#[test]
fn output_size_bounded_by_occupied_cells() {
    let mut entries = Vec::new();
    for tag in 0..100u64 {
        // Only three distinct cells, many candidates each.
        let c = (tag % 3) as u32;
        entries.push(entry(c, c, c, tag, tag));
    }
    let out = decimate_by_voxel(entries);
    assert_eq!(out.len(), 3);
}

#[test]
fn uniform_cloud_collapses_to_the_grid() {
    // A thousand pseudo-random points in the unit cube, gridded at a
    // quarter: at most 4 * 4 * 4 cells survive, in Morton order.
    let mut state = 0x2545f4914f6cdd1du64;
    let mut next = move || {
        state ^= state << 13;
        state ^= state >> 7;
        state ^= state << 17;
        (state >> 11) as f64 / (1u64 << 53) as f64
    };
    let voxel = 0.25f64;
    let mut entries = Vec::new();
    for tag in 0..1000u64 {
        let (x, y, z) = (next(), next(), next());
        let grid = |v: f64| (v / voxel).floor() as u32;
        let center = |v: f64| ((v / voxel).floor() + 0.5) * voxel;
        let d = (x - center(x)).powi(2) + (y - center(y)).powi(2) + (z - center(z)).powi(2);
        entries.push(VoxelPoint {
            vx: grid(x),
            vy: grid(y),
            vz: grid(z),
            dist_key: d.to_bits(),
            point: Point::from_coords(tag, 0, 0),
        });
    }
    let out = decimate_by_voxel(entries);
    assert!(out.len() <= 64);
    let codes: Vec<u64> = out.iter().map(|e| interleave_bits(e.vx, e.vy, e.vz)).collect();
    for w in codes.windows(2) {
        assert!(w[0] < w[1]);
    }
}
