use point_tiler::tileid::TileIdMethod;

#[test]
fn tile_id_of_root_is_zero() {
    let m = TileIdMethod::Morton;
    assert_eq!(m.zxy_to_id(0, 0, 0), 0);
}

#[test]
fn tile_id_level_one_values() {
    let m = TileIdMethod::Morton;
    // Level 1 occupies ids 1..5; within the level the Morton code orders
    // (0,0), (1,0), (0,1), (1,1).
    assert_eq!(m.zxy_to_id(1, 0, 0), 1);
    assert_eq!(m.zxy_to_id(1, 1, 0), 2);
    assert_eq!(m.zxy_to_id(1, 0, 1), 3);
    assert_eq!(m.zxy_to_id(1, 1, 1), 4);
}

#[test]
fn tile_id_level_two_offset() {
    let m = TileIdMethod::Morton;
    // Level 2 starts at (4^2 - 1) / 3 = 5.
    assert_eq!(m.zxy_to_id(2, 0, 0), 5);
    assert_eq!(m.zxy_to_id(2, 3, 3), 5 + 15);
}

#[test]
fn tile_id_roundtrip_small_levels() {
    let m = TileIdMethod::Morton;
    for z in 0u8..6 {
        let n = 1u32 << z;
        for x in (0..n).step_by(3.max(1)) {
            for y in (0..n).step_by(2.max(1)) {
                let id = m.zxy_to_id(z, x, y);
                assert_eq!(m.id_to_zxy(id), (z, x, y));
            }
        }
    }
}

#[test]
fn tile_id_roundtrip_deep_levels() {
    let m = TileIdMethod::Morton;
    for &(z, x, y) in &[
        (18u8, 232_837u32, 103_221u32),
        (20, 1_030_301, 999_999),
        (20, 0, (1 << 20) - 1),
        (31, 2_147_000_123, 7),
    ] {
        let id = m.zxy_to_id(z, x, y);
        assert_eq!(m.id_to_zxy(id), (z, x, y));
    }
}

#[test]
fn tile_ids_distinct_across_levels() {
    let m = TileIdMethod::Morton;
    let a = m.zxy_to_id(3, 1, 2);
    let b = m.zxy_to_id(4, 1, 2);
    assert_ne!(a, b);
}
