use point_tiler::morton::{deinterleave_bits, interleave_bits, TileCoord};

#[test]
fn interleave_known_value() {
    // x = 101b, y = 011b, z = 111b interleave to 101110111b = 375.
    assert_eq!(interleave_bits(5, 3, 7), 375);
}

#[test]
fn interleave_roundtrip() {
    for &(x, y, z) in &[
        (0u32, 0u32, 0u32),
        (5, 3, 7),
        (0x1fffff, 0, 0x1fffff),
        (123_456, 654_321, 1),
        (0x1fffff, 0x1fffff, 0x1fffff),
    ] {
        let code = interleave_bits(x, y, z);
        assert_eq!(deinterleave_bits(code), (x, y, z));
    }
}

#[test]
fn interleave_masks_high_bits() {
    // Only the low 21 bits of each coordinate take part.
    assert_eq!(interleave_bits(0x200000, 0, 0), interleave_bits(0, 0, 0));
}

#[test]
fn tile_coord_interleave_matches_free_function() {
    let c = TileCoord { level: 4, xyz: [9, 2, 13] };
    assert_eq!(c.interleave_bits(), interleave_bits(9, 2, 13));
    assert_eq!(TileCoord::deinterleave_bits(c.interleave_bits()), (9, 2, 13));
}

#[test]
fn morton_order_is_monotone_within_octant() {
    // Doubling every coordinate shifts the code up by three bits.
    let a = interleave_bits(3, 5, 6);
    let b = interleave_bits(6, 10, 12);
    assert_eq!(b, a << 3);
}
