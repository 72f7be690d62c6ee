use point_tiler::glb::{
    build_glb, is_default_filter, is_zero, pack_quantized_vertices, pack_raw_vertices,
    MeshoptCompressionFilter, QuantizedVertex, RawVertex,
};

#[test]
fn quantized_vertices_pack_at_stride_twelve() {
    let vs = vec![QuantizedVertex { px: 0x0102, py: 0x0304, pz: 0x0506, r: 7, g: 8, b: 9 }];
    let bytes = pack_quantized_vertices(&vs);
    assert_eq!(bytes.len(), 12);
    assert_eq!(bytes, vec![0x02, 0x01, 0x04, 0x03, 0x06, 0x05, 0, 0, 7, 8, 9, 0]);
}

#[test]
fn raw_vertices_pack_at_stride_sixteen() {
    let vs = vec![
        RawVertex {
            x_bits: 1.0_f32.to_bits(),
            y_bits: 2.0_f32.to_bits(),
            z_bits: 3.0_f32.to_bits(),
            r: 10,
            g: 11,
            b: 12,
        },
        RawVertex { x_bits: 0, y_bits: 0, z_bits: 0, r: 0, g: 0, b: 0 },
    ];
    let bytes = pack_raw_vertices(&vs);
    assert_eq!(bytes.len(), 32);
    assert_eq!(&bytes[0..4], &1.0_f32.to_bits().to_le_bytes());
    assert_eq!(&bytes[12..16], &[10, 11, 12, 0]);
}

#[test]
fn glb_container_frames_and_aligns() {
    let json = b"{\"asset\":1}".to_vec(); // 11 bytes, padded to 16
    let bin = vec![1u8, 2, 3]; // padded to 8
    let out = build_glb(&json, &bin).unwrap();
    // Header.
    assert_eq!(&out[0..4], b"glTF");
    assert_eq!(u32::from_le_bytes(out[4..8].try_into().unwrap()), 2);
    let total = u32::from_le_bytes(out[8..12].try_into().unwrap()) as usize;
    assert_eq!(total, out.len());
    assert_eq!(total, 12 + 8 + 16 + 8 + 8);
    // JSON chunk: length, type, payload, space padding.
    assert_eq!(u32::from_le_bytes(out[12..16].try_into().unwrap()), 16);
    assert_eq!(&out[16..20], b"JSON");
    assert_eq!(&out[20..31], &json[..]);
    assert_eq!(&out[31..36], &[0x20; 5]);
    // BIN chunk starts on an 8-byte boundary.
    assert_eq!(36 % 4, 0);
    assert_eq!(u32::from_le_bytes(out[36..40].try_into().unwrap()), 8);
    assert_eq!(&out[40..44], b"BIN\0");
    assert_eq!(&out[44..47], &[1, 2, 3]);
    assert_eq!(&out[47..52], &[0u8; 5]);
}

#[test]
fn glb_of_aligned_chunks_needs_no_padding() {
    let json = vec![b'{'; 8];
    let bin = vec![9u8; 16];
    let out = build_glb(&json, &bin).unwrap();
    assert_eq!(out.len(), 12 + 8 + 8 + 8 + 16);
}

#[test]
fn serializer_helpers() {
    assert!(is_zero(&0));
    assert!(!is_zero(&4));
    assert!(is_default_filter(&MeshoptCompressionFilter::NoFilter));
    assert!(!is_default_filter(&MeshoptCompressionFilter::Octahedral));
    assert_eq!(MeshoptCompressionFilter::default(), MeshoptCompressionFilter::NoFilter);
}
