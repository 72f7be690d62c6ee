use point_tiler::codec::{decode_points, encode_points};
use point_tiler::errors::TilerError;
use point_tiler::point::{Color, Point, PointAttributes};

fn plain_point(x: f64, y: f64, z: f64) -> Point {
    Point {
        x_bits: x.to_bits(),
        y_bits: y.to_bits(),
        z_bits: z.to_bits(),
        color: Color { r: 1, g: 2, b: 3 },
        attributes: PointAttributes::none(),
    }
}

fn rich_point() -> Point {
    Point {
        x_bits: 140.25_f64.to_bits(),
        y_bits: 36.5_f64.to_bits(),
        z_bits: (-12.75_f64).to_bits(),
        color: Color { r: 65535, g: 0, b: 32768 },
        attributes: PointAttributes {
            intensity: Some(777),
            return_number: Some(2),
            classification: Some(b"Ground".to_vec()),
            scanner_channel: Some(1),
            scan_angle_bits: Some(1.5_f32.to_bits()),
            user_data: Some(9),
            point_source_id: Some(4242),
            gps_time_bits: Some(123456.789_f64.to_bits()),
        },
    }
}

fn points_equal(a: &Point, b: &Point) -> bool {
    a.x_bits == b.x_bits && a.y_bits == b.y_bits && a.z_bits == b.z_bits && a.color == b.color
        && a.attributes.intensity == b.attributes.intensity
        && a.attributes.return_number == b.attributes.return_number
        && a.attributes.classification == b.attributes.classification
        && a.attributes.scanner_channel == b.attributes.scanner_channel
        && a.attributes.scan_angle_bits == b.attributes.scan_angle_bits
        && a.attributes.user_data == b.attributes.user_data
        && a.attributes.point_source_id == b.attributes.point_source_id
        && a.attributes.gps_time_bits == b.attributes.gps_time_bits
}

#[test]
fn roundtrip_plain_points() {
    let pts = vec![plain_point(0.0, 0.0, 0.0), plain_point(90.0, 0.0, 10.0)];
    let bytes = encode_points(&pts);
    let back = decode_points(&bytes).unwrap();
    assert_eq!(back.len(), 2);
    for (a, b) in pts.iter().zip(back.iter()) {
        assert!(points_equal(a, b));
    }
}

#[test]
fn roundtrip_full_attributes() {
    let pts = vec![rich_point()];
    let bytes = encode_points(&pts);
    let back = decode_points(&bytes).unwrap();
    assert_eq!(back.len(), 1);
    assert!(points_equal(&pts[0], &back[0]));
}

#[test]
fn roundtrip_empty_sequence() {
    let pts: Vec<Point> = vec![];
    let bytes = encode_points(&pts);
    assert!(bytes.is_empty());
    let back = decode_points(&bytes).unwrap();
    assert!(back.is_empty());
}

#[test]
fn concatenated_encodings_decode_as_concatenation() {
    let a = vec![plain_point(1.0, 2.0, 3.0), rich_point()];
    let b = vec![plain_point(-4.0, 5.5, 6.25)];
    let mut bytes = encode_points(&a);
    bytes.extend_from_slice(&encode_points(&b));
    let back = decode_points(&bytes).unwrap();
    assert_eq!(back.len(), 3);
    assert!(points_equal(&a[0], &back[0]));
    assert!(points_equal(&a[1], &back[1]));
    assert!(points_equal(&b[0], &back[2]));
}

#[test]
fn truncated_record_is_a_decode_failure() {
    let pts = vec![plain_point(1.0, 2.0, 3.0)];
    let mut bytes = encode_points(&pts);
    bytes.pop();
    assert_eq!(decode_points(&bytes).unwrap_err(), TilerError::DecodeFailure);
}

#[test]
fn bad_option_tag_is_a_decode_failure() {
    let pts = vec![plain_point(1.0, 2.0, 3.0)];
    let mut bytes = encode_points(&pts);
    // The first attribute tag sits right after 30 bytes of coordinates
    // and color; 2 is no valid presence tag.
    bytes[30] = 2;
    assert_eq!(decode_points(&bytes).unwrap_err(), TilerError::DecodeFailure);
}
