use point_tiler::errors::{ProjError, ProjectionError};
use point_tiler::point::{from_las_fields, Color, Point};
use point_tiler::transform::{PointCloud, TilingTransform};

#[test]
fn bare_points_default_to_white() {
    let p = Point::from_coords(1, 2, 3);
    assert_eq!(p.color, Color { r: 65535, g: 65535, b: 65535 });
    assert_eq!(p.attributes.intensity, None);
    assert_eq!(p.attributes.classification, None);
}

#[test]
fn set_overwrites_coordinates_and_color() {
    let mut p = Point::from_coords(0, 0, 0);
    p.set(7, 8, 9, 10, 11, 12);
    assert_eq!((p.x_bits, p.y_bits, p.z_bits), (7, 8, 9));
    assert_eq!(p.color, Color { r: 10, g: 11, b: 12 });
}

#[test]
fn las_records_keep_their_attributes() {
    let p = from_las_fields(
        1,
        2,
        3,
        None,
        500,
        2,
        b"Ground".to_vec(),
        0,
        7,
        42,
        0,
    );
    assert_eq!(p.color, Color { r: 65535, g: 65535, b: 65535 });
    assert_eq!(p.attributes.intensity, Some(500));
    assert_eq!(p.attributes.scanner_channel, Some(7));
    assert_eq!(p.attributes.classification.as_deref(), Some(&b"Ground"[..]));
    let q = from_las_fields(
        1,
        2,
        3,
        Some(Color { r: 1, g: 2, b: 3 }),
        0,
        0,
        Vec::new(),
        0,
        0,
        0,
        0,
    );
    assert_eq!(q.color, Color { r: 1, g: 2, b: 3 });
}

#[test]
fn point_cloud_counts_its_points() {
    let pts = vec![Point::from_coords(1, 0, 0), Point::from_coords(2, 0, 0)];
    let pc = PointCloud::new(pts, 4979);
    assert_eq!(pc.metadata.point_count, 2);
    assert_eq!(pc.metadata.epsg, 4979);
    assert_eq!(pc.points.len(), 2);
}

#[test]
fn tiling_transform_passes_the_cloud_through() {
    let pc = PointCloud::new(vec![Point::from_coords(9, 0, 0)], 4979);
    let t = TilingTransform::new();
    let out = t.transform(pc);
    assert_eq!(out.len(), 1);
    assert_eq!(out[0].points[0].x_bits, 9);
}

#[test]
fn projection_errors_wrap_the_engine_error() {
    let e = ProjError { code: 7, message: "bad crs".to_string(), context: "create".to_string() };
    let pe = ProjectionError::from(e);
    match pe {
        ProjectionError::Proj(inner) => {
            assert_eq!(inner.code, 7);
            assert_eq!(inner.message, "bad crs");
        },
    }
}
