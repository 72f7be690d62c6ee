//! The point record: three coordinates, a color, and optional attributes.
//!
//! Coordinates are carried as the 64-bit patterns of the source doubles;
//! the library never interprets them numerically, it only moves, groups
//! and serializes them.  The two floating-point attributes are carried the
//! same way.  In contracts a point is seen through its `PointModel` view,
//! where the classification name is a byte sequence.

use vstd::prelude::*;

verus! {

/// An RGB color with 16-bit channels, white by default.
#[derive(Debug, Clone, Copy, PartialEq, Eq, Structural)]
pub struct Color {
    pub r: u16,
    pub g: u16,
    pub b: u16,
}

impl Default for Color {
    /// The default color is black, as in the source readers.
    fn default() -> (c: Color)
        ensures
            c == (Color { r: 0, g: 0, b: 0 }),
    {
        Color { r: 0, g: 0, b: 0 }
    }
}

/// Optional per-point attributes.  `scan_angle_bits` and `gps_time_bits`
/// hold the bit patterns of the source `f32` and `f64` values; the
/// classification is a short name, held as its bytes.
#[derive(Debug, Clone)]
pub struct PointAttributes {
    pub intensity: Option<u16>,
    pub return_number: Option<u8>,
    pub classification: Option<Vec<u8>>,
    pub scanner_channel: Option<u8>,
    pub scan_angle_bits: Option<u32>,
    pub user_data: Option<u8>,
    pub point_source_id: Option<u16>,
    pub gps_time_bits: Option<u64>,
}

impl PointAttributes {
    /// The attribute set with every field absent.
    pub fn none() -> (a: PointAttributes)
        ensures
            a@ === AttributesModel::none(),
    {
        PointAttributes {
            intensity: None,
            return_number: None,
            classification: None,
            scanner_channel: None,
            scan_angle_bits: None,
            user_data: None,
            point_source_id: None,
            gps_time_bits: None,
        }
    }
}

/// One point: coordinates as double bit patterns, a color, attributes.
#[derive(Debug, Clone)]
pub struct Point {
    pub x_bits: u64,
    pub y_bits: u64,
    pub z_bits: u64,
    pub color: Color,
    pub attributes: PointAttributes,
}

/// The mathematical value of a `PointAttributes`.
#[verifier::ext_equal]
pub struct AttributesModel {
    pub intensity: Option<u16>,
    pub return_number: Option<u8>,
    pub classification: Option<Seq<u8>>,
    pub scanner_channel: Option<u8>,
    pub scan_angle_bits: Option<u32>,
    pub user_data: Option<u8>,
    pub point_source_id: Option<u16>,
    pub gps_time_bits: Option<u64>,
}

impl AttributesModel {
    /// The attribute set with every field absent.
    pub open spec fn none() -> AttributesModel {
        AttributesModel {
            intensity: None,
            return_number: None,
            classification: None,
            scanner_channel: None,
            scan_angle_bits: None,
            user_data: None,
            point_source_id: None,
            gps_time_bits: None,
        }
    }
}

/// The mathematical value of a `Point`.
#[verifier::ext_equal]
pub struct PointModel {
    pub x_bits: u64,
    pub y_bits: u64,
    pub z_bits: u64,
    pub color: Color,
    pub attributes: AttributesModel,
}

impl View for PointAttributes {
    type V = AttributesModel;

    open spec fn view(&self) -> AttributesModel {
        AttributesModel {
            intensity: self.intensity,
            return_number: self.return_number,
            classification: match self.classification {
                Some(v) => Some(v@),
                None => None,
            },
            scanner_channel: self.scanner_channel,
            scan_angle_bits: self.scan_angle_bits,
            user_data: self.user_data,
            point_source_id: self.point_source_id,
            gps_time_bits: self.gps_time_bits,
        }
    }
}

impl View for Point {
    type V = PointModel;

    open spec fn view(&self) -> PointModel {
        PointModel {
            x_bits: self.x_bits,
            y_bits: self.y_bits,
            z_bits: self.z_bits,
            color: self.color,
            attributes: self.attributes@,
        }
    }
}

/// The views of a vector of points.
pub open spec fn points_view(pts: Seq<Point>) -> Seq<PointModel> {
    pts.map_values(|p: Point| p@)
}

impl Point {
    /// A point from bare coordinates, white and without attributes, as the
    /// text readers produce when a record carries no color columns.
    pub fn from_coords(x_bits: u64, y_bits: u64, z_bits: u64) -> (p: Point)
        ensures
            p@ == (PointModel {
                x_bits,
                y_bits,
                z_bits,
                color: Color { r: 65535, g: 65535, b: 65535 },
                attributes: AttributesModel::none(),
            }),
    {
        Point {
            x_bits,
            y_bits,
            z_bits,
            color: Color { r: 65535, g: 65535, b: 65535 },
            attributes: PointAttributes::none(),
        }
    }

    /// Overwrite coordinates and color, as the source point does.
    pub fn set(&mut self, x_bits: u64, y_bits: u64, z_bits: u64, r: u16, g: u16, b: u16)
        ensures
            final(self)@ == (PointModel {
                x_bits,
                y_bits,
                z_bits,
                color: Color { r, g, b },
                attributes: old(self)@.attributes,
            }),
    {
        self.x_bits = x_bits;
        self.y_bits = y_bits;
        self.z_bits = z_bits;
        self.color = Color { r, g, b };
    }
}

/// A point converted from a LAS record's plain fields: a missing color
/// becomes white, the attributes are all recorded.
pub fn from_las_fields(
    x_bits: u64,
    y_bits: u64,
    z_bits: u64,
    color: Option<Color>,
    intensity: u16,
    return_number: u8,
    classification: Vec<u8>,
    scan_angle_bits: u32,
    user_data: u8,
    point_source_id: u16,
    gps_time_bits: u64,
) -> (p: Point)
    ensures
        p@.x_bits == x_bits && p@.y_bits == y_bits && p@.z_bits == z_bits,
        p@.color == (match color {
            Some(c) => c,
            None => Color { r: 65535, g: 65535, b: 65535 },
        }),
        p@.attributes == (AttributesModel {
            intensity: Some(intensity),
            return_number: Some(return_number),
            classification: Some(classification@),
            scanner_channel: Some(user_data),
            scan_angle_bits: Some(scan_angle_bits),
            user_data: Some(user_data),
            point_source_id: Some(point_source_id),
            gps_time_bits: Some(gps_time_bits),
        }),
{
    let c = match color {
        Some(c) => c,
        None => Color { r: 65535, g: 65535, b: 65535 },
    };
    Point {
        x_bits,
        y_bits,
        z_bits,
        color: c,
        attributes: PointAttributes {
            intensity: Some(intensity),
            return_number: Some(return_number),
            classification: Some(classification),
            scanner_channel: Some(user_data),
            scan_angle_bits: Some(scan_angle_bits),
            user_data: Some(user_data),
            point_source_id: Some(point_source_id),
            gps_time_bits: Some(gps_time_bits),
        },
    }
}

} // verus!
