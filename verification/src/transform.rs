//! Point-cloud transforms that run inside the library.
//!
//! The reprojection transform itself needs the reprojection engine and
//! lives outside; here stands the tiling transform of the transform
//! chain, together with the point-cloud value it passes along.

use vstd::prelude::*;

use crate::point::{Point, points_view};

verus! {

/// A point cloud with the bookkeeping the stages carry along.
#[derive(Debug)]
pub struct PointCloud {
    pub points: Vec<Point>,
    pub metadata: Metadata,
}

/// What the pipeline records about a cloud: how many points it holds and
/// the reference system they are expressed in.
#[derive(Debug, Clone, Copy, PartialEq, Eq, Structural)]
pub struct Metadata {
    pub point_count: usize,
    pub epsg: u16,
}

impl PointCloud {
    /// Wrap a point list with its metadata.
    pub fn new(points: Vec<Point>, epsg: u16) -> (r: PointCloud)
        ensures
            points_view(r.points@) == points_view(points@),
            r.metadata.point_count == points@.len(),
            r.metadata.epsg == epsg,
    {
        let count = points.len();
        PointCloud { points, metadata: Metadata { point_count: count, epsg } }
    }
}

/// A stage of the transform chain that regroups clouds for tiling; the
/// grouping into tiles happens in the tiler, so this stage passes the
/// cloud through whole.
#[derive(Debug)]
pub struct TilingTransform;

impl TilingTransform {
    /// A tiling stage.
    pub fn new() -> (r: TilingTransform)
        ensures
            true,
    {
        TilingTransform
    }

    /// Hand the cloud on unchanged, as one group.
    pub fn transform(&self, point_cloud: PointCloud) -> (r: Vec<PointCloud>)
        ensures
            r@.len() == 1,
            points_view(r@[0].points@) == points_view(point_cloud.points@),
            r@[0].metadata == point_cloud.metadata,
    {
        let mut out: Vec<PointCloud> = Vec::new();
        out.push(point_cloud);
        out
    }
}

} // verus!
