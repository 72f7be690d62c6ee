//! Verified core of a point-cloud tiling pipeline.
//!
//! The library turns point sets into a quadtree of tile buckets and, per
//! tile, into the byte content of a GLB points primitive.  Coordinates are
//! carried as 64-bit patterns of the source doubles; all logic proved here
//! works on those plain values.  File and thread handling, coordinate
//! reprojection and the floating-point stages live outside the library and
//! hand it plain values.

pub mod aggregate;
pub mod codec;
pub mod decimate;
pub mod errors;
pub mod glb;
pub mod manifest;
pub mod morton;
pub mod parser;
pub mod point;
pub mod tileid;
pub mod tiler;
pub mod transform;
