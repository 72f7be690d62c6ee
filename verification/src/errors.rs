//! The pipeline's error taxonomy, and the reprojection engine's error.
//!
//! Every failure is fatal at stage level; the driver maps each variant to
//! a one-line message and a non-zero exit.

use vstd::prelude::*;

verus! {

/// What can go wrong in the pipeline.
#[derive(Debug, Clone, Copy, PartialEq, Eq, Structural)]
pub enum TilerError {
    /// The input list was empty, held an unsupported extension, or mixed
    /// extensions.
    InputFailure,
    /// A scratch or output file could not be read or written.
    IoFailure,
    /// An input file is structurally invalid.
    FormatFailure,
    /// A point record could not be decoded.
    DecodeFailure,
    /// The reprojection engine rejected the reference systems or failed on
    /// a batch of points.
    ProjectionFailure,
    /// The GLB encoder could not produce output.
    EncodeFailure,
    /// The memory budget cannot hold even a single chunk.
    BudgetFailure,
}

/// An error reported by the reprojection engine: a numeric code, its
/// message, and the operation that failed.
#[derive(Debug, Clone)]
pub struct ProjError {
    pub code: i32,
    pub message: String,
    pub context: String,
}

/// A projection failure as the transformer surfaces it.
#[derive(Debug, Clone)]
pub enum ProjectionError {
    Proj(ProjError),
}

impl From<ProjError> for ProjectionError {
    fn from(value: ProjError) -> (r: Self) {
        ProjectionError::Proj(value)
    }
}

impl vstd::std_specs::convert::FromSpecImpl<ProjError> for ProjectionError {
    open spec fn obeys_from_spec() -> bool {
        true
    }

    open spec fn from_spec(value: ProjError) -> Self {
        ProjectionError::Proj(value)
    }
}

} // verus!
