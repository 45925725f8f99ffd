//! Error kinds surfaced by the verified pipeline.

use vstd::prelude::*;

verus! {

/// Failures that the pipeline reports explicitly.
///
/// Purely computational mismatches (descriptor lengths, zero vectors) are not
/// errors: they degrade to a neutral similarity of zero instead.
#[derive(Debug, Clone, Copy, PartialEq, Eq, Structural)]
pub enum FaceError {
    /// Cropping produced a region with a zero-sized side.
    InvalidRegion,
    /// A sample's quality gate failed: its confidence is below the floor
    /// demanded at registration time.
    LowConfidenceSample,
    /// A persisted store image could not be decoded.
    MalformedStore,
}

} // verus!
