//! Verified core of a face-authentication pipeline.
//!
//! A decoded grayscale frame is normalized and turned into a fixed-length
//! descriptor of fixed-point values; descriptors are scored by a cosine
//! similarity sharpened with a power law; an enrollment store keeps a bounded,
//! confidence-ranked set of samples per user; and a match engine searches the
//! store for the best identity under a per-user adaptive threshold.
//!
//! All quantities that are conceptually fractions in `[0, 1]` (pixel
//! statistics, descriptor entries, confidences, similarity scores, thresholds)
//! are held as integers scaled by [`math::SCALE`], so that every step of the
//! pipeline is exact and verifiable.

//!
//! Everything that touches the outside world — cameras, files, clocks,
//! external recognizer processes — stays with the caller: this library takes
//! plain values (frames, descriptors, timestamps, captured output) and hands
//! back plain values and decisions.

pub mod codec;
pub mod delegate;
pub mod errors;
pub mod math;
pub mod similarity;
pub mod store;
pub mod features;
pub mod frame;
pub mod matching;
pub mod registration;

use vstd::prelude::*;
use crate::delegate::{StandaloneAuthResult, StandalonePythonFaceAuth};
use crate::errors::FaceError;

verus! {

/// Authentication outcome exposed by the high-level interface.  Fractional
/// values are fixed point, scaled by [`math::SCALE`].
#[derive(Debug, PartialEq)]
pub struct FaceAuthResult {
    pub is_authenticated: bool,
    pub user_id: Option<String>,
    pub confidence: Option<u64>,
    pub distance: Option<u64>,
    pub threshold: Option<u64>,
    pub processing_time_ms: Option<u32>,
}

impl vstd::std_specs::convert::FromSpecImpl<StandaloneAuthResult> for FaceAuthResult {
    open spec fn obeys_from_spec() -> bool {
        true
    }

    open spec fn from_spec(result: StandaloneAuthResult) -> FaceAuthResult {
        FaceAuthResult {
            is_authenticated: match result.is_match {
                Some(b) => b,
                None => false,
            },
            user_id: result.matched_user,
            confidence: result.confidence,
            distance: result.distance,
            threshold: result.threshold,
            processing_time_ms: result.processing_time_ms,
        }
    }
}

impl From<StandaloneAuthResult> for FaceAuthResult {
    /// A delegated run that did not say whether it matched counts as not
    /// authenticated.
    fn from(result: StandaloneAuthResult) -> (r: FaceAuthResult) {
        FaceAuthResult {
            is_authenticated: result.is_match.unwrap_or(false),
            user_id: result.matched_user,
            confidence: result.confidence,
            distance: result.distance,
            threshold: result.threshold,
            processing_time_ms: result.processing_time_ms,
        }
    }
}

/// The high-level interface around a configured external recognizer: it
/// owns the recognizer's configuration and interprets its output (see
/// [`delegate`]); spawning the recognizer stays with the caller.
pub struct FaceAuth {
    pub python_auth: StandalonePythonFaceAuth,
}

impl FaceAuth {
    /// Bundle a configured recognizer.
    pub fn new(python_auth: StandalonePythonFaceAuth) -> (r: Result<FaceAuth, FaceError>)
        ensures
            match r {
                Ok(f) => f.python_auth == python_auth,
                Err(_) => false,
            },
    {
        Ok(FaceAuth { python_auth })
    }
}

} // verus!
