//! Paired trace samples: observations and their ARKit teacher.

use vstd::prelude::*;

use crate::arkit::Arkit52Coefficients;
use crate::binary::Binary32;
use crate::observable_basis::GnmNonTongueExpression;

verus! {

/// Why a paired trace cannot be used.
#[derive(Clone, Debug, PartialEq, Eq)]
pub enum TeacherDatasetError {
    /// A setting or a number is not usable.
    NonFinite {
        /// Which one.
        field: &'static str,
    },
    /// A frame's identity, order or teacher pairing is invalid.
    InvalidPairing {
        /// The offending frame.
        frame_seq: u64,
    },
}

/// Facial region of a fit diagnostic.
#[derive(Clone, Copy, Debug, PartialEq, Eq, Structural)]
pub enum FaceRegion {
    /// Face outline.
    Contour,
    /// Brows.
    Brow,
    /// Eyelids.
    Eye,
    /// Nose.
    Nose,
    /// Mouth.
    Mouth,
    /// Irises.
    Iris,
    /// Everything else.
    Other,
}

/// Fit quality of one facial region.
#[derive(Clone, Copy, Debug, PartialEq, Eq, Structural)]
pub struct GnmRegionFitRecord {
    /// The region.
    pub region: FaceRegion,
    /// Number of usable points.
    pub valid_points: usize,
    /// Weighted residual.
    pub weighted_rms: Binary32,
}

/// One MediaPipe observation.
#[derive(Clone, Debug, PartialEq)]
pub struct MediaPipeObservation {
    /// Direct coefficients.
    pub direct_coefficients: Arkit52Coefficients,
    /// Landmark positions.
    pub landmarks_xy: Vec<[Binary32; 2]>,
}

/// One fitted model state.
#[derive(Clone, Debug, PartialEq)]
pub struct GnmTraceState {
    /// Hand-projected coefficients.
    pub projected_coefficients: Arkit52Coefficients,
    /// Fit residual.
    pub residual: Binary32,
    /// Non-tongue expression.
    pub expression: GnmNonTongueExpression,
    /// Joint rotations in axis-angle order.
    pub joint_rotations: Vec<[Binary32; 3]>,
    /// Rigid yaw, pitch, and roll.
    pub rigid_yaw_pitch_roll: [Binary32; 3],
    /// Fit objective.
    pub objective: Binary32,
    /// Regional fit records.
    pub region_fits: Vec<GnmRegionFitRecord>,
}

/// One frame of a paired trace.
#[derive(Clone, Debug, PartialEq)]
pub struct PairedTemporalSample {
    /// Source frame sequence.
    pub frame_seq: u64,
    /// Source timestamp.
    pub timestamp_micros: u64,
    /// MediaPipe observation, if the face was seen.
    pub mediapipe_observation: Option<MediaPipeObservation>,
    /// Fitted model state, if the fit succeeded.
    pub gnm_state: Option<GnmTraceState>,
    /// Teacher coefficients, if the teacher saw the face.
    pub teacher: Option<Arkit52Coefficients>,
}

/// `next` is the frame after `previous`, at most `max_gap_micros` later.
pub open spec fn follows_within(
    previous: PairedTemporalSample,
    next: PairedTemporalSample,
    max_gap_micros: u64,
) -> bool {
    &&& next.frame_seq == previous.frame_seq + 1
    &&& next.timestamp_micros - previous.timestamp_micros <= max_gap_micros
}

/// Whether `next` is the frame after `previous`, at most `max_gap_micros`
/// later.
pub fn is_following(
    previous: &PairedTemporalSample,
    next: &PairedTemporalSample,
    max_gap_micros: u64,
) -> (follows: bool)
    ensures
        follows == follows_within(*previous, *next, max_gap_micros),
{
    previous.frame_seq < u64::MAX && next.frame_seq == previous.frame_seq + 1
        && next.timestamp_micros.saturating_sub(previous.timestamp_micros) <= max_gap_micros
}

} // verus!
