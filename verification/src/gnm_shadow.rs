//! GNM shadow-mode pipeline stage.
//!
//! In shadow mode the direct MediaPipe path keeps sole avatar authority while the
//! same source frame's GNM fit/decode result is evaluated side-by-side. This
//! module composes the canonical same-frame fan-out with backend-aligned outputs:
//!
//! - Avatar output is produced by the direct path only; nothing here publishes to
//!   an avatar.
//! - GNM results are paired by exact shared source stamp or not at all;
//!   stale/foreign frames become a typed reason instead of being mixed.
//! - Frame transport relies on the latest-value GNM worker, which keeps at most
//!   one pending frame.

use vstd::pervasive::cloned;
use vstd::prelude::*;

use crate::ab_backend::{
    timing_fault, AbBackendError, AlignedBackendOutputs, BackendOutputTiming, SourceFrameStamp,
    StampedBackendOutput,
};
use crate::arkit::{Arkit52ValueError, ArkitBlendshape};
use crate::gnm_arkit_projector::{
    decode_gnm_arkit52, projected, Arkit52DecodeResult, GnmFacialFeatures,
};
use crate::gnm_latest_frame_worker::GnmWorkerFrameInput;
use crate::gnm_model::GnmFrameStamp;
use crate::same_frame_fanout::SameFrameFanOut;
use crate::temporal_report::FaceTrackingBackend;

verus! {

/// Reason a shadow frame carried no GNM output beside the direct one.
#[derive(Clone, Copy, Debug, PartialEq, Eq, Structural)]
pub enum GnmShadowSkip {
    /// The GNM worker has not produced any state yet.
    NoStateYet,
    /// The newest available GNM state belongs to a different source frame. It is
    /// never paired with a newer direct frame.
    ForeignSourceFrame {
        /// Expected sequence from the shared source stamp.
        expected_seq: u64,
        /// Sequence of the available GNM state.
        actual_seq: u64,
    },
    /// The GNM decode failed validation for this frame.
    DecodeFailed,
}

/// Outcome of one shadow-mode frame.
#[derive(Clone, Debug, PartialEq)]
pub enum GnmShadowOutcome<T> {
    /// Direct-only frame. Avatar output comes exclusively from `direct`.
    DirectOnly {
        /// Untouched direct output for the frame.
        direct: T,
        /// Why the GNM side is absent this frame.
        skip: GnmShadowSkip,
    },
    /// Exact source-aligned pair. Only `direct` has authority.
    Aligned(Box<AlignedBackendOutputs<T>>),
}

impl<T> GnmShadowOutcome<T> {
    /// The output that drives the avatar.
    pub open spec fn authority(self) -> T {
        match self {
            GnmShadowOutcome::DirectOnly { direct, .. } => direct,
            GnmShadowOutcome::Aligned(pair) => pair.direct.output,
        }
    }
}

/// One GNM-side candidate output awaiting alignment with its direct twin.
#[derive(Clone, Copy, Debug)]
pub struct GnmShadowCandidate<'a, T> {
    /// Source frame the GNM result was fitted on.
    pub stamp: GnmFrameStamp,
    /// Optional GNM fit completion time, in microseconds.
    pub fit_complete_micros: Option<u64>,
    /// Optional decoder completion time, in microseconds.
    pub decoder_complete_micros: Option<u64>,
    /// Decoded GNM output payload.
    pub output: &'a T,
}

/// The frame identity of a shared stamp.
pub open spec fn frame_of(stamp: SourceFrameStamp) -> GnmFrameStamp {
    GnmFrameStamp { source_seq: stamp.seq(), captured_at_micros: stamp.captured() }
}

/// Builds the GNM worker frame input for one fanned-out source frame.
///
/// The stamp mapping preserves exact source identity (sequence and capture
/// microseconds). The worker consumes this through its capacity-one latest slot,
/// so submitting faster than it solves replaces the pending frame instead of
/// queueing work without bound.
#[must_use]
pub fn shadow_worker_input(fan_out: &SameFrameFanOut) -> (input: GnmWorkerFrameInput)
    ensures
        input.source() == frame_of(fan_out.source()),
        input.seen() == fan_out.seen(),
{
    let stamp = fan_out.stamp();
    GnmWorkerFrameInput::new(
        GnmFrameStamp {
            source_seq: stamp.source_seq(),
            captured_at_micros: stamp.capture_micros(),
        },
        *fan_out.dense(),
    )
}

/// Decodes a GNM feature snapshot fitted on the same source frame.
///
/// Gives the validated coefficients together with their per-channel support
/// classification. The decode consumes only the calibration-normalized snapshot;
/// current MediaPipe coefficients are never consulted.
///
/// # Errors
///
/// None is reachable.
pub fn decode_shadow_features(features: &GnmFacialFeatures) -> (result: Result<
    Arkit52DecodeResult,
    Arkit52ValueError,
>)
    ensures
        result matches Ok(decoded) && decoded.coefficients.valid() && forall|
            channel: ArkitBlendshape,
        |
            {
                &&& decoded.coefficients@[channel.position()] == (#[trigger] projected(
                    *features,
                    channel,
                )).value
                &&& decoded.supports@[channel.position()] == projected(*features, channel).support
            },
{
    decode_gnm_arkit52(features)
}

/// The reason why a candidate is not paired, if it is not.
pub open spec fn skip_of<T>(
    stamp: SourceFrameStamp,
    candidate: Option<GnmShadowCandidate<'_, T>>,
) -> Option<GnmShadowSkip> {
    match candidate {
        None => Some(GnmShadowSkip::NoStateYet),
        Some(candidate) => if candidate.stamp != frame_of(stamp) {
            Some(
                GnmShadowSkip::ForeignSourceFrame {
                    expected_seq: stamp.seq(),
                    actual_seq: candidate.stamp.source_seq,
                },
            )
        } else {
            None
        },
    }
}

/// Why the timing records do not pass, if they do not: the direct record first,
/// then that of a paired candidate.
pub open spec fn shadow_fault<T>(
    stamp: SourceFrameStamp,
    candidate: Option<GnmShadowCandidate<'_, T>>,
    publish: u64,
) -> Option<AbBackendError> {
    if timing_fault(stamp, None, None, publish) is Some {
        timing_fault(stamp, None, None, publish)
    } else if skip_of(stamp, candidate) is Some {
        None
    } else {
        timing_fault(
            stamp,
            candidate->0.fit_complete_micros,
            candidate->0.decoder_complete_micros,
            publish,
        )
    }
}

/// Aligns one direct output with its optional same-frame GNM candidate.
///
/// The pairing uses exact shared source identity: sequence number and capture
/// timestamp must both match the fan-out stamp. Any mismatch yields
/// [`GnmShadowOutcome::DirectOnly`] with [`GnmShadowSkip::ForeignSourceFrame`]
/// rather than a nearest-timestamp pairing. Timing records are validated
/// chronologically for both backends; a timing violation is a producer bug and
/// surfaces as a typed error.
///
/// # Errors
///
/// Fails when either timing record is out of order.
pub fn align_shadow_pair<T: Clone>(
    fan_out: &SameFrameFanOut,
    direct_output: T,
    gnm_candidate: Option<GnmShadowCandidate<'_, T>>,
    publish_micros: u64,
) -> (result: Result<GnmShadowOutcome<T>, AbBackendError>)
    ensures
        match result {
            Err(error) => shadow_fault(fan_out.source(), gnm_candidate, publish_micros) == Some(
                error,
            ),
            Ok(outcome) => {
                &&& shadow_fault(fan_out.source(), gnm_candidate, publish_micros) is None
                &&& outcome.authority() == direct_output
                &&& match outcome {
                    GnmShadowOutcome::DirectOnly { skip, .. } => skip_of(
                        fan_out.source(),
                        gnm_candidate,
                    ) == Some(skip),
                    GnmShadowOutcome::Aligned(pair) => {
                        &&& skip_of(fan_out.source(), gnm_candidate) is None
                        &&& pair.aligned()
                        &&& pair.direct.timing.source() == fan_out.source()
                        &&& pair.direct.timing.fitted() is None
                        &&& pair.direct.timing.decoded() is None
                        &&& pair.direct.timing.published() == publish_micros
                        &&& pair.gnm.timing.fitted() == gnm_candidate->0.fit_complete_micros
                        &&& pair.gnm.timing.decoded() == gnm_candidate->0.decoder_complete_micros
                        &&& pair.gnm.timing.published() == publish_micros
                        &&& cloned(*gnm_candidate->0.output, pair.gnm.output)
                    },
                }
            },
        },
{
    let stamp = fan_out.stamp();
    let direct_timing = match BackendOutputTiming::new(
        stamp,
        FaceTrackingBackend::DirectMediaPipe,
        None,
        None,
        publish_micros,
    ) {
        Ok(timing) => timing,
        Err(error) => {
            return Err(error);
        },
    };
    let candidate = match gnm_candidate {
        Some(candidate) => candidate,
        None => {
            return Ok(
                GnmShadowOutcome::DirectOnly {
                    direct: direct_output,
                    skip: GnmShadowSkip::NoStateYet,
                },
            );
        },
    };
    if candidate.stamp.source_seq != stamp.source_seq() || candidate.stamp.captured_at_micros
        != stamp.capture_micros() {
        return Ok(
            GnmShadowOutcome::DirectOnly {
                direct: direct_output,
                skip: GnmShadowSkip::ForeignSourceFrame {
                    expected_seq: stamp.source_seq(),
                    actual_seq: candidate.stamp.source_seq,
                },
            },
        );
    }
    let gnm_timing = match BackendOutputTiming::new(
        stamp,
        FaceTrackingBackend::GnmTemporal,
        candidate.fit_complete_micros,
        candidate.decoder_complete_micros,
        publish_micros,
    ) {
        Ok(timing) => timing,
        Err(error) => {
            return Err(error);
        },
    };
    let aligned = AlignedBackendOutputs {
        direct: StampedBackendOutput { timing: direct_timing, output: direct_output },
        gnm: StampedBackendOutput { timing: gnm_timing, output: candidate.output.clone() },
    };
    Ok(GnmShadowOutcome::Aligned(Box::new(aligned)))
}

/// A candidate of another source frame is never paired, whichever part of the
/// identity differs.
pub proof fn lemma_foreign_frames_are_skipped<T>(
    stamp: SourceFrameStamp,
    candidate: GnmShadowCandidate<'_, T>,
)
    requires
        candidate.stamp.source_seq != stamp.seq() || candidate.stamp.captured_at_micros
            != stamp.captured(),
    ensures
        skip_of(stamp, Some(candidate)) is Some,
{
}

} // verus!
