//! Head displacement relative to the neutral pose, as an ordinary webcam shows it.
//!
//! This module turns the geometry already produced by the direct head-pose
//! estimators into the engine-neutral [`HeadTranslationSignal`]. It never solves a
//! second pose problem:
//!
//! * The landmark path reuses the rotation of the pose solver together with the
//!   two weighted centroids. Translation is the residual `c_current - R *
//!   c_neutral`, so a pure rigid rotation produces no cross-talk by construction.
//! * The face-transform path reuses the relative translation of the transform.
//!
//! Monocular webcams do not provide verified absolute distance. X/Y are therefore
//! defined as neutral-relative face-centre displacement scaled by an assumed head
//! size, and Z is signed scale evidence mapped through an assumed reference webcam
//! distance. Both anchors are explicit constants below: outputs are approximate
//! meters under these documented assumptions, not measured absolute distances.

use vstd::prelude::*;

use crate::avatar::{HeadTranslationSignal, HeadTranslationState};
use crate::binary::Binary32;

verus! {

/// Reference physical head half-extent used to convert normalized-image
/// displacements into approximate meters (`0.075`).
///
/// A typical adult face spans roughly 0.15 m between cheek boundaries; the
/// weighted landmark cloud used for pose solving covers approximately half of that
/// extent around its centre.
pub const REFERENCE_HEAD_RADIUS_METERS_BITS: u32 = 0x3d99_999a;

/// Assumed camera-to-face distance at calibration time, in meters (`0.6`).
///
/// Z is derived from face-scale evidence, which under a pinhole model measures
/// relative distance change. This constant maps that ratio onto meters and must
/// stay a documented assumption rather than a claimed measurement.
pub const REFERENCE_DISTANCE_METERS_BITS: u32 = 0x3f19_999a;

/// MediaPipe face-transform camera-space units are centimeters; converts to meters
/// (`0.01`).
pub const MEDIAPIPE_TRANSFORM_UNITS_TO_METERS_BITS: u32 = 0x3c23_d70a;

/// Projected radius below which the scale evidence is degenerate (`1.0e-5`).
pub const MIN_NEUTRAL_RADIUS_BITS: u32 = 0x3727_c5ac;

/// Mean landmark presence below which a translation estimate is degraded (`0.6`).
pub const DEGRADED_VISIBILITY_THRESHOLD_BITS: u32 = 0x3f19_999a;

/// What the translation reads of an aligned pair of landmark clouds.
#[derive(Clone, Copy, Debug, PartialEq)]
pub struct PoseAlignment {
    /// Rotation-compensated residual displacement in canonical units.
    pub translation: [Binary32; 3],
    /// Projected radius of the neutral cloud.
    pub neutral_projected_radius: Binary32,
    /// Projected radius of the current cloud.
    pub current_projected_radius: Binary32,
}

/// The state that a visibility selects.
pub open spec fn state_of(mean_visibility: Binary32) -> HeadTranslationState {
    if mean_visibility.less(Binary32 { bits: DEGRADED_VISIBILITY_THRESHOLD_BITS }) {
        HeadTranslationState::Degraded
    } else {
        HeadTranslationState::Observed
    }
}

/// A projected radius carries scale evidence.
pub open spec fn radius_usable(radius: Binary32) -> bool {
    radius.finite() && !radius.less(Binary32 { bits: MIN_NEUTRAL_RADIUS_BITS })
}

/// Every number of the evidence is usable.
pub open spec fn alignment_usable(alignment: PoseAlignment, mean_visibility: Binary32) -> bool {
    &&& mean_visibility.finite()
    &&& radius_usable(alignment.neutral_projected_radius)
    &&& radius_usable(alignment.current_projected_radius)
    &&& alignment.translation@[0].finite()
    &&& alignment.translation@[1].finite()
    &&& alignment.translation@[2].finite()
}

/// Displacement toward image right in meters.
pub open spec fn aligned_x(alignment: PoseAlignment) -> Binary32 {
    alignment.translation@[0].times(
        Binary32 { bits: REFERENCE_HEAD_RADIUS_METERS_BITS }.over(
            alignment.neutral_projected_radius,
        ),
    )
}

/// Displacement upward in meters; canonical y grows toward the image bottom.
pub open spec fn aligned_y(alignment: PoseAlignment) -> Binary32 {
    alignment.translation@[1].negated().times(
        Binary32 { bits: REFERENCE_HEAD_RADIUS_METERS_BITS }.over(
            alignment.neutral_projected_radius,
        ),
    )
}

/// Displacement away from the camera in meters: apparent size shrinks as distance
/// grows.
pub open spec fn aligned_z(alignment: PoseAlignment) -> Binary32 {
    Binary32 { bits: REFERENCE_DISTANCE_METERS_BITS }.times(
        alignment.neutral_projected_radius.over(alignment.current_projected_radius).minus(
            Binary32 { bits: 0x3f80_0000 },
        ),
    )
}

/// The signal of aligned landmark clouds.
pub open spec fn alignment_signal(
    alignment: PoseAlignment,
    mean_visibility: Binary32,
) -> HeadTranslationSignal {
    if alignment_usable(alignment, mean_visibility) {
        HeadTranslationSignal::of(
            aligned_x(alignment),
            aligned_y(alignment),
            aligned_z(alignment),
            state_of(mean_visibility),
        )
    } else {
        HeadTranslationSignal::none()
    }
}

/// Converts landmark alignment evidence into a translation signal.
///
/// `mean_visibility` is the mean landmark visibility/presence of the current
/// observation; it selects the observed versus the degraded state. Non-finite or
/// degenerate inputs produce the unavailable signal; NaN and infinities are never
/// published.
#[must_use]
pub fn signal_from_alignment(alignment: &PoseAlignment, mean_visibility: Binary32) -> (signal:
    HeadTranslationSignal)
    ensures
        signal == alignment_signal(*alignment, mean_visibility),
        signal.finite(),
{
    let state = availability(mean_visibility);
    let neutral_radius = alignment.neutral_projected_radius;
    let current_radius = alignment.current_projected_radius;
    let tx = alignment.translation[0];
    let ty = alignment.translation[1];
    let tz = alignment.translation[2];
    if !mean_visibility.is_finite() || !is_radius_usable(neutral_radius) || !is_radius_usable(
        current_radius,
    ) || !tx.is_finite() || !ty.is_finite() || !tz.is_finite() {
        return HeadTranslationSignal::unavailable();
    }
    let scale = Binary32::from_bits(REFERENCE_HEAD_RADIUS_METERS_BITS).quotient(neutral_radius);
    let x_meters = tx.product(scale);
    let y_meters = ty.neg().product(scale);
    let z_ratio = neutral_radius.quotient(current_radius);
    let z_meters = Binary32::from_bits(REFERENCE_DISTANCE_METERS_BITS).product(
        z_ratio.difference(Binary32::from_bits(0x3f80_0000)),
    );
    build(x_meters, y_meters, z_meters, state)
}

/// The signal of a relative face transform.
pub open spec fn transform_signal(
    translation: Seq<Binary32>,
    mean_visibility: Binary32,
) -> HeadTranslationSignal {
    let k = Binary32 { bits: MEDIAPIPE_TRANSFORM_UNITS_TO_METERS_BITS };
    if translation[0].finite() && translation[1].finite() && translation[2].finite() {
        HeadTranslationSignal::of(
            translation[0].times(k),
            translation[1].times(k),
            translation[2].times(k),
            state_of(mean_visibility),
        )
    } else {
        HeadTranslationSignal::none()
    }
}

/// Converts a relative face transform translation into meters.
///
/// `relative_translation_xyz` is expressed in the calibrated neutral face basis in
/// MediaPipe camera-space units: X toward unmirrored image right, Y up, Z away
/// from the camera. The unit assumption is documented in
/// [`MEDIAPIPE_TRANSFORM_UNITS_TO_METERS_BITS`].
#[must_use]
pub fn signal_from_face_transform(
    relative_translation_xyz: [Binary32; 3],
    mean_visibility: Binary32,
) -> (signal: HeadTranslationSignal)
    ensures
        signal == transform_signal(relative_translation_xyz@, mean_visibility),
        signal.finite(),
{
    let state = availability(mean_visibility);
    let tx = relative_translation_xyz[0];
    let ty = relative_translation_xyz[1];
    let tz = relative_translation_xyz[2];
    if !tx.is_finite() || !ty.is_finite() || !tz.is_finite() {
        return HeadTranslationSignal::unavailable();
    }
    let k = Binary32::from_bits(MEDIAPIPE_TRANSFORM_UNITS_TO_METERS_BITS);
    build(tx.product(k), ty.product(k), tz.product(k), state)
}

fn is_radius_usable(radius: Binary32) -> (usable: bool)
    ensures
        usable == radius_usable(radius),
{
    radius.is_finite() && !radius.is_less(Binary32::from_bits(MIN_NEUTRAL_RADIUS_BITS))
}

fn availability(mean_visibility: Binary32) -> (state: HeadTranslationState)
    ensures
        state == state_of(mean_visibility),
{
    if mean_visibility.is_less(Binary32::from_bits(DEGRADED_VISIBILITY_THRESHOLD_BITS)) {
        HeadTranslationState::Degraded
    } else {
        HeadTranslationState::Observed
    }
}

/// Builds the final signal without ever publishing non-finite values.
fn build(
    x_meters: Binary32,
    y_meters: Binary32,
    z_meters: Binary32,
    state: HeadTranslationState,
) -> (signal: HeadTranslationSignal)
    requires
        !(state is Unavailable),
    ensures
        signal == HeadTranslationSignal::of(x_meters, y_meters, z_meters, state),
        signal.finite(),
{
    match state {
        HeadTranslationState::Observed => HeadTranslationSignal::observed(
            x_meters,
            y_meters,
            z_meters,
        ),
        HeadTranslationState::Degraded | HeadTranslationState::Unavailable => {
            HeadTranslationSignal::degraded(x_meters, y_meters, z_meters)
        },
    }
}

/// Low visibility degrades the state without changing the values.
pub proof fn lemma_visibility_changes_only_the_state(
    alignment: PoseAlignment,
    left: Binary32,
    right: Binary32,
)
    requires
        left.finite(),
        right.finite(),
    ensures
        ({
            let a = alignment_signal(alignment, left);
            let b = alignment_signal(alignment, right);
            &&& a.x_meters == b.x_meters
            &&& a.y_meters == b.y_meters
            &&& a.z_meters == b.z_meters
            &&& (a.state is Unavailable) == (b.state is Unavailable)
        }),
{
}

} // verus!
