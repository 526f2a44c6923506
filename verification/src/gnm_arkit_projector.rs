//! Region projectors from a facial feature snapshot onto canonical ARKit52
//! blendshape channels.
//!
//! Every projector is a pure function of the snapshot. Each projected channel
//! carries an explicit support classification, so that measured values can be
//! told from absent evidence: an unobserved channel is reported as
//! [`ProjectedSupport::Unsupported`] with value zero instead of being
//! fabricated.

use vstd::prelude::*;

use crate::arithmetic::lemma_plus_zero_32;
use crate::arithmetic_laws::lemma_units_of_zero;
use crate::arkit::{
    in_unit_range, Arkit52Coefficients, Arkit52ValueError, ArkitBlendshape, ARKIT52_CHANNEL_COUNT,
    ONE_BITS,
};
use crate::binary::Binary32;

verus! {

/// Support classification of one projected ARKit channel.
///
/// The classification is deterministic and derived only from the availability
/// of the geometric evidence a channel is computed from.
#[derive(Clone, Copy, Debug, PartialEq, Eq, Structural)]
pub enum ProjectedSupport {
    /// The channel is computed from dedicated, well-conditioned geometry.
    Reliable,
    /// The channel is computed from geometry that is available but known to be
    /// shared with, or confounded by, another facial action.
    Experimental,
    /// The snapshot carries no usable observation for this channel; the value
    /// is always zero.
    Unsupported,
}

/// One projected ARKit channel value plus its support classification.
#[derive(Clone, Copy, Debug, PartialEq, Eq, Structural)]
pub struct ProjectedChannel {
    /// Projected coefficient in finite `[0, 1]`; zero when unsupported.
    pub value: Binary32,
    /// Evidence classification of this value.
    pub support: ProjectedSupport,
}

impl ProjectedChannel {
    /// A `Reliable` channel with the given bounded value.
    #[must_use]
    pub fn reliable(value: Binary32) -> (channel: Self)
        ensures
            channel == (ProjectedChannel { value, support: ProjectedSupport::Reliable }),
    {
        ProjectedChannel { value, support: ProjectedSupport::Reliable }
    }

    /// An `Experimental` channel with the given bounded value.
    #[must_use]
    pub fn experimental(value: Binary32) -> (channel: Self)
        ensures
            channel == (ProjectedChannel { value, support: ProjectedSupport::Experimental }),
    {
        ProjectedChannel { value, support: ProjectedSupport::Experimental }
    }

    /// An `Unsupported` channel; always value zero.
    pub fn unsupported() -> (channel: Self)
        ensures
            channel == no_evidence(),
    {
        ProjectedChannel { value: Binary32::zero(), support: ProjectedSupport::Unsupported }
    }
}

/// The channel without evidence.
pub open spec fn no_evidence() -> ProjectedChannel {
    ProjectedChannel { value: Binary32 { bits: 0 }, support: ProjectedSupport::Unsupported }
}

/// Which side of the subject's body.
#[derive(Clone, Copy, Debug, PartialEq, Eq, Structural)]
pub enum AnatomicalSide {
    /// Anatomical left.
    Left,
    /// Anatomical right.
    Right,
    /// On the midline.
    Midline,
}

/// Aperture of one eye.
#[derive(Clone, Copy, Debug, PartialEq, Eq, Structural)]
pub struct EyeApertureFeature {
    /// Which eye.
    pub side: AnatomicalSide,
    /// Current aperture.
    pub current_aperture: Binary32,
    /// Calibrated neutral aperture.
    pub neutral_aperture: Binary32,
    /// Difference from neutral in units of the face.
    pub normalized_delta: Binary32,
}

/// Apertures of both eyes.
#[derive(Clone, Copy, Debug, PartialEq, Eq, Structural)]
pub struct EyeAuxFeatures {
    /// Right eye.
    pub right: EyeApertureFeature,
    /// Left eye.
    pub left: EyeApertureFeature,
}

/// Iris displacement of one eye.
#[derive(Clone, Copy, Debug, PartialEq, Eq, Structural)]
pub struct IrisSideAuxFeature {
    /// Which eye.
    pub side: AnatomicalSide,
    /// Vertical displacement; positive for gaze up.
    pub vertical_delta: Option<Binary32>,
    /// Horizontal displacement; positive toward the outer corner.
    pub horizontal_delta: Option<Binary32>,
}

/// Iris displacement of both eyes.
#[derive(Clone, Copy, Debug, PartialEq, Eq, Structural)]
pub struct IrisAuxFeatures {
    /// Right iris, where it was seen.
    pub right: Option<IrisSideAuxFeature>,
    /// Left iris, where it was seen.
    pub left: Option<IrisSideAuxFeature>,
}

/// Mouth and jaw deltas from neutral.
#[derive(Clone, Copy, Debug, PartialEq, Eq, Structural)]
pub struct MouthAuxFeatures {
    /// Lip aperture; negative where the lips are compressed.
    pub jaw_open: Option<Binary32>,
    /// Distance of the chin from the nose tip; negative where the jaw is forward.
    pub jaw_forward: Option<Binary32>,
    /// Chin shift; positive toward the anatomical left.
    pub jaw_lateral: Option<Binary32>,
    /// Mouth width.
    pub width_delta: Option<Binary32>,
    /// Mean lift of the mouth corners.
    pub corner_lift: Option<Binary32>,
}

impl Default for MouthAuxFeatures {
    fn default() -> (features: Self)
        ensures
            features == (MouthAuxFeatures {
                jaw_open: None,
                jaw_forward: None,
                jaw_lateral: None,
                width_delta: None,
                corner_lift: None,
            }),
    {
        MouthAuxFeatures {
            jaw_open: None,
            jaw_forward: None,
            jaw_lateral: None,
            width_delta: None,
            corner_lift: None,
        }
    }
}

/// Cheek deltas from neutral.
#[derive(Clone, Copy, Debug, PartialEq, Eq, Structural)]
pub struct CheekAuxFeatures {
    /// Outward shift of the lower-cheek contour.
    pub contour_outward: Option<Binary32>,
}

impl Default for CheekAuxFeatures {
    fn default() -> (features: Self)
        ensures
            features == (CheekAuxFeatures { contour_outward: None }),
    {
        CheekAuxFeatures { contour_outward: None }
    }
}

/// Brow deltas from neutral on one side.
#[derive(Clone, Copy, Debug, PartialEq, Eq, Structural)]
pub struct BrowSideAuxFeatures {
    /// Which brow.
    pub side: AnatomicalSide,
    /// Rise of the inner brow.
    pub inner_rise: Option<Binary32>,
    /// Lowering of the brow.
    pub brow_lower: Option<Binary32>,
    /// Rise of the outer brow.
    pub outer_rise: Option<Binary32>,
}

/// Brow deltas from neutral.
#[derive(Clone, Copy, Debug, PartialEq, Eq, Structural)]
pub struct BrowAuxFeatures {
    /// Right brow.
    pub right: BrowSideAuxFeatures,
    /// Left brow.
    pub left: BrowSideAuxFeatures,
}

/// Facial features relative to the calibrated neutral.
#[derive(Clone, Copy, Debug, PartialEq, Eq, Structural)]
pub struct GnmFacialFeatures {
    /// Eye apertures.
    pub eyes: EyeAuxFeatures,
    /// Iris displacements.
    pub irises: IrisAuxFeatures,
    /// Mouth and jaw.
    pub mouth_jaw: MouthAuxFeatures,
    /// Cheeks.
    pub cheeks: CheekAuxFeatures,
    /// Brows.
    pub brows: BrowAuxFeatures,
}

/// Bit pattern of the aperture-reduction fraction, 0.85, that is a full blink.
pub const BLINK_FULL_CLOSURE_FRACTION_BITS: u32 = 0x3f59_999a;

/// Bit pattern of the aperture-reduction fraction, 0.5, that saturates the squint
/// estimate.
pub const SQUINT_FULL_CLOSURE_FRACTION_BITS: u32 = 0x3f00_0000;

/// Bit pattern of the aperture-widening fraction, 0.6, that saturates widening.
pub const WIDE_FULL_WIDENING_FRACTION_BITS: u32 = 0x3f19_999a;

/// Bit pattern of the vertical iris displacement, 0.1 inter-ocular units, that
/// saturates looking up or down.
pub const GAZE_VERTICAL_SATURATION_BITS: u32 = 0x3dcc_cccd;

/// Bit pattern of the horizontal iris displacement, 0.08 inter-ocular units, that
/// saturates looking in or out.
pub const GAZE_HORIZONTAL_SATURATION_BITS: u32 = 0x3da3_d70a;

/// Bit pattern of the lip aperture, 0.35 mouth widths, that saturates `JawOpen`.
pub const JAW_OPEN_SATURATION_BITS: u32 = 0x3eb3_3333;

/// Bit pattern of the chin approach, 0.15 mouth widths, that saturates
/// `JawForward`.
pub const JAW_FORWARD_SATURATION_BITS: u32 = 0x3e19_999a;

/// Bit pattern of the chin shift, 0.15 mouth widths, that saturates
/// `JawLeft`/`JawRight`.
pub const JAW_LATERAL_SATURATION_BITS: u32 = 0x3e19_999a;

/// Bit pattern of the lip compression, 0.15 mouth widths, that saturates
/// `MouthClose`.
pub const MOUTH_CLOSE_SATURATION_BITS: u32 = 0x3e19_999a;

/// Bit pattern of the corner narrowing, 0.25 mouth widths, that saturates the
/// shared funnel/pucker estimate.
pub const LIP_CONSTRICTION_SATURATION_BITS: u32 = 0x3e80_0000;

/// Bit pattern of the brow delta, 0.08 inter-ocular units, that saturates each
/// brow channel.
pub const BROW_SATURATION_BITS: u32 = 0x3da3_d70a;

/// Bit pattern of the contour widening, 0.08 mouth widths, that saturates
/// `CheekPuff`.
pub const CHEEK_SATURATION_BITS: u32 = 0x3da3_d70a;

/// Bit pattern of the smallest contour widening, 0.02 mouth widths, of a puff.
pub const CHEEK_OUTWARD_MIN_BITS: u32 = 0x3ca3_d70a;

/// Bit pattern of the largest mouth widening, 0.02 mouth widths, of a puff.
pub const CHEEK_MOUTH_WIDTH_MAX_BITS: u32 = 0x3ca3_d70a;

/// Bit pattern of the smallest chin delta, -0.02 mouth widths, of a puff.
pub const CHEEK_JAW_FORWARD_MIN_BITS: u32 = 0xbca3_d70a;

/// Bit pattern of the corner lift, 0.1 mouth widths, that saturates `MouthSmile`.
pub const SMILE_SATURATION_BITS: u32 = 0x3dcc_cccd;

/// Bit pattern of the corner lowering, 0.06 mouth widths, that saturates
/// `MouthFrown`.
pub const FROWN_SATURATION_BITS: u32 = 0x3d75_c28f;

/// Bit pattern of the corner widening, 0.15 mouth widths, that saturates
/// `MouthStretch`.
pub const STRETCH_SATURATION_BITS: u32 = 0x3e19_999a;

/// Quotient clamped into `[0, 1]`; nothing where a number is not finite or the
/// denominator is not positive.
#[verifier::opaque]
pub open spec fn ratio(numerator: Binary32, denominator: Binary32) -> Option<Binary32> {
    if numerator.finite() && denominator.finite() && denominator.positive() {
        Some(
            numerator.over(denominator).clamped(
                Binary32 { bits: 0 },
                Binary32 { bits: ONE_BITS },
            ),
        )
    } else {
        None
    }
}

/// Ratio of a delta to its saturation, where the delta was observed.
pub open spec fn delta_ratio(delta: Option<Binary32>, saturation: u32) -> Option<Binary32> {
    match delta {
        Some(delta) => ratio(delta, Binary32 { bits: saturation }),
        None => None,
    }
}

/// Ratio of the opposite of a delta to its saturation, where it was observed.
pub open spec fn opposite_ratio(delta: Option<Binary32>, saturation: u32) -> Option<Binary32> {
    match delta {
        Some(delta) => ratio(delta.negated(), Binary32 { bits: saturation }),
        None => None,
    }
}

/// Dedicated evidence, where there is some.
pub open spec fn reliable_of(value: Option<Binary32>) -> ProjectedChannel {
    match value {
        Some(value) => ProjectedChannel { value, support: ProjectedSupport::Reliable },
        None => no_evidence(),
    }
}

/// Shared evidence, where there is some.
pub open spec fn experimental_of(value: Option<Binary32>) -> ProjectedChannel {
    match value {
        Some(value) => ProjectedChannel { value, support: ProjectedSupport::Experimental },
        None => no_evidence(),
    }
}

/// The apertures of an eye can be compared.
pub open spec fn aperture_usable(eye: EyeApertureFeature) -> bool {
    &&& eye.neutral_aperture.finite()
    &&& eye.current_aperture.finite()
    &&& eye.neutral_aperture.positive()
}

/// Closure as a fraction of the neutral aperture.
#[verifier::opaque]
pub open spec fn closure_of(eye: EyeApertureFeature) -> Binary32 {
    eye.neutral_aperture.minus(eye.current_aperture).over(eye.neutral_aperture)
}

/// Blink: closure against a full blink.
pub open spec fn eye_blink(eye: EyeApertureFeature) -> ProjectedChannel {
    if aperture_usable(eye) {
        reliable_of(ratio(closure_of(eye), Binary32 { bits: BLINK_FULL_CLOSURE_FRACTION_BITS }))
    } else {
        no_evidence()
    }
}

/// Widening: opposite of closure.
pub open spec fn eye_wide(eye: EyeApertureFeature) -> ProjectedChannel {
    if aperture_usable(eye) {
        reliable_of(
            ratio(
                closure_of(eye).negated(),
                Binary32 { bits: WIDE_FULL_WIDENING_FRACTION_BITS },
            ),
        )
    } else {
        no_evidence()
    }
}

/// Squint: shares the closure with blink.
pub open spec fn eye_squint(eye: EyeApertureFeature) -> ProjectedChannel {
    if aperture_usable(eye) {
        experimental_of(
            ratio(closure_of(eye), Binary32 { bits: SQUINT_FULL_CLOSURE_FRACTION_BITS }),
        )
    } else {
        no_evidence()
    }
}

/// Vertical displacement of an iris.
pub open spec fn vertical_of(iris: Option<IrisSideAuxFeature>) -> Option<Binary32> {
    match iris {
        Some(iris) => iris.vertical_delta,
        None => None,
    }
}

/// Horizontal displacement of an iris.
pub open spec fn horizontal_of(iris: Option<IrisSideAuxFeature>) -> Option<Binary32> {
    match iris {
        Some(iris) => iris.horizontal_delta,
        None => None,
    }
}

/// Gaze up: positive vertical displacement.
pub open spec fn look_up(iris: Option<IrisSideAuxFeature>) -> ProjectedChannel {
    reliable_of(delta_ratio(vertical_of(iris), GAZE_VERTICAL_SATURATION_BITS))
}

/// Gaze down: negative vertical displacement.
pub open spec fn look_down(iris: Option<IrisSideAuxFeature>) -> ProjectedChannel {
    reliable_of(opposite_ratio(vertical_of(iris), GAZE_VERTICAL_SATURATION_BITS))
}

/// Gaze out: displacement toward the outer corner.
pub open spec fn look_out(iris: Option<IrisSideAuxFeature>) -> ProjectedChannel {
    reliable_of(delta_ratio(horizontal_of(iris), GAZE_HORIZONTAL_SATURATION_BITS))
}

/// Gaze in: displacement toward the nose.
pub open spec fn look_in(iris: Option<IrisSideAuxFeature>) -> ProjectedChannel {
    reliable_of(opposite_ratio(horizontal_of(iris), GAZE_HORIZONTAL_SATURATION_BITS))
}

/// A delta that is at least zero.
pub open spec fn if_not_negative(delta: Option<Binary32>) -> Option<Binary32> {
    if delta is Some && (Binary32 { bits: 0 }).at_most(delta->0) {
        delta
    } else {
        None
    }
}

/// A delta above zero.
pub open spec fn if_positive(delta: Option<Binary32>) -> Option<Binary32> {
    if delta is Some && (Binary32 { bits: 0 }).less(delta->0) {
        delta
    } else {
        None
    }
}

/// A delta below zero.
pub open spec fn if_negative(delta: Option<Binary32>) -> Option<Binary32> {
    if delta is Some && delta->0.less(Binary32 { bits: 0 }) {
        delta
    } else {
        None
    }
}

/// Jaw opening: lip aperture at or above neutral.
pub open spec fn jaw_open_of(mouth: MouthAuxFeatures) -> ProjectedChannel {
    reliable_of(delta_ratio(if_not_negative(mouth.jaw_open), JAW_OPEN_SATURATION_BITS))
}

/// Lip compression: lip aperture below neutral.
pub open spec fn mouth_close_of(mouth: MouthAuxFeatures) -> ProjectedChannel {
    experimental_of(opposite_ratio(if_negative(mouth.jaw_open), MOUTH_CLOSE_SATURATION_BITS))
}

/// Jaw forward: chin approaching the nose tip.
pub open spec fn jaw_forward_of(mouth: MouthAuxFeatures) -> ProjectedChannel {
    reliable_of(opposite_ratio(mouth.jaw_forward, JAW_FORWARD_SATURATION_BITS))
}

/// Jaw left: chin toward the anatomical left.
pub open spec fn jaw_left_of(mouth: MouthAuxFeatures) -> ProjectedChannel {
    reliable_of(delta_ratio(mouth.jaw_lateral, JAW_LATERAL_SATURATION_BITS))
}

/// Jaw right: chin toward the anatomical right.
pub open spec fn jaw_right_of(mouth: MouthAuxFeatures) -> ProjectedChannel {
    reliable_of(opposite_ratio(mouth.jaw_lateral, JAW_LATERAL_SATURATION_BITS))
}

/// Funnel and pucker: the one corner-narrowing observation.
pub open spec fn constriction_of(mouth: MouthAuxFeatures) -> ProjectedChannel {
    experimental_of(opposite_ratio(mouth.width_delta, LIP_CONSTRICTION_SATURATION_BITS))
}

/// Smile: corner lift above zero.
pub open spec fn smile_of(mouth: MouthAuxFeatures) -> ProjectedChannel {
    experimental_of(delta_ratio(if_positive(mouth.corner_lift), SMILE_SATURATION_BITS))
}

/// Frown: corner lift below zero.
pub open spec fn frown_of(mouth: MouthAuxFeatures) -> ProjectedChannel {
    experimental_of(opposite_ratio(if_negative(mouth.corner_lift), FROWN_SATURATION_BITS))
}

/// Stretch: mouth width above neutral.
pub open spec fn stretch_of(mouth: MouthAuxFeatures) -> ProjectedChannel {
    experimental_of(delta_ratio(if_positive(mouth.width_delta), STRETCH_SATURATION_BITS))
}

/// A brow channel.
pub open spec fn brow_of(delta: Option<Binary32>) -> ProjectedChannel {
    reliable_of(delta_ratio(delta, BROW_SATURATION_BITS))
}

/// A measurement was made and is not finite.
pub open spec fn is_broken(delta: Option<Binary32>) -> bool {
    delta is Some && !delta->0.finite()
}

/// Mean of the measurements that were made; nothing where none was made or one
/// is not finite.
#[verifier::opaque]
pub open spec fn mean_of_pair(first: Option<Binary32>, second: Option<Binary32>) -> Option<
    Binary32,
> {
    let zero = Binary32 { bits: 0 };
    if is_broken(first) || is_broken(second) {
        None
    } else {
        match (first, second) {
            (Some(first), Some(second)) => Some(
                zero.plus(first).plus(second).over(Binary32::of_integer(2)),
            ),
            (Some(only), None) => Some(zero.plus(only).over(Binary32::of_integer(1))),
            (None, Some(only)) => Some(zero.plus(only).over(Binary32::of_integer(1))),
            (None, None) => None,
        }
    }
}

/// The number, or zero where it is below zero.
pub open spec fn positive_part(number: Binary32) -> Binary32 {
    if number.less(Binary32 { bits: 0 }) {
        Binary32 { bits: 0 }
    } else {
        number
    }
}

/// Positive part of the mean inner-brow rise.
pub open spec fn inner_rise_of(brows: BrowAuxFeatures) -> Option<Binary32> {
    match mean_of_pair(brows.right.inner_rise, brows.left.inner_rise) {
        Some(mean) => Some(positive_part(mean)),
        None => None,
    }
}

/// The lower cheek is outward, the mouth is not widened, and the chin is not
/// pushed forward.
pub open spec fn puffs(outward: Binary32, width: Binary32, forward: Binary32) -> bool {
    &&& outward.finite() && width.finite() && forward.finite()
    &&& !outward.at_most(Binary32 { bits: CHEEK_OUTWARD_MIN_BITS })
    &&& !(Binary32 { bits: CHEEK_MOUTH_WIDTH_MAX_BITS }).less(width)
    &&& !forward.less(Binary32 { bits: CHEEK_JAW_FORWARD_MIN_BITS })
}

/// Cheek puff: all three conditions observed and met.
pub open spec fn cheek_puff_of(features: GnmFacialFeatures) -> ProjectedChannel {
    match (
        features.cheeks.contour_outward,
        features.mouth_jaw.width_delta,
        features.mouth_jaw.jaw_forward,
    ) {
        (Some(outward), Some(width), Some(forward)) => {
            if puffs(outward, width, forward) {
                experimental_of(
                    ratio(
                        outward.minus(Binary32 { bits: CHEEK_OUTWARD_MIN_BITS }),
                        Binary32 { bits: CHEEK_SATURATION_BITS },
                    ),
                )
            } else {
                no_evidence()
            }
        },
        _ => no_evidence(),
    }
}

/// The evidence behind each channel. Lip shift, dimple, roll, shrug, press,
/// lower/upper lip, cheek squint, nose sneer and tongue have none.
#[verifier::opaque]
pub open spec fn projected(features: GnmFacialFeatures, channel: ArkitBlendshape) -> ProjectedChannel {
    match channel {
        ArkitBlendshape::EyeBlinkLeft => eye_blink(features.eyes.left),
        ArkitBlendshape::EyeLookDownLeft => look_down(features.irises.left),
        ArkitBlendshape::EyeLookInLeft => look_in(features.irises.left),
        ArkitBlendshape::EyeLookOutLeft => look_out(features.irises.left),
        ArkitBlendshape::EyeLookUpLeft => look_up(features.irises.left),
        ArkitBlendshape::EyeSquintLeft => eye_squint(features.eyes.left),
        ArkitBlendshape::EyeWideLeft => eye_wide(features.eyes.left),
        ArkitBlendshape::EyeBlinkRight => eye_blink(features.eyes.right),
        ArkitBlendshape::EyeLookDownRight => look_down(features.irises.right),
        ArkitBlendshape::EyeLookInRight => look_in(features.irises.right),
        ArkitBlendshape::EyeLookOutRight => look_out(features.irises.right),
        ArkitBlendshape::EyeLookUpRight => look_up(features.irises.right),
        ArkitBlendshape::EyeSquintRight => eye_squint(features.eyes.right),
        ArkitBlendshape::EyeWideRight => eye_wide(features.eyes.right),
        ArkitBlendshape::JawForward => jaw_forward_of(features.mouth_jaw),
        ArkitBlendshape::JawLeft => jaw_left_of(features.mouth_jaw),
        ArkitBlendshape::JawRight => jaw_right_of(features.mouth_jaw),
        ArkitBlendshape::JawOpen => jaw_open_of(features.mouth_jaw),
        ArkitBlendshape::MouthClose => mouth_close_of(features.mouth_jaw),
        ArkitBlendshape::MouthFunnel => constriction_of(features.mouth_jaw),
        ArkitBlendshape::MouthPucker => constriction_of(features.mouth_jaw),
        ArkitBlendshape::MouthSmileLeft => smile_of(features.mouth_jaw),
        ArkitBlendshape::MouthSmileRight => smile_of(features.mouth_jaw),
        ArkitBlendshape::MouthFrownLeft => frown_of(features.mouth_jaw),
        ArkitBlendshape::MouthFrownRight => frown_of(features.mouth_jaw),
        ArkitBlendshape::MouthStretchLeft => stretch_of(features.mouth_jaw),
        ArkitBlendshape::MouthStretchRight => stretch_of(features.mouth_jaw),
        ArkitBlendshape::BrowDownLeft => brow_of(features.brows.left.brow_lower),
        ArkitBlendshape::BrowDownRight => brow_of(features.brows.right.brow_lower),
        ArkitBlendshape::BrowInnerUp => brow_of(inner_rise_of(features.brows)),
        ArkitBlendshape::BrowOuterUpLeft => brow_of(features.brows.left.outer_rise),
        ArkitBlendshape::BrowOuterUpRight => brow_of(features.brows.right.outer_rise),
        ArkitBlendshape::CheekPuff => cheek_puff_of(features),
        _ => no_evidence(),
    }
}

/// Eye and gaze ARKit channels projected from one snapshot.
///
/// `left`/`right` are the subject's anatomical sides, never image-space
/// orientation.
#[derive(Clone, Copy, Debug, PartialEq, Eq, Structural)]
pub struct EyeGazeProjection {
    /// Left eye blink.
    pub eye_blink_left: ProjectedChannel,
    /// Right eye blink.
    pub eye_blink_right: ProjectedChannel,
    /// Left eye widening.
    pub eye_wide_left: ProjectedChannel,
    /// Right eye widening.
    pub eye_wide_right: ProjectedChannel,
    /// Left eye squint.
    pub eye_squint_left: ProjectedChannel,
    /// Right eye squint.
    pub eye_squint_right: ProjectedChannel,
    /// Left eye looks toward the nose.
    pub eye_look_in_left: ProjectedChannel,
    /// Right eye looks toward the nose.
    pub eye_look_in_right: ProjectedChannel,
    /// Left eye looks away from the nose.
    pub eye_look_out_left: ProjectedChannel,
    /// Right eye looks away from the nose.
    pub eye_look_out_right: ProjectedChannel,
    /// Left eye looks up.
    pub eye_look_up_left: ProjectedChannel,
    /// Right eye looks up.
    pub eye_look_up_right: ProjectedChannel,
    /// Left eye looks down.
    pub eye_look_down_left: ProjectedChannel,
    /// Right eye looks down.
    pub eye_look_down_right: ProjectedChannel,
}

impl EyeGazeProjection {
    /// Every field is the projection of its channel.
    pub open spec fn projects(self, features: GnmFacialFeatures) -> bool {
        &&& self.eye_blink_left == projected(features, ArkitBlendshape::EyeBlinkLeft)
        &&& self.eye_blink_right == projected(features, ArkitBlendshape::EyeBlinkRight)
        &&& self.eye_wide_left == projected(features, ArkitBlendshape::EyeWideLeft)
        &&& self.eye_wide_right == projected(features, ArkitBlendshape::EyeWideRight)
        &&& self.eye_squint_left == projected(features, ArkitBlendshape::EyeSquintLeft)
        &&& self.eye_squint_right == projected(features, ArkitBlendshape::EyeSquintRight)
        &&& self.eye_look_in_left == projected(features, ArkitBlendshape::EyeLookInLeft)
        &&& self.eye_look_in_right == projected(features, ArkitBlendshape::EyeLookInRight)
        &&& self.eye_look_out_left == projected(features, ArkitBlendshape::EyeLookOutLeft)
        &&& self.eye_look_out_right == projected(features, ArkitBlendshape::EyeLookOutRight)
        &&& self.eye_look_up_left == projected(features, ArkitBlendshape::EyeLookUpLeft)
        &&& self.eye_look_up_right == projected(features, ArkitBlendshape::EyeLookUpRight)
        &&& self.eye_look_down_left == projected(features, ArkitBlendshape::EyeLookDownLeft)
        &&& self.eye_look_down_right == projected(features, ArkitBlendshape::EyeLookDownRight)
    }

    /// Every value lies in `[0, 1]`.
    pub open spec fn bounded(self) -> bool {
        &&& in_unit_range(self.eye_blink_left.value)
        &&& in_unit_range(self.eye_blink_right.value)
        &&& in_unit_range(self.eye_wide_left.value)
        &&& in_unit_range(self.eye_wide_right.value)
        &&& in_unit_range(self.eye_squint_left.value)
        &&& in_unit_range(self.eye_squint_right.value)
        &&& in_unit_range(self.eye_look_in_left.value)
        &&& in_unit_range(self.eye_look_in_right.value)
        &&& in_unit_range(self.eye_look_out_left.value)
        &&& in_unit_range(self.eye_look_out_right.value)
        &&& in_unit_range(self.eye_look_up_left.value)
        &&& in_unit_range(self.eye_look_up_right.value)
        &&& in_unit_range(self.eye_look_down_left.value)
        &&& in_unit_range(self.eye_look_down_right.value)
    }
}

/// Jaw and core-mouth ARKit channels projected from one snapshot.
#[derive(Clone, Copy, Debug, PartialEq, Eq, Structural)]
pub struct JawCoreMouthProjection {
    /// Jaw moves forward.
    pub jaw_forward: ProjectedChannel,
    /// Jaw moves toward the subject's anatomical left.
    pub jaw_left: ProjectedChannel,
    /// Jaw opens.
    pub jaw_open: ProjectedChannel,
    /// Jaw moves toward the subject's anatomical right.
    pub jaw_right: ProjectedChannel,
    /// Lips press together more than the calibrated neutral.
    pub mouth_close: ProjectedChannel,
    /// Lips round into a funnel shape.
    pub mouth_funnel: ProjectedChannel,
    /// Lips pucker forward.
    pub mouth_pucker: ProjectedChannel,
    /// Lips shift toward the subject's anatomical left without jaw motion.
    pub mouth_left: ProjectedChannel,
    /// Lips shift toward the subject's anatomical right without jaw motion.
    pub mouth_right: ProjectedChannel,
}

impl JawCoreMouthProjection {
    /// Every field is the projection of its channel.
    pub open spec fn projects(self, features: GnmFacialFeatures) -> bool {
        &&& self.jaw_forward == projected(features, ArkitBlendshape::JawForward)
        &&& self.jaw_left == projected(features, ArkitBlendshape::JawLeft)
        &&& self.jaw_open == projected(features, ArkitBlendshape::JawOpen)
        &&& self.jaw_right == projected(features, ArkitBlendshape::JawRight)
        &&& self.mouth_close == projected(features, ArkitBlendshape::MouthClose)
        &&& self.mouth_funnel == projected(features, ArkitBlendshape::MouthFunnel)
        &&& self.mouth_pucker == projected(features, ArkitBlendshape::MouthPucker)
        &&& self.mouth_left == projected(features, ArkitBlendshape::MouthLeft)
        &&& self.mouth_right == projected(features, ArkitBlendshape::MouthRight)
    }

    /// Every value lies in `[0, 1]`.
    pub open spec fn bounded(self) -> bool {
        &&& in_unit_range(self.jaw_forward.value)
        &&& in_unit_range(self.jaw_left.value)
        &&& in_unit_range(self.jaw_open.value)
        &&& in_unit_range(self.jaw_right.value)
        &&& in_unit_range(self.mouth_close.value)
        &&& in_unit_range(self.mouth_funnel.value)
        &&& in_unit_range(self.mouth_pucker.value)
        &&& in_unit_range(self.mouth_left.value)
        &&& in_unit_range(self.mouth_right.value)
    }
}

/// Brow and upper-face ARKit channels projected from one snapshot.
#[derive(Clone, Copy, Debug, PartialEq, Eq, Structural)]
pub struct BrowCheekNoseProjection {
    /// Left brow moves down.
    pub brow_down_left: ProjectedChannel,
    /// Right brow moves down.
    pub brow_down_right: ProjectedChannel,
    /// Inner brows move up.
    pub brow_inner_up: ProjectedChannel,
    /// Left outer brow moves up.
    pub brow_outer_up_left: ProjectedChannel,
    /// Right outer brow moves up.
    pub brow_outer_up_right: ProjectedChannel,
    /// Cheeks puff.
    pub cheek_puff: ProjectedChannel,
    /// Left cheek squints.
    pub cheek_squint_left: ProjectedChannel,
    /// Right cheek squints.
    pub cheek_squint_right: ProjectedChannel,
    /// Left nostril sneers.
    pub nose_sneer_left: ProjectedChannel,
    /// Right nostril sneers.
    pub nose_sneer_right: ProjectedChannel,
}

impl BrowCheekNoseProjection {
    /// Every field is the projection of its channel.
    pub open spec fn projects(self, features: GnmFacialFeatures) -> bool {
        &&& self.brow_down_left == projected(features, ArkitBlendshape::BrowDownLeft)
        &&& self.brow_down_right == projected(features, ArkitBlendshape::BrowDownRight)
        &&& self.brow_inner_up == projected(features, ArkitBlendshape::BrowInnerUp)
        &&& self.brow_outer_up_left == projected(features, ArkitBlendshape::BrowOuterUpLeft)
        &&& self.brow_outer_up_right == projected(features, ArkitBlendshape::BrowOuterUpRight)
        &&& self.cheek_puff == projected(features, ArkitBlendshape::CheekPuff)
        &&& self.cheek_squint_left == projected(features, ArkitBlendshape::CheekSquintLeft)
        &&& self.cheek_squint_right == projected(features, ArkitBlendshape::CheekSquintRight)
        &&& self.nose_sneer_left == projected(features, ArkitBlendshape::NoseSneerLeft)
        &&& self.nose_sneer_right == projected(features, ArkitBlendshape::NoseSneerRight)
    }

    /// Every value lies in `[0, 1]`.
    pub open spec fn bounded(self) -> bool {
        &&& in_unit_range(self.brow_down_left.value)
        &&& in_unit_range(self.brow_down_right.value)
        &&& in_unit_range(self.brow_inner_up.value)
        &&& in_unit_range(self.brow_outer_up_left.value)
        &&& in_unit_range(self.brow_outer_up_right.value)
        &&& in_unit_range(self.cheek_puff.value)
        &&& in_unit_range(self.cheek_squint_left.value)
        &&& in_unit_range(self.cheek_squint_right.value)
        &&& in_unit_range(self.nose_sneer_left.value)
        &&& in_unit_range(self.nose_sneer_right.value)
    }
}

/// Lip-corner ARKit channels projected from one snapshot.
#[derive(Clone, Copy, Debug, PartialEq, Eq, Structural)]
pub struct LipCornerProjection {
    /// Left mouth corner smiles.
    pub mouth_smile_left: ProjectedChannel,
    /// Right mouth corner smiles.
    pub mouth_smile_right: ProjectedChannel,
    /// Left mouth corner frowns.
    pub mouth_frown_left: ProjectedChannel,
    /// Right mouth corner frowns.
    pub mouth_frown_right: ProjectedChannel,
    /// Left mouth corner dimples.
    pub mouth_dimple_left: ProjectedChannel,
    /// Right mouth corner dimples.
    pub mouth_dimple_right: ProjectedChannel,
    /// Left mouth corner stretches.
    pub mouth_stretch_left: ProjectedChannel,
    /// Right mouth corner stretches.
    pub mouth_stretch_right: ProjectedChannel,
}

impl LipCornerProjection {
    /// Every field is the projection of its channel.
    pub open spec fn projects(self, features: GnmFacialFeatures) -> bool {
        &&& self.mouth_smile_left == projected(features, ArkitBlendshape::MouthSmileLeft)
        &&& self.mouth_smile_right == projected(features, ArkitBlendshape::MouthSmileRight)
        &&& self.mouth_frown_left == projected(features, ArkitBlendshape::MouthFrownLeft)
        &&& self.mouth_frown_right == projected(features, ArkitBlendshape::MouthFrownRight)
        &&& self.mouth_dimple_left == projected(features, ArkitBlendshape::MouthDimpleLeft)
        &&& self.mouth_dimple_right == projected(features, ArkitBlendshape::MouthDimpleRight)
        &&& self.mouth_stretch_left == projected(features, ArkitBlendshape::MouthStretchLeft)
        &&& self.mouth_stretch_right == projected(features, ArkitBlendshape::MouthStretchRight)
    }

    /// Every value lies in `[0, 1]`.
    pub open spec fn bounded(self) -> bool {
        &&& in_unit_range(self.mouth_smile_left.value)
        &&& in_unit_range(self.mouth_smile_right.value)
        &&& in_unit_range(self.mouth_frown_left.value)
        &&& in_unit_range(self.mouth_frown_right.value)
        &&& in_unit_range(self.mouth_dimple_left.value)
        &&& in_unit_range(self.mouth_dimple_right.value)
        &&& in_unit_range(self.mouth_stretch_left.value)
        &&& in_unit_range(self.mouth_stretch_right.value)
    }
}

/// Lip roll/shrug/press ARKit channels projected from one snapshot.
#[derive(Clone, Copy, Debug, PartialEq, Eq, Structural)]
pub struct LipRollShrugPressProjection {
    /// Lower lip rolls inward.
    pub mouth_roll_lower: ProjectedChannel,
    /// Upper lip rolls inward.
    pub mouth_roll_upper: ProjectedChannel,
    /// Lower lip shrugs.
    pub mouth_shrug_lower: ProjectedChannel,
    /// Upper lip shrugs.
    pub mouth_shrug_upper: ProjectedChannel,
    /// Left mouth presses.
    pub mouth_press_left: ProjectedChannel,
    /// Right mouth presses.
    pub mouth_press_right: ProjectedChannel,
}

impl LipRollShrugPressProjection {
    /// Every field is the projection of its channel.
    pub open spec fn projects(self, features: GnmFacialFeatures) -> bool {
        &&& self.mouth_roll_lower == projected(features, ArkitBlendshape::MouthRollLower)
        &&& self.mouth_roll_upper == projected(features, ArkitBlendshape::MouthRollUpper)
        &&& self.mouth_shrug_lower == projected(features, ArkitBlendshape::MouthShrugLower)
        &&& self.mouth_shrug_upper == projected(features, ArkitBlendshape::MouthShrugUpper)
        &&& self.mouth_press_left == projected(features, ArkitBlendshape::MouthPressLeft)
        &&& self.mouth_press_right == projected(features, ArkitBlendshape::MouthPressRight)
    }

    /// Every value lies in `[0, 1]`.
    pub open spec fn bounded(self) -> bool {
        &&& in_unit_range(self.mouth_roll_lower.value)
        &&& in_unit_range(self.mouth_roll_upper.value)
        &&& in_unit_range(self.mouth_shrug_lower.value)
        &&& in_unit_range(self.mouth_shrug_upper.value)
        &&& in_unit_range(self.mouth_press_left.value)
        &&& in_unit_range(self.mouth_press_right.value)
    }
}

/// Lower/upper lip vertical ARKit channels projected from one snapshot.
#[derive(Clone, Copy, Debug, PartialEq, Eq, Structural)]
pub struct LipLowerUpperProjection {
    /// Left lower lip moves down.
    pub mouth_lower_down_left: ProjectedChannel,
    /// Right lower lip moves down.
    pub mouth_lower_down_right: ProjectedChannel,
    /// Left upper lip moves up.
    pub mouth_upper_up_left: ProjectedChannel,
    /// Right upper lip moves up.
    pub mouth_upper_up_right: ProjectedChannel,
}

impl LipLowerUpperProjection {
    /// Every field is the projection of its channel.
    pub open spec fn projects(self, features: GnmFacialFeatures) -> bool {
        &&& self.mouth_lower_down_left == projected(features, ArkitBlendshape::MouthLowerDownLeft)
        &&& self.mouth_lower_down_right == projected(features, ArkitBlendshape::MouthLowerDownRight)
        &&& self.mouth_upper_up_left == projected(features, ArkitBlendshape::MouthUpperUpLeft)
        &&& self.mouth_upper_up_right == projected(features, ArkitBlendshape::MouthUpperUpRight)
    }

    /// Every value lies in `[0, 1]`.
    pub open spec fn bounded(self) -> bool {
        &&& in_unit_range(self.mouth_lower_down_left.value)
        &&& in_unit_range(self.mouth_lower_down_right.value)
        &&& in_unit_range(self.mouth_upper_up_left.value)
        &&& in_unit_range(self.mouth_upper_up_right.value)
    }
}

/// Divides two values and clamps the quotient into `[0, 1]`.
///
/// Returns `None` when either input is non-finite or the denominator is not
/// strictly positive; callers treat `None` as missing evidence.
pub fn bounded_ratio(numerator: Binary32, denominator: Binary32) -> (bounded: Option<Binary32>)
    ensures
        bounded == ratio(numerator, denominator),
        bounded matches Some(value) ==> in_unit_range(value),
{
    proof {
        reveal(ratio);
    }
    if !numerator.is_finite() || !denominator.is_finite() || !denominator.is_positive() {
        return None;
    }
    Some(
        numerator.quotient(denominator).clamp(Binary32::zero(), Binary32::from_bits(ONE_BITS)),
    )
}

fn reliable_ratio(delta: Option<Binary32>, saturation: u32) -> (channel: ProjectedChannel)
    ensures
        channel == reliable_of(delta_ratio(delta, saturation)),
        in_unit_range(channel.value),
{
    match delta {
        Some(delta) => match bounded_ratio(delta, Binary32::from_bits(saturation)) {
            Some(value) => ProjectedChannel::reliable(value),
            None => ProjectedChannel::unsupported(),
        },
        None => ProjectedChannel::unsupported(),
    }
}

fn reliable_opposite(delta: Option<Binary32>, saturation: u32) -> (channel: ProjectedChannel)
    ensures
        channel == reliable_of(opposite_ratio(delta, saturation)),
        in_unit_range(channel.value),
{
    match delta {
        Some(delta) => reliable_ratio(Some(delta.neg()), saturation),
        None => ProjectedChannel::unsupported(),
    }
}

fn experimental_ratio(delta: Option<Binary32>, saturation: u32) -> (channel: ProjectedChannel)
    ensures
        channel == experimental_of(delta_ratio(delta, saturation)),
        in_unit_range(channel.value),
{
    match delta {
        Some(delta) => match bounded_ratio(delta, Binary32::from_bits(saturation)) {
            Some(value) => ProjectedChannel::experimental(value),
            None => ProjectedChannel::unsupported(),
        },
        None => ProjectedChannel::unsupported(),
    }
}

fn experimental_opposite(delta: Option<Binary32>, saturation: u32) -> (channel: ProjectedChannel)
    ensures
        channel == experimental_of(opposite_ratio(delta, saturation)),
        in_unit_range(channel.value),
{
    match delta {
        Some(delta) => experimental_ratio(Some(delta.neg()), saturation),
        None => ProjectedChannel::unsupported(),
    }
}

/// Projects blink/wide/squint for one eye from its aperture feature.
///
/// Closure and widening are fractions of the calibrated neutral aperture, so
/// they are invariant under rigid head transforms and uniform scaling.
pub fn aperture_channels(eye: &EyeApertureFeature) -> (channels: (
    ProjectedChannel,
    ProjectedChannel,
    ProjectedChannel,
))
    ensures
        channels.0 == eye_blink(*eye),
        channels.1 == eye_wide(*eye),
        channels.2 == eye_squint(*eye),
        in_unit_range(channels.0.value),
        in_unit_range(channels.1.value),
        in_unit_range(channels.2.value),
{
    let neutral = eye.neutral_aperture;
    let current = eye.current_aperture;
    if !neutral.is_finite() || !current.is_finite() || !neutral.is_positive() {
        return (
            ProjectedChannel::unsupported(),
            ProjectedChannel::unsupported(),
            ProjectedChannel::unsupported(),
        );
    }
    proof {
        reveal(closure_of);
    }
    let closure = neutral.difference(current).quotient(neutral);
    (
        reliable_ratio(Some(closure), BLINK_FULL_CLOSURE_FRACTION_BITS),
        reliable_ratio(Some(closure.neg()), WIDE_FULL_WIDENING_FRACTION_BITS),
        experimental_ratio(Some(closure), SQUINT_FULL_CLOSURE_FRACTION_BITS),
    )
}

/// The four gaze channels for one anatomical side.
#[derive(Clone, Copy, Debug, PartialEq, Eq, Structural)]
pub struct SideGazeChannels {
    /// Gaze toward the nose.
    pub look_in: ProjectedChannel,
    /// Gaze away from the nose.
    pub look_out: ProjectedChannel,
    /// Gaze up.
    pub look_up: ProjectedChannel,
    /// Gaze down.
    pub look_down: ProjectedChannel,
}

/// Projects the gaze channels for one anatomical side from its iris feature.
///
/// `vertical_delta` is positive for gaze up; `horizontal_delta` is positive
/// toward the outer corner, which is `EyeLookOut` for both anatomical sides.
pub fn side_gaze_channels(iris: Option<IrisSideAuxFeature>) -> (gaze: SideGazeChannels)
    ensures
        gaze.look_in == look_in(iris),
        gaze.look_out == look_out(iris),
        gaze.look_up == look_up(iris),
        gaze.look_down == look_down(iris),
        in_unit_range(gaze.look_in.value),
        in_unit_range(gaze.look_out.value),
        in_unit_range(gaze.look_up.value),
        in_unit_range(gaze.look_down.value),
{
    let (vertical, horizontal) = match iris {
        Some(iris) => (iris.vertical_delta, iris.horizontal_delta),
        None => (None, None),
    };
    SideGazeChannels {
        look_in: reliable_opposite(horizontal, GAZE_HORIZONTAL_SATURATION_BITS),
        look_out: reliable_ratio(horizontal, GAZE_HORIZONTAL_SATURATION_BITS),
        look_up: reliable_ratio(vertical, GAZE_VERTICAL_SATURATION_BITS),
        look_down: reliable_opposite(vertical, GAZE_VERTICAL_SATURATION_BITS),
    }
}

/// Projects the eye-aperture and iris-gaze ARKit channels from one snapshot.
///
/// Gaze is generated exclusively from the iris features.
#[must_use]
pub fn project_eye_gaze_channels(features: &GnmFacialFeatures) -> (projection: EyeGazeProjection)
    ensures
        projection.projects(*features),
        projection.bounded(),
{
    proof {
        reveal(projected);
    }
    let (blink_right, wide_right, squint_right) = aperture_channels(&features.eyes.right);
    let (blink_left, wide_left, squint_left) = aperture_channels(&features.eyes.left);
    let right_gaze = side_gaze_channels(features.irises.right);
    let left_gaze = side_gaze_channels(features.irises.left);
    EyeGazeProjection {
        eye_blink_left: blink_left,
        eye_blink_right: blink_right,
        eye_wide_left: wide_left,
        eye_wide_right: wide_right,
        eye_squint_left: squint_left,
        eye_squint_right: squint_right,
        eye_look_in_left: left_gaze.look_in,
        eye_look_in_right: right_gaze.look_in,
        eye_look_out_left: left_gaze.look_out,
        eye_look_out_right: right_gaze.look_out,
        eye_look_up_left: left_gaze.look_up,
        eye_look_up_right: right_gaze.look_up,
        eye_look_down_left: left_gaze.look_down,
        eye_look_down_right: right_gaze.look_down,
    }
}

fn keep_not_negative(delta: Option<Binary32>) -> (kept: Option<Binary32>)
    ensures
        kept == if_not_negative(delta),
{
    match delta {
        Some(number) if Binary32::zero().is_at_most(number) => delta,
        _ => None,
    }
}

fn keep_positive(delta: Option<Binary32>) -> (kept: Option<Binary32>)
    ensures
        kept == if_positive(delta),
{
    match delta {
        Some(number) if Binary32::zero().is_less(number) => delta,
        _ => None,
    }
}

fn keep_negative(delta: Option<Binary32>) -> (kept: Option<Binary32>)
    ensures
        kept == if_negative(delta),
{
    match delta {
        Some(number) if number.is_less(Binary32::zero()) => delta,
        _ => None,
    }
}

/// Projects the jaw and core-mouth ARKit channels from one snapshot.
///
/// `JawOpen` and `MouthClose` read the two signs of one delta and exclude each
/// other. Funnel and pucker share the single corner-narrowing observation, and
/// lip shift has none.
#[must_use]
pub fn project_jaw_core_mouth_channels(features: &GnmFacialFeatures) -> (projection:
    JawCoreMouthProjection)
    ensures
        projection.projects(*features),
        projection.bounded(),
{
    proof {
        reveal(projected);
    }
    let mouth = features.mouth_jaw;
    let constriction = experimental_opposite(mouth.width_delta, LIP_CONSTRICTION_SATURATION_BITS);
    JawCoreMouthProjection {
        jaw_forward: reliable_opposite(mouth.jaw_forward, JAW_FORWARD_SATURATION_BITS),
        jaw_left: reliable_ratio(mouth.jaw_lateral, JAW_LATERAL_SATURATION_BITS),
        jaw_open: reliable_ratio(keep_not_negative(mouth.jaw_open), JAW_OPEN_SATURATION_BITS),
        jaw_right: reliable_opposite(mouth.jaw_lateral, JAW_LATERAL_SATURATION_BITS),
        mouth_close: experimental_opposite(
            keep_negative(mouth.jaw_open),
            MOUTH_CLOSE_SATURATION_BITS,
        ),
        mouth_funnel: constriction,
        mouth_pucker: constriction,
        mouth_left: ProjectedChannel::unsupported(),
        mouth_right: ProjectedChannel::unsupported(),
    }
}

/// Mean of the measurements that were made; nothing where none was made or one
/// is not finite.
pub fn mean_of_present(first: Option<Binary32>, second: Option<Binary32>) -> (mean: Option<
    Binary32,
>)
    ensures
        mean == mean_of_pair(first, second),
{
    proof {
        reveal(mean_of_pair);
    }
    let mut sum = Binary32::zero();
    let mut count: u64 = 0;
    if let Some(value) = first {
        if !value.is_finite() {
            return None;
        }
        sum = sum.sum(value);
        count = count + 1;
    }
    if let Some(value) = second {
        if !value.is_finite() {
            return None;
        }
        sum = sum.sum(value);
        count = count + 1;
    }
    if count == 0 {
        None
    } else {
        Some(sum.quotient(Binary32::from_integer(count)))
    }
}

/// Evaluates the three-condition `CheekPuff` gate.
///
/// All inputs are neutral-relative distance deltas, so a rigid head transform
/// alone cannot fire the channel. A `None` in any condition fails closed.
pub fn cheek_puff_channel(features: &GnmFacialFeatures) -> (channel: ProjectedChannel)
    ensures
        channel == cheek_puff_of(*features),
        in_unit_range(channel.value),
{
    let (outward, width, forward) = match (
        features.cheeks.contour_outward,
        features.mouth_jaw.width_delta,
        features.mouth_jaw.jaw_forward,
    ) {
        (Some(outward), Some(width), Some(forward)) => (outward, width, forward),
        _ => {
            return ProjectedChannel::unsupported();
        },
    };
    if !(outward.is_finite() && width.is_finite() && forward.is_finite()) {
        return ProjectedChannel::unsupported();
    }
    let least = Binary32::from_bits(CHEEK_OUTWARD_MIN_BITS);
    if outward.is_at_most(least) || Binary32::from_bits(CHEEK_MOUTH_WIDTH_MAX_BITS).is_less(width)
        || forward.is_less(Binary32::from_bits(CHEEK_JAW_FORWARD_MIN_BITS)) {
        return ProjectedChannel::unsupported();
    }
    experimental_ratio(Some(outward.difference(least)), CHEEK_SATURATION_BITS)
}

/// Projects the brow, cheek, and nose ARKit channels from one snapshot.
///
/// Brow channels are reliable whenever their deltas exist; `CheekPuff` is
/// experimental and gated; cheek squint and nose sneer have no observation.
#[must_use]
pub fn project_brow_cheek_nose_channels(features: &GnmFacialFeatures) -> (projection:
    BrowCheekNoseProjection)
    ensures
        projection.projects(*features),
        projection.bounded(),
{
    proof {
        reveal(projected);
    }
    let inner_up = match mean_of_present(
        features.brows.right.inner_rise,
        features.brows.left.inner_rise,
    ) {
        Some(mean) => if mean.is_less(Binary32::zero()) {
            Some(Binary32::zero())
        } else {
            Some(mean)
        },
        None => None,
    };
    BrowCheekNoseProjection {
        brow_down_left: reliable_ratio(features.brows.left.brow_lower, BROW_SATURATION_BITS),
        brow_down_right: reliable_ratio(features.brows.right.brow_lower, BROW_SATURATION_BITS),
        brow_inner_up: reliable_ratio(inner_up, BROW_SATURATION_BITS),
        brow_outer_up_left: reliable_ratio(features.brows.left.outer_rise, BROW_SATURATION_BITS),
        brow_outer_up_right: reliable_ratio(features.brows.right.outer_rise, BROW_SATURATION_BITS),
        cheek_puff: cheek_puff_channel(features),
        cheek_squint_left: ProjectedChannel::unsupported(),
        cheek_squint_right: ProjectedChannel::unsupported(),
        nose_sneer_left: ProjectedChannel::unsupported(),
        nose_sneer_right: ProjectedChannel::unsupported(),
    }
}

/// Projects the lip-corner ARKit channels from one snapshot.
///
/// | Channels | Input feature | Sign |
/// |---|---|---|
/// | `MouthSmileLeft/Right` | `corner_lift > 0` | positive corner lift |
/// | `MouthFrownLeft/Right` | `corner_lift < 0` | negative corner lift |
/// | `MouthDimpleLeft/Right` | none | permanently unsupported |
/// | `MouthStretchLeft/Right` | `width_delta > 0` | positive corner widening |
#[must_use]
pub fn project_lip_corner_channels(features: &GnmFacialFeatures) -> (projection:
    LipCornerProjection)
    ensures
        projection.projects(*features),
        projection.bounded(),
{
    proof {
        reveal(projected);
    }
    let lift = features.mouth_jaw.corner_lift;
    let smile = experimental_ratio(keep_positive(lift), SMILE_SATURATION_BITS);
    let frown = experimental_opposite(keep_negative(lift), FROWN_SATURATION_BITS);
    let stretch = experimental_ratio(
        keep_positive(features.mouth_jaw.width_delta),
        STRETCH_SATURATION_BITS,
    );
    LipCornerProjection {
        mouth_smile_left: smile,
        mouth_smile_right: smile,
        mouth_frown_left: frown,
        mouth_frown_right: frown,
        mouth_dimple_left: ProjectedChannel::unsupported(),
        mouth_dimple_right: ProjectedChannel::unsupported(),
        mouth_stretch_left: stretch,
        mouth_stretch_right: stretch,
    }
}

/// Projects the lip roll, shrug, and press ARKit channels from one snapshot.
///
/// The snapshot contains no observation of lip rolling, shrugging, or per-corner
/// pressing, so every channel is unsupported.
#[must_use]
pub fn project_lip_roll_shrug_press_channels(features: &GnmFacialFeatures) -> (projection:
    LipRollShrugPressProjection)
    ensures
        projection.projects(*features),
        projection.bounded(),
{
    proof {
        reveal(projected);
    }
    let _ = features;
    LipRollShrugPressProjection {
        mouth_roll_lower: ProjectedChannel::unsupported(),
        mouth_roll_upper: ProjectedChannel::unsupported(),
        mouth_shrug_lower: ProjectedChannel::unsupported(),
        mouth_shrug_upper: ProjectedChannel::unsupported(),
        mouth_press_left: ProjectedChannel::unsupported(),
        mouth_press_right: ProjectedChannel::unsupported(),
    }
}

/// Projects the lower/upper lip vertical ARKit channels from one snapshot.
///
/// The snapshot measures only the total lip aperture, which cannot be attributed
/// to either lip, so every channel is unsupported.
#[must_use]
pub fn project_lip_lower_upper_channels(features: &GnmFacialFeatures) -> (projection:
    LipLowerUpperProjection)
    ensures
        projection.projects(*features),
        projection.bounded(),
{
    proof {
        reveal(projected);
    }
    let _ = features;
    LipLowerUpperProjection {
        mouth_lower_down_left: ProjectedChannel::unsupported(),
        mouth_lower_down_right: ProjectedChannel::unsupported(),
        mouth_upper_up_left: ProjectedChannel::unsupported(),
        mouth_upper_up_right: ProjectedChannel::unsupported(),
    }
}

/// Combined result of every lip/mouth-corner ARKit channel.
#[derive(Clone, Copy, Debug, PartialEq, Eq, Structural)]
pub struct LipMouthCornerProjectorResult {
    /// Corner semantics (smile/frown/dimple/stretch, left/right).
    pub corner: LipCornerProjection,
    /// Roll/shrug/press semantics.
    pub roll_shrug_press: LipRollShrugPressProjection,
    /// Lower/upper vertical lip semantics.
    pub lower_upper: LipLowerUpperProjection,
}

/// Projects all lip/mouth-corner ARKit channels from one snapshot.
#[must_use]
pub fn project_lip_mouth_corner_channels(features: &GnmFacialFeatures) -> (result:
    LipMouthCornerProjectorResult)
    ensures
        result.corner.projects(*features),
        result.roll_shrug_press.projects(*features),
        result.lower_upper.projects(*features),
        result.corner.bounded(),
        result.roll_shrug_press.bounded(),
        result.lower_upper.bounded(),
{
    LipMouthCornerProjectorResult {
        corner: project_lip_corner_channels(features),
        roll_shrug_press: project_lip_roll_shrug_press_channels(features),
        lower_upper: project_lip_lower_upper_channels(features),
    }
}

/// Canonical ARKit52 decode output: the validated coefficient vector plus the
/// per-channel evidence classification for all 52 channels.
#[derive(Clone, Debug, PartialEq)]
pub struct Arkit52DecodeResult {
    /// Validated finite `[0, 1]` coefficients in canonical channel order.
    pub coefficients: Arkit52Coefficients,
    /// Evidence classification per canonical channel index.
    pub supports: [ProjectedSupport; 52],
}

/// The channel's projection out of its region's.
fn pick(
    eyes: &EyeGazeProjection,
    jaw: &JawCoreMouthProjection,
    lips: &LipMouthCornerProjectorResult,
    upper: &BrowCheekNoseProjection,
    channel: ArkitBlendshape,
    Ghost(features): Ghost<GnmFacialFeatures>,
) -> (picked: ProjectedChannel)
    requires
        eyes.projects(features),
        jaw.projects(features),
        lips.corner.projects(features),
        lips.roll_shrug_press.projects(features),
        lips.lower_upper.projects(features),
        upper.projects(features),
        eyes.bounded(),
        jaw.bounded(),
        lips.corner.bounded(),
        lips.roll_shrug_press.bounded(),
        lips.lower_upper.bounded(),
        upper.bounded(),
    ensures
        picked == projected(features, channel),
        in_unit_range(picked.value),
{
    match channel {
        ArkitBlendshape::EyeBlinkLeft => eyes.eye_blink_left,
        ArkitBlendshape::EyeLookDownLeft => eyes.eye_look_down_left,
        ArkitBlendshape::EyeLookInLeft => eyes.eye_look_in_left,
        ArkitBlendshape::EyeLookOutLeft => eyes.eye_look_out_left,
        ArkitBlendshape::EyeLookUpLeft => eyes.eye_look_up_left,
        ArkitBlendshape::EyeSquintLeft => eyes.eye_squint_left,
        ArkitBlendshape::EyeWideLeft => eyes.eye_wide_left,
        ArkitBlendshape::EyeBlinkRight => eyes.eye_blink_right,
        ArkitBlendshape::EyeLookDownRight => eyes.eye_look_down_right,
        ArkitBlendshape::EyeLookInRight => eyes.eye_look_in_right,
        ArkitBlendshape::EyeLookOutRight => eyes.eye_look_out_right,
        ArkitBlendshape::EyeLookUpRight => eyes.eye_look_up_right,
        ArkitBlendshape::EyeSquintRight => eyes.eye_squint_right,
        ArkitBlendshape::EyeWideRight => eyes.eye_wide_right,
        ArkitBlendshape::JawForward => jaw.jaw_forward,
        ArkitBlendshape::JawLeft => jaw.jaw_left,
        ArkitBlendshape::JawRight => jaw.jaw_right,
        ArkitBlendshape::JawOpen => jaw.jaw_open,
        ArkitBlendshape::MouthClose => jaw.mouth_close,
        ArkitBlendshape::MouthFunnel => jaw.mouth_funnel,
        ArkitBlendshape::MouthPucker => jaw.mouth_pucker,
        ArkitBlendshape::MouthLeft => jaw.mouth_left,
        ArkitBlendshape::MouthRight => jaw.mouth_right,
        ArkitBlendshape::MouthSmileLeft => lips.corner.mouth_smile_left,
        ArkitBlendshape::MouthSmileRight => lips.corner.mouth_smile_right,
        ArkitBlendshape::MouthFrownLeft => lips.corner.mouth_frown_left,
        ArkitBlendshape::MouthFrownRight => lips.corner.mouth_frown_right,
        ArkitBlendshape::MouthDimpleLeft => lips.corner.mouth_dimple_left,
        ArkitBlendshape::MouthDimpleRight => lips.corner.mouth_dimple_right,
        ArkitBlendshape::MouthStretchLeft => lips.corner.mouth_stretch_left,
        ArkitBlendshape::MouthStretchRight => lips.corner.mouth_stretch_right,
        ArkitBlendshape::MouthRollLower => lips.roll_shrug_press.mouth_roll_lower,
        ArkitBlendshape::MouthRollUpper => lips.roll_shrug_press.mouth_roll_upper,
        ArkitBlendshape::MouthShrugLower => lips.roll_shrug_press.mouth_shrug_lower,
        ArkitBlendshape::MouthShrugUpper => lips.roll_shrug_press.mouth_shrug_upper,
        ArkitBlendshape::MouthPressLeft => lips.roll_shrug_press.mouth_press_left,
        ArkitBlendshape::MouthPressRight => lips.roll_shrug_press.mouth_press_right,
        ArkitBlendshape::MouthLowerDownLeft => lips.lower_upper.mouth_lower_down_left,
        ArkitBlendshape::MouthLowerDownRight => lips.lower_upper.mouth_lower_down_right,
        ArkitBlendshape::MouthUpperUpLeft => lips.lower_upper.mouth_upper_up_left,
        ArkitBlendshape::MouthUpperUpRight => lips.lower_upper.mouth_upper_up_right,
        ArkitBlendshape::BrowDownLeft => upper.brow_down_left,
        ArkitBlendshape::BrowDownRight => upper.brow_down_right,
        ArkitBlendshape::BrowInnerUp => upper.brow_inner_up,
        ArkitBlendshape::BrowOuterUpLeft => upper.brow_outer_up_left,
        ArkitBlendshape::BrowOuterUpRight => upper.brow_outer_up_right,
        ArkitBlendshape::CheekPuff => upper.cheek_puff,
        ArkitBlendshape::CheekSquintLeft => upper.cheek_squint_left,
        ArkitBlendshape::CheekSquintRight => upper.cheek_squint_right,
        ArkitBlendshape::NoseSneerLeft => upper.nose_sneer_left,
        ArkitBlendshape::NoseSneerRight => upper.nose_sneer_right,
        ArkitBlendshape::TongueOut => {
            proof {
                reveal(projected);
            }
            ProjectedChannel::unsupported()
        },
    }
}

/// Decodes a facial feature snapshot into canonical [`Arkit52Coefficients`] with
/// per-channel support status.
///
/// Every projector clamps its values into finite `[0, 1]`, so that decoding
/// always succeeds. `TongueOut` has no observation and is always unsupported.
///
/// # Errors
///
/// Returns [`Arkit52ValueError`] if the assembled vector fails the canonical
/// value validation; no snapshot leads there.
pub fn decode_gnm_arkit52(features: &GnmFacialFeatures) -> (result: Result<
    Arkit52DecodeResult,
    Arkit52ValueError,
>)
    ensures
        result matches Ok(decoded) && decoded.coefficients.valid() && forall|
            channel: ArkitBlendshape,
        |
            {
                &&& decoded.coefficients@[channel.position()] == (#[trigger] projected(
                    *features,
                    channel,
                )).value
                &&& decoded.supports@[channel.position()] == projected(*features, channel).support
            },
{
    let eyes = project_eye_gaze_channels(features);
    let jaw = project_jaw_core_mouth_channels(features);
    let lips = project_lip_mouth_corner_channels(features);
    let upper = project_brow_cheek_nose_channels(features);
    let channels = ArkitBlendshape::all();
    let mut values: [Binary32; 52] = [Binary32::zero();52];
    let mut supports: [ProjectedSupport; 52] = [ProjectedSupport::Unsupported;52];
    for i in 0..ARKIT52_CHANNEL_COUNT
        invariant
            eyes.projects(*features),
            jaw.projects(*features),
            lips.corner.projects(*features),
            lips.roll_shrug_press.projects(*features),
            lips.lower_upper.projects(*features),
            upper.projects(*features),
            eyes.bounded(),
            jaw.bounded(),
            lips.corner.bounded(),
            lips.roll_shrug_press.bounded(),
            lips.lower_upper.bounded(),
            upper.bounded(),
            forall|j: int| 0 <= j < i ==> in_unit_range(#[trigger] values@[j]),
            forall|j: int|
                0 <= j < i ==> #[trigger] values@[j] == projected(*features, channels@[j]).value,
            forall|j: int|
                0 <= j < i ==> #[trigger] supports@[j] == projected(
                    *features,
                    channels@[j],
                ).support,
    {
        let picked = pick(&eyes, &jaw, &lips, &upper, channels[i], Ghost(*features));
        values[i] = picked.value;
        supports[i] = picked.support;
    }
    proof {
        assert forall|channel: ArkitBlendshape|
            {
                &&& values@[channel.position()] == (#[trigger] projected(*features, channel)).value
                &&& supports@[channel.position()] == projected(*features, channel).support
            } by {
            let at = channel.position();
            channel.lemma_positions_are_canonical(channels@[at]);
            assert(channels@[at] == channel);
        }
    }
    match Arkit52Coefficients::try_from_array(values) {
        Ok(coefficients) => Ok(Arkit52DecodeResult { coefficients, supports }),
        Err(error) => Err(error),
    }
}

/// A channel without evidence has value zero.
pub proof fn lemma_unsupported_is_zero(features: GnmFacialFeatures, channel: ArkitBlendshape)
    requires
        projected(features, channel).support == ProjectedSupport::Unsupported,
    ensures
        projected(features, channel).value == (Binary32 { bits: 0 }),
{
    reveal(projected);
}

/// No snapshot gives the tongue any evidence.
pub proof fn lemma_tongue_has_no_evidence(features: GnmFacialFeatures)
    ensures
        projected(features, ArkitBlendshape::TongueOut) == no_evidence(),
{
    reveal(projected);
}

/// Opening the jaw and pressing the lips exclude each other.
pub proof fn lemma_jaw_open_excludes_mouth_close(features: GnmFacialFeatures)
    ensures
        projected(features, ArkitBlendshape::JawOpen) == no_evidence() || projected(
            features,
            ArkitBlendshape::MouthClose,
        ) == no_evidence(),
{
    reveal(projected);
}

/// Smiling and frowning exclude each other.
pub proof fn lemma_smile_excludes_frown(features: GnmFacialFeatures)
    ensures
        projected(features, ArkitBlendshape::MouthSmileLeft) == no_evidence() || projected(
            features,
            ArkitBlendshape::MouthFrownLeft,
        ) == no_evidence(),
{
    reveal(projected);
}

/// Funnel and pucker are one observation, and each lip-corner pair is one
/// observation: their members are projected alike.
pub proof fn lemma_shared_observations_project_alike(features: GnmFacialFeatures)
    ensures
        projected(features, ArkitBlendshape::MouthFunnel) == projected(
            features,
            ArkitBlendshape::MouthPucker,
        ),
        projected(features, ArkitBlendshape::MouthSmileLeft) == projected(
            features,
            ArkitBlendshape::MouthSmileRight,
        ),
        projected(features, ArkitBlendshape::MouthFrownLeft) == projected(
            features,
            ArkitBlendshape::MouthFrownRight,
        ),
        projected(features, ArkitBlendshape::MouthStretchLeft) == projected(
            features,
            ArkitBlendshape::MouthStretchRight,
        ),
{
    reveal(projected);
}

/// The other side.
pub open spec fn other_side(side: AnatomicalSide) -> AnatomicalSide {
    match side {
        AnatomicalSide::Left => AnatomicalSide::Right,
        AnatomicalSide::Right => AnatomicalSide::Left,
        AnatomicalSide::Midline => AnatomicalSide::Midline,
    }
}

/// An eye as the other one.
pub open spec fn mirrored_eye(eye: EyeApertureFeature) -> EyeApertureFeature {
    EyeApertureFeature { side: other_side(eye.side), ..eye }
}

/// An iris as the other one.
pub open spec fn mirrored_iris(iris: Option<IrisSideAuxFeature>) -> Option<IrisSideAuxFeature> {
    match iris {
        Some(iris) => Some(IrisSideAuxFeature { side: other_side(iris.side), ..iris }),
        None => None,
    }
}

/// A brow as the other one.
pub open spec fn mirrored_brow(brow: BrowSideAuxFeatures) -> BrowSideAuxFeatures {
    BrowSideAuxFeatures { side: other_side(brow.side), ..brow }
}

/// The face seen in a mirror: sides exchanged, and the chin shifted the other way.
pub open spec fn mirrored(features: GnmFacialFeatures) -> GnmFacialFeatures {
    GnmFacialFeatures {
        eyes: EyeAuxFeatures {
            right: mirrored_eye(features.eyes.left),
            left: mirrored_eye(features.eyes.right),
        },
        irises: IrisAuxFeatures {
            right: mirrored_iris(features.irises.left),
            left: mirrored_iris(features.irises.right),
        },
        mouth_jaw: MouthAuxFeatures {
            jaw_lateral: match features.mouth_jaw.jaw_lateral {
                Some(lateral) => Some(lateral.negated()),
                None => None,
            },
            ..features.mouth_jaw
        },
        cheeks: features.cheeks,
        brows: BrowAuxFeatures {
            right: mirrored_brow(features.brows.left),
            left: mirrored_brow(features.brows.right),
        },
    }
}

/// The channel of the other side; channels without a side stay.
pub open spec fn mirrored_channel(channel: ArkitBlendshape) -> ArkitBlendshape {
    match channel {
        ArkitBlendshape::EyeBlinkLeft => ArkitBlendshape::EyeBlinkRight,
        ArkitBlendshape::EyeBlinkRight => ArkitBlendshape::EyeBlinkLeft,
        ArkitBlendshape::EyeLookDownLeft => ArkitBlendshape::EyeLookDownRight,
        ArkitBlendshape::EyeLookDownRight => ArkitBlendshape::EyeLookDownLeft,
        ArkitBlendshape::EyeLookInLeft => ArkitBlendshape::EyeLookInRight,
        ArkitBlendshape::EyeLookInRight => ArkitBlendshape::EyeLookInLeft,
        ArkitBlendshape::EyeLookOutLeft => ArkitBlendshape::EyeLookOutRight,
        ArkitBlendshape::EyeLookOutRight => ArkitBlendshape::EyeLookOutLeft,
        ArkitBlendshape::EyeLookUpLeft => ArkitBlendshape::EyeLookUpRight,
        ArkitBlendshape::EyeLookUpRight => ArkitBlendshape::EyeLookUpLeft,
        ArkitBlendshape::EyeSquintLeft => ArkitBlendshape::EyeSquintRight,
        ArkitBlendshape::EyeSquintRight => ArkitBlendshape::EyeSquintLeft,
        ArkitBlendshape::EyeWideLeft => ArkitBlendshape::EyeWideRight,
        ArkitBlendshape::EyeWideRight => ArkitBlendshape::EyeWideLeft,
        ArkitBlendshape::JawLeft => ArkitBlendshape::JawRight,
        ArkitBlendshape::JawRight => ArkitBlendshape::JawLeft,
        ArkitBlendshape::MouthLeft => ArkitBlendshape::MouthRight,
        ArkitBlendshape::MouthRight => ArkitBlendshape::MouthLeft,
        ArkitBlendshape::MouthSmileLeft => ArkitBlendshape::MouthSmileRight,
        ArkitBlendshape::MouthSmileRight => ArkitBlendshape::MouthSmileLeft,
        ArkitBlendshape::MouthFrownLeft => ArkitBlendshape::MouthFrownRight,
        ArkitBlendshape::MouthFrownRight => ArkitBlendshape::MouthFrownLeft,
        ArkitBlendshape::MouthDimpleLeft => ArkitBlendshape::MouthDimpleRight,
        ArkitBlendshape::MouthDimpleRight => ArkitBlendshape::MouthDimpleLeft,
        ArkitBlendshape::MouthStretchLeft => ArkitBlendshape::MouthStretchRight,
        ArkitBlendshape::MouthStretchRight => ArkitBlendshape::MouthStretchLeft,
        ArkitBlendshape::MouthPressLeft => ArkitBlendshape::MouthPressRight,
        ArkitBlendshape::MouthPressRight => ArkitBlendshape::MouthPressLeft,
        ArkitBlendshape::MouthLowerDownLeft => ArkitBlendshape::MouthLowerDownRight,
        ArkitBlendshape::MouthLowerDownRight => ArkitBlendshape::MouthLowerDownLeft,
        ArkitBlendshape::MouthUpperUpLeft => ArkitBlendshape::MouthUpperUpRight,
        ArkitBlendshape::MouthUpperUpRight => ArkitBlendshape::MouthUpperUpLeft,
        ArkitBlendshape::BrowDownLeft => ArkitBlendshape::BrowDownRight,
        ArkitBlendshape::BrowDownRight => ArkitBlendshape::BrowDownLeft,
        ArkitBlendshape::BrowOuterUpLeft => ArkitBlendshape::BrowOuterUpRight,
        ArkitBlendshape::BrowOuterUpRight => ArkitBlendshape::BrowOuterUpLeft,
        ArkitBlendshape::CheekSquintLeft => ArkitBlendshape::CheekSquintRight,
        ArkitBlendshape::CheekSquintRight => ArkitBlendshape::CheekSquintLeft,
        ArkitBlendshape::NoseSneerLeft => ArkitBlendshape::NoseSneerRight,
        ArkitBlendshape::NoseSneerRight => ArkitBlendshape::NoseSneerLeft,
        _ => channel,
    }
}

/// Sums from zero do not depend on which number comes first.
proof fn lemma_pair_sum_commutes(first: Binary32, second: Binary32)
    requires
        first.finite(),
        second.finite(),
    ensures
        (Binary32 { bits: 0 }).plus(first).plus(second) == (Binary32 { bits: 0 }).plus(second).plus(
            first,
        ),
{
    let zero = Binary32 { bits: 0 };
    lemma_sum_from_zero(first);
    lemma_sum_from_zero(second);
    first.lemma_rank_orders_values(zero);
    second.lemma_rank_orders_values(zero);
    let a = zero.plus(first);
    let b = zero.plus(second);
    assert(a.units() == first.units() && b.units() == second.units());
}

/// Adding a number to zero gives the number, with no sign on zero.
proof fn lemma_sum_from_zero(number: Binary32)
    requires
        number.finite(),
    ensures
        (Binary32 { bits: 0 }).plus(number) == number.canonical(),
        number.canonical().units() == number.units(),
        number.canonical().finite(),
{
    let zero = Binary32 { bits: 0 };
    lemma_units_of_zero();
    number.lemma_rank_orders_values(zero);
    if number.magnitude() > 0 {
        lemma_plus_zero_32(number, zero);
    }
}

/// Which eye it is does not enter an eye's channels.
proof fn lemma_eye_has_no_side(eye: EyeApertureFeature)
    ensures
        eye_blink(mirrored_eye(eye)) == eye_blink(eye),
        eye_squint(mirrored_eye(eye)) == eye_squint(eye),
        eye_wide(mirrored_eye(eye)) == eye_wide(eye),
{
    reveal(closure_of);
}

/// Which iris it is does not enter an iris's channels.
proof fn lemma_iris_has_no_side(iris: Option<IrisSideAuxFeature>)
    ensures
        look_in(mirrored_iris(iris)) == look_in(iris),
        look_out(mirrored_iris(iris)) == look_out(iris),
        look_up(mirrored_iris(iris)) == look_up(iris),
        look_down(mirrored_iris(iris)) == look_down(iris),
{
}

/// A chin shifted the other way exchanges the jaw's sides and leaves the rest.
proof fn lemma_mirrored_mouth(features: GnmFacialFeatures)
    ensures
        ({
            let mouth = features.mouth_jaw;
            let other = mirrored(features).mouth_jaw;
            &&& jaw_left_of(other) == jaw_right_of(mouth)
            &&& jaw_right_of(other) == jaw_left_of(mouth)
            &&& jaw_forward_of(other) == jaw_forward_of(mouth)
            &&& jaw_open_of(other) == jaw_open_of(mouth)
            &&& mouth_close_of(other) == mouth_close_of(mouth)
            &&& constriction_of(other) == constriction_of(mouth)
            &&& smile_of(other) == smile_of(mouth)
            &&& frown_of(other) == frown_of(mouth)
            &&& stretch_of(other) == stretch_of(mouth)
            &&& cheek_puff_of(mirrored(features)) == cheek_puff_of(features)
        }),
{
    if let Some(lateral) = features.mouth_jaw.jaw_lateral {
        assert(lateral.negated().negated() == lateral);
    }
}

/// The eyes of the mirror image.
proof fn lemma_mirrored_eye_channels(features: GnmFacialFeatures)
    ensures
        ({
            let other = mirrored(features);
            &&& projected(other, ArkitBlendshape::EyeBlinkLeft) == projected(
                features,
                ArkitBlendshape::EyeBlinkRight,
            )
            &&& projected(other, ArkitBlendshape::EyeBlinkRight) == projected(
                features,
                ArkitBlendshape::EyeBlinkLeft,
            )
            &&& projected(other, ArkitBlendshape::EyeSquintLeft) == projected(
                features,
                ArkitBlendshape::EyeSquintRight,
            )
            &&& projected(other, ArkitBlendshape::EyeSquintRight) == projected(
                features,
                ArkitBlendshape::EyeSquintLeft,
            )
            &&& projected(other, ArkitBlendshape::EyeWideLeft) == projected(
                features,
                ArkitBlendshape::EyeWideRight,
            )
            &&& projected(other, ArkitBlendshape::EyeWideRight) == projected(
                features,
                ArkitBlendshape::EyeWideLeft,
            )
        }),
{
    reveal(projected);
    lemma_eye_has_no_side(features.eyes.left);
    lemma_eye_has_no_side(features.eyes.right);
}

/// The gaze of the mirror image.
proof fn lemma_mirrored_gaze_channels(features: GnmFacialFeatures)
    ensures
        ({
            let other = mirrored(features);
            &&& projected(other, ArkitBlendshape::EyeLookDownLeft) == projected(
                features,
                ArkitBlendshape::EyeLookDownRight,
            )
            &&& projected(other, ArkitBlendshape::EyeLookDownRight) == projected(
                features,
                ArkitBlendshape::EyeLookDownLeft,
            )
            &&& projected(other, ArkitBlendshape::EyeLookInLeft) == projected(
                features,
                ArkitBlendshape::EyeLookInRight,
            )
            &&& projected(other, ArkitBlendshape::EyeLookInRight) == projected(
                features,
                ArkitBlendshape::EyeLookInLeft,
            )
            &&& projected(other, ArkitBlendshape::EyeLookOutLeft) == projected(
                features,
                ArkitBlendshape::EyeLookOutRight,
            )
            &&& projected(other, ArkitBlendshape::EyeLookOutRight) == projected(
                features,
                ArkitBlendshape::EyeLookOutLeft,
            )
            &&& projected(other, ArkitBlendshape::EyeLookUpLeft) == projected(
                features,
                ArkitBlendshape::EyeLookUpRight,
            )
            &&& projected(other, ArkitBlendshape::EyeLookUpRight) == projected(
                features,
                ArkitBlendshape::EyeLookUpLeft,
            )
        }),
{
    reveal(projected);
    lemma_iris_has_no_side(features.irises.left);
    lemma_iris_has_no_side(features.irises.right);
}

/// The jaw, mouth and cheeks of the mirror image.
proof fn lemma_mirrored_mouth_channels(features: GnmFacialFeatures)
    ensures
        ({
            let other = mirrored(features);
            &&& projected(other, ArkitBlendshape::JawLeft) == projected(
                features,
                ArkitBlendshape::JawRight,
            )
            &&& projected(other, ArkitBlendshape::JawRight) == projected(
                features,
                ArkitBlendshape::JawLeft,
            )
            &&& projected(other, ArkitBlendshape::MouthSmileLeft) == projected(
                features,
                ArkitBlendshape::MouthSmileRight,
            )
            &&& projected(other, ArkitBlendshape::MouthSmileRight) == projected(
                features,
                ArkitBlendshape::MouthSmileLeft,
            )
            &&& projected(other, ArkitBlendshape::MouthFrownLeft) == projected(
                features,
                ArkitBlendshape::MouthFrownRight,
            )
            &&& projected(other, ArkitBlendshape::MouthFrownRight) == projected(
                features,
                ArkitBlendshape::MouthFrownLeft,
            )
            &&& projected(other, ArkitBlendshape::MouthStretchLeft) == projected(
                features,
                ArkitBlendshape::MouthStretchRight,
            )
            &&& projected(other, ArkitBlendshape::MouthStretchRight) == projected(
                features,
                ArkitBlendshape::MouthStretchLeft,
            )
            &&& projected(other, ArkitBlendshape::JawForward) == projected(
                features,
                ArkitBlendshape::JawForward,
            )
            &&& projected(other, ArkitBlendshape::JawOpen) == projected(
                features,
                ArkitBlendshape::JawOpen,
            )
            &&& projected(other, ArkitBlendshape::MouthClose) == projected(
                features,
                ArkitBlendshape::MouthClose,
            )
            &&& projected(other, ArkitBlendshape::MouthFunnel) == projected(
                features,
                ArkitBlendshape::MouthFunnel,
            )
            &&& projected(other, ArkitBlendshape::MouthPucker) == projected(
                features,
                ArkitBlendshape::MouthPucker,
            )
            &&& projected(other, ArkitBlendshape::CheekPuff) == projected(
                features,
                ArkitBlendshape::CheekPuff,
            )
        }),
{
    reveal(projected);
    lemma_mirrored_mouth(features);
}

/// The brows of the mirror image.
proof fn lemma_mirrored_brow_channels(features: GnmFacialFeatures)
    ensures
        ({
            let other = mirrored(features);
            &&& projected(other, ArkitBlendshape::BrowDownLeft) == projected(
                features,
                ArkitBlendshape::BrowDownRight,
            )
            &&& projected(other, ArkitBlendshape::BrowDownRight) == projected(
                features,
                ArkitBlendshape::BrowDownLeft,
            )
            &&& projected(other, ArkitBlendshape::BrowOuterUpLeft) == projected(
                features,
                ArkitBlendshape::BrowOuterUpRight,
            )
            &&& projected(other, ArkitBlendshape::BrowOuterUpRight) == projected(
                features,
                ArkitBlendshape::BrowOuterUpLeft,
            )
            &&& projected(other, ArkitBlendshape::BrowInnerUp) == projected(
                features,
                ArkitBlendshape::BrowInnerUp,
            )
        }),
{
    reveal(projected);
    lemma_mean_commutes(features.brows.right.inner_rise, features.brows.left.inner_rise);
}

/// The channels without evidence.
proof fn lemma_mirrored_silent_channels(features: GnmFacialFeatures)
    ensures
        ({
            let other = mirrored(features);
            &&& projected(other, ArkitBlendshape::MouthLeft) == projected(
                features,
                ArkitBlendshape::MouthRight,
            )
            &&& projected(other, ArkitBlendshape::MouthRight) == projected(
                features,
                ArkitBlendshape::MouthLeft,
            )
            &&& projected(other, ArkitBlendshape::MouthDimpleLeft) == projected(
                features,
                ArkitBlendshape::MouthDimpleRight,
            )
            &&& projected(other, ArkitBlendshape::MouthDimpleRight) == projected(
                features,
                ArkitBlendshape::MouthDimpleLeft,
            )
            &&& projected(other, ArkitBlendshape::MouthPressLeft) == projected(
                features,
                ArkitBlendshape::MouthPressRight,
            )
            &&& projected(other, ArkitBlendshape::MouthPressRight) == projected(
                features,
                ArkitBlendshape::MouthPressLeft,
            )
            &&& projected(other, ArkitBlendshape::MouthLowerDownLeft) == projected(
                features,
                ArkitBlendshape::MouthLowerDownRight,
            )
            &&& projected(other, ArkitBlendshape::MouthLowerDownRight) == projected(
                features,
                ArkitBlendshape::MouthLowerDownLeft,
            )
            &&& projected(other, ArkitBlendshape::MouthUpperUpLeft) == projected(
                features,
                ArkitBlendshape::MouthUpperUpRight,
            )
            &&& projected(other, ArkitBlendshape::MouthUpperUpRight) == projected(
                features,
                ArkitBlendshape::MouthUpperUpLeft,
            )
            &&& projected(other, ArkitBlendshape::CheekSquintLeft) == projected(
                features,
                ArkitBlendshape::CheekSquintRight,
            )
            &&& projected(other, ArkitBlendshape::CheekSquintRight) == projected(
                features,
                ArkitBlendshape::CheekSquintLeft,
            )
            &&& projected(other, ArkitBlendshape::NoseSneerLeft) == projected(
                features,
                ArkitBlendshape::NoseSneerRight,
            )
            &&& projected(other, ArkitBlendshape::NoseSneerRight) == projected(
                features,
                ArkitBlendshape::NoseSneerLeft,
            )
            &&& projected(other, ArkitBlendshape::MouthRollLower) == projected(
                features,
                ArkitBlendshape::MouthRollLower,
            )
            &&& projected(other, ArkitBlendshape::MouthRollUpper) == projected(
                features,
                ArkitBlendshape::MouthRollUpper,
            )
            &&& projected(other, ArkitBlendshape::MouthShrugLower) == projected(
                features,
                ArkitBlendshape::MouthShrugLower,
            )
            &&& projected(other, ArkitBlendshape::MouthShrugUpper) == projected(
                features,
                ArkitBlendshape::MouthShrugUpper,
            )
            &&& projected(other, ArkitBlendshape::TongueOut) == projected(
                features,
                ArkitBlendshape::TongueOut,
            )
        }),
{
    reveal(projected);
}

/// A face and its mirror image project alike, with the channels' sides exchanged:
/// neither side is favoured, in any channel.
pub proof fn lemma_mirrored_face_mirrors_channels(
    features: GnmFacialFeatures,
    channel: ArkitBlendshape,
)
    ensures
        projected(mirrored(features), channel) == projected(features, mirrored_channel(channel)),
{
    lemma_mirrored_eye_channels(features);
    lemma_mirrored_gaze_channels(features);
    lemma_mirrored_mouth_channels(features);
    lemma_mirrored_brow_channels(features);
    lemma_mirrored_silent_channels(features);
}

/// Which measurement comes first does not enter the mean.
proof fn lemma_mean_commutes(first: Option<Binary32>, second: Option<Binary32>)
    ensures
        mean_of_pair(first, second) == mean_of_pair(second, first),
{
    reveal(mean_of_pair);
    if let (Some(one), Some(other)) = (first, second) {
        if one.finite() && other.finite() {
            lemma_pair_sum_commutes(one, other);
        }
    }
}

} // verus!
