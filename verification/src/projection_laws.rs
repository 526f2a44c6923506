//! How the projected channels follow the face: each grows with the one movement that it
//! stands for, rests while the face moves the other way, and is full at its saturation.

use vstd::arithmetic::power2::{lemma_pow2_pos, pow2};
use vstd::prelude::*;

use crate::arithmetic_laws::{
    lemma_quotient_is_monotone, lemma_quotient_is_plain, lemma_rounded_is_a_number, lemma_sum_is_monotone,
    lemma_units_of_zero, one, plain,
};
use crate::arkit::ArkitBlendshape;
use crate::binary::{lemma_units_increase, magnitude_units, Binary32};
use crate::gnm_arkit_projector::{
    aperture_usable, closure_of, delta_ratio, experimental_of, if_negative, if_not_negative, if_positive, no_evidence,
    opposite_ratio, projected, ratio, reliable_of, EyeApertureFeature, GnmFacialFeatures, IrisSideAuxFeature,
    ProjectedChannel, BLINK_FULL_CLOSURE_FRACTION_BITS, BROW_SATURATION_BITS, FROWN_SATURATION_BITS,
    GAZE_HORIZONTAL_SATURATION_BITS, GAZE_VERTICAL_SATURATION_BITS, JAW_FORWARD_SATURATION_BITS,
    JAW_LATERAL_SATURATION_BITS, JAW_OPEN_SATURATION_BITS, LIP_CONSTRICTION_SATURATION_BITS,
    MOUTH_CLOSE_SATURATION_BITS, SMILE_SATURATION_BITS, SQUINT_FULL_CLOSURE_FRACTION_BITS, STRETCH_SATURATION_BITS,
    WIDE_FULL_WIDENING_FRACTION_BITS,
};
use crate::unit_range::lemma_self_quotient;

verus! {

/// Quotients by a positive number keep the order, whatever the signs.
pub proof fn lemma_signed_quotient_is_monotone(small: Binary32, large: Binary32, divisor: Binary32)
    requires
        small.finite(),
        large.finite(),
        plain(divisor),
        divisor.magnitude() > 0,
        small.at_most(large),
    ensures
        small.over(divisor).at_most(large.over(divisor)),
{
    lemma_sized_quotient(small, divisor);
    lemma_sized_quotient(large, divisor);
    if small.rank() >= 0 {
        lemma_quotient_is_monotone(small.absolute(), large.absolute(), divisor);
    } else if large.rank() <= 0 {
        lemma_quotient_is_monotone(large.absolute(), small.absolute(), divisor);
    }
}

/// A quotient by a positive number has the sign of its dividend.
pub proof fn lemma_sized_quotient(number: Binary32, divisor: Binary32)
    requires
        number.finite(),
        plain(divisor),
        divisor.magnitude() > 0,
    ensures
        !number.over(divisor).nan(),
        number.over(divisor).magnitude() == number.absolute().over(divisor).magnitude(),
        number.over(divisor).negative() == number.negative(),
        !number.absolute().over(divisor).negative(),
        !number.absolute().over(divisor).nan(),
        number.magnitude() == 0 ==> number.over(divisor).magnitude() == 0,
{
    lemma_quotient_is_plain(number.absolute(), divisor);
    lemma_units_of_zero();
    lemma_units_increase(0, divisor.magnitude() as nat, 23);
    let a = magnitude_units(number.magnitude() as nat, 23);
    let b = magnitude_units(divisor.magnitude() as nat, 23);
    lemma_pow2_pos(149);
    lemma_rounded_is_a_number(a * pow2(149), b);
}

/// A ratio is none below zero, full at its saturation, and never falls with its numerator.
pub proof fn lemma_ratio_rises(small: Binary32, large: Binary32, saturation: Binary32)
    requires
        small.finite(),
        large.finite(),
        saturation.finite(),
        saturation.positive(),
        small.at_most(large),
    ensures
        ratio(small, saturation) is Some,
        ratio(large, saturation) is Some,
        ratio(small, saturation)->0.at_most(ratio(large, saturation)->0),
        small.rank() <= 0 ==> ratio(small, saturation)->0.rank() == 0,
        large.rank() <= 0 ==> ratio(large, saturation)->0.rank() == 0,
        saturation.at_most(large) ==> ratio(large, saturation)->0 == one(),
        saturation.at_most(small) ==> ratio(small, saturation)->0 == one(),
        0 <= ratio(small, saturation)->0.rank(),
        0 <= ratio(large, saturation)->0.rank(),
{
    reveal(ratio);
    lemma_signed_quotient_is_monotone(small, large, saturation);
    lemma_sized_quotient(small, saturation);
    lemma_sized_quotient(large, saturation);
    lemma_self_quotient(saturation);
    if saturation.at_most(large) {
        lemma_signed_quotient_is_monotone(saturation, large, saturation);
    }
    if saturation.at_most(small) {
        lemma_signed_quotient_is_monotone(saturation, small, saturation);
    }
}

/// How an iris is displaced upward.
pub open spec fn upward(iris: Option<IrisSideAuxFeature>) -> Option<Binary32> {
    match iris {
        Some(iris) => iris.vertical_delta,
        None => None,
    }
}

/// How an iris is displaced outward.
pub open spec fn outward(iris: Option<IrisSideAuxFeature>) -> Option<Binary32> {
    match iris {
        Some(iris) => iris.horizontal_delta,
        None => None,
    }
}

/// The movement that a channel stands for, where one number measures it.
pub open spec fn movement(features: GnmFacialFeatures, channel: ArkitBlendshape) -> Option<Binary32> {
    let mouth = features.mouth_jaw;
    match channel {
        ArkitBlendshape::EyeLookUpLeft => upward(features.irises.left),
        ArkitBlendshape::EyeLookUpRight => upward(features.irises.right),
        ArkitBlendshape::EyeLookDownLeft => opposite(upward(features.irises.left)),
        ArkitBlendshape::EyeLookDownRight => opposite(upward(features.irises.right)),
        ArkitBlendshape::EyeLookOutLeft => outward(features.irises.left),
        ArkitBlendshape::EyeLookOutRight => outward(features.irises.right),
        ArkitBlendshape::EyeLookInLeft => opposite(outward(features.irises.left)),
        ArkitBlendshape::EyeLookInRight => opposite(outward(features.irises.right)),
        ArkitBlendshape::JawOpen => mouth.jaw_open,
        ArkitBlendshape::MouthClose => opposite(mouth.jaw_open),
        ArkitBlendshape::JawForward => opposite(mouth.jaw_forward),
        ArkitBlendshape::JawLeft => mouth.jaw_lateral,
        ArkitBlendshape::JawRight => opposite(mouth.jaw_lateral),
        ArkitBlendshape::MouthFunnel => opposite(mouth.width_delta),
        ArkitBlendshape::MouthPucker => opposite(mouth.width_delta),
        ArkitBlendshape::MouthStretchLeft => mouth.width_delta,
        ArkitBlendshape::MouthStretchRight => mouth.width_delta,
        ArkitBlendshape::MouthSmileLeft => mouth.corner_lift,
        ArkitBlendshape::MouthSmileRight => mouth.corner_lift,
        ArkitBlendshape::MouthFrownLeft => opposite(mouth.corner_lift),
        ArkitBlendshape::MouthFrownRight => opposite(mouth.corner_lift),
        ArkitBlendshape::BrowDownLeft => features.brows.left.brow_lower,
        ArkitBlendshape::BrowDownRight => features.brows.right.brow_lower,
        ArkitBlendshape::BrowOuterUpLeft => features.brows.left.outer_rise,
        ArkitBlendshape::BrowOuterUpRight => features.brows.right.outer_rise,
        _ => None,
    }
}

/// The opposite of a movement.
pub open spec fn opposite(delta: Option<Binary32>) -> Option<Binary32> {
    match delta {
        Some(delta) => Some(delta.negated()),
        None => None,
    }
}

/// What two channels show of two movements.
#[verifier::opaque]
pub open spec fn follow(first: ProjectedChannel, second: ProjectedChannel, a: Binary32, b: Binary32) -> bool {
    &&& first.value.at_most(second.value)
    &&& b.rank() <= 0 ==> second.value.rank() == 0
    &&& one().at_most(b) ==> second.value == one()
}

/// Dedicated and shared evidence of a movement.
proof fn lemma_direct_evidence(a: Binary32, b: Binary32, saturation: u32)
    requires
        a.finite(),
        b.finite(),
        a.at_most(b),
        0 < saturation <= 0x3f80_0000,
    ensures
        follow(
            reliable_of(ratio(a, Binary32 { bits: saturation })),
            reliable_of(ratio(b, Binary32 { bits: saturation })),
            a,
            b,
        ),
        follow(
            experimental_of(ratio(a, Binary32 { bits: saturation })),
            experimental_of(ratio(b, Binary32 { bits: saturation })),
            a,
            b,
        ),
{
    reveal(follow);
    lemma_rises_by(a, b, saturation);
}

/// Evidence of a movement that counts above zero only.
spec fn above_zero(delta: Binary32, saturation: u32) -> ProjectedChannel {
    if delta.rank() > 0 {
        experimental_of(ratio(delta, Binary32 { bits: saturation }))
    } else {
        no_evidence()
    }
}

/// Evidence of a movement that counts from zero on.
spec fn from_zero(delta: Binary32, saturation: u32) -> ProjectedChannel {
    if delta.rank() >= 0 {
        reliable_of(ratio(delta, Binary32 { bits: saturation }))
    } else {
        no_evidence()
    }
}

proof fn lemma_gated_evidence(a: Binary32, b: Binary32, saturation: u32)
    requires
        a.finite(),
        b.finite(),
        a.at_most(b),
        0 < saturation <= 0x3f80_0000,
    ensures
        follow(above_zero(a, saturation), above_zero(b, saturation), a, b),
        follow(from_zero(a, saturation), from_zero(b, saturation), a, b),
{
    reveal(follow);
    lemma_rises_by(a, b, saturation);
}

/// How gates read a movement.
proof fn lemma_gates(delta: Binary32, saturation: u32)
    requires
        delta.finite(),
    ensures
        experimental_of(delta_ratio(if_positive(Some(delta)), saturation)) == above_zero(delta, saturation),
        experimental_of(opposite_ratio(if_negative(Some(delta)), saturation)) == above_zero(
            delta.negated(),
            saturation,
        ),
        reliable_of(delta_ratio(if_not_negative(Some(delta)), saturation)) == from_zero(delta, saturation),
{
}

/// Channels follow their movement: one that moves farther is never shown less, one that
/// moves the other way, or not at all, is not shown, and one that moves by a full unit of
/// its measure is shown in full.
pub proof fn lemma_channels_follow_their_movement(
    left: GnmFacialFeatures,
    right: GnmFacialFeatures,
    channel: ArkitBlendshape,
)
    requires
        movement(left, channel) is Some,
        movement(right, channel) is Some,
        movement(left, channel)->0.finite(),
        movement(right, channel)->0.finite(),
        movement(left, channel)->0.at_most(movement(right, channel)->0),
    ensures
        projected(left, channel).value.at_most(projected(right, channel).value),
        movement(right, channel)->0.rank() <= 0 ==> projected(right, channel).value.rank() == 0,
        one().at_most(movement(right, channel)->0) ==> projected(right, channel).value == one(),
{
    let (a, b) = (movement(left, channel)->0, movement(right, channel)->0);
    if is_mouth_gate(channel) {
        lemma_mouth_follows(left, right, channel);
    } else if is_gaze(channel) {
        lemma_gaze_follows(left, right, channel);
    } else {
        lemma_rest_follows(left, right, channel);
    }
    reveal(follow);
}

spec fn is_mouth_gate(channel: ArkitBlendshape) -> bool {
    match channel {
        ArkitBlendshape::JawOpen => true,
        ArkitBlendshape::MouthClose => true,
        ArkitBlendshape::MouthStretchLeft => true,
        ArkitBlendshape::MouthStretchRight => true,
        ArkitBlendshape::MouthSmileLeft => true,
        ArkitBlendshape::MouthSmileRight => true,
        ArkitBlendshape::MouthFrownLeft => true,
        ArkitBlendshape::MouthFrownRight => true,
        _ => false,
    }
}

spec fn is_gaze(channel: ArkitBlendshape) -> bool {
    match channel {
        ArkitBlendshape::EyeLookUpLeft => true,
        ArkitBlendshape::EyeLookUpRight => true,
        ArkitBlendshape::EyeLookDownLeft => true,
        ArkitBlendshape::EyeLookDownRight => true,
        ArkitBlendshape::EyeLookOutLeft => true,
        ArkitBlendshape::EyeLookOutRight => true,
        ArkitBlendshape::EyeLookInLeft => true,
        ArkitBlendshape::EyeLookInRight => true,
        _ => false,
    }
}

spec fn comparable(left: GnmFacialFeatures, right: GnmFacialFeatures, channel: ArkitBlendshape) -> bool {
    &&& movement(left, channel) is Some
    &&& movement(right, channel) is Some
    &&& movement(left, channel)->0.finite()
    &&& movement(right, channel)->0.finite()
    &&& movement(left, channel)->0.at_most(movement(right, channel)->0)
}

proof fn lemma_mouth_follows(left: GnmFacialFeatures, right: GnmFacialFeatures, channel: ArkitBlendshape)
    requires
        comparable(left, right, channel),
        is_mouth_gate(channel),
    ensures
        follow(
            projected(left, channel),
            projected(right, channel),
            movement(left, channel)->0,
            movement(right, channel)->0,
        ),
{
    reveal(projected);
    let (a, b) = (movement(left, channel)->0, movement(right, channel)->0);
    lemma_gated_evidence(a, b, JAW_OPEN_SATURATION_BITS);
    lemma_gated_evidence(a, b, MOUTH_CLOSE_SATURATION_BITS);
    lemma_gated_evidence(a, b, STRETCH_SATURATION_BITS);
    lemma_gated_evidence(a, b, SMILE_SATURATION_BITS);
    lemma_gated_evidence(a, b, FROWN_SATURATION_BITS);
    match channel {
        ArkitBlendshape::JawOpen => {
            lemma_gates(left.mouth_jaw.jaw_open->0, JAW_OPEN_SATURATION_BITS);
            lemma_gates(right.mouth_jaw.jaw_open->0, JAW_OPEN_SATURATION_BITS);
        },
        ArkitBlendshape::MouthClose => {
            lemma_gates(left.mouth_jaw.jaw_open->0, MOUTH_CLOSE_SATURATION_BITS);
            lemma_gates(right.mouth_jaw.jaw_open->0, MOUTH_CLOSE_SATURATION_BITS);
        },
        ArkitBlendshape::MouthStretchLeft | ArkitBlendshape::MouthStretchRight => {
            lemma_gates(left.mouth_jaw.width_delta->0, STRETCH_SATURATION_BITS);
            lemma_gates(right.mouth_jaw.width_delta->0, STRETCH_SATURATION_BITS);
        },
        ArkitBlendshape::MouthSmileLeft | ArkitBlendshape::MouthSmileRight => {
            lemma_gates(left.mouth_jaw.corner_lift->0, SMILE_SATURATION_BITS);
            lemma_gates(right.mouth_jaw.corner_lift->0, SMILE_SATURATION_BITS);
        },
        _ => {
            lemma_gates(left.mouth_jaw.corner_lift->0, FROWN_SATURATION_BITS);
            lemma_gates(right.mouth_jaw.corner_lift->0, FROWN_SATURATION_BITS);
        },
    }
}

proof fn lemma_gaze_follows(left: GnmFacialFeatures, right: GnmFacialFeatures, channel: ArkitBlendshape)
    requires
        comparable(left, right, channel),
        is_gaze(channel),
    ensures
        follow(
            projected(left, channel),
            projected(right, channel),
            movement(left, channel)->0,
            movement(right, channel)->0,
        ),
{
    reveal(projected);
    let (a, b) = (movement(left, channel)->0, movement(right, channel)->0);
    lemma_direct_evidence(a, b, GAZE_VERTICAL_SATURATION_BITS);
    lemma_direct_evidence(a, b, GAZE_HORIZONTAL_SATURATION_BITS);
}

proof fn lemma_rest_follows(left: GnmFacialFeatures, right: GnmFacialFeatures, channel: ArkitBlendshape)
    requires
        comparable(left, right, channel),
        !is_gaze(channel),
        !is_mouth_gate(channel),
    ensures
        follow(
            projected(left, channel),
            projected(right, channel),
            movement(left, channel)->0,
            movement(right, channel)->0,
        ),
{
    reveal(projected);
    let (a, b) = (movement(left, channel)->0, movement(right, channel)->0);
    lemma_direct_evidence(a, b, JAW_FORWARD_SATURATION_BITS);
    lemma_direct_evidence(a, b, JAW_LATERAL_SATURATION_BITS);
    lemma_direct_evidence(a, b, LIP_CONSTRICTION_SATURATION_BITS);
    lemma_direct_evidence(a, b, BROW_SATURATION_BITS);
}

/// The ratios of two movements to one saturation.
spec fn rises_by(a: Binary32, b: Binary32, saturation: u32) -> bool {
    let s = Binary32 { bits: saturation };
    &&& ratio(a, s) is Some
    &&& ratio(b, s) is Some
    &&& ratio(a, s)->0.at_most(ratio(b, s)->0)
    &&& a.rank() <= 0 ==> ratio(a, s)->0.rank() == 0
    &&& b.rank() <= 0 ==> ratio(b, s)->0.rank() == 0
    &&& one().at_most(b) ==> ratio(b, s)->0 == one()
    &&& 0 <= ratio(a, s)->0.rank()
    &&& 0 <= ratio(b, s)->0.rank()
    &&& !ratio(a, s)->0.nan()
    &&& !ratio(b, s)->0.nan()
}

proof fn lemma_rises_by(a: Binary32, b: Binary32, saturation: u32)
    requires
        a.finite(),
        b.finite(),
        a.at_most(b),
        0 < saturation <= 0x3f80_0000,
    ensures
        rises_by(a, b, saturation),
{
    let s = Binary32 { bits: saturation };
    lemma_ratio_rises(a, b, s);
}

/// An eye that closes blinks and squints no less and widens no more: with one neutral
/// aperture, a smaller current aperture never lowers the blink or the squint and never
/// raises the widening; a half-open eye widens nothing and a wide one does not blink.
pub proof fn lemma_closing_eye_blinks(
    left: GnmFacialFeatures,
    right: GnmFacialFeatures,
    eye: EyeApertureFeature,
    other: EyeApertureFeature,
)
    requires
        left.eyes.left == eye && right.eyes.left == other,
        aperture_usable(eye),
        aperture_usable(other),
        eye.neutral_aperture == other.neutral_aperture,
        other.current_aperture.at_most(eye.current_aperture),
        closure_of(eye).finite(),
        closure_of(other).finite(),
        eye.neutral_aperture.minus(eye.current_aperture).finite(),
        other.neutral_aperture.minus(other.current_aperture).finite(),
    ensures
        projected(left, ArkitBlendshape::EyeBlinkLeft).value.at_most(
            projected(right, ArkitBlendshape::EyeBlinkLeft).value,
        ),
        projected(left, ArkitBlendshape::EyeSquintLeft).value.at_most(
            projected(right, ArkitBlendshape::EyeSquintLeft).value,
        ),
        projected(right, ArkitBlendshape::EyeWideLeft).value.at_most(
            projected(left, ArkitBlendshape::EyeWideLeft).value,
        ),
        other.current_aperture.at_most(other.neutral_aperture) ==> projected(
            right,
            ArkitBlendshape::EyeWideLeft,
        ).value.rank() == 0,
        other.neutral_aperture.at_most(other.current_aperture) ==> projected(
            right,
            ArkitBlendshape::EyeBlinkLeft,
        ).value.rank() == 0,
{
    reveal(projected);
    lemma_closing(eye, other);
}

proof fn lemma_closing(eye: EyeApertureFeature, other: EyeApertureFeature)
    requires
        aperture_usable(eye),
        aperture_usable(other),
        eye.neutral_aperture == other.neutral_aperture,
        other.current_aperture.at_most(eye.current_aperture),
        closure_of(eye).finite(),
        closure_of(other).finite(),
        eye.neutral_aperture.minus(eye.current_aperture).finite(),
        other.neutral_aperture.minus(other.current_aperture).finite(),
    ensures
        rises_by(closure_of(eye), closure_of(other), BLINK_FULL_CLOSURE_FRACTION_BITS),
        rises_by(closure_of(eye), closure_of(other), SQUINT_FULL_CLOSURE_FRACTION_BITS),
        rises_by(
            closure_of(other).negated(),
            closure_of(eye).negated(),
            WIDE_FULL_WIDENING_FRACTION_BITS,
        ),
        other.current_aperture.at_most(other.neutral_aperture) ==> closure_of(other).rank() >= 0,
        other.neutral_aperture.at_most(other.current_aperture) ==> closure_of(other).rank() <= 0,
{
    reveal(closure_of);
    let neutral = eye.neutral_aperture;
    let (a, b) = (eye.current_aperture, other.current_aperture);
    assert(plain(neutral) && neutral.magnitude() > 0);
    lemma_sum_is_monotone(neutral, a.negated(), neutral, b.negated());
    lemma_signed_quotient_is_monotone(neutral.minus(a), neutral.minus(b), neutral);
    lemma_rises_by(closure_of(eye), closure_of(other), BLINK_FULL_CLOSURE_FRACTION_BITS);
    lemma_rises_by(closure_of(eye), closure_of(other), SQUINT_FULL_CLOSURE_FRACTION_BITS);
    lemma_rises_by(
        closure_of(other).negated(),
        closure_of(eye).negated(),
        WIDE_FULL_WIDENING_FRACTION_BITS,
    );
    lemma_units_of_zero();
    lemma_sized_quotient(neutral.minus(b), neutral);
    assert(neutral.plus(neutral.negated()).magnitude() == 0);
    if b.at_most(neutral) {
        lemma_sum_is_monotone(neutral, neutral.negated(), neutral, b.negated());
    }
    if neutral.at_most(b) {
        lemma_sum_is_monotone(neutral, b.negated(), neutral, neutral.negated());
    }
}

} // verus!
