//! Bounded procedural micro-motion after tracking loss.
//!
//! Instead of freezing or snapping to neutral, the upper body transitions into a
//! low-frequency bounded idle sway after the face is lost. The motion is supplied
//! purely as virtual head/body target offsets, composed with a loss-scoped vertical
//! breathing oscillation so a prolonged camera or face failure keeps the avatar
//! alive in its default pose.
//!
//! There is no random number generator: per-bucket targets are derived by hashing
//! the avatar generation seed and a time-bucket index, then smoothly interpolated
//! with a smoothstep between bucket boundaries. The breathing axis is a pure sine
//! of elapsed-since-loss time. The trajectory is a pure function of that time, so
//! 30/60/120 FPS evaluations of the same loss episode produce near-identical
//! curves.

use vstd::arithmetic::power2::{lemma2_to64, lemma2_to64_rest, lemma_pow2_adds, lemma_pow2_pos, pow2};
use vstd::prelude::*;

use crate::arithmetic::{lemma_nearest_of_exact_32, lemma_plus_zero_32};
use crate::arithmetic_laws::{
    lemma_doubled_units, lemma_integer_is_plain, lemma_integers_are_monotone, lemma_one_times,
    lemma_product_is_monotone, lemma_product_is_plain, lemma_quotient_is_monotone,
    lemma_quotient_is_plain, lemma_sum_is_monotone, lemma_units_of_one, lemma_units_of_zero, one, two,
};
use crate::avatar::TrackingState;
use crate::binary::{magnitude_units, Binary32, SIGN_32};
use crate::clock::{lemma_no_time_is_zero, lemma_seconds_are_plain, seconds_of, Duration, MonoTimeNs};
use crate::unit_range::{
    in_signed_range, is_share, lemma_eased_ends, lemma_eased_is_a_share, lemma_eased_starts,
    lemma_interpolation_is_bounded, lemma_scaling_keeps_order, lemma_self_quotient,
    lemma_signed_factor_enlarges_nothing, lemma_unit_complement, three,
};

verus! {

/// Half a turn in radians.
pub const PI_BITS: u32 = 0x4049_0fdb;

/// A full turn in radians.
pub const TAU_BITS: u32 = 0x40c9_0fdb;

/// Four degrees in radians.
pub const FOUR_DEGREES_BITS: u32 = 0x3d8e_fa35;

/// Distance from one to the next larger number.
pub const EPSILON_BITS: u32 = 0x3400_0000;

/// Two to the fifty-third.
pub const NOISE_RANGE_BITS: u32 = 0x5a00_0000;

/// Body-scale-aware typed profile for tracking-loss micro-motion.
#[derive(Clone, Copy, Debug, PartialEq)]
pub struct MicroMotionProfile {
    /// Time from losing the face until full micro-motion amplitude.
    pub transition: Duration,
    /// Target update cycle of the bounded sway.
    pub period: Duration,
    /// Lateral amplitude as a ratio of body scale (seed `0.015`).
    pub x_amplitude_ratio: Binary32,
    /// Depth amplitude as a ratio of body scale (seed `0.030`).
    pub z_amplitude_ratio: Binary32,
    /// Yaw amplitude in radians (seed four degrees).
    pub yaw_amplitude_radians: Binary32,
    /// Pitch amplitude in radians (seed four degrees).
    pub pitch_amplitude_radians: Binary32,
    /// Roll offset in radians; the analyzed design generates none (seed `0`).
    pub roll_amplitude_radians: Binary32,
    /// Breathing cycle period during the loss episode (seed `4.0 s`, roughly 15
    /// breaths per minute).
    pub breath_period: Duration,
    /// Vertical breathing amplitude as a ratio of body scale (seed `0.010`).
    pub breath_amplitude_ratio: Binary32,
}

impl Default for MicroMotionProfile {
    fn default() -> (profile: Self)
        ensures
            profile.transition@ == 4_000_000_000,
            profile.period@ == 2_500_000_000,
            profile.x_amplitude_ratio == (Binary32 { bits: 0x3c75_c28f }),
            profile.z_amplitude_ratio == (Binary32 { bits: 0x3cf5_c28f }),
            profile.yaw_amplitude_radians == (Binary32 { bits: FOUR_DEGREES_BITS }),
            profile.pitch_amplitude_radians == (Binary32 { bits: FOUR_DEGREES_BITS }),
            profile.roll_amplitude_radians == (Binary32 { bits: 0 }),
            profile.breath_period@ == 4_000_000_000,
            profile.breath_amplitude_ratio == (Binary32 { bits: 0x3c23_d70a }),
    {
        MicroMotionProfile {
            transition: Duration::from_millis(4_000),
            period: Duration::from_millis(2_500),
            x_amplitude_ratio: Binary32::from_bits(0x3c75_c28f),
            z_amplitude_ratio: Binary32::from_bits(0x3cf5_c28f),
            yaw_amplitude_radians: Binary32::from_bits(FOUR_DEGREES_BITS),
            pitch_amplitude_radians: Binary32::from_bits(FOUR_DEGREES_BITS),
            roll_amplitude_radians: Binary32::zero(),
            breath_period: Duration::from_millis(4_000),
            breath_amplitude_ratio: Binary32::from_bits(0x3c23_d70a),
        }
    }
}

/// Errors produced while validating a [`MicroMotionProfile`].
#[derive(Clone, Copy, Debug, PartialEq)]
#[allow(inconsistent_fields)]
pub enum MicroMotionProfileError {
    /// Transition or period was zero.
    ZeroDuration,
    /// A translation amplitude ratio was negative or non-finite.
    NegativeAmplitude {
        /// Offending field name.
        name: &'static str,
        /// Offending value.
        value: Binary32,
    },
    /// A rotation amplitude was negative, non-finite, or exceeded half a turn.
    RotationAmplitudeOutOfRange {
        /// Offending field name.
        name: &'static str,
        /// Offending value.
        value: Binary32,
    },
}

/// A translation amplitude is finite and not negative.
pub open spec fn amplitude_usable(value: Binary32) -> bool {
    value.finite() && !value.less(Binary32 { bits: 0 })
}

/// A rotation amplitude lies between zero and half a turn.
pub open spec fn rotation_usable(value: Binary32) -> bool {
    &&& value.finite()
    &&& Binary32 { bits: 0 }.at_most(value)
    &&& value.at_most(Binary32 { bits: PI_BITS })
}

fn check_amplitude(name: &'static str, value: Binary32) -> (result: Result<
    (),
    MicroMotionProfileError,
>)
    ensures
        match result {
            Ok(_) => amplitude_usable(value),
            Err(error) => !amplitude_usable(value) && error == (
            MicroMotionProfileError::NegativeAmplitude { name, value }),
        },
{
    if !value.is_finite() || value.is_less(Binary32::zero()) {
        Err(MicroMotionProfileError::NegativeAmplitude { name, value })
    } else {
        Ok(())
    }
}

fn check_rotation(name: &'static str, value: Binary32) -> (result: Result<
    (),
    MicroMotionProfileError,
>)
    ensures
        match result {
            Ok(_) => rotation_usable(value),
            Err(error) => !rotation_usable(value) && error == (
            MicroMotionProfileError::RotationAmplitudeOutOfRange { name, value }),
        },
{
    if !value.is_finite() || !Binary32::zero().is_at_most(value) || !value.is_at_most(
        Binary32::from_bits(PI_BITS),
    ) {
        Err(MicroMotionProfileError::RotationAmplitudeOutOfRange { name, value })
    } else {
        Ok(())
    }
}

impl MicroMotionProfile {
    /// The first field outside its range, if one is: durations first, then the
    /// translation amplitudes, then the rotation amplitudes.
    pub open spec fn fault(self) -> Option<MicroMotionProfileError> {
        if self.transition@ == 0 || self.period@ == 0 || self.breath_period@ == 0 {
            Some(MicroMotionProfileError::ZeroDuration)
        } else if !amplitude_usable(self.x_amplitude_ratio) {
            Some(
                MicroMotionProfileError::NegativeAmplitude {
                    name: "x_amplitude_ratio",
                    value: self.x_amplitude_ratio,
                },
            )
        } else if !amplitude_usable(self.z_amplitude_ratio) {
            Some(
                MicroMotionProfileError::NegativeAmplitude {
                    name: "z_amplitude_ratio",
                    value: self.z_amplitude_ratio,
                },
            )
        } else if !amplitude_usable(self.breath_amplitude_ratio) {
            Some(
                MicroMotionProfileError::NegativeAmplitude {
                    name: "breath_amplitude_ratio",
                    value: self.breath_amplitude_ratio,
                },
            )
        } else if !rotation_usable(self.yaw_amplitude_radians) {
            Some(
                MicroMotionProfileError::RotationAmplitudeOutOfRange {
                    name: "yaw_amplitude_radians",
                    value: self.yaw_amplitude_radians,
                },
            )
        } else if !rotation_usable(self.pitch_amplitude_radians) {
            Some(
                MicroMotionProfileError::RotationAmplitudeOutOfRange {
                    name: "pitch_amplitude_radians",
                    value: self.pitch_amplitude_radians,
                },
            )
        } else if !rotation_usable(self.roll_amplitude_radians) {
            Some(
                MicroMotionProfileError::RotationAmplitudeOutOfRange {
                    name: "roll_amplitude_radians",
                    value: self.roll_amplitude_radians,
                },
            )
        } else {
            None
        }
    }

    /// Validates that all fields are finite and inside their contract ranges.
    ///
    /// # Errors
    ///
    /// Reports a zero duration, then the first amplitude that is negative or
    /// non-finite, then the first rotation amplitude beyond half a turn.
    pub fn validate(&self) -> (result: Result<(), MicroMotionProfileError>)
        ensures
            match result {
                Ok(_) => self.fault() is None,
                Err(error) => self.fault() == Some(error),
            },
    {
        if self.transition.is_zero() || self.period.is_zero() || self.breath_period.is_zero() {
            return Err(MicroMotionProfileError::ZeroDuration);
        }
        if let Err(error) = check_amplitude("x_amplitude_ratio", self.x_amplitude_ratio) {
            return Err(error);
        }
        if let Err(error) = check_amplitude("z_amplitude_ratio", self.z_amplitude_ratio) {
            return Err(error);
        }
        if let Err(error) = check_amplitude("breath_amplitude_ratio", self.breath_amplitude_ratio) {
            return Err(error);
        }
        if let Err(error) = check_rotation("yaw_amplitude_radians", self.yaw_amplitude_radians) {
            return Err(error);
        }
        if let Err(error) = check_rotation(
            "pitch_amplitude_radians",
            self.pitch_amplitude_radians,
        ) {
            return Err(error);
        }
        check_rotation("roll_amplitude_radians", self.roll_amplitude_radians)
    }
}

/// Bounded idle target in semantic units.
///
/// Translations are meters in the camera-aligned frame; angles are radians. There
/// is no roll, and the vertical translation carries the loss-scoped breathing
/// oscillation.
#[derive(Clone, Copy, Debug, PartialEq, Eq, Structural)]
pub struct IdleTarget {
    /// Lateral sway in meters (positive toward image right).
    pub translation_x: Binary32,
    /// Vertical breathing offset in meters (positive up).
    pub translation_y: Binary32,
    /// Depth sway in meters (positive away from camera).
    pub translation_z: Binary32,
    /// Yaw offset in radians.
    pub yaw_radians: Binary32,
    /// Pitch offset in radians.
    pub pitch_radians: Binary32,
}

impl Default for IdleTarget {
    fn default() -> (target: Self)
        ensures
            target == Self::rest(),
    {
        IdleTarget {
            translation_x: Binary32::zero(),
            translation_y: Binary32::zero(),
            translation_z: Binary32::zero(),
            yaw_radians: Binary32::zero(),
            pitch_radians: Binary32::zero(),
        }
    }
}

impl IdleTarget {
    /// The target that moves nothing.
    pub open spec fn rest() -> Self {
        IdleTarget {
            translation_x: Binary32 { bits: 0 },
            translation_y: Binary32 { bits: 0 },
            translation_z: Binary32 { bits: 0 },
            yaw_radians: Binary32 { bits: 0 },
            pitch_radians: Binary32 { bits: 0 },
        }
    }

    /// Every component is finite.
    pub open spec fn finite(self) -> bool {
        &&& self.translation_x.finite()
        &&& self.translation_y.finite()
        &&& self.translation_z.finite()
        &&& self.yaw_radians.finite()
        &&& self.pitch_radians.finite()
    }

    /// The target, or rest where a component is not finite.
    pub open spec fn or_rest(self) -> Self {
        if self.finite() {
            self
        } else {
            Self::rest()
        }
    }

    /// Every component times a factor.
    pub open spec fn times(self, factor: Binary32) -> Self {
        IdleTarget {
            translation_x: self.translation_x.times(factor),
            translation_y: self.translation_y.times(factor),
            translation_z: self.translation_z.times(factor),
            yaw_radians: self.yaw_radians.times(factor),
            pitch_radians: self.pitch_radians.times(factor),
        }
    }

    /// Whether every component is finite.
    pub fn is_finite(self) -> (finite: bool)
        ensures
            finite == self.finite(),
    {
        self.translation_x.is_finite() && self.translation_y.is_finite()
            && self.translation_z.is_finite() && self.yaw_radians.is_finite()
            && self.pitch_radians.is_finite()
    }

    /// Every component times a factor.
    fn scaled(self, factor: Binary32) -> (scaled: Self)
        ensures
            scaled == self.times(factor),
    {
        IdleTarget {
            translation_x: self.translation_x.product(factor),
            translation_y: self.translation_y.product(factor),
            translation_z: self.translation_z.product(factor),
            yaw_radians: self.yaw_radians.product(factor),
            pitch_radians: self.pitch_radians.product(factor),
        }
    }
}

/// The splitmix64 finalizer.
pub open spec fn mixed(value: u64) -> u64 {
    let first = (value ^ (value >> 30)).wrapping_mul(0xbf58_476d_1ce4_e5b9);
    let second = (first ^ (first >> 27)).wrapping_mul(0x94d0_49bb_1331_11eb);
    second ^ (second >> 31)
}

/// splitmix64 finalizer: a deterministic hash used to derive per-axis bucket noise
/// from seed, bucket and axis.
fn mix64(value: u64) -> (mix: u64)
    ensures
        mix == mixed(value),
{
    let first: u64 = (value ^ (value >> 30)).wrapping_mul(0xbf58_476d_1ce4_e5b9);
    let second: u64 = (first ^ (first >> 27)).wrapping_mul(0x94d0_49bb_1331_11eb);
    second ^ (second >> 31)
}

/// The upper fifty-three bits of the hash of a seed, a bucket and an axis.
pub open spec fn noise_bits(seed: u64, bucket: u64, axis: u64) -> u64 {
    mixed(seed ^ mixed(bucket.wrapping_mul(0x9e37_79b9).wrapping_add(axis))) >> 11
}

/// The number of noise values.
pub open spec fn noise_range() -> Binary32 {
    Binary32 { bits: NOISE_RANGE_BITS }
}

/// Noise of an axis in a bucket: its bits scaled into `[-1, 1]`.
pub open spec fn noise(seed: u64, bucket: u64, axis: u64) -> Binary32 {
    Binary32::of_integer(noise_bits(seed, bucket, axis) as nat).over(
        noise_range(),
    ).times(Binary32 { bits: 0x4000_0000 }).minus(Binary32 { bits: 0x3f80_0000 })
}

/// Deterministic per-axis noise in `[-1, 1]` for one bucket.
pub fn bucket_noise(seed: u64, bucket: u64, axis: u64) -> (value: Binary32)
    ensures
        value == noise(seed, bucket, axis),
{
    let hashed: u64 = mix64(seed ^ mix64(bucket.wrapping_mul(0x9e37_79b9).wrapping_add(axis)));
    let unit = Binary32::from_integer(hashed >> 11).quotient(Binary32::from_bits(NOISE_RANGE_BITS));
    unit.product(Binary32::from_bits(0x4000_0000)).difference(Binary32::from_bits(0x3f80_0000))
}

/// The share clamped to `0..=1`; zero where it is not finite.
pub open spec fn unit_share(t: Binary32) -> Binary32 {
    if t.finite() {
        t.clamped(Binary32 { bits: 0 }, Binary32 { bits: 0x3f80_0000 })
    } else {
        Binary32 { bits: 0 }
    }
}

/// `t * t * (3 - 2 * t)` of the clamped share.
pub open spec fn smooth(t: Binary32) -> Binary32 {
    let share = unit_share(t);
    share.times(share).times(
        Binary32 { bits: 0x4040_0000 }.minus(Binary32 { bits: 0x4000_0000 }.times(share)),
    )
}

/// The smooth step stays between zero and one.
pub proof fn lemma_smooth_is_a_share(t: Binary32)
    ensures
        is_share(smooth(t)),
{
    let share = unit_share(t);
    if share.negative() {
        lemma_plus_zero_32(three(), Binary32 { bits: 0 });
    } else {
        lemma_eased_is_a_share(share);
    }
}

/// Smooth step from zero to one.
pub fn smoothstep(t: Binary32) -> (step: Binary32)
    ensures
        step == smooth(t),
        is_share(step),
{
    proof {
        lemma_smooth_is_a_share(t);
    }
    let share = if t.is_finite() {
        t.clamp(Binary32::zero(), Binary32::from_bits(0x3f80_0000))
    } else {
        Binary32::zero()
    };
    share.product(share).product(
        Binary32::from_bits(0x4040_0000).difference(Binary32::from_bits(0x4000_0000).product(share)),
    )
}

/// Value of an axis at a position counted in buckets; axes are offset by half
/// buckets so that they do not switch direction together.
pub open spec fn axis_value(seed: u64, position: Binary32, axis: u64) -> Binary32 {
    let shifted = position.plus(
        Binary32::of_integer(axis as nat).times(Binary32 { bits: 0x3f00_0000 }),
    );
    let bucket = shifted.floored();
    let fraction = smooth(shifted.minus(Binary32::of_integer(bucket as nat)));
    let from = noise(
        seed,
        if bucket == 0 {
            0
        } else {
            (bucket - 1) as u64
        },
        axis,
    );
    let to = noise(seed, bucket, axis);
    from.plus(to.minus(from).times(fraction))
}

fn evaluate_axis(seed: u64, position: Binary32, axis: u64) -> (value: Binary32)
    ensures
        value == axis_value(seed, position, axis),
{
    let shifted = position.sum(
        Binary32::from_integer(axis).product(Binary32::from_bits(0x3f00_0000)),
    );
    let bucket: u64 = shifted.floor();
    let fraction = smoothstep(shifted.difference(Binary32::from_integer(bucket)));
    let from = bucket_noise(seed, bucket.saturating_sub(1), axis);
    let to = bucket_noise(seed, bucket, axis);
    from.sum(to.difference(from).product(fraction))
}

/// A body scale is positive and finite.
pub open spec fn scale_usable(scale: Binary32) -> bool {
    scale.finite() && scale.positive()
}

/// A number is finite and not negative.
pub open spec fn forward(value: Binary32) -> bool {
    value.finite() && !value.less(Binary32 { bits: 0 })
}

/// Position of an elapsed time in buckets.
pub open spec fn bucket_position(profile: MicroMotionProfile, elapsed: Duration) -> Binary32 {
    seconds_of(elapsed@).over(seconds_of(profile.period@))
}

/// Phase of the breathing sine.
pub open spec fn phase_of(profile: MicroMotionProfile, elapsed: Duration) -> Binary32 {
    seconds_of(elapsed@).times(Binary32 { bits: TAU_BITS }).over(seconds_of(profile.breath_period@))
}

/// Breathing offset; `sine` is the sine of [`phase_of`].
pub open spec fn breath(
    profile: MicroMotionProfile,
    elapsed: Duration,
    scale: Binary32,
    sine: Binary32,
) -> Binary32 {
    let offset = profile.breath_amplitude_ratio.times(scale).times(sine);
    if !scale_usable(seconds_of(profile.breath_period@)) || !phase_of(profile, elapsed).finite()
        || !offset.finite() {
        Binary32 { bits: 0 }
    } else {
        offset
    }
}

/// The sway before it is checked to be finite.
pub open spec fn sway(
    profile: MicroMotionProfile,
    seed: u64,
    elapsed: Duration,
    scale: Binary32,
    sine: Binary32,
) -> IdleTarget {
    let position = bucket_position(profile, elapsed);
    IdleTarget {
        translation_x: profile.x_amplitude_ratio.times(scale).times(axis_value(seed, position, 0)),
        translation_y: breath(profile, elapsed, scale, sine),
        translation_z: profile.z_amplitude_ratio.times(scale).times(axis_value(seed, position, 1)),
        yaw_radians: profile.yaw_amplitude_radians.times(axis_value(seed, position, 2)),
        pitch_radians: profile.pitch_amplitude_radians.times(axis_value(seed, position, 3)),
    }
}

/// The idle target; see [`idle_target`].
pub open spec fn idle(
    profile: MicroMotionProfile,
    seed: u64,
    elapsed: Duration,
    scale: Binary32,
    sine: Binary32,
) -> IdleTarget {
    if profile.fault() is Some || !scale_usable(scale) || !forward(seconds_of(elapsed@))
        || !forward(bucket_position(profile, elapsed)) {
        IdleTarget::rest()
    } else {
        sway(profile, seed, elapsed, scale, sine).or_rest()
    }
}

/// The phase of the breathing sine at an elapsed time.
pub fn breath_phase(profile: &MicroMotionProfile, elapsed: Duration) -> (phase: Binary32)
    ensures
        phase == phase_of(*profile, elapsed),
{
    elapsed.as_secs().product(Binary32::from_bits(TAU_BITS)).quotient(
        profile.breath_period.as_secs(),
    )
}

/// Loss-scoped breathing offset in meters; `sine` is the sine of [`breath_phase`].
///
/// The motion starts at zero (no discontinuity at loss onset) and stays bounded by
/// the configured amplitude. A non-finite or non-positive intermediate result fails
/// closed to zero.
fn breath_offset(
    profile: &MicroMotionProfile,
    elapsed: Duration,
    body_scale_meters: Binary32,
    sine: Binary32,
) -> (offset: Binary32)
    ensures
        offset == breath(*profile, elapsed, body_scale_meters, sine),
{
    let period = profile.breath_period.as_secs();
    if !period.is_finite() || !period.is_positive() {
        return Binary32::zero();
    }
    if !breath_phase(profile, elapsed).is_finite() {
        return Binary32::zero();
    }
    let offset = profile.breath_amplitude_ratio.product(body_scale_meters).product(sine);
    if offset.is_finite() {
        offset
    } else {
        Binary32::zero()
    }
}

fn is_forward(value: Binary32) -> (result: bool)
    ensures
        result == forward(value),
{
    value.is_finite() && !value.is_less(Binary32::zero())
}

/// Computes the bounded idle target at `elapsed` since tracking was lost; `sine` is
/// the sine of [`breath_phase`].
///
/// Each axis oscillates between deterministic random bucket targets using a
/// smoothstep interpolation, so the output is continuous, bounded by the profile
/// amplitudes scaled by the body scale, and free of drift. The trajectory is a pure
/// function of time; onset smoothing (no snap at loss) is provided by
/// [`MicroMotionBlender`] and [`blended_idle_target`]. An invalid profile,
/// non-positive scale, or invalid duration yields zero.
#[must_use]
pub fn idle_target(
    profile: &MicroMotionProfile,
    seed: u64,
    elapsed: Duration,
    body_scale_meters: Binary32,
    sine: Binary32,
) -> (target: IdleTarget)
    ensures
        target == idle(*profile, seed, elapsed, body_scale_meters, sine),
        target.finite(),
{
    if profile.validate().is_err() || !body_scale_meters.is_finite()
        || !body_scale_meters.is_positive() {
        return IdleTarget::default();
    }
    let elapsed_secs = elapsed.as_secs();
    if !is_forward(elapsed_secs) {
        return IdleTarget::default();
    }
    let position = elapsed_secs.quotient(profile.period.as_secs());
    if !is_forward(position) {
        return IdleTarget::default();
    }
    let target = IdleTarget {
        translation_x: profile.x_amplitude_ratio.product(body_scale_meters).product(
            evaluate_axis(seed, position, 0),
        ),
        translation_y: breath_offset(profile, elapsed, body_scale_meters, sine),
        translation_z: profile.z_amplitude_ratio.product(body_scale_meters).product(
            evaluate_axis(seed, position, 1),
        ),
        yaw_radians: profile.yaw_amplitude_radians.product(evaluate_axis(seed, position, 2)),
        pitch_radians: profile.pitch_amplitude_radians.product(evaluate_axis(seed, position, 3)),
    };
    if target.is_finite() {
        target
    } else {
        IdleTarget::default()
    }
}

/// Blend envelope state machine for one loss episode.
///
/// Remembers since when the face is live or lost. After loss the blend follows the
/// smoothstep of the time since loss over the transition; after reacquire it follows
/// one minus the smoothstep of the time since reacquire over the transition. Both
/// directions are pure functions of capture timestamps, so the envelope is
/// sampling-rate independent and neither direction snaps. Stale state is cleared via
/// [`MicroMotionBlender::reset`] on avatar replacement/unload.
#[derive(Clone, Copy, Debug)]
pub struct MicroMotionBlender {
    transition_secs: Binary32,
    blend: Binary32,
    idle_started_at: Option<MonoTimeNs>,
    live_started_at: Option<MonoTimeNs>,
}

/// The larger of two numbers; a NaN gives way.
pub open spec fn larger_of(left: Binary32, right: Binary32) -> Binary32 {
    if left.nan() || left.less(right) {
        right
    } else {
        left
    }
}

/// Share of the transition that passed between two times.
pub open spec fn transition_share(transition: Binary32, start: MonoTimeNs, now: MonoTimeNs) -> Binary32 {
    seconds_of(now.since(start)).over(larger_of(transition, Binary32 { bits: EPSILON_BITS }))
}

/// The number, or zero where it is not finite.
pub open spec fn finite_or_zero(value: Binary32) -> Binary32 {
    if value.finite() {
        value
    } else {
        Binary32 { bits: 0 }
    }
}

/// The time at which the running episode started: a new one starts now.
pub open spec fn started(since: Option<MonoTimeNs>, now: MonoTimeNs) -> MonoTimeNs {
    match since {
        Some(start) => start,
        None => now,
    }
}

impl MicroMotionBlender {
    #[verifier::type_invariant]
    spec fn blends(self) -> bool {
        is_share(self.blend)
    }

    /// Length of the transition in seconds.
    pub closed spec fn transition(self) -> Binary32 {
        self.transition_secs
    }

    /// Current blend.
    pub closed spec fn current(self) -> Binary32 {
        self.blend
    }

    /// Since when the face is lost.
    pub closed spec fn idle_since(self) -> Option<MonoTimeNs> {
        self.idle_started_at
    }

    /// Since when the face is live again.
    pub closed spec fn live_since(self) -> Option<MonoTimeNs> {
        self.live_started_at
    }

    /// Creates a blender for the given profile.
    ///
    /// # Errors
    ///
    /// Rejects a transition of zero; other profile fields are validated by
    /// [`idle_target`].
    pub fn new(profile: &MicroMotionProfile) -> (result: Result<Self, MicroMotionProfileError>)
        ensures
            match result {
                Ok(blender) => {
                    &&& profile.transition@ > 0
                    &&& blender.transition() == seconds_of(profile.transition@)
                    &&& blender.current() == (Binary32 { bits: 0 })
                    &&& blender.idle_since() is None
                    &&& blender.live_since() is None
                },
                Err(error) => profile.transition@ == 0 && error
                    == MicroMotionProfileError::ZeroDuration,
            },
    {
        if profile.transition.is_zero() {
            return Err(MicroMotionProfileError::ZeroDuration);
        }
        Ok(
            MicroMotionBlender {
                transition_secs: profile.transition.as_secs(),
                blend: Binary32::zero(),
                idle_started_at: None,
                live_started_at: None,
            },
        )
    }

    /// Current blend factor in `[0, 1]`.
    #[must_use]
    pub fn blend(&self) -> (blend: Binary32)
        ensures
            blend == self.current(),
            is_share(blend),
    {
        proof {
            use_type_invariant(self);
        }
        self.blend
    }

    /// The blend after an evaluation.
    pub open spec fn next_blend(self, live: bool, now: MonoTimeNs) -> Binary32 {
        finite_or_zero(
            if live {
                Binary32 { bits: 0x3f80_0000 }.minus(
                    smooth(transition_share(self.transition(), started(self.live_since(), now), now)),
                )
            } else {
                smooth(transition_share(self.transition(), started(self.idle_since(), now), now))
            },
        )
    }

    /// Advances the envelope for one evaluation.
    ///
    /// When `live` is true the blend decays toward zero following the time since
    /// reacquire started; when false it rises following the time since loss started.
    /// Losing the face again mid-reacquire restarts the idle episode at blend zero,
    /// which only removes idle motion while the pose is held and never adds a jump
    /// into motion.
    pub fn update(&mut self, live: bool, now: MonoTimeNs) -> (blend: Binary32)
        ensures
            final(self).transition() == old(self).transition(),
            final(self).current() == old(self).next_blend(live, now),
            blend == final(self).current(),
            is_share(blend),
            live ==> final(self).live_since() == Some(started(old(self).live_since(), now)),
            live ==> final(self).idle_since() == (if old(self).live_since() is None {
                None
            } else {
                old(self).idle_since()
            }),
            !live ==> final(self).idle_since() == Some(started(old(self).idle_since(), now)),
            !live ==> final(self).live_since() == (if old(self).idle_since() is None {
                None
            } else {
                old(self).live_since()
            }),
    {
        proof {
            use_type_invariant(&*self);
        }
        let epsilon = Binary32::from_bits(EPSILON_BITS);
        let transition = if self.transition_secs.is_nan() || self.transition_secs.is_less(epsilon) {
            epsilon
        } else {
            self.transition_secs
        };
        if live {
            let start = match self.live_started_at {
                Some(start) => start,
                None => {
                    self.live_started_at = Some(now);
                    self.idle_started_at = None;
                    now
                },
            };
            let elapsed = now.elapsed_since(start).as_secs();
            let step = smoothstep(elapsed.quotient(transition));
            proof {
                lemma_unit_complement(step);
            }
            self.blend = Binary32::from_bits(0x3f80_0000).difference(step);
        } else {
            let start = match self.idle_started_at {
                Some(start) => start,
                None => {
                    self.idle_started_at = Some(now);
                    self.live_started_at = None;
                    now
                },
            };
            let elapsed = now.elapsed_since(start).as_secs();
            self.blend = smoothstep(elapsed.quotient(transition));
        }
        if !self.blend.is_finite() {
            self.blend = Binary32::zero();
        }
        self.blend.clamp(Binary32::zero(), Binary32::from_bits(0x3f80_0000))
    }

    /// Clears all episode state (avatar replacement / unload / reset).
    pub fn reset(&mut self)
        ensures
            final(self).transition() == old(self).transition(),
            final(self).current() == (Binary32 { bits: 0 }),
            final(self).idle_since() is None,
            final(self).live_since() is None,
    {
        self.blend = Binary32::zero();
        self.idle_started_at = None;
        self.live_started_at = None;
    }

    /// Whether an idle episode is currently recorded.
    #[must_use]
    pub fn has_episode(&self) -> (episode: bool)
        ensures
            episode == self.idle_since() is Some,
    {
        self.idle_started_at.is_some()
    }

    /// Time since the idle episode started, if one is recorded.
    #[must_use]
    pub fn elapsed_since_idle_start(&self, now: MonoTimeNs) -> (elapsed: Duration)
        ensures
            elapsed@ == (match self.idle_since() {
                Some(start) => now.since(start),
                None => 0,
            }),
    {
        match self.idle_started_at {
            Some(start) => now.elapsed_since(start),
            None => Duration::zero(),
        }
    }
}

/// A blend factor cut off at one.
pub open spec fn blend_factor(blend: Binary32) -> Binary32 {
    let one = Binary32 { bits: 0x3f80_0000 };
    if one.less(blend) {
        one
    } else {
        blend
    }
}

/// Composes the blended idle target for one evaluation; `sine` is the sine of
/// [`breath_phase`].
///
/// Returns zero while `blend` is zero; otherwise scales [`idle_target`] by the blend
/// factor so the motion fades in and out continuously. The result is always finite
/// and within the profile bounds scaled by `blend`.
#[must_use]
pub fn blended_idle_target(
    profile: &MicroMotionProfile,
    seed: u64,
    elapsed_since_loss: Duration,
    body_scale_meters: Binary32,
    sine: Binary32,
    blend: Binary32,
) -> (target: IdleTarget)
    ensures
        target == (if scale_usable(blend) {
            idle(*profile, seed, elapsed_since_loss, body_scale_meters, sine).times(
                blend_factor(blend),
            ).or_rest()
        } else {
            IdleTarget::rest()
        }),
        target.finite(),
{
    if !blend.is_finite() || !blend.is_positive() {
        return IdleTarget::default();
    }
    let one = Binary32::from_bits(0x3f80_0000);
    let factor = if one.is_less(blend) {
        one
    } else {
        blend
    };
    let target = idle_target(profile, seed, elapsed_since_loss, body_scale_meters, sine);
    let scaled = target.scaled(factor);
    if scaled.is_finite() {
        scaled
    } else {
        IdleTarget::default()
    }
}

/// Whether a control-frame state counts as live.
///
/// Only the tracking and degraded states hold a live observation; every other state
/// starts or continues an idle episode.
#[must_use]
pub fn is_tracked_state(state: TrackingState) -> (live: bool)
    ensures
        live == (state is Tracking || state is Degraded),
{
    matches!(state, TrackingState::Tracking | TrackingState::Degraded)
}

impl IdleTarget {
    /// No component is larger than that of the bounds.
    pub open spec fn within(self, bounds: Self) -> bool {
        &&& self.translation_x.magnitude() <= bounds.translation_x.magnitude()
        &&& self.translation_y.magnitude() <= bounds.translation_y.magnitude()
        &&& self.translation_z.magnitude() <= bounds.translation_z.magnitude()
        &&& self.yaw_radians.magnitude() <= bounds.yaw_radians.magnitude()
        &&& self.pitch_radians.magnitude() <= bounds.pitch_radians.magnitude()
    }
}

/// The amplitudes of a profile, those of translations scaled by the body scale.
pub open spec fn amplitudes(profile: MicroMotionProfile, scale: Binary32) -> IdleTarget {
    IdleTarget {
        translation_x: profile.x_amplitude_ratio.times(scale),
        translation_y: profile.breath_amplitude_ratio.times(scale),
        translation_z: profile.z_amplitude_ratio.times(scale),
        yaw_radians: profile.yaw_amplitude_radians,
        pitch_radians: profile.pitch_amplitude_radians,
    }
}

/// An axis swings between minus one and one.
pub proof fn lemma_axis_is_bounded(seed: u64, position: Binary32, axis: u64)
    ensures
        in_signed_range(axis_value(seed, position, axis)),
{
    let shifted = position.plus(
        Binary32::of_integer(axis as nat).times(Binary32 { bits: 0x3f00_0000 }),
    );
    let bucket = shifted.floored();
    let before: u64 = if bucket == 0 {
        0
    } else {
        (bucket - 1) as u64
    };
    lemma_noise_is_bounded(seed, before, axis);
    lemma_noise_is_bounded(seed, bucket, axis);
    let share = shifted.minus(Binary32::of_integer(bucket as nat));
    lemma_smooth_is_a_share(share);
    lemma_interpolation_is_bounded(
        noise(seed, before, axis),
        noise(seed, bucket, axis),
        smooth(share),
    );
}

/// The idle target never exceeds the amplitudes of the profile scaled by the body
/// scale, whenever it is evaluated; a sine lies between minus one and one.
pub proof fn lemma_idle_is_bounded(
    profile: MicroMotionProfile,
    seed: u64,
    elapsed: Duration,
    scale: Binary32,
    sine: Binary32,
)
    requires
        in_signed_range(sine),
    ensures
        idle(profile, seed, elapsed, scale, sine).within(amplitudes(profile, scale)),
{
    let position = bucket_position(profile, elapsed);
    let swayed = sway(profile, seed, elapsed, scale, sine);
    let bounds = amplitudes(profile, scale);
    lemma_axis_is_bounded(seed, position, 0);
    lemma_axis_is_bounded(seed, position, 1);
    lemma_axis_is_bounded(seed, position, 2);
    lemma_axis_is_bounded(seed, position, 3);
    if swayed.finite() {
        lemma_signed_factor_enlarges_nothing(
            bounds.translation_x,
            axis_value(seed, position, 0),
        );
        lemma_signed_factor_enlarges_nothing(
            bounds.translation_z,
            axis_value(seed, position, 1),
        );
        lemma_signed_factor_enlarges_nothing(bounds.yaw_radians, axis_value(seed, position, 2));
        lemma_signed_factor_enlarges_nothing(bounds.pitch_radians, axis_value(seed, position, 3));
        if bounds.translation_y.times(sine).finite() {
            lemma_signed_factor_enlarges_nothing(bounds.translation_y, sine);
        }
    }
}

/// The composed target never exceeds the scaled amplitudes times the blend factor.
pub proof fn lemma_blended_idle_is_bounded(
    profile: MicroMotionProfile,
    seed: u64,
    elapsed: Duration,
    scale: Binary32,
    sine: Binary32,
    blend: Binary32,
)
    requires
        in_signed_range(sine),
        scale_usable(blend),
    ensures
        idle(profile, seed, elapsed, scale, sine).times(blend_factor(blend)).or_rest().within(
            amplitudes(profile, scale).times(blend_factor(blend)),
        ),
{
    let target = idle(profile, seed, elapsed, scale, sine);
    let bounds = amplitudes(profile, scale);
    let factor = blend_factor(blend);
    lemma_idle_is_bounded(profile, seed, elapsed, scale, sine);
    if target.times(factor).finite() {
        lemma_scaling_keeps_order(target.translation_x, bounds.translation_x, factor);
        lemma_scaling_keeps_order(target.translation_y, bounds.translation_y, factor);
        lemma_scaling_keeps_order(target.translation_z, bounds.translation_z, factor);
        lemma_scaling_keeps_order(target.yaw_radians, bounds.yaw_radians, factor);
        lemma_scaling_keeps_order(target.pitch_radians, bounds.pitch_radians, factor);
    }
}

/// A loss episode starts without a snap: at the instant of loss the blend is zero,
/// and so is the composed target.
pub proof fn lemma_loss_starts_without_a_snap(blender: MicroMotionBlender, now: MonoTimeNs)
    requires
        blender.idle_since() is None,
    ensures
        blender.next_blend(false, now) == (Binary32 { bits: 0 }),
        !scale_usable(blender.next_blend(false, now)),
{
    lemma_no_time_is_zero();
    lemma_plus_zero_32(Binary32 { bits: 0x4040_0000 }, Binary32 { bits: SIGN_32 });
}

/// A transition that is over leaves the full idle motion.
pub proof fn lemma_transition_completes(blender: MicroMotionBlender, start: MonoTimeNs, now: MonoTimeNs)
    requires
        blender.idle_since() == Some(start),
        larger_of(blender.transition(), Binary32 { bits: EPSILON_BITS }).finite(),
        larger_of(blender.transition(), Binary32 { bits: EPSILON_BITS }).at_most(
            seconds_of(now.since(start)),
        ),
        transition_share(blender.transition(), start, now).finite(),
    ensures
        blender.next_blend(false, now) == one(),
{
    let elapsed = seconds_of(now.since(start));
    let transition = larger_of(blender.transition(), Binary32 { bits: EPSILON_BITS });
    lemma_seconds_are_plain(now.since(start));
    lemma_quotient_is_monotone(transition, elapsed, transition);
    lemma_self_quotient(transition);
    lemma_eased_ends();
}

/// A reacquired face starts the way back at the full blend, where a completed
/// transition had arrived.
pub proof fn lemma_reacquire_starts_at_the_full_blend(blender: MicroMotionBlender, now: MonoTimeNs)
    requires
        blender.live_since() is None,
    ensures
        blender.next_blend(true, now) == one(),
{
    lemma_no_time_is_zero();
    lemma_eased_starts();
    lemma_plus_zero_32(one(), Binary32 { bits: SIGN_32 });
}

/// Noise lies between minus one and one.
pub proof fn lemma_noise_is_bounded(seed: u64, bucket: u64, axis: u64)
    ensures
        noise(seed, bucket, axis).at_most(one()),
        one().negated().at_most(noise(seed, bucket, axis)),
{
    let hashed = mixed(seed ^ mixed(bucket.wrapping_mul(0x9e37_79b9).wrapping_add(axis)));
    let bits = noise_bits(seed, bucket, axis);
    let range = noise_range();
    let zero = Binary32 { bits: 0 };
    assert(hashed >> 11 <= 0x20_0000_0000_0000) by (bit_vector);
    lemma_integers_are_monotone(bits as nat, 0x20_0000_0000_0000);
    lemma_integer_is_plain(bits as nat);
    lemma_noise_range();
    let number = Binary32::of_integer(bits as nat);
    lemma_quotient_is_monotone(number, range, range);
    lemma_quotient_is_plain(number, range);
    let unit = number.over(range);
    lemma_product_is_monotone(unit, two(), one(), two());
    lemma_product_is_plain(unit, two());
    lemma_one_times(two());
    let doubled = unit.times(two());
    lemma_sum_is_monotone(doubled, one().negated(), two(), one().negated());
    lemma_sum_is_monotone(zero, one().negated(), doubled, one().negated());
    lemma_plus_zero_32(one().negated(), zero);
    lemma_two_minus_one();
}

/// The range of the noise is two to the fifty-third, and once itself.
proof fn lemma_noise_range()
    ensures
        Binary32::of_integer(0x20_0000_0000_0000) == noise_range(),
        noise_range().over(noise_range()) == one(),
{
    let m = NOISE_RANGE_BITS as nat;
    let units = magnitude_units(m, 23);
    lemma2_to64();
    lemma2_to64_rest();
    vstd::arithmetic::div_mod::lemma_fundamental_div_mod_converse(
        NOISE_RANGE_BITS as int,
        pow2(23) as int,
        180,
        0,
    );
    lemma_pow2_adds(23, 179);
    lemma_pow2_adds(53, 149);
    assert((pow2(23) + 0) * pow2(179) == pow2(23) * pow2(179)) by (nonlinear_arith);
    assert(units == pow2(53) * pow2(149));
    assert(pow2(53) == 0x20_0000_0000_0000);
    lemma_nearest_of_exact_32(m, 1);
    assert(units * 1 == units) by (nonlinear_arith);
    lemma_pow2_pos(202);
    lemma_units_of_one();
    lemma_nearest_of_exact_32(0x3f80_0000, units);
    assert(units * pow2(149) == pow2(149) * units) by (nonlinear_arith);
}

/// Two minus one is one.
proof fn lemma_two_minus_one()
    ensures
        two().plus(one().negated()) == one(),
{
    lemma_units_of_one();
    lemma_doubled_units(0x3f80_0000);
    lemma_pow2_pos(149);
    lemma2_to64();
    lemma2_to64_rest();
    lemma_nearest_of_exact_32(0x3f80_0000, 1);
    assert(pow2(149) * 1 == pow2(149)) by (nonlinear_arith);
}

} // verus!
