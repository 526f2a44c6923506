//! Scale-aware soft-cap and dt-aware state filtering for neutral-relative head
//! translation.
//!
//! The shaping policy passes small motions through untouched while only large
//! motions are compressed, so no dead zone is introduced and small inputs are
//! never erased.
//!
//! All knobs live in [`TranslationShapingProfile`]. The filter advances on actual
//! capture timestamps, never on render frame counts, so the same head motion
//! sampled at 30/60/120 FPS produces near-identical results.

use vstd::arithmetic::power2::{lemma2_to64, lemma2_to64_rest, lemma_pow2_pos, pow2};
use vstd::prelude::*;

use crate::arithmetic::{lemma_nearest_of_exact_32, lemma_plus_zero_32};
use crate::arithmetic_laws::{
    lemma_doubled_units, lemma_half, lemma_one_and_a_half, lemma_one_times,
    lemma_past_one_and_a_half, lemma_product_flips_sign, lemma_product_is_monotone,
    lemma_product_is_plain, lemma_rounded_is_a_number, lemma_small_units, lemma_sum_is_monotone,
    lemma_twice, lemma_units_of_one, lemma_units_of_zero, one, one_half, overshoots, plain,
    three_halves, two,
};
use crate::avatar::{HeadTranslationSignal, HeadTranslationState};
use crate::binary::{magnitude_units, Binary32};
use crate::clock::{seconds_of, Duration, MonoTimeNs};
use crate::rounding::{lemma_nearest_ratio_exists, lemma_nearest_ratio_is_monotone, nearest_ratio};

verus! {

/// Longest capture-time gap in nanoseconds before the filter restarts instead of
/// smoothing from a stale observation.
pub const MAX_GAP_NANOS: u64 = 1_000_000_000;

/// Typed profile for translation shaping thresholds.
///
/// Thresholds are expressed as ratios of the avatar's body scale and are multiplied
/// by an explicitly resolved body scale (meters) at shaping time.
#[derive(Clone, Copy, Debug, PartialEq, Eq, Structural)]
pub struct TranslationShapingProfile {
    /// Horizontal soft-cap threshold as a ratio of body scale.
    pub x_threshold_ratio: Binary32,
    /// Vertical soft-cap threshold as a ratio of body scale.
    ///
    /// Vertical motion is smaller than horizontal motion for typical webcam
    /// framing, so this is half of the horizontal seed.
    pub y_threshold_ratio: Binary32,
    /// Depth soft-cap threshold as a ratio of body scale.
    pub z_threshold_ratio: Binary32,
}

/// The default thresholds: `0.15`, `0.075` and `0.15`.
pub open spec fn default_thresholds() -> TranslationShapingProfile {
    TranslationShapingProfile {
        x_threshold_ratio: Binary32 { bits: 0x3e19_999a },
        y_threshold_ratio: Binary32 { bits: 0x3d99_999a },
        z_threshold_ratio: Binary32 { bits: 0x3e19_999a },
    }
}

impl Default for TranslationShapingProfile {
    fn default() -> (profile: Self)
        ensures
            profile == default_thresholds(),
    {
        TranslationShapingProfile {
            x_threshold_ratio: Binary32::from_bits(0x3e19_999a),
            y_threshold_ratio: Binary32::from_bits(0x3d99_999a),
            z_threshold_ratio: Binary32::from_bits(0x3e19_999a),
        }
    }
}

/// Errors produced while validating a [`TranslationShapingProfile`].
#[derive(Clone, Copy, Debug, PartialEq)]
pub enum ShapingProfileError {
    /// A threshold ratio was zero, negative, or non-finite.
    InvalidThreshold {
        /// Offending field name.
        name: &'static str,
        /// Offending value.
        value: Binary32,
    },
}

/// A ratio is positive and finite.
pub open spec fn ratio_usable(value: Binary32) -> bool {
    value.finite() && value.positive()
}

fn is_ratio_usable(value: Binary32) -> (usable: bool)
    ensures
        usable == ratio_usable(value),
{
    value.is_finite() && value.is_positive()
}

impl TranslationShapingProfile {
    /// The first threshold that is not usable, if one is not.
    pub open spec fn fault(self) -> Option<ShapingProfileError> {
        if !ratio_usable(self.x_threshold_ratio) {
            Some(
                ShapingProfileError::InvalidThreshold {
                    name: "x_threshold_ratio",
                    value: self.x_threshold_ratio,
                },
            )
        } else if !ratio_usable(self.y_threshold_ratio) {
            Some(
                ShapingProfileError::InvalidThreshold {
                    name: "y_threshold_ratio",
                    value: self.y_threshold_ratio,
                },
            )
        } else if !ratio_usable(self.z_threshold_ratio) {
            Some(
                ShapingProfileError::InvalidThreshold {
                    name: "z_threshold_ratio",
                    value: self.z_threshold_ratio,
                },
            )
        } else {
            None
        }
    }

    /// Validates that every ratio is positive and finite.
    ///
    /// # Errors
    ///
    /// Reports the first threshold ratio that is not a positive finite number.
    pub fn validate(&self) -> (result: Result<(), ShapingProfileError>)
        ensures
            match result {
                Ok(_) => self.fault() is None,
                Err(error) => self.fault() == Some(error),
            },
    {
        if !is_ratio_usable(self.x_threshold_ratio) {
            return Err(
                ShapingProfileError::InvalidThreshold {
                    name: "x_threshold_ratio",
                    value: self.x_threshold_ratio,
                },
            );
        }
        if !is_ratio_usable(self.y_threshold_ratio) {
            return Err(
                ShapingProfileError::InvalidThreshold {
                    name: "y_threshold_ratio",
                    value: self.y_threshold_ratio,
                },
            );
        }
        if !is_ratio_usable(self.z_threshold_ratio) {
            return Err(
                ShapingProfileError::InvalidThreshold {
                    name: "z_threshold_ratio",
                    value: self.z_threshold_ratio,
                },
            );
        }
        Ok(())
    }
}

/// One with the sign of a number.
pub open spec fn sign_of(value: Binary32) -> Binary32 {
    if value.less(Binary32 { bits: 0 }) {
        Binary32 { bits: 0xbf80_0000 }
    } else {
        Binary32 { bits: 0x3f80_0000 }
    }
}

/// The compressed magnitude between one and two thresholds.
pub open spec fn compressed(magnitude: Binary32, threshold: Binary32) -> Binary32 {
    threshold.plus(Binary32 { bits: 0x3f00_0000 }.times(magnitude.minus(threshold)))
}

/// The soft-capped value; see [`soft_cap_scalar`].
pub open spec fn soft_capped(value: Binary32, threshold: Binary32) -> Binary32 {
    let magnitude = value.absolute();
    if !value.finite() || !threshold.finite() || !threshold.positive() {
        value
    } else if magnitude.at_most(threshold) {
        value
    } else if magnitude.at_most(Binary32 { bits: 0x4000_0000 }.times(threshold)) {
        sign_of(value).times(compressed(magnitude, threshold))
    } else {
        sign_of(value).times(Binary32 { bits: 0x3fc0_0000 }).times(threshold)
    }
}

/// Soft-caps one scalar axis:
///
/// ```text
/// |v| <= t     -> v
/// |v| <= 2t    -> sign(v) * (t + 0.5 * (|v| - t))
/// |v| >  2t    -> sign(v) * 1.5 * t
/// ```
///
/// The curve is continuous across `0`, `±t`, and `±2t` and preserves the input
/// sign. `t` must be positive; non-positive or non-finite `t` returns the input
/// unchanged rather than manufacturing values.
#[must_use]
pub fn soft_cap_scalar(value: Binary32, threshold: Binary32) -> (capped: Binary32)
    ensures
        capped == soft_capped(value, threshold),
{
    if !value.is_finite() || !threshold.is_finite() || !threshold.is_positive() {
        return value;
    }
    let magnitude = value.abs();
    if magnitude.is_at_most(threshold) {
        return value;
    }
    let sign = if value.is_less(Binary32::zero()) {
        Binary32::from_bits(0xbf80_0000)
    } else {
        Binary32::from_bits(0x3f80_0000)
    };
    if magnitude.is_at_most(Binary32::from_bits(0x4000_0000).product(threshold)) {
        sign.product(
            threshold.sum(
                Binary32::from_bits(0x3f00_0000).product(magnitude.difference(threshold)),
            ),
        )
    } else {
        sign.product(Binary32::from_bits(0x3fc0_0000)).product(threshold)
    }
}

/// The shaped signal; see [`shape_translation`].
pub open spec fn shaped(
    signal: HeadTranslationSignal,
    profile: TranslationShapingProfile,
    body_scale: Binary32,
) -> HeadTranslationSignal {
    if signal.state is Unavailable || !ratio_usable(body_scale) {
        signal
    } else {
        HeadTranslationSignal::of(
            soft_capped(signal.x_meters, profile.x_threshold_ratio.times(body_scale)),
            soft_capped(signal.y_meters, profile.y_threshold_ratio.times(body_scale)),
            soft_capped(signal.z_meters, profile.z_threshold_ratio.times(body_scale)),
            signal.state,
        )
    }
}

/// Applies the profile's per-axis soft-cap to one translation signal.
///
/// Unavailable signals pass through unchanged, as does any signal under an unusable
/// body scale; availability state is preserved otherwise. Non-finite components
/// collapse to the unavailable signal.
#[must_use]
pub fn shape_translation(
    signal: HeadTranslationSignal,
    profile: &TranslationShapingProfile,
    body_scale_meters: Binary32,
) -> (result: HeadTranslationSignal)
    ensures
        result == shaped(signal, *profile, body_scale_meters),
{
    if !signal.is_available() || !is_ratio_usable(body_scale_meters) {
        return signal;
    }
    let x_meters = soft_cap_scalar(
        signal.x_meters,
        profile.x_threshold_ratio.product(body_scale_meters),
    );
    let y_meters = soft_cap_scalar(
        signal.y_meters,
        profile.y_threshold_ratio.product(body_scale_meters),
    );
    let z_meters = soft_cap_scalar(
        signal.z_meters,
        profile.z_threshold_ratio.product(body_scale_meters),
    );
    if x_meters.is_finite() && y_meters.is_finite() && z_meters.is_finite() {
        HeadTranslationSignal { x_meters, y_meters, z_meters, state: signal.state }
    } else {
        HeadTranslationSignal::unavailable()
    }
}

/// Errors produced while constructing a [`TranslationFilter`].
#[derive(Clone, Copy, Debug, PartialEq, Eq, Structural)]
pub enum FilterConfigError {
    /// Zero time constants cannot smooth.
    ZeroTau,
    /// The time constant overflowed or was non-finite.
    NonFiniteTau,
}

/// A smoothed observation.
#[derive(Clone, Copy, Debug, PartialEq, Eq, Structural)]
pub struct SmoothedSample {
    /// Smoothed signal.
    pub signal: HeadTranslationSignal,
    /// Capture time.
    pub captured_at: MonoTimeNs,
}

/// Timestamp-driven exponential smoother for head translation.
///
/// The smoothing factor is derived from the elapsed time between capture
/// timestamps, not from render ticks, making the output sampling-rate independent
/// for the same physical motion. There is deliberately no dead zone: small
/// observations always reach the output.
#[derive(Clone, Copy, Debug, PartialEq)]
pub struct TranslationFilter {
    tau: Duration,
    state: Option<SmoothedSample>,
}

/// A signal that can be smoothed.
pub open spec fn smoothable(signal: HeadTranslationSignal) -> bool {
    !(signal.state is Unavailable) && signal.finite()
}

/// The worse of two states.
pub open spec fn merged(a: HeadTranslationState, b: HeadTranslationState) -> HeadTranslationState {
    if a is Observed && b is Observed {
        HeadTranslationState::Observed
    } else {
        HeadTranslationState::Degraded
    }
}

fn merge_state(a: HeadTranslationState, b: HeadTranslationState) -> (state: HeadTranslationState)
    ensures
        state == merged(a, b),
{
    if matches!(a, HeadTranslationState::Observed) && matches!(b, HeadTranslationState::Observed) {
        HeadTranslationState::Observed
    } else {
        HeadTranslationState::Degraded
    }
}

/// Moves from one value toward another.
pub open spec fn moved(previous: Binary32, next: Binary32, alpha: Binary32) -> Binary32 {
    previous.plus(next.minus(previous).times(alpha))
}

/// The signal between the held one and a new one; `decay` is the exponential of
/// the negated elapsed time over the time constant.
pub open spec fn smoothed(
    previous: HeadTranslationSignal,
    next: HeadTranslationSignal,
    decay: Binary32,
) -> HeadTranslationSignal {
    let alpha = Binary32 { bits: 0x3f80_0000 }.minus(decay);
    HeadTranslationSignal::of(
        moved(previous.x_meters, next.x_meters, alpha),
        moved(previous.y_meters, next.y_meters, alpha),
        moved(previous.z_meters, next.z_meters, alpha),
        merged(previous.state, next.state),
    )
}

/// How an observation meets the held one.
pub enum FilterMove {
    /// The observation clears the filter.
    Clear,
    /// The observation is taken as it is.
    Restart,
    /// No time passed: the held values stay.
    Hold,
    /// The held values move toward the observation.
    Blend,
}

/// How an observation meets the held one: an unusable one clears, a first one and
/// one after a long gap restart, one without elapsed time holds.
pub open spec fn filter_move(
    held: Option<SmoothedSample>,
    signal: HeadTranslationSignal,
    captured_at: MonoTimeNs,
) -> FilterMove {
    if !smoothable(signal) {
        FilterMove::Clear
    } else if held is None {
        FilterMove::Restart
    } else if captured_at.since(held->0.captured_at) == 0 {
        FilterMove::Hold
    } else if captured_at.since(held->0.captured_at) > MAX_GAP_NANOS {
        FilterMove::Restart
    } else {
        FilterMove::Blend
    }
}

/// What the filter puts out.
pub open spec fn filtered(
    held: Option<SmoothedSample>,
    signal: HeadTranslationSignal,
    captured_at: MonoTimeNs,
    decay: Binary32,
) -> HeadTranslationSignal {
    match filter_move(held, signal, captured_at) {
        FilterMove::Clear => HeadTranslationSignal::none(),
        FilterMove::Restart => signal,
        FilterMove::Hold => HeadTranslationSignal {
            state: merged(held->0.signal.state, signal.state),
            ..held->0.signal
        },
        FilterMove::Blend => smoothed(held->0.signal, signal, decay),
    }
}

/// What the filter holds after that: its output, or nothing where that is
/// unavailable. Without elapsed time the held capture time stays.
pub open spec fn held_after(
    held: Option<SmoothedSample>,
    signal: HeadTranslationSignal,
    captured_at: MonoTimeNs,
    decay: Binary32,
) -> Option<SmoothedSample> {
    let output = filtered(held, signal, captured_at, decay);
    if output.state is Unavailable {
        None
    } else {
        Some(
            SmoothedSample {
                signal: output,
                captured_at: if filter_move(held, signal, captured_at) is Hold {
                    held->0.captured_at
                } else {
                    captured_at
                },
            },
        )
    }
}

impl TranslationFilter {
    /// The time constant in nanoseconds.
    pub closed spec fn time_constant(self) -> nat {
        self.tau@
    }

    /// The held observation.
    pub closed spec fn held(self) -> Option<SmoothedSample> {
        self.state
    }

    /// Creates a filter with the given time constant.
    ///
    /// # Errors
    ///
    /// Rejects a time constant of zero, and one whose seconds are not a positive
    /// finite number.
    pub fn new(tau: Duration) -> (result: Result<Self, FilterConfigError>)
        ensures
            match result {
                Ok(filter) => {
                    &&& tau@ > 0
                    &&& ratio_usable(seconds_of(tau@))
                    &&& filter.time_constant() == tau@
                    &&& filter.held() is None
                },
                Err(FilterConfigError::ZeroTau) => tau@ == 0,
                Err(FilterConfigError::NonFiniteTau) => tau@ > 0 && !ratio_usable(
                    seconds_of(tau@),
                ),
            },
    {
        if tau.is_zero() {
            return Err(FilterConfigError::ZeroTau);
        }
        let seconds = tau.as_secs();
        if !is_ratio_usable(seconds) {
            return Err(FilterConfigError::NonFiniteTau);
        }
        Ok(TranslationFilter { tau, state: None })
    }

    /// The exponent of the decay of an observation captured at this time: the
    /// negated elapsed time over the time constant.
    pub open spec fn exponent_at(self, captured_at: MonoTimeNs) -> Binary32 {
        seconds_of(captured_at.since(self.held()->0.captured_at)).negated().over(
            seconds_of(self.time_constant()),
        )
    }

    /// The exponent of the decay that [`TranslationFilter::update`] needs; none
    /// where it blends nothing.
    #[must_use]
    pub fn decay_exponent(&self, signal: HeadTranslationSignal, captured_at: MonoTimeNs) -> (exponent:
        Option<Binary32>)
        ensures
            exponent == (if filter_move(self.held(), signal, captured_at) is Blend {
                Some(self.exponent_at(captured_at))
            } else {
                None
            }),
    {
        if !is_smoothable(&signal) {
            return None;
        }
        match self.state {
            None => None,
            Some(previous) => {
                let dt_ns: u64 = captured_at.0.saturating_sub(previous.captured_at.0);
                if dt_ns == 0 || dt_ns > MAX_GAP_NANOS {
                    return None;
                }
                let elapsed = captured_at.elapsed_since(previous.captured_at);
                Some(elapsed.as_secs().neg().quotient(self.tau.as_secs()))
            },
        }
    }

    /// Feeds one observation stamped with its capture timestamp and returns the
    /// filtered signal; `decay` is the exponential of
    /// [`TranslationFilter::decay_exponent`], and is not read where there is none.
    ///
    /// An unavailable observation clears the internal state so stale motion is not
    /// held indefinitely. A gap longer than [`MAX_GAP_NANOS`] restarts the filter
    /// from the new observation instead of blending across it.
    #[must_use]
    pub fn update(
        &mut self,
        signal: HeadTranslationSignal,
        captured_at: MonoTimeNs,
        decay: Binary32,
    ) -> (output: HeadTranslationSignal)
        ensures
            output == filtered(old(self).held(), signal, captured_at, decay),
            final(self).held() == held_after(old(self).held(), signal, captured_at, decay),
            final(self).time_constant() == old(self).time_constant(),
    {
        if !is_smoothable(&signal) {
            self.state = None;
            return HeadTranslationSignal::unavailable();
        }
        let previous = match self.state {
            Some(previous) => previous,
            None => {
                self.state = Some(SmoothedSample { signal, captured_at });
                return signal;
            },
        };
        let held = previous.signal;
        let dt_ns: u64 = captured_at.0.saturating_sub(previous.captured_at.0);
        if dt_ns == 0 {
            let kept = HeadTranslationSignal {
                x_meters: held.x_meters,
                y_meters: held.y_meters,
                z_meters: held.z_meters,
                state: merge_state(held.state, signal.state),
            };
            self.state = Some(SmoothedSample { signal: kept, captured_at: previous.captured_at });
            return kept;
        }
        if dt_ns > MAX_GAP_NANOS {
            self.state = Some(SmoothedSample { signal, captured_at });
            return signal;
        }
        let alpha = Binary32::from_bits(0x3f80_0000).difference(decay);
        let x_meters = held.x_meters.sum(signal.x_meters.difference(held.x_meters).product(alpha));
        let y_meters = held.y_meters.sum(signal.y_meters.difference(held.y_meters).product(alpha));
        let z_meters = held.z_meters.sum(signal.z_meters.difference(held.z_meters).product(alpha));
        if x_meters.is_finite() && y_meters.is_finite() && z_meters.is_finite() {
            let blended = HeadTranslationSignal {
                x_meters,
                y_meters,
                z_meters,
                state: merge_state(held.state, signal.state),
            };
            self.state = Some(SmoothedSample { signal: blended, captured_at });
            blended
        } else {
            self.state = None;
            HeadTranslationSignal::unavailable()
        }
    }

    /// Clears the internal state immediately.
    pub fn reset(&mut self)
        ensures
            final(self).held() is None,
            final(self).time_constant() == old(self).time_constant(),
    {
        self.state = None;
    }

    /// Returns whether the filter currently holds a smoothed observation.
    #[must_use]
    pub fn has_state(&self) -> (held: bool)
        ensures
            held == self.held() is Some,
    {
        self.state.is_some()
    }
}

fn is_smoothable(signal: &HeadTranslationSignal) -> (usable: bool)
    ensures
        usable == smoothable(*signal),
{
    signal.is_available() && signal.x_meters.is_finite() && signal.y_meters.is_finite()
        && signal.z_meters.is_finite()
}

/// An unavailable observation leaves nothing held, whatever was held before: the
/// next one is taken as it is.
pub proof fn lemma_unavailable_observation_is_forgotten(
    held: Option<SmoothedSample>,
    signal: HeadTranslationSignal,
    next: HeadTranslationSignal,
    captured_at: MonoTimeNs,
    later: MonoTimeNs,
    decay: Binary32,
)
    requires
        signal.state is Unavailable,
        smoothable(next),
    ensures
        held_after(held, signal, captured_at, decay) is None,
        filtered(held_after(held, signal, captured_at, decay), next, later, decay) == next,
{
}

/// Nothing is blended across a long gap.
pub proof fn lemma_long_gap_restarts(
    held: SmoothedSample,
    signal: HeadTranslationSignal,
    captured_at: MonoTimeNs,
    decay: Binary32,
)
    requires
        smoothable(signal),
        captured_at.since(held.captured_at) > MAX_GAP_NANOS,
    ensures
        filtered(Some(held), signal, captured_at, decay) == signal,
{
}

/// What the filter puts out is finite, and held whenever it is available.
pub proof fn lemma_output_is_finite(
    held: Option<SmoothedSample>,
    signal: HeadTranslationSignal,
    captured_at: MonoTimeNs,
    decay: Binary32,
)
    requires
        held is Some ==> smoothable(held->0.signal),
    ensures
        filtered(held, signal, captured_at, decay).finite(),
        held_after(held, signal, captured_at, decay) matches Some(after) ==> smoothable(
            after.signal,
        ),
{
}

/// Motions up to the threshold pass through untouched.
pub proof fn lemma_small_motion_is_untouched(value: Binary32, threshold: Binary32)
    requires
        value.absolute().at_most(threshold),
    ensures
        soft_capped(value, threshold) == value,
{
}

/// What compression gives of a magnitude past the threshold: a number, at least the
/// threshold, and growing with the magnitude.
proof fn lemma_compression_grows(small: Binary32, large: Binary32, threshold: Binary32)
    requires
        plain(small),
        plain(large),
        plain(threshold),
        threshold.positive(),
        threshold.at_most(small),
        small.at_most(large),
    ensures
        threshold.at_most(compressed(small, threshold)),
        compressed(small, threshold).at_most(compressed(large, threshold)),
{
    let zero = Binary32 { bits: 0 };
    let back = threshold.negated();
    lemma_sum_is_monotone(threshold, back, small, back);
    lemma_sum_is_monotone(small, back, large, back);
    lemma_excess_is_plain(small, threshold);
    lemma_excess_is_plain(large, threshold);
    let low = small.minus(threshold);
    let high = large.minus(threshold);
    lemma_product_is_monotone(one_half(), low, one_half(), high);
    lemma_half_is_plain(low);
    lemma_half_is_plain(high);
    lemma_sum_is_monotone(threshold, zero, threshold, one_half().times(low));
    lemma_plus_zero_32(threshold, zero);
    lemma_sum_is_monotone(
        threshold,
        one_half().times(low),
        threshold,
        one_half().times(high),
    );
}

/// The excess over the threshold is a plain number.
proof fn lemma_excess_is_plain(magnitude: Binary32, threshold: Binary32)
    requires
        plain(magnitude),
        plain(threshold),
        threshold.positive(),
        threshold.at_most(magnitude),
    ensures
        plain(magnitude.minus(threshold)),
{
    let zero = Binary32 { bits: 0 };
    let back = threshold.negated();
    magnitude.lemma_rank_orders_values(threshold);
    lemma_sum_is_monotone(magnitude, back, magnitude, zero);
    lemma_plus_zero_32(magnitude, zero);
    let exact = magnitude.units() + back.units();
    if exact > 0 {
        lemma_rounded_is_a_number(exact as nat, 1);
    }
}

/// Half a plain number is plain.
proof fn lemma_half_is_plain(number: Binary32)
    requires
        plain(number),
    ensures
        plain(one_half().times(number)),
{
    lemma_product_is_plain(one_half(), number);
    lemma_product_is_monotone(one_half(), number, one(), number);
    lemma_one_times(number);
}

/// The capped value of a magnitude.
proof fn lemma_cap_of_magnitude(magnitude: Binary32, threshold: Binary32)
    requires
        plain(magnitude),
        plain(threshold),
        threshold.positive(),
    ensures
        soft_capped(magnitude, threshold) == (if magnitude.at_most(threshold) {
            magnitude
        } else if magnitude.at_most(two().times(threshold)) {
            compressed(magnitude, threshold)
        } else {
            three_halves().times(threshold)
        }),
        !soft_capped(magnitude, threshold).nan(),
        0 <= soft_capped(magnitude, threshold).rank(),
{
    lemma_one_times(three_halves());
    lemma_product_is_plain(three_halves(), threshold);
    if threshold.at_most(magnitude) {
        lemma_compression_grows(magnitude, magnitude, threshold);
        lemma_one_times(compressed(magnitude, threshold));
    }
}

/// A magnitude of at most two thresholds is compressed to at most one and a half.
proof fn lemma_compression_stays_below_the_cap(magnitude: Binary32, threshold: Binary32)
    requires
        plain(magnitude),
        plain(threshold),
        threshold.positive(),
        threshold.at_most(magnitude),
        magnitude.at_most(two().times(threshold)),
        two().times(threshold).finite(),
        !overshoots(threshold.magnitude()),
    ensures
        compressed(magnitude, threshold).at_most(three_halves().times(threshold)),
{
    let back = threshold.negated();
    let double = two().times(threshold);
    lemma_product_is_plain(two(), threshold);
    lemma_twice(threshold);
    lemma_compression_grows(magnitude, double, threshold);
    lemma_one_and_a_half(threshold);
    let exact = double.units() + back.units();
    assert(exact == threshold.units());
    lemma_exact_sum(threshold);
}

/// A plain number is what its own value rounds to.
proof fn lemma_exact_sum(number: Binary32)
    requires
        plain(number),
        number.magnitude() > 0,
    ensures
        nearest_ratio(number.units() as nat, 1, 23, 255) == number.magnitude(),
        number.units() > 0,
{
    let m = number.magnitude() as nat;
    number.lemma_rank_orders_values(Binary32 { bits: 0 });
    lemma_units_of_zero();
    lemma2_to64();
    lemma2_to64_rest();
    lemma_nearest_of_exact_32(m, 1);
    assert(magnitude_units(m, 23) * 1 == magnitude_units(m, 23)) by (nonlinear_arith);
}

/// A larger magnitude is not capped to a smaller one.
proof fn lemma_cap_grows(small: Binary32, large: Binary32, threshold: Binary32)
    requires
        plain(small),
        plain(large),
        plain(threshold),
        threshold.positive(),
        small.at_most(large),
        !overshoots(threshold.magnitude()),
    ensures
        soft_capped(small, threshold).at_most(soft_capped(large, threshold)),
{
    lemma_cap_of_magnitude(small, threshold);
    lemma_cap_of_magnitude(large, threshold);
    let double = two().times(threshold);
    lemma_product_is_plain(two(), threshold);
    lemma_product_is_plain(three_halves(), threshold);
    if large.at_most(threshold) {
    } else if large.at_most(double) {
        if small.at_most(threshold) {
            lemma_compression_grows(large, large, threshold);
        } else {
            lemma_compression_grows(small, large, threshold);
        }
    } else if small.at_most(threshold) {
        lemma_product_is_monotone(one(), threshold, three_halves(), threshold);
        lemma_one_times(threshold);
    } else if small.at_most(double) {
        lemma_compression_stays_below_the_cap(small, threshold);
    }
}

/// Capping a mirrored value mirrors the capped one: the curve is odd, and so keeps
/// the sign of its input.
pub proof fn lemma_cap_is_odd(value: Binary32, threshold: Binary32)
    requires
        value.finite(),
        threshold.finite(),
    ensures
        soft_capped(value.negated(), threshold) == soft_capped(value, threshold).negated(),
{
    let magnitude = value.absolute();
    if threshold.positive() && !magnitude.at_most(threshold) {
        lemma_cap_of_magnitude(magnitude, threshold);
        if threshold.at_most(magnitude) {
            lemma_compression_grows(magnitude, magnitude, threshold);
        }
        lemma_product_flips_sign(one(), compressed(magnitude, threshold));
        lemma_product_flips_sign(one(), three_halves());
        lemma_one_times(three_halves());
        lemma_product_flips_sign(three_halves(), threshold);
    }
}

/// The capped value has the sign of the value: there is no dead zone, and nothing
/// but zero is capped to zero.
pub proof fn lemma_cap_keeps_the_sign(value: Binary32, threshold: Binary32)
    requires
        value.finite(),
        threshold.finite(),
    ensures
        0 < value.rank() <==> 0 < soft_capped(value, threshold).rank(),
        value.rank() < 0 <==> soft_capped(value, threshold).rank() < 0,
{
    let magnitude = value.absolute();
    if threshold.positive() && !magnitude.at_most(threshold) {
        lemma_cap_of_magnitude(magnitude, threshold);
        lemma_cap_is_odd(magnitude, threshold);
        lemma_product_is_plain(three_halves(), threshold);
        lemma_product_is_monotone(one(), threshold, three_halves(), threshold);
        lemma_one_times(threshold);
        if magnitude.at_most(two().times(threshold)) {
            lemma_compression_grows(magnitude, magnitude, threshold);
        }
    }
}

/// Where the half of the threshold rounds up past the cap, the curve falls: two
/// thresholds are capped to more than the next larger number is.
pub proof fn lemma_cap_falls_where_the_half_overshoots(threshold: Binary32, next: Binary32)
    requires
        plain(threshold),
        overshoots(threshold.magnitude()),
        next.bits == two().times(threshold).bits + 1,
    ensures
        next.finite(),
        two().times(threshold).less(next),
        soft_capped(next, threshold).less(soft_capped(two().times(threshold), threshold)),
{
    let double = two().times(threshold);
    lemma_product_is_plain(two(), threshold);
    lemma_product_is_monotone(two(), threshold, two(), Binary32 { bits: 0x100_0000 });
    lemma_two_of_a_small_threshold();
    lemma_product_is_monotone(one(), threshold, two(), threshold);
    lemma_one_times(threshold);
    lemma_twice(threshold);
    let exact = double.units() + threshold.negated().units();
    assert(exact == threshold.units());
    lemma_exact_sum(threshold);
    assert(double.minus(threshold) == threshold);
    lemma_past_one_and_a_half(threshold);
    lemma_cap_of_magnitude(double, threshold);
    lemma_cap_of_magnitude(next, threshold);
    threshold.lemma_rank_orders_values(double);
}

/// Twice two to the twenty-fourth smallest units is finite.
proof fn lemma_two_of_a_small_threshold()
    ensures
        two().times(Binary32 { bits: 0x100_0000 }).magnitude() == 0x180_0000,
{
    let m = 0x100_0000nat;
    lemma_doubled_units(0x3f80_0000);
    lemma_units_of_one();
    lemma_doubled_units(m);
    lemma_pow2_pos(149);
    let u = magnitude_units(m, 23);
    let unit = pow2(149);
    assert((2 * unit) * u == (2 * u) * unit) by (nonlinear_arith);
    lemma2_to64();
    lemma2_to64_rest();
    lemma_nearest_of_exact_32(0x180_0000, unit);
}

/// The curve never falls: a larger value is not capped to a smaller one. Left out
/// are the tiny thresholds whose half rounds up past the cap, where it does fall
/// (see [`lemma_cap_falls_where_the_half_overshoots`]).
pub proof fn lemma_cap_never_falls(small: Binary32, large: Binary32, threshold: Binary32)
    requires
        small.finite(),
        large.finite(),
        small.at_most(large),
        threshold.finite(),
        threshold.positive(),
        !overshoots(threshold.magnitude()),
    ensures
        soft_capped(small, threshold).at_most(soft_capped(large, threshold)),
{
    let low = small.absolute();
    let high = large.absolute();
    lemma_cap_of_magnitude(low, threshold);
    lemma_cap_of_magnitude(high, threshold);
    lemma_cap_is_odd(low, threshold);
    lemma_cap_is_odd(high, threshold);
    if small.rank() >= 0 {
        lemma_cap_grows(low, high, threshold);
    } else if large.rank() <= 0 {
        lemma_cap_grows(high, low, threshold);
    }
}

/// Half of a rounded difference is at most the exact one.
proof fn lemma_half_of_difference(magnitude: Binary32, threshold: Binary32)
    requires
        plain(magnitude),
        plain(threshold),
        threshold.positive(),
        threshold.less(magnitude),
    ensures
        ({
            let half = one_half().times(magnitude.minus(threshold));
            plain(half) && half.units() <= magnitude.units() - threshold.units()
        }),
{
    let difference = magnitude.minus(threshold);
    let exact = (magnitude.units() - threshold.units()) as nat;
    threshold.lemma_rank_orders_values(magnitude);
    lemma_nearest_ratio_exists(exact, 1, 23, 255);
    lemma_rounded_is_a_number(exact, 1);
    lemma_excess_is_plain(magnitude, threshold);
    let m = nearest_ratio(exact, 1, 23, 255);
    assert(m == difference.magnitude());
    assert(plain(difference));
    lemma_half_is_plain(difference);
    if m >= 0x100_0000 || m % 4 != 3 {
        lemma_half(difference);
        if m == 0 {
            lemma_units_of_zero();
        }
    } else {
        lemma_small_units((m - 1) as nat);
        lemma_small_units(m);
        lemma_small_units(m + 1);
        let half = one_half().times(difference);
        lemma_product_is_monotone(one_half(), difference, one(), difference);
        lemma_one_times(difference);
        half.lemma_rank_orders_values(difference);
    }
}

/// Capping only compresses: no value grows.
pub proof fn lemma_cap_never_enlarges(value: Binary32, threshold: Binary32)
    requires
        value.finite(),
        threshold.finite(),
    ensures
        soft_capped(value, threshold).magnitude() <= value.magnitude(),
{
    let magnitude = value.absolute();
    if threshold.positive() && !magnitude.at_most(threshold) {
        let double = two().times(threshold);
        lemma_cap_of_magnitude(magnitude, threshold);
        lemma_cap_is_odd(magnitude, threshold);
        lemma_product_is_plain(two(), threshold);
        lemma_product_is_plain(three_halves(), threshold);
        if magnitude.at_most(double) {
            let half = one_half().times(magnitude.minus(threshold));
            lemma_half_of_difference(magnitude, threshold);
            let exact = (threshold.units() + half.units()) as nat;
            lemma_exact_sum(magnitude);
            lemma_exact_sum(threshold);
            lemma_nearest_ratio_is_monotone(exact, magnitude.units() as nat, 1, 23, 255);
        } else {
            lemma_product_is_monotone(three_halves(), threshold, two(), threshold);
        }
    }
}

} // verus!
