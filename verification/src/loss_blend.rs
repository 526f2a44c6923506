//! Unified tracking-loss ramp shared by the arm channels and the face
//! pipeline.
//!
//! A tracked channel that is lost must not snap: it holds the authority it
//! had when it was lost for [`LossBlendProfile::hold`], then eases back to the
//! relaxed pose over [`LossBlendProfile::return_duration`]. A reacquired
//! channel ramps back to full authority over [`LossBlendProfile::acquire`],
//! continuing from wherever the return had decayed to.

use vstd::arithmetic::power2::{lemma_pow2_pos, pow2};
use vstd::prelude::*;

use crate::arithmetic::{lemma_plus_zero_32, lemma_times_one_32};
use crate::arithmetic_laws::{lemma_quotient_is_plain, lemma_sum_is_monotone};
use crate::binary::Binary32;
use crate::clock::{
    lemma_no_time_is_zero, lemma_seconds_are_plain, seconds_of, Duration, MonoTimeNs, MAX_SPAN_NANOS,
};
use crate::unit_range::{
    eased, is_share, lemma_complement_error, lemma_eased_is_a_share, lemma_eased_keeps_rising,
    lemma_eased_starts, lemma_ramp_ends, lemma_ramp_is_a_share, lemma_ramp_starts, lemma_unit_complement,
    lemma_unit_product, three,
};

verus! {

/// Minimum duration for the loss hold, in milliseconds.
pub const MIN_HOLD_DURATION: u64 = 10;

/// Maximum duration for the loss hold, in milliseconds.
pub const MAX_HOLD_DURATION: u64 = 1_000;

/// Minimum duration for the eased return to the relaxed pose, in milliseconds.
pub const MIN_RETURN_DURATION: u64 = 100;

/// Maximum duration for the eased return to the relaxed pose, in milliseconds.
pub const MAX_RETURN_DURATION: u64 = 10_000;

/// Minimum duration for the reacquire authority ramp, in milliseconds.
pub const MIN_ACQUIRE_DURATION: u64 = 20;

/// Maximum duration for the reacquire authority ramp, in milliseconds.
pub const MAX_ACQUIRE_DURATION: u64 = 2_000;

/// Errors produced while validating a [`LossBlendProfile`].
#[derive(Clone, Copy, Debug, PartialEq)]
pub enum LossBlendConfigError {
    /// A duration was zero, so the timeline boundary would be ambiguous.
    ZeroDuration {
        /// Name of the offending field.
        field: &'static str,
    },
    /// A duration was outside its permitted fixed range.
    DurationOutOfRange {
        /// Name of the offending field.
        field: &'static str,
        /// Minimum permitted duration.
        min: Duration,
        /// Maximum permitted duration.
        max: Duration,
        /// Supplied duration.
        got: Duration,
    },
}

/// Timing of the unified tracking-loss ramp.
#[derive(Clone, Copy, Debug, PartialEq)]
pub struct LossBlendProfile {
    /// How long a lost channel keeps its last value before returning.
    pub hold: Duration,
    /// How long the eased return to the relaxed pose takes after the hold.
    pub return_duration: Duration,
    /// How long a fully reacquired channel takes to blend back in.
    pub acquire: Duration,
}

/// The duration lies in the range, bounds given in milliseconds.
pub open spec fn in_millis_range(span: Duration, min: u64, max: u64) -> bool {
    min * 1_000_000 <= span@ <= max * 1_000_000
}

/// The error is the one owed for a duration outside its range.
pub open spec fn is_range_error(
    error: LossBlendConfigError,
    name: Seq<char>,
    span: Duration,
    least: u64,
    most: u64,
) -> bool {
    match error {
        LossBlendConfigError::ZeroDuration { field } => span@ == 0 && field@ == name,
        LossBlendConfigError::DurationOutOfRange { field, min, max, got } => {
            &&& span@ != 0
            &&& !in_millis_range(span, least, most)
            &&& field@ == name
            &&& min@ == least * 1_000_000
            &&& max@ == most * 1_000_000
            &&& got == span
        },
    }
}

/// The error is the one owed for the first duration that is out of range.
pub open spec fn is_config_error(profile: LossBlendProfile, error: LossBlendConfigError) -> bool {
    if !in_millis_range(profile.hold, MIN_HOLD_DURATION, MAX_HOLD_DURATION) {
        is_range_error(error, "hold"@, profile.hold, MIN_HOLD_DURATION, MAX_HOLD_DURATION)
    } else if !in_millis_range(
        profile.return_duration,
        MIN_RETURN_DURATION,
        MAX_RETURN_DURATION,
    ) {
        is_range_error(
            error,
            "return_duration"@,
            profile.return_duration,
            MIN_RETURN_DURATION,
            MAX_RETURN_DURATION,
        )
    } else {
        &&& !in_millis_range(profile.acquire, MIN_ACQUIRE_DURATION, MAX_ACQUIRE_DURATION)
        &&& is_range_error(
            error,
            "acquire"@,
            profile.acquire,
            MIN_ACQUIRE_DURATION,
            MAX_ACQUIRE_DURATION,
        )
    }
}

impl Default for LossBlendProfile {
    fn default() -> (profile: Self)
        ensures
            profile.hold@ == 150_000_000,
            profile.return_duration@ == 5_000_000_000,
            profile.acquire@ == 1_000_000_000,
            profile.valid(),
    {
        LossBlendProfile {
            hold: Duration::from_millis(150),
            return_duration: Duration::from_secs(5),
            acquire: Duration::from_secs(1),
        }
    }
}

/// Checks one duration against its range.
fn validate_span(field: &'static str, span: Duration, least: u64, most: u64) -> (result: Result<
    (),
    LossBlendConfigError,
>)
    requires
        0 < least <= most <= 10_000,
    ensures
        match result {
            Ok(_) => in_millis_range(span, least, most),
            Err(error) => is_range_error(error, field@, span, least, most),
        },
{
    let min = Duration::from_millis(least);
    let max = Duration::from_millis(most);
    if span.is_zero() {
        return Err(LossBlendConfigError::ZeroDuration { field });
    }
    if span.is_shorter(&min) || max.is_shorter(&span) {
        return Err(LossBlendConfigError::DurationOutOfRange { field, min, max, got: span });
    }
    Ok(())
}

impl LossBlendProfile {
    /// Every duration is in range.
    pub open spec fn valid(self) -> bool {
        &&& in_millis_range(self.hold, MIN_HOLD_DURATION, MAX_HOLD_DURATION)
        &&& in_millis_range(self.return_duration, MIN_RETURN_DURATION, MAX_RETURN_DURATION)
        &&& in_millis_range(self.acquire, MIN_ACQUIRE_DURATION, MAX_ACQUIRE_DURATION)
    }

    /// Validates that every duration is non-zero and in range, in the order
    /// hold, return, acquire.
    ///
    /// # Errors
    ///
    /// Returns [`LossBlendConfigError`] for a zero or out-of-range duration.
    pub fn validate(&self) -> (result: Result<(), LossBlendConfigError>)
        ensures
            match result {
                Ok(_) => self.valid(),
                Err(error) => is_config_error(*self, error),
            },
    {
        if let Err(error) = validate_span("hold", self.hold, MIN_HOLD_DURATION, MAX_HOLD_DURATION) {
            return Err(error);
        }
        if let Err(error) = validate_span(
            "return_duration",
            self.return_duration,
            MIN_RETURN_DURATION,
            MAX_RETURN_DURATION,
        ) {
            return Err(error);
        }
        validate_span("acquire", self.acquire, MIN_ACQUIRE_DURATION, MAX_ACQUIRE_DURATION)
    }
}

/// Bit pattern of one.
pub const ONE_BITS: u32 = 0x3f80_0000;

/// Bit pattern of two.
pub const TWO_BITS: u32 = 0x4000_0000;

/// Bit pattern of three.
pub const THREE_BITS: u32 = 0x4040_0000;

/// `v * v * (3 - 2 * v)` of the value clamped to `0..=1`.
pub open spec fn smoothstep_of(value: Binary32) -> Binary32 {
    let v = value.clamped(Binary32 { bits: 0 }, Binary32 { bits: ONE_BITS });
    v.times(v).times(
        (Binary32 { bits: THREE_BITS }).minus((Binary32 { bits: TWO_BITS }).times(v)),
    )
}

/// Full during the hold, then eased, then zero.
pub open spec fn loss_factor_of(elapsed: nat, profile: LossBlendProfile) -> Binary32 {
    if elapsed <= profile.hold@ {
        Binary32 { bits: ONE_BITS }
    } else if elapsed - profile.hold@ >= profile.return_duration@ {
        Binary32 { bits: 0 }
    } else {
        (Binary32 { bits: ONE_BITS }).minus(
            smoothstep_of(
                seconds_of((elapsed - profile.hold@) as nat).over(
                    seconds_of(profile.return_duration@),
                ),
            ),
        )
    }
}

/// Eased until the ramp is over, then full.
pub open spec fn acquire_factor_of(elapsed: nat, profile: LossBlendProfile) -> Binary32 {
    if elapsed >= profile.acquire@ {
        Binary32 { bits: ONE_BITS }
    } else {
        smoothstep_of(seconds_of(elapsed).over(seconds_of(profile.acquire@)))
    }
}

/// Easing stays between zero and one.
pub proof fn lemma_smoothstep_is_a_share(value: Binary32)
    requires
        !value.nan(),
    ensures
        is_share(smoothstep_of(value)),
{
    let v = value.clamped(Binary32 { bits: 0 }, Binary32 { bits: ONE_BITS });
    if v.negative() {
        lemma_plus_zero_32(three(), Binary32 { bits: 0 });
    } else {
        lemma_eased_is_a_share(v);
    }
}

/// The loss factor stays between zero and one.
pub proof fn lemma_loss_factor_is_a_share(elapsed: nat, profile: LossBlendProfile)
    requires
        profile.return_duration@ <= MAX_SPAN_NANOS,
    ensures
        is_share(loss_factor_of(elapsed, profile)),
{
    if profile.hold@ < elapsed < profile.hold@ + profile.return_duration@ {
        let past = (elapsed - profile.hold@) as nat;
        let total = seconds_of(profile.return_duration@);
        lemma_seconds_are_plain(past);
        lemma_seconds_are_plain(profile.return_duration@);
        lemma_quotient_is_plain(seconds_of(past), total);
        lemma_smoothstep_is_a_share(seconds_of(past).over(total));
        lemma_unit_complement(smoothstep_of(seconds_of(past).over(total)));
    }
}

/// How far the eased return has come, from zero to one.
pub open spec fn return_progress(elapsed: nat, profile: LossBlendProfile) -> Binary32 {
    if elapsed <= profile.hold@ {
        Binary32 { bits: 0 }
    } else {
        seconds_of((elapsed - profile.hold@) as nat).over(
            seconds_of(profile.return_duration@),
        ).clamped(Binary32 { bits: 0 }, Binary32 { bits: ONE_BITS })
    }
}

/// The loss factor falls with time: out of the hold, into the end, and wherever the
/// return has come at least `3 / 4096` of its way between two moments. Between
/// closer moments the rounding of the eased curve can lift its last bits, by no
/// more than [`lemma_loss_factor_rises_by_rounding_only`] says.
pub proof fn lemma_loss_factor_falls(earlier: nat, later: nat, profile: LossBlendProfile)
    requires
        profile.return_duration@ <= MAX_SPAN_NANOS,
        earlier <= later,
        earlier <= profile.hold@ || later >= profile.hold@ + profile.return_duration@ || 4096 * (
        return_progress(later, profile).units() - return_progress(earlier, profile).units()) >= 3
            * pow2(149),
    ensures
        loss_factor_of(later, profile).at_most(loss_factor_of(earlier, profile)),
{
    lemma_loss_factor_is_a_share(earlier, profile);
    lemma_loss_factor_is_a_share(later, profile);
    if profile.hold@ < earlier && later < profile.hold@ + profile.return_duration@ {
        let low = return_progress(earlier, profile);
        let high = return_progress(later, profile);
        lemma_progress_is_a_share(earlier, profile);
        lemma_progress_is_a_share(later, profile);
        lemma_pow2_pos(149);
        low.lemma_rank_orders_values(high);
        lemma_eased_keeps_rising(low, high);
        lemma_eased_is_a_share(low);
        lemma_eased_is_a_share(high);
        let one = Binary32 { bits: ONE_BITS };
        lemma_sum_is_monotone(one, eased(high).negated(), one, eased(low).negated());
    }
}

/// Wherever the return goes on, the factor rises by no more than ten
/// sixteen-millionths.
pub proof fn lemma_loss_factor_rises_by_rounding_only(
    earlier: nat,
    later: nat,
    profile: LossBlendProfile,
)
    requires
        profile.return_duration@ <= MAX_SPAN_NANOS,
        earlier <= later,
        return_progress(earlier, profile).at_most(return_progress(later, profile)),
    ensures
        loss_factor_of(later, profile).units() <= loss_factor_of(earlier, profile).units() + 10
            * pow2(125),
{
    lemma_loss_factor_is_a_share(earlier, profile);
    lemma_loss_factor_is_a_share(later, profile);
    lemma_pow2_pos(125);
    if profile.hold@ < earlier && later < profile.hold@ + profile.return_duration@ {
        let low = return_progress(earlier, profile);
        let high = return_progress(later, profile);
        lemma_progress_is_a_share(earlier, profile);
        lemma_progress_is_a_share(later, profile);
        lemma_eased_keeps_rising(low, high);
        lemma_eased_is_a_share(low);
        lemma_eased_is_a_share(high);
        lemma_complement_error(eased(low));
        lemma_complement_error(eased(high));
    } else {
        lemma_loss_factor_falls(earlier, later, profile);
        loss_factor_of(later, profile).lemma_rank_orders_values(loss_factor_of(earlier, profile));
    }
}

proof fn lemma_progress_is_a_share(elapsed: nat, profile: LossBlendProfile)
    requires
        profile.return_duration@ <= MAX_SPAN_NANOS,
        profile.hold@ < elapsed < profile.hold@ + profile.return_duration@,
    ensures
        is_share(return_progress(elapsed, profile)),
        loss_factor_of(elapsed, profile) == (Binary32 { bits: ONE_BITS }).minus(
            eased(return_progress(elapsed, profile)),
        ),
{
    let past = (elapsed - profile.hold@) as nat;
    lemma_seconds_are_plain(past);
    lemma_seconds_are_plain(profile.return_duration@);
    lemma_quotient_is_plain(seconds_of(past), seconds_of(profile.return_duration@));
}

/// Smoothstep easing on `0.0..=1.0` with zero slope at both ends.
pub fn smoothstep(value: Binary32) -> (eased: Binary32)
    ensures
        eased == smoothstep_of(value),
        !value.nan() ==> is_share(eased),
{
    proof {
        if !value.nan() {
            lemma_smoothstep_is_a_share(value);
        }
    }
    let v = value.clamp(Binary32::zero(), Binary32::from_bits(ONE_BITS));
    v.product(v).product(
        Binary32::from_bits(THREE_BITS).difference(Binary32::from_bits(TWO_BITS).product(v)),
    )
}

/// Loss-ease factor in `[0, 1]` for `elapsed` since the channel was lost.
///
/// `1.0` during the hold, then `1 - smoothstep((elapsed - hold) / return)`,
/// then `0`. This is the timeline a lost authority follows down to the relaxed
/// pose.
pub fn loss_return_factor(elapsed: Duration, profile: &LossBlendProfile) -> (factor: Binary32)
    ensures
        factor == loss_factor_of(elapsed@, *profile),
        is_share(factor),
{
    if !profile.hold.is_shorter(&elapsed) {
        Binary32::from_bits(ONE_BITS)
    } else {
        let past = elapsed.saturating_sub(&profile.hold);
        if !past.is_shorter(&profile.return_duration) {
            Binary32::zero()
        } else {
            let past_secs = past.as_secs();
            let return_secs = profile.return_duration.as_secs();
            let eased = smoothstep(past_secs.quotient(return_secs));
            proof {
                lemma_quotient_is_plain(past_secs, return_secs);
                lemma_unit_complement(eased);
            }
            Binary32::from_bits(ONE_BITS).difference(eased)
        }
    }
}

/// Reacquire-ramp factor in `[0, 1]` for `elapsed` since the channel was
/// reacquired. Smoothstep-shaped so the ramp accelerates and settles.
pub fn acquire_factor(elapsed: Duration, profile: &LossBlendProfile) -> (factor: Binary32)
    ensures
        factor == acquire_factor_of(elapsed@, *profile),
        is_share(factor),
{
    if elapsed.is_shorter(&profile.acquire) {
        let elapsed_secs = elapsed.as_secs();
        let acquire_secs = profile.acquire.as_secs();
        proof {
            lemma_quotient_is_plain(elapsed_secs, acquire_secs);
        }
        smoothstep(elapsed_secs.quotient(acquire_secs))
    } else {
        Binary32::from_bits(ONE_BITS)
    }
}

/// A per-channel display blend that advances on render ticks and observations.
///
/// A present channel rises toward full authority over the acquire time; a lost
/// channel holds the authority it had when it was lost, then eases to zero over
/// the return time. Both continue from the current weight, so losing a channel
/// mid-acquire and reacquiring one mid-return never jump.
#[derive(Clone, Copy, Debug, PartialEq)]
pub struct LossBlend {
    /// Current authority weight in `[0, 1]`.
    pub weight: Binary32,
    /// Whether the channel was present at the last tick.
    pub present: bool,
    /// Time of the last loss.
    pub lost_at: MonoTimeNs,
    /// Weight at the last loss.
    pub loss_weight: Binary32,
    /// Weight the current acquire ramp started from.
    pub acquire_start_weight: Binary32,
    /// Time the current acquire ramp started at.
    pub acquired_at: MonoTimeNs,
}

impl LossBlend {
    /// Every recorded weight lies between zero and one.
    pub open spec fn valid(self) -> bool {
        &&& is_share(self.weight)
        &&& is_share(self.loss_weight)
        &&& is_share(self.acquire_start_weight)
    }

    /// Weight and start time of the ramp that a tick at `now` belongs to.
    pub open spec fn ramp(self, now: MonoTimeNs, present: bool) -> (Binary32, MonoTimeNs) {
        if present == self.present {
            if present {
                (self.acquire_start_weight, self.acquired_at)
            } else {
                (self.loss_weight, self.lost_at)
            }
        } else {
            (self.weight, now)
        }
    }

    /// A blend at zero authority, waiting for its first observation.
    pub fn new() -> (blend: Self)
        ensures
            blend.weight.bits == 0,
            !blend.present,
            blend.lost_at.0 == 0,
            blend.loss_weight.bits == 0,
            blend.acquire_start_weight.bits == 0,
            blend.acquired_at.0 == 0,
            blend.valid(),
    {
        LossBlend {
            weight: Binary32::zero(),
            present: false,
            lost_at: MonoTimeNs(0),
            loss_weight: Binary32::zero(),
            acquire_start_weight: Binary32::zero(),
            acquired_at: MonoTimeNs(0),
        }
    }

    /// Current authority weight in `[0, 1]`.
    pub fn weight(&self) -> (weight: Binary32)
        ensures
            weight == self.weight,
    {
        self.weight
    }

    /// Advances the blend one tick.
    ///
    /// A newly present channel starts an acquire ramp from its current weight;
    /// a newly lost channel records its weight and starts the hold/return
    /// timeline.
    pub fn advance(&mut self, now: MonoTimeNs, present: bool, profile: &LossBlendProfile)
        ensures
            old(self).valid() ==> final(self).valid(),
            final(self).present == present,
            ({
                let (start, since) = old(self).ramp(now, present);
                let elapsed = now.since(since);
                let one = Binary32 { bits: ONE_BITS };
                if present {
                    &&& final(self).acquire_start_weight == start
                    &&& final(self).acquired_at == since
                    &&& final(self).lost_at == old(self).lost_at
                    &&& final(self).loss_weight == old(self).loss_weight
                    &&& final(self).weight == start.plus(
                        one.minus(start).times(acquire_factor_of(elapsed, *profile)),
                    )
                } else {
                    &&& final(self).loss_weight == start
                    &&& final(self).lost_at == since
                    &&& final(self).acquire_start_weight == old(self).acquire_start_weight
                    &&& final(self).acquired_at == old(self).acquired_at
                    &&& final(self).weight == start.times(loss_factor_of(elapsed, *profile))
                }
            }),
    {
        if present {
            if !self.present {
                self.present = true;
                self.acquire_start_weight = self.weight;
                self.acquired_at = now;
            }
            let elapsed = now.elapsed_since(self.acquired_at);
            let missing = Binary32::from_bits(ONE_BITS).difference(self.acquire_start_weight);
            let factor = acquire_factor(elapsed, profile);
            self.weight = self.acquire_start_weight.sum(missing.product(factor));
            proof {
                if old(self).valid() {
                    lemma_ramp_is_a_share(self.acquire_start_weight, factor);
                }
            }
        } else {
            if self.present {
                self.present = false;
                self.lost_at = now;
                self.loss_weight = self.weight;
            }
            let elapsed = now.elapsed_since(self.lost_at);
            let factor = loss_return_factor(elapsed, profile);
            self.weight = self.loss_weight.product(factor);
            proof {
                if old(self).valid() {
                    lemma_unit_product(self.loss_weight, factor);
                }
            }
        }
    }
}

impl Default for LossBlend {
    fn default() -> (blend: Self)
        ensures
            blend.weight.bits == 0,
            !blend.present,
            blend.valid(),
    {
        LossBlend::new()
    }
}

/// A lost channel keeps exactly the weight it had at loss while the hold lasts.
pub proof fn lemma_hold_keeps_the_weight(
    blend: LossBlend,
    now: MonoTimeNs,
    profile: LossBlendProfile,
)
    requires
        blend.weight.finite(),
        blend.loss_weight.finite(),
        now.since(blend.ramp(now, false).1) <= profile.hold@,
    ensures
        blend.ramp(now, false).0.times(
            loss_factor_of(now.since(blend.ramp(now, false).1), profile),
        ) == blend.ramp(now, false).0,
{
    lemma_times_one_32(blend.ramp(now, false).0);
}

/// Once the return is over, no authority is left.
pub proof fn lemma_return_reaches_zero(
    start: Binary32,
    elapsed: nat,
    profile: LossBlendProfile,
)
    requires
        start.finite(),
        !start.negative(),
        elapsed > profile.hold@,
        elapsed >= profile.hold@ + profile.return_duration@,
    ensures
        start.times(loss_factor_of(elapsed, profile)) == (Binary32 { bits: 0 }),
{
}

/// A newly lost channel keeps its weight.
pub proof fn lemma_losing_a_channel_does_not_jump(
    blend: LossBlend,
    now: MonoTimeNs,
    profile: LossBlendProfile,
)
    requires
        blend.present,
        blend.weight.finite(),
    ensures
        blend.ramp(now, false) == (blend.weight, now),
        blend.weight.times(loss_factor_of(now.since(now), profile)) == blend.weight,
{
    lemma_times_one_32(blend.weight);
}

/// A newly present channel keeps the weight that the return had decayed to.
pub proof fn lemma_reacquiring_a_channel_does_not_jump(
    blend: LossBlend,
    now: MonoTimeNs,
    profile: LossBlendProfile,
)
    requires
        !blend.present,
        blend.valid(),
        0 < profile.acquire@ <= MAX_SPAN_NANOS,
    ensures
        blend.ramp(now, true) == (blend.weight, now),
        blend.weight.plus(
            (Binary32 { bits: ONE_BITS }).minus(blend.weight).times(
                acquire_factor_of(now.since(now), profile),
            ),
        ) == blend.weight,
{
    lemma_no_time_is_zero();
    lemma_seconds_are_plain(profile.acquire@);
    lemma_eased_starts();
    lemma_ramp_starts(blend.weight);
}

/// Once the acquire ramp is over, the channel has exactly full authority.
pub proof fn lemma_acquire_reaches_full_authority(
    start: Binary32,
    elapsed: nat,
    profile: LossBlendProfile,
)
    requires
        is_share(start),
        elapsed >= profile.acquire@,
    ensures
        start.plus(
            (Binary32 { bits: ONE_BITS }).minus(start).times(acquire_factor_of(elapsed, profile)),
        ) == (Binary32 { bits: ONE_BITS }),
{
    lemma_ramp_ends(start);
}

} // verus!
