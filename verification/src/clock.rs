//! Time spans, monotonic capture times and frame numbers.

use vstd::arithmetic::div_mod::lemma_fundamental_div_mod_converse;
use vstd::arithmetic::power2::{
    lemma2_to64, lemma2_to64_rest, lemma_pow2_adds, lemma_pow2_pos, lemma_pow2_strictly_increases, pow2,
};
use vstd::prelude::*;

use crate::arithmetic::lemma_nearest_of_exact_32;
use crate::arithmetic_laws::{
    lemma_doubled_units, lemma_integer_is_plain, lemma_integers_are_monotone, lemma_quotient_is_monotone,
    lemma_quotient_is_plain, lemma_rounded_is_a_number, lemma_sum_is_monotone, lemma_units_of_one,
    lemma_units_of_zero, one, plain,
};
use crate::binary::{lemma_units_increase, magnitude_units, Binary32};
use crate::rounding::lemma_nearest_ratio_is_monotone;

verus! {

/// Nanoseconds in one second.
pub const NANOS_PER_SECOND: u128 = 1_000_000_000;

/// Longest span: `u64::MAX` seconds and 999999999 nanoseconds.
pub const MAX_SPAN_NANOS: u128 = 18_446_744_073_709_551_615_999_999_999;

/// A span of time with nanosecond resolution. Its view is the number of
/// nanoseconds.
#[derive(Clone, Copy, Debug, PartialEq, Eq)]
pub struct Duration {
    nanos: u128,
}

impl View for Duration {
    type V = nat;

    closed spec fn view(&self) -> nat {
        self.nanos as nat
    }
}

impl Duration {
    #[verifier::type_invariant]
    spec fn within_range(self) -> bool {
        self.nanos <= MAX_SPAN_NANOS
    }

    /// The empty span.
    pub fn zero() -> (span: Self)
        ensures
            span@ == 0,
    {
        Duration { nanos: 0 }
    }

    /// A span of whole nanoseconds.
    pub fn from_nanos(nanos: u64) -> (span: Self)
        ensures
            span@ == nanos,
    {
        Duration { nanos: nanos as u128 }
    }

    /// A span of whole milliseconds.
    pub fn from_millis(millis: u64) -> (span: Self)
        ensures
            span@ == millis * 1_000_000,
    {
        Duration { nanos: millis as u128 * 1_000_000 }
    }

    /// A span of whole seconds.
    pub fn from_secs(seconds: u64) -> (span: Self)
        ensures
            span@ == seconds * 1_000_000_000,
    {
        Duration { nanos: seconds as u128 * NANOS_PER_SECOND }
    }

    /// The length in nanoseconds.
    pub fn as_nanos(&self) -> (nanos: u128)
        ensures
            nanos == self@,
            nanos <= MAX_SPAN_NANOS,
    {
        proof {
            use_type_invariant(self);
        }
        self.nanos
    }

    /// Whether the span is empty.
    pub fn is_zero(&self) -> (zero: bool)
        ensures
            zero == (self@ == 0),
    {
        self.nanos == 0
    }

    /// Whether this span is shorter than the other.
    pub fn is_shorter(&self, other: &Self) -> (shorter: bool)
        ensures
            shorter == (self@ < other@),
    {
        self.nanos < other.nanos
    }

    /// The sum, cut off at the longest span.
    pub fn saturating_add(&self, other: &Self) -> (sum: Self)
        ensures
            sum@ == if self@ + other@ <= MAX_SPAN_NANOS {
                self@ + other@
            } else {
                MAX_SPAN_NANOS as nat
            },
    {
        proof {
            use_type_invariant(self);
            use_type_invariant(other);
        }
        let sum: u128 = self.nanos + other.nanos;
        if sum <= MAX_SPAN_NANOS {
            Duration { nanos: sum }
        } else {
            Duration { nanos: MAX_SPAN_NANOS }
        }
    }
}

impl Duration {
    /// The difference, cut off at the empty span.
    pub fn saturating_sub(&self, other: &Self) -> (difference: Self)
        ensures
            difference@ == if self@ >= other@ {
                (self@ - other@) as nat
            } else {
                0
            },
    {
        proof {
            use_type_invariant(self);
        }
        if self.nanos >= other.nanos {
            Duration { nanos: self.nanos - other.nanos }
        } else {
            Duration { nanos: 0 }
        }
    }
}

/// Seconds of a span: its whole seconds plus its remaining nanoseconds.
pub open spec fn seconds_of(nanos: nat) -> Binary32 {
    Binary32::of_integer(nanos / 1_000_000_000).plus(
        Binary32::of_integer(nanos % 1_000_000_000).over(Binary32::of_integer(1_000_000_000)),
    )
}

impl Duration {
    /// The length in seconds.
    pub fn as_secs(&self) -> (seconds: Binary32)
        ensures
            seconds == seconds_of(self@),
            plain(seconds),
            self@ > 0 ==> seconds.magnitude() > 0,
    {
        proof {
            use_type_invariant(self);
            lemma_seconds_are_plain(self@);
        }
        let whole: u64 = (self.nanos / NANOS_PER_SECOND) as u64;
        let rest: u64 = (self.nanos % NANOS_PER_SECOND) as u64;
        Binary32::from_integer(whole).sum(
            Binary32::from_integer(rest).quotient(Binary32::from_integer(1_000_000_000)),
        )
    }
}

/// A monotonic capture time in nanoseconds.
#[derive(Clone, Copy, Debug, PartialEq, Eq, Structural)]
pub struct MonoTimeNs(pub u64);

/// A source frame number.
#[derive(Clone, Copy, Debug, PartialEq, Eq, Structural)]
pub struct FrameSeq(pub u64);

impl MonoTimeNs {
    /// Nanoseconds from `earlier` to this time; zero when this time is not
    /// later.
    pub open spec fn since(self, earlier: Self) -> nat {
        if self.0 >= earlier.0 {
            (self.0 - earlier.0) as nat
        } else {
            0
        }
    }

    /// The span since an earlier time, empty when the times are out of order.
    pub fn elapsed_since(self, earlier: Self) -> (span: Duration)
        ensures
            span@ == self.since(earlier),
    {
        Duration::from_nanos(self.0.saturating_sub(earlier.0))
    }
}

/// No time is zero seconds.
pub proof fn lemma_no_time_is_zero()
    ensures
        seconds_of(0) == (Binary32 { bits: 0 }),
{
    lemma_integer_is_plain(1_000_000_000);
    lemma_units_of_zero();
}

/// Two to the sixty-fourth, and its double.
proof fn lemma_large_seconds()
    ensures
        Binary32::of_integer(0x1_0000_0000_0000_0000) == (Binary32 { bits: 0x5f80_0000 }),
        (Binary32 { bits: 0x5f80_0000 }).plus(Binary32 { bits: 0x5f80_0000 }).finite(),
{
    lemma2_to64();
    lemma2_to64_rest();
    lemma_fundamental_div_mod_converse(0x5f80_0000, pow2(23) as int, 191, 0);
    lemma_pow2_adds(23, 190);
    lemma_pow2_adds(64, 149);
    assert((pow2(23) + 0) * pow2(190) == pow2(23) * pow2(190)) by (nonlinear_arith);
    let units = magnitude_units(0x5f80_0000, 23);
    assert(units == pow2(64) * pow2(149));
    lemma_nearest_of_exact_32(0x5f80_0000, 1);
    assert(units * 1 == units) by (nonlinear_arith);
    lemma_pow2_pos(213);
    lemma_doubled_units(0x5f80_0000);
    lemma_nearest_of_exact_32(0x6000_0000, 1);
    assert((2 * units) * 1 == 2 * units) by (nonlinear_arith);
}

/// A nanosecond is not lost in seconds.
proof fn lemma_nanosecond_is_positive(rest: nat)
    requires
        0 < rest <= 1_000_000_000,
    ensures
        Binary32::of_integer(rest).over(Binary32::of_integer(1_000_000_000)).magnitude() > 0,
{
    let share = Binary32::of_integer(rest);
    let whole = Binary32::of_integer(1_000_000_000);
    let unit = pow2(149);
    lemma_large_seconds();
    lemma_integer_is_plain(rest);
    lemma_integer_is_plain(1_000_000_000);
    lemma_integers_are_monotone(rest, 0x1_0000_0000_0000_0000);
    lemma_integers_are_monotone(1_000_000_000, 0x1_0000_0000_0000_0000);
    lemma_integers_are_monotone(1, rest);
    lemma_pow2_pos(149);
    lemma_units_of_one();
    lemma2_to64();
    lemma2_to64_rest();
    lemma_nearest_of_exact_32(0x3f80_0000, 1);
    assert(unit * 1 == unit && 1 * unit == unit) by (nonlinear_arith);
    assert(Binary32::of_integer(1) == one());
    one().lemma_rank_orders_values(share);
    whole.lemma_rank_orders_values(Binary32 { bits: 0x5f80_0000 });
    lemma_units_of_zero();
    lemma_units_increase(0, whole.magnitude() as nat, 23);
    lemma_fundamental_div_mod_converse(0x5f80_0000, pow2(23) as int, 191, 0);
    lemma_pow2_adds(23, 190);
    lemma_pow2_adds(149, 149);
    assert((pow2(23) + 0) * pow2(190) == pow2(23) * pow2(190)) by (nonlinear_arith);
    lemma_pow2_strictly_increases(213, 298);
    let a = share.units() as nat;
    let b = whole.units() as nat;
    assert(b <= a * unit) by (nonlinear_arith)
        requires
            b <= unit * unit,
            unit <= a,
    ;
    lemma_nearest_ratio_is_monotone(b, a * unit, b, 23, 255);
    lemma_nearest_of_exact_32(1, b);
    assert(magnitude_units(1, 23) == 1);
    assert(1 * b == b) by (nonlinear_arith);
    lemma_rounded_is_a_number(a * unit, b);
}

/// Every span has a finite number of seconds, and more than none unless it is
/// empty.
pub proof fn lemma_seconds_are_plain(nanos: nat)
    requires
        nanos <= MAX_SPAN_NANOS,
    ensures
        plain(seconds_of(nanos)),
        nanos > 0 ==> seconds_of(nanos).magnitude() > 0,
{
    let whole = Binary32::of_integer(nanos / 1_000_000_000);
    let rest = Binary32::of_integer(nanos % 1_000_000_000);
    let second = Binary32::of_integer(1_000_000_000);
    let share = rest.over(second);
    let large = Binary32 { bits: 0x5f80_0000 };
    lemma_large_seconds();
    lemma_integer_is_plain(nanos / 1_000_000_000);
    lemma_integer_is_plain(nanos % 1_000_000_000);
    lemma_integer_is_plain(1_000_000_000);
    lemma_integers_are_monotone(nanos / 1_000_000_000, 0x1_0000_0000_0000_0000);
    lemma_integers_are_monotone(nanos % 1_000_000_000, 1_000_000_000);
    lemma_integers_are_monotone(1_000_000_000, 0x1_0000_0000_0000_0000);
    lemma_quotient_is_plain(rest, second);
    lemma_quotient_is_monotone(rest, second, second);
    let units = second.units() as nat;
    lemma_units_of_zero();
    lemma_units_increase(0, second.magnitude() as nat, 23);
    lemma_units_of_one();
    lemma2_to64();
    lemma2_to64_rest();
    lemma_nearest_of_exact_32(0x3f80_0000, units);
    assert(pow2(149) * units == units * pow2(149)) by (nonlinear_arith);
    assert(second.over(second) == one());
    lemma_sum_is_monotone(whole, share, large, large);
    if nanos > 0 {
        if nanos / 1_000_000_000 > 0 {
            lemma_units_increase(0, whole.magnitude() as nat, 23);
        } else {
            lemma_nanosecond_is_positive(nanos % 1_000_000_000);
            lemma_units_increase(0, share.magnitude() as nat, 23);
        }
        let exact = (whole.units() + share.units()) as nat;
        lemma_nearest_of_exact_32(1, 1);
        assert(magnitude_units(1, 23) == 1);
        lemma_nearest_ratio_is_monotone(1, exact, 1, 23, 255);
    }
    let exact = whole.units() + share.units();
    if exact > 0 {
        lemma_rounded_is_a_number(exact as nat, 1);
    }
}

} // verus!
