//! IEEE 754 numbers held by their bit patterns.
//!
//! A [`Binary32`] or [`Binary64`] is ordered, classified and clamped without
//! any floating-point arithmetic. The mathematical value of a finite number is
//! given by `units`: the number divided by the smallest positive subnormal,
//! which is always an integer.

use vstd::arithmetic::power2::{lemma_pow2_pos, lemma_pow2_unfold, pow2};
use vstd::prelude::*;

verus! {

/// An IEEE 754 binary32 number, by its bit pattern.
#[derive(Clone, Copy, Debug, PartialEq, Eq, Structural)]
pub struct Binary32 {
    /// Sign bit, eight exponent bits, twenty-three fraction bits.
    pub bits: u32,
}

/// An IEEE 754 binary64 number, by its bit pattern.
#[derive(Clone, Copy, Debug, PartialEq, Eq, Structural)]
pub struct Binary64 {
    /// Sign bit, eleven exponent bits, fifty-two fraction bits.
    pub bits: u64,
}

/// Bit pattern of binary32 infinity; every smaller magnitude is finite.
pub const INFINITY_32: u32 = 0x7f80_0000;

/// Weight of the binary32 sign bit.
pub const SIGN_32: u32 = 0x8000_0000;

/// Bit pattern of binary64 infinity; every smaller magnitude is finite.
pub const INFINITY_64: u64 = 0x7ff0_0000_0000_0000;

/// Weight of the binary64 sign bit.
pub const SIGN_64: u64 = 0x8000_0000_0000_0000;

/// Integer value of a magnitude with `width` fraction bits, in units of the
/// smallest positive subnormal.
pub open spec fn magnitude_units(magnitude: nat, width: nat) -> nat {
    let fraction = magnitude % pow2(width);
    let exponent = magnitude / pow2(width);
    if exponent == 0 {
        fraction
    } else {
        (pow2(width) + fraction) * pow2((exponent - 1) as nat)
    }
}

/// Successive magnitudes have strictly increasing values.
proof fn lemma_units_step(magnitude: nat, width: nat)
    ensures
        magnitude_units(magnitude, width) < magnitude_units(magnitude + 1, width),
{
    let base = pow2(width);
    lemma_pow2_pos(width);
    let exponent = magnitude / base;
    let fraction = magnitude % base;
    assert(magnitude == base * exponent + fraction) by {
        vstd::arithmetic::div_mod::lemma_fundamental_div_mod(magnitude as int, base as int);
    }
    if fraction + 1 < base {
        assert((magnitude + 1) / base == exponent && (magnitude + 1) % base == fraction + 1) by {
            vstd::arithmetic::div_mod::lemma_fundamental_div_mod_converse(
                (magnitude + 1) as int,
                base as int,
                exponent as int,
                (fraction + 1) as int,
            );
        }
        if exponent > 0 {
            let scale = pow2((exponent - 1) as nat);
            lemma_pow2_pos((exponent - 1) as nat);
            assert((base + fraction) * scale < (base + fraction + 1) * scale) by (nonlinear_arith)
                requires
                    scale > 0,
            ;
        }
    } else {
        assert((magnitude + 1) / base == exponent + 1 && (magnitude + 1) % base == 0) by {
            assert(magnitude + 1 == (exponent + 1) * base + 0) by (nonlinear_arith)
                requires
                    magnitude == base * exponent + fraction,
                    fraction + 1 == base,
            ;
            vstd::arithmetic::div_mod::lemma_fundamental_div_mod_converse(
                (magnitude + 1) as int,
                base as int,
                (exponent + 1) as int,
                0,
            );
        }
        lemma_pow2_pos(exponent);
        assert((base + 0) * pow2(exponent) >= base) by (nonlinear_arith)
            requires
                pow2(exponent) >= 1,
        ;
        if exponent > 0 {
            let scale = pow2((exponent - 1) as nat);
            lemma_pow2_pos((exponent - 1) as nat);
            lemma_pow2_unfold(exponent);
            assert((base + fraction) * scale < (base + 0) * (2 * scale)) by (nonlinear_arith)
                requires
                    scale > 0,
                    fraction < base,
            ;
        }
    }
}

/// A larger magnitude has a larger value.
pub proof fn lemma_units_increase(small: nat, large: nat, width: nat)
    requires
        small < large,
    ensures
        magnitude_units(small, width) < magnitude_units(large, width),
    decreases large - small,
{
    lemma_units_step(small, width);
    if small + 1 < large {
        lemma_units_increase(small + 1, large, width);
    }
}


impl Binary32 {
    /// Whether the sign bit is set.
    pub open spec fn negative(self) -> bool {
        self.bits >= SIGN_32
    }

    /// The bit pattern without its sign.
    pub open spec fn magnitude(self) -> int {
        if self.negative() {
            self.bits - SIGN_32
        } else {
            self.bits as int
        }
    }

    /// Neither infinite nor a NaN.
    pub open spec fn finite(self) -> bool {
        self.magnitude() < INFINITY_32
    }

    /// Not a number.
    pub open spec fn nan(self) -> bool {
        self.magnitude() > INFINITY_32
    }

    /// Signed magnitude: equal for the two zeros, and ordered as the numbers
    /// are (see [`Binary32::lemma_rank_orders_values`]).
    pub open spec fn rank(self) -> int {
        if self.negative() {
            -self.magnitude()
        } else {
            self.magnitude()
        }
    }

    /// Position in the IEEE 754 total order: negative NaNs first, then the
    /// numbers in order with negative zero before positive zero, then positive
    /// NaNs.
    pub open spec fn total_rank(self) -> int {
        if self.negative() {
            -self.magnitude() - 1
        } else {
            self.magnitude()
        }
    }

    /// The value of a finite number in units of the smallest positive one.
    pub open spec fn units(self) -> int {
        let units = magnitude_units(self.magnitude() as nat, 23) as int;
        if self.negative() {
            -units
        } else {
            units
        }
    }

    /// IEEE `<`: false when either side is a NaN.
    pub open spec fn less(self, other: Self) -> bool {
        !self.nan() && !other.nan() && self.rank() < other.rank()
    }

    /// IEEE `<=`: false when either side is a NaN.
    pub open spec fn at_most(self, other: Self) -> bool {
        !self.nan() && !other.nan() && self.rank() <= other.rank()
    }

    /// IEEE `==`: the two zeros are equal, a NaN equals nothing.
    pub open spec fn same_number(self, other: Self) -> bool {
        !self.nan() && !other.nan() && self.rank() == other.rank()
    }

    /// Strictly greater than zero.
    pub open spec fn positive(self) -> bool {
        !self.nan() && self.rank() > 0
    }

    /// The number with its sign cleared.
    pub open spec fn absolute(self) -> Self {
        Binary32 { bits: self.magnitude() as u32 }
    }

    /// The number with its sign flipped.
    pub open spec fn negated(self) -> Self {
        if self.negative() {
            Binary32 { bits: (self.bits - SIGN_32) as u32 }
        } else {
            Binary32 { bits: (self.bits + SIGN_32) as u32 }
        }
    }

    /// Negative zero becomes positive zero; everything else is kept.
    pub open spec fn canonical(self) -> Self {
        if self.magnitude() == 0 {
            Binary32 { bits: 0 }
        } else {
            self
        }
    }

    /// The nearest number of the closed range `low..=high`; a NaN is kept.
    pub open spec fn clamped(self, low: Self, high: Self) -> Self {
        if self.less(low) {
            low
        } else if high.less(self) {
            high
        } else {
            self
        }
    }

    /// Finite numbers compare as their values do.
    pub proof fn lemma_rank_orders_values(self, other: Self)
        requires
            self.finite(),
            other.finite(),
        ensures
            self.less(other) <==> self.units() < other.units(),
            self.at_most(other) <==> self.units() <= other.units(),
            self.same_number(other) <==> self.units() == other.units(),
    {
        let a = self.magnitude() as nat;
        let b = other.magnitude() as nat;
        let zero = magnitude_units(0, 23);
        assert(zero == 0) by {
            lemma_pow2_pos(23);
            vstd::arithmetic::div_mod::lemma_small_mod(0, pow2(23));
            vstd::arithmetic::div_mod::lemma_basic_div(0, pow2(23) as int);
        }
        if a < b {
            lemma_units_increase(a, b, 23);
        }
        if b < a {
            lemma_units_increase(b, a, 23);
        }
        if 0 < a {
            lemma_units_increase(0, a, 23);
        }
        if 0 < b {
            lemma_units_increase(0, b, 23);
        }
    }

    /// The total order is a linear order: equal positions mean equal bits.
    pub proof fn lemma_total_rank_is_injective(self, other: Self)
        requires
            self.total_rank() == other.total_rank(),
        ensures
            self == other,
    {
    }

    /// The total order refines the numeric order.
    pub proof fn lemma_total_rank_refines_rank(self, other: Self)
        requires
            self.less(other),
        ensures
            self.total_rank() < other.total_rank(),
    {
    }

    /// The number with this bit pattern.
    pub fn from_bits(bits: u32) -> (number: Self)
        ensures
            number.bits == bits,
    {
        Binary32 { bits }
    }

    /// The bit pattern.
    pub fn to_bits(self) -> (bits: u32)
        ensures
            bits == self.bits,
    {
        self.bits
    }

    /// Positive zero.
    pub fn zero() -> (number: Self)
        ensures
            number == (Binary32 { bits: 0 }),
    {
        Binary32 { bits: 0 }
    }

    /// The bit pattern without its sign.
    pub fn abs_bits(self) -> (bits: u32)
        ensures
            bits == self.magnitude(),
    {
        if self.bits >= SIGN_32 {
            self.bits - SIGN_32
        } else {
            self.bits
        }
    }

    /// Whether the sign bit is set.
    pub fn is_sign_negative(self) -> (negative: bool)
        ensures
            negative == self.negative(),
    {
        self.bits >= SIGN_32
    }

    /// Whether the number is neither infinite nor a NaN.
    pub fn is_finite(self) -> (finite: bool)
        ensures
            finite == self.finite(),
    {
        self.abs_bits() < INFINITY_32
    }

    /// Whether the number is a NaN.
    pub fn is_nan(self) -> (nan: bool)
        ensures
            nan == self.nan(),
    {
        self.abs_bits() > INFINITY_32
    }

    /// Whether the number is strictly greater than zero.
    pub fn is_positive(self) -> (positive: bool)
        ensures
            positive == self.positive(),
    {
        self.bits < SIGN_32 && self.bits > 0 && self.bits <= INFINITY_32
    }

    /// The signed magnitude.
    fn signed_magnitude(self) -> (rank: i64)
        ensures
            rank == self.rank(),
    {
        if self.bits >= SIGN_32 {
            -((self.bits - SIGN_32) as i64)
        } else {
            self.bits as i64
        }
    }

    /// Position in the IEEE 754 total order.
    pub fn total_order(self) -> (rank: i64)
        ensures
            rank == self.total_rank(),
    {
        if self.bits >= SIGN_32 {
            -((self.bits - SIGN_32) as i64) - 1
        } else {
            self.bits as i64
        }
    }

    /// IEEE `<`.
    pub fn is_less(self, other: Self) -> (less: bool)
        ensures
            less == self.less(other),
    {
        !self.is_nan() && !other.is_nan() && self.signed_magnitude() < other.signed_magnitude()
    }

    /// IEEE `<=`.
    pub fn is_at_most(self, other: Self) -> (at_most: bool)
        ensures
            at_most == self.at_most(other),
    {
        !self.is_nan() && !other.is_nan() && self.signed_magnitude() <= other.signed_magnitude()
    }

    /// IEEE `==`.
    pub fn is_same_number(self, other: Self) -> (same: bool)
        ensures
            same == self.same_number(other),
    {
        !self.is_nan() && !other.is_nan() && self.signed_magnitude() == other.signed_magnitude()
    }

    /// The number with its sign cleared.
    pub fn abs(self) -> (absolute: Self)
        ensures
            absolute == self.absolute(),
    {
        Binary32 { bits: self.abs_bits() }
    }

    /// The number with its sign flipped.
    pub fn neg(self) -> (negated: Self)
        ensures
            negated == self.negated(),
    {
        if self.bits >= SIGN_32 {
            Binary32 { bits: self.bits - SIGN_32 }
        } else {
            Binary32 { bits: self.bits + SIGN_32 }
        }
    }

    /// Negative zero becomes positive zero.
    pub fn canonical_zero(self) -> (canonical: Self)
        ensures
            canonical == self.canonical(),
    {
        if self.abs_bits() == 0 {
            Binary32 { bits: 0 }
        } else {
            self
        }
    }

    /// The nearest number of the closed range `low..=high`; a NaN is kept.
    pub fn clamp(self, low: Self, high: Self) -> (clamped: Self)
        requires
            low.at_most(high),
        ensures
            clamped == self.clamped(low, high),
    {
        if self.is_less(low) {
            low
        } else if high.is_less(self) {
            high
        } else {
            self
        }
    }
}

impl Binary64 {
    /// Whether the sign bit is set.
    pub open spec fn negative(self) -> bool {
        self.bits >= SIGN_64
    }

    /// The bit pattern without its sign.
    pub open spec fn magnitude(self) -> int {
        if self.negative() {
            self.bits - SIGN_64
        } else {
            self.bits as int
        }
    }

    /// Neither infinite nor a NaN.
    pub open spec fn finite(self) -> bool {
        self.magnitude() < INFINITY_64
    }

    /// Not a number.
    pub open spec fn nan(self) -> bool {
        self.magnitude() > INFINITY_64
    }

    /// Signed magnitude: equal for the two zeros, and ordered as the numbers
    /// are (see [`Binary64::lemma_rank_orders_values`]).
    pub open spec fn rank(self) -> int {
        if self.negative() {
            -self.magnitude()
        } else {
            self.magnitude()
        }
    }

    /// Position in the IEEE 754 total order: negative NaNs first, then the
    /// numbers in order with negative zero before positive zero, then positive
    /// NaNs.
    pub open spec fn total_rank(self) -> int {
        if self.negative() {
            -self.magnitude() - 1
        } else {
            self.magnitude()
        }
    }

    /// The value of a finite number in units of the smallest positive one.
    pub open spec fn units(self) -> int {
        let units = magnitude_units(self.magnitude() as nat, 52) as int;
        if self.negative() {
            -units
        } else {
            units
        }
    }

    /// IEEE `<`: false when either side is a NaN.
    pub open spec fn less(self, other: Self) -> bool {
        !self.nan() && !other.nan() && self.rank() < other.rank()
    }

    /// IEEE `<=`: false when either side is a NaN.
    pub open spec fn at_most(self, other: Self) -> bool {
        !self.nan() && !other.nan() && self.rank() <= other.rank()
    }

    /// IEEE `==`: the two zeros are equal, a NaN equals nothing.
    pub open spec fn same_number(self, other: Self) -> bool {
        !self.nan() && !other.nan() && self.rank() == other.rank()
    }

    /// Strictly greater than zero.
    pub open spec fn positive(self) -> bool {
        !self.nan() && self.rank() > 0
    }

    /// The number with its sign cleared.
    pub open spec fn absolute(self) -> Self {
        Binary64 { bits: self.magnitude() as u64 }
    }

    /// The number with its sign flipped.
    pub open spec fn negated(self) -> Self {
        if self.negative() {
            Binary64 { bits: (self.bits - SIGN_64) as u64 }
        } else {
            Binary64 { bits: (self.bits + SIGN_64) as u64 }
        }
    }

    /// Negative zero becomes positive zero; everything else is kept.
    pub open spec fn canonical(self) -> Self {
        if self.magnitude() == 0 {
            Binary64 { bits: 0 }
        } else {
            self
        }
    }

    /// The nearest number of the closed range `low..=high`; a NaN is kept.
    pub open spec fn clamped(self, low: Self, high: Self) -> Self {
        if self.less(low) {
            low
        } else if high.less(self) {
            high
        } else {
            self
        }
    }

    /// Finite numbers compare as their values do.
    pub proof fn lemma_rank_orders_values(self, other: Self)
        requires
            self.finite(),
            other.finite(),
        ensures
            self.less(other) <==> self.units() < other.units(),
            self.at_most(other) <==> self.units() <= other.units(),
            self.same_number(other) <==> self.units() == other.units(),
    {
        let a = self.magnitude() as nat;
        let b = other.magnitude() as nat;
        let zero = magnitude_units(0, 52);
        assert(zero == 0) by {
            lemma_pow2_pos(52);
            vstd::arithmetic::div_mod::lemma_small_mod(0, pow2(52));
            vstd::arithmetic::div_mod::lemma_basic_div(0, pow2(52) as int);
        }
        if a < b {
            lemma_units_increase(a, b, 52);
        }
        if b < a {
            lemma_units_increase(b, a, 52);
        }
        if 0 < a {
            lemma_units_increase(0, a, 52);
        }
        if 0 < b {
            lemma_units_increase(0, b, 52);
        }
    }

    /// The total order is a linear order: equal positions mean equal bits.
    pub proof fn lemma_total_rank_is_injective(self, other: Self)
        requires
            self.total_rank() == other.total_rank(),
        ensures
            self == other,
    {
    }

    /// The total order refines the numeric order.
    pub proof fn lemma_total_rank_refines_rank(self, other: Self)
        requires
            self.less(other),
        ensures
            self.total_rank() < other.total_rank(),
    {
    }

    /// The number with this bit pattern.
    pub fn from_bits(bits: u64) -> (number: Self)
        ensures
            number.bits == bits,
    {
        Binary64 { bits }
    }

    /// The bit pattern.
    pub fn to_bits(self) -> (bits: u64)
        ensures
            bits == self.bits,
    {
        self.bits
    }

    /// Positive zero.
    pub fn zero() -> (number: Self)
        ensures
            number == (Binary64 { bits: 0 }),
    {
        Binary64 { bits: 0 }
    }

    /// The bit pattern without its sign.
    pub fn abs_bits(self) -> (bits: u64)
        ensures
            bits == self.magnitude(),
    {
        if self.bits >= SIGN_64 {
            self.bits - SIGN_64
        } else {
            self.bits
        }
    }

    /// Whether the sign bit is set.
    pub fn is_sign_negative(self) -> (negative: bool)
        ensures
            negative == self.negative(),
    {
        self.bits >= SIGN_64
    }

    /// Whether the number is neither infinite nor a NaN.
    pub fn is_finite(self) -> (finite: bool)
        ensures
            finite == self.finite(),
    {
        self.abs_bits() < INFINITY_64
    }

    /// Whether the number is a NaN.
    pub fn is_nan(self) -> (nan: bool)
        ensures
            nan == self.nan(),
    {
        self.abs_bits() > INFINITY_64
    }

    /// Whether the number is strictly greater than zero.
    pub fn is_positive(self) -> (positive: bool)
        ensures
            positive == self.positive(),
    {
        self.bits < SIGN_64 && self.bits > 0 && self.bits <= INFINITY_64
    }

    /// The signed magnitude.
    fn signed_magnitude(self) -> (rank: i64)
        ensures
            rank == self.rank(),
    {
        if self.bits >= SIGN_64 {
            -((self.bits - SIGN_64) as i64)
        } else {
            self.bits as i64
        }
    }

    /// Position in the IEEE 754 total order.
    pub fn total_order(self) -> (rank: i64)
        ensures
            rank == self.total_rank(),
    {
        if self.bits >= SIGN_64 {
            -((self.bits - SIGN_64) as i64) - 1
        } else {
            self.bits as i64
        }
    }

    /// IEEE `<`.
    pub fn is_less(self, other: Self) -> (less: bool)
        ensures
            less == self.less(other),
    {
        !self.is_nan() && !other.is_nan() && self.signed_magnitude() < other.signed_magnitude()
    }

    /// IEEE `<=`.
    pub fn is_at_most(self, other: Self) -> (at_most: bool)
        ensures
            at_most == self.at_most(other),
    {
        !self.is_nan() && !other.is_nan() && self.signed_magnitude() <= other.signed_magnitude()
    }

    /// IEEE `==`.
    pub fn is_same_number(self, other: Self) -> (same: bool)
        ensures
            same == self.same_number(other),
    {
        !self.is_nan() && !other.is_nan() && self.signed_magnitude() == other.signed_magnitude()
    }

    /// The number with its sign cleared.
    pub fn abs(self) -> (absolute: Self)
        ensures
            absolute == self.absolute(),
    {
        Binary64 { bits: self.abs_bits() }
    }

    /// The number with its sign flipped.
    pub fn neg(self) -> (negated: Self)
        ensures
            negated == self.negated(),
    {
        if self.bits >= SIGN_64 {
            Binary64 { bits: self.bits - SIGN_64 }
        } else {
            Binary64 { bits: self.bits + SIGN_64 }
        }
    }

    /// Negative zero becomes positive zero.
    pub fn canonical_zero(self) -> (canonical: Self)
        ensures
            canonical == self.canonical(),
    {
        if self.abs_bits() == 0 {
            Binary64 { bits: 0 }
        } else {
            self
        }
    }

    /// The nearest number of the closed range `low..=high`; a NaN is kept.
    pub fn clamp(self, low: Self, high: Self) -> (clamped: Self)
        requires
            low.at_most(high),
        ensures
            clamped == self.clamped(low, high),
    {
        if self.is_less(low) {
            low
        } else if high.is_less(self) {
            high
        } else {
            self
        }
    }
}

} // verus!
