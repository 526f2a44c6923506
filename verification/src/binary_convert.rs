//! Conversions between the two number widths.
//!
//! One unit of a binary32 number is `2^925` units of a binary64 number.

use vstd::arithmetic::power2::{lemma2_to64, lemma2_to64_rest, lemma_pow2_adds, lemma_pow2_pos, lemma_pow2_strictly_increases, lemma_pow2_unfold, pow2};
use vstd::prelude::*;

use crate::binary::{
    lemma_units_increase, magnitude_units, Binary32, Binary64, INFINITY_32, INFINITY_64, SIGN_32, SIGN_64,
};

verus! {

/// Value of a binary32 magnitude in binary64 units. The bit pattern of
/// infinity stands for the next power of two after the largest finite number.
pub open spec fn wide_units(magnitude: int) -> int {
    (magnitude_units(magnitude as nat, 23) * pow2(925)) as int
}

/// `magnitude` is the binary32 magnitude nearest to `units`; halfway between
/// two neighbours the even one is nearest.
pub open spec fn is_nearest(units: int, magnitude: int) -> bool {
    &&& 0 <= magnitude <= INFINITY_32
    &&& magnitude > 0 ==> {
        let twice_middle = wide_units(magnitude - 1) + wide_units(magnitude);
        twice_middle < 2 * units || (twice_middle == 2 * units && magnitude % 2 == 0)
    }
    &&& magnitude < INFINITY_32 ==> {
        let twice_middle = wide_units(magnitude) + wide_units(magnitude + 1);
        2 * units < twice_middle || (twice_middle == 2 * units && magnitude % 2 == 0)
    }
}

/// The binary32 magnitude nearest to `units`.
pub open spec fn nearest_narrow(units: int) -> int {
    choose|m: int| is_nearest(units, m)
}

/// Larger magnitudes are wider values.
pub proof fn lemma_wide_units_increase(small: int, large: int)
    requires
        0 <= small < large,
    ensures
        wide_units(small) < wide_units(large),
{
    lemma_units_increase(small as nat, large as nat, 23);
    lemma_pow2_pos(925);
    let a = magnitude_units(small as nat, 23);
    let b = magnitude_units(large as nat, 23);
    assert(a * pow2(925) < b * pow2(925)) by (nonlinear_arith)
        requires
            a < b,
            pow2(925) > 0,
    ;
}

/// Rounding inside the interval between two neighbours.
proof fn lemma_rounds_to_nearest(units: int, below: int, half: int, excess: int)
    requires
        0 <= below < INFINITY_32,
        half > 0,
        wide_units(below + 1) == wide_units(below) + 2 * half,
        units == wide_units(below) + excess,
        0 <= excess < 2 * half,
    ensures
        excess < half || (excess == half && below % 2 == 0) ==> is_nearest(units, below),
        !(excess < half || (excess == half && below % 2 == 0)) ==> is_nearest(units, below + 1),
{
    if below > 0 {
        lemma_wide_units_increase(below - 1, below);
    }
    if below + 1 < INFINITY_32 {
        lemma_wide_units_increase(below + 1, below + 2);
    }
}

/// The nearest magnitude is unique.
pub proof fn lemma_nearest_is_unique(units: int, left: int, right: int)
    requires
        is_nearest(units, left),
        is_nearest(units, right),
    ensures
        left == right,
{
    if left < right {
        lemma_nearest_not_below(units, left, right);
    }
    if right < left {
        lemma_nearest_not_below(units, right, left);
    }
}

proof fn lemma_nearest_not_below(units: int, left: int, right: int)
    requires
        is_nearest(units, left),
        is_nearest(units, right),
    ensures
        left >= right,
{
    if left < right {
        if left + 1 < right {
            lemma_wide_units_increase(left, right - 1);
            lemma_wide_units_increase(left + 1, right);
        }
    }
}

/// Two to the given exponent.
fn power_of_two(exponent: u32) -> (power: u64)
    requires
        exponent < 64,
    ensures
        power == pow2(exponent as nat),
{
    let mut power: u64 = 1;
    proof {
        lemma2_to64();
    }
    for i in 0..exponent
        invariant
            exponent < 64,
            power == pow2(i as nat),
    {
        proof {
            lemma_pow2_unfold((i + 1) as nat);
            lemma_pow2_strictly_increases(i as nat, 63);
            lemma2_to64_rest();
        }
        power = power * 2;
    }
    power
}

/// Value of a binary64 magnitude whose exponent field is not zero.
proof fn lemma_units_of_normal(magnitude: nat, exponent: nat, fraction: nat, width: nat)
    requires
        exponent > 0,
        fraction < pow2(width),
        magnitude == exponent * pow2(width) + fraction,
    ensures
        magnitude_units(magnitude, width) == (pow2(width) + fraction) * pow2(
            (exponent - 1) as nat,
        ),
{
    vstd::arithmetic::div_mod::lemma_fundamental_div_mod_converse(
        magnitude as int,
        pow2(width) as int,
        exponent as int,
        fraction as int,
    );
}

/// Subnormal binary32 magnitudes, and the first normal one, count units.
proof fn lemma_units_of_subnormal(magnitude: nat)
    requires
        magnitude <= 0x80_0000,
    ensures
        magnitude_units(magnitude, 23) == magnitude,
{
    lemma2_to64();
    if magnitude < 0x80_0000 {
        vstd::arithmetic::div_mod::lemma_fundamental_div_mod_converse(
            magnitude as int,
            0x80_0000,
            0,
            magnitude as int,
        );
    } else {
        lemma_units_of_normal(magnitude, 1, 0, 23);
        assert((pow2(23) + 0) * pow2(0) == pow2(23)) by (nonlinear_arith)
            requires
                pow2(0) == 1,
        ;
    }
}

/// The neighbours of a normal binary32 magnitude and a binary64 number between
/// them.
proof fn lemma_normal_interval(exponent: nat, fraction: nat)
    requires
        897 <= exponent < 1151,
        fraction < 0x10_0000_0000_0000,
    ensures
        ({
            let below = ((exponent - 896) * 0x80_0000 + fraction / 0x2000_0000) as int;
            let rest = (fraction % 0x2000_0000) as int;
            let scale = pow2((exponent - 1) as nat) as int;
            &&& 0 <= below < INFINITY_32
            &&& scale > 0
            &&& wide_units(below + 1) == wide_units(below) + 2 * (0x1000_0000 * scale)
            &&& ((0x10_0000_0000_0000 + fraction) * pow2((exponent - 1) as nat)) as int
                == wide_units(below) + rest * scale
        }),
{
    let top = fraction / 0x2000_0000;
    let rest = fraction % 0x2000_0000;
    let narrow = (exponent - 896) as nat;
    let below = narrow * 0x80_0000 + top;
    let scale = pow2((exponent - 1) as nat);
    lemma2_to64();
    lemma_pow2_pos((exponent - 1) as nat);
    let gap = pow2((narrow - 1) as nat);
    lemma_units_of_normal(below, narrow, top, 23);
    assert(magnitude_units(below, 23) == (0x80_0000 + top) * gap);
    if top + 1 < 0x80_0000 {
        lemma_units_of_normal(below + 1, narrow, top + 1, 23);
        assert(magnitude_units(below + 1, 23) == (0x80_0000 + top + 1) * gap);
    } else {
        lemma_units_of_normal(below + 1, narrow + 1, 0, 23);
        lemma_pow2_unfold(narrow);
        assert((0x80_0000 + 0) * (2 * gap) == (0x80_0000 + top + 1) * gap) by (nonlinear_arith)
            requires
                top + 1 == 0x80_0000,
        ;
    }
    // gap * 2^925 == 2^29 * scale
    lemma_pow2_adds((narrow - 1) as nat, 925);
    lemma_pow2_adds(29, (exponent - 1) as nat);
    assert((narrow - 1) + 925 == 29 + (exponent - 1));
    let wide = pow2(925);
    assert(gap * wide == 0x2000_0000 * scale);
    assert((0x80_0000 + top) * gap * wide == (0x80_0000 + top) * (0x2000_0000 * scale))
        by (nonlinear_arith)
        requires
            gap * wide == 0x2000_0000 * scale,
    ;
    assert((0x80_0000 + top + 1) * gap * wide == (0x80_0000 + top + 1) * (0x2000_0000 * scale))
        by (nonlinear_arith)
        requires
            gap * wide == 0x2000_0000 * scale,
    ;
    assert((0x80_0000 + top + 1) * (0x2000_0000 * scale) == (0x80_0000 + top) * (0x2000_0000
        * scale) + 2 * (0x1000_0000 * scale)) by (nonlinear_arith);
    assert((0x10_0000_0000_0000 + fraction) * scale == (0x80_0000 + top) * (0x2000_0000 * scale)
        + rest * scale) by (nonlinear_arith)
        requires
            fraction == top * 0x2000_0000 + rest,
    ;
}

impl Binary64 {
    /// The nearest binary32 number, ties to even; numbers past the largest one
    /// become infinite.
    pub open spec fn narrowed(self) -> Binary32 {
        let magnitude = if self.nan() {
            0x7fc0_0000
        } else if !self.finite() {
            INFINITY_32 as int
        } else {
            nearest_narrow(magnitude_units(self.magnitude() as nat, 52) as int)
        };
        Binary32 {
            bits: if self.negative() {
                (magnitude + SIGN_32) as u32
            } else {
                magnitude as u32
            },
        }
    }

    /// The magnitude of the nearest binary32 number.
    fn nearest_magnitude(self) -> (nearest: u32)
        requires
            self.finite(),
        ensures
            is_nearest(magnitude_units(self.magnitude() as nat, 52) as int, nearest as int),
    {
        let magnitude: u64 = self.abs_bits();
        let exponent: u64 = magnitude / 0x10_0000_0000_0000;
        let fraction: u64 = magnitude % 0x10_0000_0000_0000;
        let ghost units = magnitude_units(magnitude as nat, 52);
        proof {
            lemma2_to64();
            lemma2_to64_rest();
        }
        if exponent >= 1151 {
            proof {
                lemma_units_of_normal(magnitude as nat, exponent as nat, fraction as nat, 52);
                lemma_past_the_largest(exponent as nat, fraction as nat);
                lemma_wide_units_increase(INFINITY_32 - 1, INFINITY_32 as int);
            }
            return INFINITY_32;
        }
        if exponent >= 897 {
            let below: u64 = (exponent - 896) * 0x80_0000 + fraction / 0x2000_0000;
            let rest: u64 = fraction % 0x2000_0000;
            proof {
                lemma_units_of_normal(magnitude as nat, exponent as nat, fraction as nat, 52);
                lemma_normal_interval(exponent as nat, fraction as nat);
                let scale = pow2((exponent - 1) as nat) as int;
                assert(0 <= rest * scale < 2 * (0x1000_0000 * scale)) by (nonlinear_arith)
                    requires
                        0 <= rest < 0x2000_0000,
                        scale > 0,
                ;
                assert(rest < 0x1000_0000 <==> rest * scale < 0x1000_0000 * scale)
                    by (nonlinear_arith)
                    requires
                        scale > 0,
                ;
                assert(rest == 0x1000_0000 <==> rest * scale == 0x1000_0000 * scale)
                    by (nonlinear_arith)
                    requires
                        scale > 0,
                ;
                lemma_rounds_to_nearest(
                    units as int,
                    below as int,
                    0x1000_0000 * scale,
                    rest * scale,
                );
            }
            return if rest < 0x1000_0000 || (rest == 0x1000_0000 && below % 2 == 0) {
                below as u32
            } else {
                (below + 1) as u32
            };
        }
        if exponent <= 872 {
            proof {
                lemma_too_small(magnitude as nat, exponent as nat, fraction as nat);
            }
            return 0;
        }
        let shift: u32 = (926 - exponent) as u32;
        let whole: u64 = power_of_two(shift);
        let half: u64 = power_of_two(shift - 1);
        let significand: u64 = 0x10_0000_0000_0000 + fraction;
        let below: u64 = significand / whole;
        let rest: u64 = significand % whole;
        proof {
            lemma_units_of_normal(magnitude as nat, exponent as nat, fraction as nat, 52);
            lemma_pow2_unfold(shift as nat);
            lemma_subnormal_interval(exponent as nat, significand as nat);
            let scale = pow2((exponent - 1) as nat) as int;
            assert(0 <= rest * scale < 2 * (half * scale)) by (nonlinear_arith)
                requires
                    0 <= rest < whole,
                    whole == 2 * half,
                    scale > 0,
            ;
            assert(rest < half <==> rest * scale < half * scale) by (nonlinear_arith)
                requires
                    scale > 0,
            ;
            assert(rest == half <==> rest * scale == half * scale) by (nonlinear_arith)
                requires
                    scale > 0,
            ;
            lemma_rounds_to_nearest(units as int, below as int, half * scale, rest * scale);
        }
        if rest < half || (rest == half && below % 2 == 0) {
            below as u32
        } else {
            (below + 1) as u32
        }
    }

    /// The nearest binary32 number.
    pub fn narrow(self) -> (narrowed: Binary32)
        ensures
            narrowed == self.narrowed(),
            self.finite() ==> is_nearest(
                magnitude_units(self.magnitude() as nat, 52) as int,
                narrowed.magnitude(),
            ),
            narrowed.negative() == self.negative(),
    {
        let magnitude: u32 = if self.is_nan() {
            0x7fc0_0000
        } else if !self.is_finite() {
            INFINITY_32
        } else {
            self.nearest_magnitude()
        };
        proof {
            if self.finite() {
                let units = magnitude_units(self.magnitude() as nat, 52) as int;
                lemma_nearest_is_unique(units, nearest_narrow(units), magnitude as int);
            }
        }
        if self.bits >= SIGN_64 {
            Binary32 { bits: SIGN_32 + magnitude }
        } else {
            Binary32 { bits: magnitude }
        }
    }
}

/// A binary64 number whose exponent is past every binary32 number's.
proof fn lemma_past_the_largest(exponent: nat, fraction: nat)
    requires
        exponent >= 1151,
    ensures
        ((0x10_0000_0000_0000 + fraction) * pow2((exponent - 1) as nat)) as int >= wide_units(
            INFINITY_32 as int,
        ),
{
    lemma2_to64();
    lemma2_to64_rest();
    lemma_units_of_normal(INFINITY_32 as nat, 255, 0, 23);
    lemma_pow2_adds(254, 925);
    lemma_pow2_adds(23, 1179);
    lemma_pow2_adds(52, 1150);
    if exponent > 1151 {
        lemma_pow2_strictly_increases(1150, (exponent - 1) as nat);
    }
    assert((pow2(23) + 0) * pow2(254) * pow2(925) == pow2(23) * (pow2(254) * pow2(925)))
        by (nonlinear_arith);
    assert((0x10_0000_0000_0000 + fraction) * pow2((exponent - 1) as nat) >= pow2(52) * pow2(1150))
        by (nonlinear_arith)
        requires
            pow2(52) == 0x10_0000_0000_0000,
            pow2((exponent - 1) as nat) >= pow2(1150),
            pow2(1150) >= 0,
    ;
}

/// A binary64 number below half of the smallest binary32 number.
proof fn lemma_too_small(magnitude: nat, exponent: nat, fraction: nat)
    requires
        exponent <= 872,
        fraction < 0x10_0000_0000_0000,
        magnitude == exponent * 0x10_0000_0000_0000 + fraction,
    ensures
        is_nearest(magnitude_units(magnitude, 52) as int, 0),
{
    lemma2_to64();
    lemma2_to64_rest();
    lemma_units_of_subnormal(0);
    lemma_units_of_subnormal(1);
    lemma_pow2_pos(925);
    lemma_pow2_unfold(925);
    lemma_pow2_adds(53, 871);
    let units = magnitude_units(magnitude, 52);
    if exponent == 0 {
        vstd::arithmetic::div_mod::lemma_fundamental_div_mod_converse(
            magnitude as int,
            0x10_0000_0000_0000,
            0,
            fraction as int,
        );
        lemma_pow2_strictly_increases(52, 924);
    } else {
        lemma_units_of_normal(magnitude, exponent, fraction, 52);
        if exponent < 872 {
            lemma_pow2_strictly_increases((exponent - 1) as nat, 871);
        }
        lemma_pow2_pos(871);
        let scale = pow2((exponent - 1) as nat);
        assert((0x10_0000_0000_0000 + fraction) * scale < pow2(53) * pow2(871))
            by (nonlinear_arith)
            requires
                0 <= fraction < 0x10_0000_0000_0000,
                pow2(53) == 0x20_0000_0000_0000,
                scale <= pow2(871),
                pow2(871) > 0,
        ;
    }
    assert(units < pow2(924));
    assert(0 * pow2(925) == 0 && 1 * pow2(925) == pow2(925)) by (nonlinear_arith);
}

/// The neighbours of a subnormal binary32 magnitude and a binary64 number
/// between them.
proof fn lemma_subnormal_interval(exponent: nat, significand: nat)
    requires
        873 <= exponent <= 896,
        0x10_0000_0000_0000 <= significand < 0x20_0000_0000_0000,
    ensures
        ({
            let shift = (926 - exponent) as nat;
            let below = (significand / pow2(shift)) as int;
            let rest = (significand % pow2(shift)) as int;
            let scale = pow2((exponent - 1) as nat) as int;
            &&& 0 <= below < 0x80_0000
            &&& scale > 0
            &&& wide_units(below + 1) == wide_units(below) + 2 * (pow2((shift - 1) as nat) * scale)
            &&& (significand * pow2((exponent - 1) as nat)) as int == wide_units(below) + rest
                * scale
        }),
{
    let shift = (926 - exponent) as nat;
    let whole = pow2(shift);
    let half = pow2((shift - 1) as nat);
    let scale = pow2((exponent - 1) as nat);
    lemma2_to64();
    lemma2_to64_rest();
    lemma_pow2_pos(shift);
    lemma_pow2_pos((exponent - 1) as nat);
    lemma_pow2_unfold(shift);
    if shift > 30 {
        lemma_pow2_strictly_increases(30, shift);
    }
    let below = significand / whole;
    let rest = significand % whole;
    vstd::arithmetic::div_mod::lemma_fundamental_div_mod(significand as int, whole as int);
    assert(below < 0x80_0000) by (nonlinear_arith)
        requires
            significand == whole * below + rest,
            0 <= rest,
            significand < 0x20_0000_0000_0000,
            whole >= 0x4000_0000,
    ;
    lemma_units_of_subnormal(below);
    lemma_units_of_subnormal(below + 1);
    lemma_pow2_adds(shift, (exponent - 1) as nat);
    assert(whole * scale == pow2(925));
    assert((below + 1) * pow2(925) == below * pow2(925) + 2 * (half * scale)) by (nonlinear_arith)
        requires
            whole * scale == pow2(925),
            whole == 2 * half,
    ;
    assert(significand * scale == below * pow2(925) + rest * scale) by (nonlinear_arith)
        requires
            whole * scale == pow2(925),
            significand == whole * below + rest,
    ;
}

/// `wide` is the finite binary64 magnitude with the value of a binary32
/// magnitude.
pub open spec fn is_wide(narrow: int, wide: int) -> bool {
    &&& 0 <= wide < INFINITY_64
    &&& magnitude_units(wide as nat, 52) as int == wide_units(narrow)
}

proof fn lemma_wide_is_unique(narrow: int, left: int, right: int)
    requires
        is_wide(narrow, left),
        is_wide(narrow, right),
    ensures
        left == right,
{
    if left < right {
        lemma_units_increase(left as nat, right as nat, 52);
    }
    if right < left {
        lemma_units_increase(right as nat, left as nat, 52);
    }
}

impl Binary32 {
    /// The same number as a binary64.
    pub open spec fn widened(self) -> Binary64 {
        let magnitude = if self.nan() {
            0x7ff8_0000_0000_0000
        } else if !self.finite() {
            INFINITY_64 as int
        } else {
            choose|m: int| is_wide(self.magnitude(), m)
        };
        Binary64 {
            bits: if self.negative() {
                (magnitude + SIGN_64) as u64
            } else {
                magnitude as u64
            },
        }
    }

    /// The binary64 magnitude of a finite number.
    fn wide_magnitude(self) -> (wide: u64)
        requires
            self.finite(),
        ensures
            wide < INFINITY_64,
            magnitude_units(wide as nat, 52) as int == wide_units(self.magnitude()),
    {
        let magnitude: u32 = self.abs_bits();
        let exponent: u32 = magnitude / 0x80_0000;
        let fraction: u32 = magnitude % 0x80_0000;
        proof {
            lemma2_to64();
            lemma2_to64_rest();
        }
        if exponent > 0 {
            let wide: u64 = (exponent as u64 + 896) * 0x10_0000_0000_0000 + fraction as u64
                * 0x2000_0000;
            proof {
                lemma_widened_normal(exponent as nat, fraction as nat);
                lemma_units_of_normal(magnitude as nat, exponent as nat, fraction as nat, 23);
                lemma_units_of_normal(
                    wide as nat,
                    (exponent + 896) as nat,
                    (fraction * 0x2000_0000) as nat,
                    52,
                );
                assert((exponent + 896) * 0x10_0000_0000_0000 + fraction * 0x2000_0000
                    < INFINITY_64);
            }
            return wide;
        }
        if fraction == 0 {
            proof {
                lemma_units_of_subnormal(0);
                vstd::arithmetic::div_mod::lemma_fundamental_div_mod_converse(
                    0,
                    0x10_0000_0000_0000,
                    0,
                    0,
                );
                assert(0 * pow2(925) == 0) by (nonlinear_arith);
            }
            return 0;
        }
        let mut significand: u32 = fraction;
        let mut shift: u32 = 0;
        while significand < 0x80_0000
            invariant
                0 < fraction < 0x80_0000,
                shift <= 23,
                0 < significand < 0x100_0000,
                significand == fraction * pow2(shift as nat),
            decreases 0x100_0000 - significand,
        {
            proof {
                lemma2_to64();
                lemma_pow2_unfold((shift + 1) as nat);
                assert(fraction * (2 * pow2(shift as nat)) == 2 * (fraction * pow2(shift as nat)))
                    by (nonlinear_arith);
                if shift == 23 {
                    assert(fraction * pow2(23) >= pow2(23)) by (nonlinear_arith)
                        requires
                            fraction >= 1,
                            pow2(23) > 0,
                    ;
                }
            }
            significand = significand * 2;
            shift = shift + 1;
        }
        let rest: u32 = significand - 0x80_0000;
        let wide: u64 = (897 - shift as u64) * 0x10_0000_0000_0000 + rest as u64 * 0x2000_0000;
        proof {
            lemma_units_of_subnormal(magnitude as nat);
            lemma_units_of_normal(
                wide as nat,
                (897 - shift) as nat,
                (rest * 0x2000_0000) as nat,
                52,
            );
            let scale = pow2((896 - shift) as nat);
            assert(pow2(shift as nat) * (0x2000_0000 * scale) == pow2(925)) by {
                lemma_pow2_adds(29, (896 - shift) as nat);
                lemma_pow2_adds(shift as nat, (925 - shift) as nat);
            }
            assert((0x80_0000 + rest) * (0x2000_0000 * scale) == fraction * pow2(925))
                by (nonlinear_arith)
                requires
                    0x80_0000 + rest == fraction * pow2(shift as nat),
                    pow2(shift as nat) * (0x2000_0000 * scale) == pow2(925),
            ;
            assert((0x10_0000_0000_0000 + rest * 0x2000_0000) * scale == (0x80_0000 + rest) * (
            0x2000_0000 * scale)) by (nonlinear_arith);
        }
        wide
    }

    /// The same number as a binary64.
    pub fn widen(self) -> (widened: Binary64)
        ensures
            widened == self.widened(),
            self.finite() ==> is_wide(self.magnitude(), widened.magnitude()),
            widened.negative() == self.negative(),
    {
        let magnitude: u64 = if self.is_nan() {
            0x7ff8_0000_0000_0000
        } else if !self.is_finite() {
            INFINITY_64
        } else {
            self.wide_magnitude()
        };
        proof {
            if self.finite() {
                assert(is_wide(self.magnitude(), magnitude as int));
                let chosen = choose|m: int| is_wide(self.magnitude(), m);
                lemma_wide_is_unique(self.magnitude(), chosen, magnitude as int);
            }
        }
        if self.bits >= SIGN_32 {
            Binary64 { bits: SIGN_64 + magnitude }
        } else {
            Binary64 { bits: magnitude }
        }
    }
}

/// Widening keeps the order, and loses nothing: narrowing gives the number
/// back.
pub proof fn lemma_narrowing_undoes_widening(number: Binary32, widened: Binary64)
    requires
        number.finite(),
        is_wide(number.magnitude(), widened.magnitude()),
        widened.negative() == number.negative(),
    ensures
        widened.finite(),
        widened.narrowed() == number,
{
    let m = number.magnitude();
    let units = wide_units(m);
    lemma_wide_units_increase(m, m + 1);
    if m > 0 {
        lemma_wide_units_increase(m - 1, m);
    }
    assert(is_nearest(units, m));
    lemma_nearest_is_unique(units, nearest_narrow(units), m);
}

/// A normal number keeps its value when its fraction is shifted up.
proof fn lemma_widened_normal(exponent: nat, fraction: nat)
    requires
        exponent > 0,
    ensures
        (0x10_0000_0000_0000 + fraction * 0x2000_0000) * pow2(
            (exponent + 895) as nat,
        ) == (0x80_0000 + fraction) * pow2((exponent - 1) as nat) * pow2(925),
{
    lemma2_to64();
    lemma_pow2_adds((exponent - 1) as nat, 925);
    lemma_pow2_adds(29, (exponent + 895) as nat);
    let low = pow2((exponent - 1) as nat);
    let wide = pow2(925);
    let scale = pow2((exponent + 895) as nat);
    assert(low * wide == 0x2000_0000 * scale);
    assert((0x80_0000 + fraction) * low * wide == (0x80_0000 + fraction) * (0x2000_0000 * scale))
        by (nonlinear_arith)
        requires
            low * wide == 0x2000_0000 * scale,
    ;
    assert((0x10_0000_0000_0000 + fraction * 0x2000_0000) * scale == (0x80_0000 + fraction) * (
    0x2000_0000 * scale)) by (nonlinear_arith);
}

} // verus!
