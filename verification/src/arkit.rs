//! ARKit blendshape channels and validated coefficient vectors.

use vstd::prelude::*;

use crate::binary::Binary32;

verus! {

/// Number of ARKit channels.
pub const ARKIT52_CHANNEL_COUNT: usize = 52;

/// Number of channels without `TongueOut`, which is the last one.
pub const ARKIT_NON_TONGUE_CHANNEL_COUNT: usize = 51;

/// Bit pattern of one.
pub const ONE_BITS: u32 = 0x3f80_0000;

/// An ARKit blendshape, in canonical channel order.
#[derive(Clone, Copy, Debug, PartialEq, Eq, Structural)]
pub enum ArkitBlendshape {
    /// Eye blink left.
    EyeBlinkLeft,
    /// Eye look down left.
    EyeLookDownLeft,
    /// Eye look in left.
    EyeLookInLeft,
    /// Eye look out left.
    EyeLookOutLeft,
    /// Eye look up left.
    EyeLookUpLeft,
    /// Eye squint left.
    EyeSquintLeft,
    /// Eye wide left.
    EyeWideLeft,
    /// Eye blink right.
    EyeBlinkRight,
    /// Eye look down right.
    EyeLookDownRight,
    /// Eye look in right.
    EyeLookInRight,
    /// Eye look out right.
    EyeLookOutRight,
    /// Eye look up right.
    EyeLookUpRight,
    /// Eye squint right.
    EyeSquintRight,
    /// Eye wide right.
    EyeWideRight,
    /// Jaw forward.
    JawForward,
    /// Jaw left.
    JawLeft,
    /// Jaw right.
    JawRight,
    /// Jaw open.
    JawOpen,
    /// Mouth close.
    MouthClose,
    /// Mouth funnel.
    MouthFunnel,
    /// Mouth pucker.
    MouthPucker,
    /// Mouth left.
    MouthLeft,
    /// Mouth right.
    MouthRight,
    /// Mouth smile left.
    MouthSmileLeft,
    /// Mouth smile right.
    MouthSmileRight,
    /// Mouth frown left.
    MouthFrownLeft,
    /// Mouth frown right.
    MouthFrownRight,
    /// Mouth dimple left.
    MouthDimpleLeft,
    /// Mouth dimple right.
    MouthDimpleRight,
    /// Mouth stretch left.
    MouthStretchLeft,
    /// Mouth stretch right.
    MouthStretchRight,
    /// Mouth roll lower.
    MouthRollLower,
    /// Mouth roll upper.
    MouthRollUpper,
    /// Mouth shrug lower.
    MouthShrugLower,
    /// Mouth shrug upper.
    MouthShrugUpper,
    /// Mouth press left.
    MouthPressLeft,
    /// Mouth press right.
    MouthPressRight,
    /// Mouth lower down left.
    MouthLowerDownLeft,
    /// Mouth lower down right.
    MouthLowerDownRight,
    /// Mouth upper up left.
    MouthUpperUpLeft,
    /// Mouth upper up right.
    MouthUpperUpRight,
    /// Brow down left.
    BrowDownLeft,
    /// Brow down right.
    BrowDownRight,
    /// Brow inner up.
    BrowInnerUp,
    /// Brow outer up left.
    BrowOuterUpLeft,
    /// Brow outer up right.
    BrowOuterUpRight,
    /// Cheek puff.
    CheekPuff,
    /// Cheek squint left.
    CheekSquintLeft,
    /// Cheek squint right.
    CheekSquintRight,
    /// Nose sneer left.
    NoseSneerLeft,
    /// Nose sneer right.
    NoseSneerRight,
    /// Tongue out.
    TongueOut,
}

impl ArkitBlendshape {
    /// Position in canonical order.
    pub open spec fn position(self) -> int {
        match self {
            ArkitBlendshape::EyeBlinkLeft => 0,
            ArkitBlendshape::EyeLookDownLeft => 1,
            ArkitBlendshape::EyeLookInLeft => 2,
            ArkitBlendshape::EyeLookOutLeft => 3,
            ArkitBlendshape::EyeLookUpLeft => 4,
            ArkitBlendshape::EyeSquintLeft => 5,
            ArkitBlendshape::EyeWideLeft => 6,
            ArkitBlendshape::EyeBlinkRight => 7,
            ArkitBlendshape::EyeLookDownRight => 8,
            ArkitBlendshape::EyeLookInRight => 9,
            ArkitBlendshape::EyeLookOutRight => 10,
            ArkitBlendshape::EyeLookUpRight => 11,
            ArkitBlendshape::EyeSquintRight => 12,
            ArkitBlendshape::EyeWideRight => 13,
            ArkitBlendshape::JawForward => 14,
            ArkitBlendshape::JawLeft => 15,
            ArkitBlendshape::JawRight => 16,
            ArkitBlendshape::JawOpen => 17,
            ArkitBlendshape::MouthClose => 18,
            ArkitBlendshape::MouthFunnel => 19,
            ArkitBlendshape::MouthPucker => 20,
            ArkitBlendshape::MouthLeft => 21,
            ArkitBlendshape::MouthRight => 22,
            ArkitBlendshape::MouthSmileLeft => 23,
            ArkitBlendshape::MouthSmileRight => 24,
            ArkitBlendshape::MouthFrownLeft => 25,
            ArkitBlendshape::MouthFrownRight => 26,
            ArkitBlendshape::MouthDimpleLeft => 27,
            ArkitBlendshape::MouthDimpleRight => 28,
            ArkitBlendshape::MouthStretchLeft => 29,
            ArkitBlendshape::MouthStretchRight => 30,
            ArkitBlendshape::MouthRollLower => 31,
            ArkitBlendshape::MouthRollUpper => 32,
            ArkitBlendshape::MouthShrugLower => 33,
            ArkitBlendshape::MouthShrugUpper => 34,
            ArkitBlendshape::MouthPressLeft => 35,
            ArkitBlendshape::MouthPressRight => 36,
            ArkitBlendshape::MouthLowerDownLeft => 37,
            ArkitBlendshape::MouthLowerDownRight => 38,
            ArkitBlendshape::MouthUpperUpLeft => 39,
            ArkitBlendshape::MouthUpperUpRight => 40,
            ArkitBlendshape::BrowDownLeft => 41,
            ArkitBlendshape::BrowDownRight => 42,
            ArkitBlendshape::BrowInnerUp => 43,
            ArkitBlendshape::BrowOuterUpLeft => 44,
            ArkitBlendshape::BrowOuterUpRight => 45,
            ArkitBlendshape::CheekPuff => 46,
            ArkitBlendshape::CheekSquintLeft => 47,
            ArkitBlendshape::CheekSquintRight => 48,
            ArkitBlendshape::NoseSneerLeft => 49,
            ArkitBlendshape::NoseSneerRight => 50,
            ArkitBlendshape::TongueOut => 51,
        }
    }

    /// Channel positions are distinct and lie in `0..52`, `TongueOut` last.
    pub proof fn lemma_positions_are_canonical(self, other: Self)
        ensures
            0 <= self.position() < ARKIT52_CHANNEL_COUNT,
            self.position() == other.position() <==> self == other,
            self.position() == ARKIT_NON_TONGUE_CHANNEL_COUNT <==> self == ArkitBlendshape::TongueOut,
    {
    }

    /// Position in canonical order.
    pub fn index(self) -> (index: usize)
        ensures
            index == self.position(),
            index < ARKIT52_CHANNEL_COUNT,
    {
        match self {
            ArkitBlendshape::EyeBlinkLeft => 0,
            ArkitBlendshape::EyeLookDownLeft => 1,
            ArkitBlendshape::EyeLookInLeft => 2,
            ArkitBlendshape::EyeLookOutLeft => 3,
            ArkitBlendshape::EyeLookUpLeft => 4,
            ArkitBlendshape::EyeSquintLeft => 5,
            ArkitBlendshape::EyeWideLeft => 6,
            ArkitBlendshape::EyeBlinkRight => 7,
            ArkitBlendshape::EyeLookDownRight => 8,
            ArkitBlendshape::EyeLookInRight => 9,
            ArkitBlendshape::EyeLookOutRight => 10,
            ArkitBlendshape::EyeLookUpRight => 11,
            ArkitBlendshape::EyeSquintRight => 12,
            ArkitBlendshape::EyeWideRight => 13,
            ArkitBlendshape::JawForward => 14,
            ArkitBlendshape::JawLeft => 15,
            ArkitBlendshape::JawRight => 16,
            ArkitBlendshape::JawOpen => 17,
            ArkitBlendshape::MouthClose => 18,
            ArkitBlendshape::MouthFunnel => 19,
            ArkitBlendshape::MouthPucker => 20,
            ArkitBlendshape::MouthLeft => 21,
            ArkitBlendshape::MouthRight => 22,
            ArkitBlendshape::MouthSmileLeft => 23,
            ArkitBlendshape::MouthSmileRight => 24,
            ArkitBlendshape::MouthFrownLeft => 25,
            ArkitBlendshape::MouthFrownRight => 26,
            ArkitBlendshape::MouthDimpleLeft => 27,
            ArkitBlendshape::MouthDimpleRight => 28,
            ArkitBlendshape::MouthStretchLeft => 29,
            ArkitBlendshape::MouthStretchRight => 30,
            ArkitBlendshape::MouthRollLower => 31,
            ArkitBlendshape::MouthRollUpper => 32,
            ArkitBlendshape::MouthShrugLower => 33,
            ArkitBlendshape::MouthShrugUpper => 34,
            ArkitBlendshape::MouthPressLeft => 35,
            ArkitBlendshape::MouthPressRight => 36,
            ArkitBlendshape::MouthLowerDownLeft => 37,
            ArkitBlendshape::MouthLowerDownRight => 38,
            ArkitBlendshape::MouthUpperUpLeft => 39,
            ArkitBlendshape::MouthUpperUpRight => 40,
            ArkitBlendshape::BrowDownLeft => 41,
            ArkitBlendshape::BrowDownRight => 42,
            ArkitBlendshape::BrowInnerUp => 43,
            ArkitBlendshape::BrowOuterUpLeft => 44,
            ArkitBlendshape::BrowOuterUpRight => 45,
            ArkitBlendshape::CheekPuff => 46,
            ArkitBlendshape::CheekSquintLeft => 47,
            ArkitBlendshape::CheekSquintRight => 48,
            ArkitBlendshape::NoseSneerLeft => 49,
            ArkitBlendshape::NoseSneerRight => 50,
            ArkitBlendshape::TongueOut => 51,
        }
    }

    /// All channels in canonical order.
    pub fn all() -> (channels: [ArkitBlendshape; 52])
        ensures
            forall|i: int| 0 <= i < 52 ==> (#[trigger] channels@[i]).position() == i,
    {
        [
            ArkitBlendshape::EyeBlinkLeft,
            ArkitBlendshape::EyeLookDownLeft,
            ArkitBlendshape::EyeLookInLeft,
            ArkitBlendshape::EyeLookOutLeft,
            ArkitBlendshape::EyeLookUpLeft,
            ArkitBlendshape::EyeSquintLeft,
            ArkitBlendshape::EyeWideLeft,
            ArkitBlendshape::EyeBlinkRight,
            ArkitBlendshape::EyeLookDownRight,
            ArkitBlendshape::EyeLookInRight,
            ArkitBlendshape::EyeLookOutRight,
            ArkitBlendshape::EyeLookUpRight,
            ArkitBlendshape::EyeSquintRight,
            ArkitBlendshape::EyeWideRight,
            ArkitBlendshape::JawForward,
            ArkitBlendshape::JawLeft,
            ArkitBlendshape::JawRight,
            ArkitBlendshape::JawOpen,
            ArkitBlendshape::MouthClose,
            ArkitBlendshape::MouthFunnel,
            ArkitBlendshape::MouthPucker,
            ArkitBlendshape::MouthLeft,
            ArkitBlendshape::MouthRight,
            ArkitBlendshape::MouthSmileLeft,
            ArkitBlendshape::MouthSmileRight,
            ArkitBlendshape::MouthFrownLeft,
            ArkitBlendshape::MouthFrownRight,
            ArkitBlendshape::MouthDimpleLeft,
            ArkitBlendshape::MouthDimpleRight,
            ArkitBlendshape::MouthStretchLeft,
            ArkitBlendshape::MouthStretchRight,
            ArkitBlendshape::MouthRollLower,
            ArkitBlendshape::MouthRollUpper,
            ArkitBlendshape::MouthShrugLower,
            ArkitBlendshape::MouthShrugUpper,
            ArkitBlendshape::MouthPressLeft,
            ArkitBlendshape::MouthPressRight,
            ArkitBlendshape::MouthLowerDownLeft,
            ArkitBlendshape::MouthLowerDownRight,
            ArkitBlendshape::MouthUpperUpLeft,
            ArkitBlendshape::MouthUpperUpRight,
            ArkitBlendshape::BrowDownLeft,
            ArkitBlendshape::BrowDownRight,
            ArkitBlendshape::BrowInnerUp,
            ArkitBlendshape::BrowOuterUpLeft,
            ArkitBlendshape::BrowOuterUpRight,
            ArkitBlendshape::CheekPuff,
            ArkitBlendshape::CheekSquintLeft,
            ArkitBlendshape::CheekSquintRight,
            ArkitBlendshape::NoseSneerLeft,
            ArkitBlendshape::NoseSneerRight,
            ArkitBlendshape::TongueOut,
        ]
    }
}

/// A coefficient failed validation; `channel` is its position.
#[derive(Clone, Copy, Debug, PartialEq, Eq, Structural)]
pub enum Arkit52ValueError {
    /// The coefficient is infinite or a NaN.
    NonFinite {
        /// Canonical position of the first offending channel.
        channel: usize,
    },
    /// The coefficient is finite but outside `0..=1`.
    OutOfRange {
        /// Canonical position of the first offending channel.
        channel: usize,
    },
}

/// The number lies in `0..=1`; negative zero counts as zero.
pub open spec fn in_unit_range(value: Binary32) -> bool {
    0 <= value.rank() <= ONE_BITS
}

/// Whether the number lies in `0..=1`.
pub fn is_in_unit_range(value: Binary32) -> (inside: bool)
    ensures
        inside == in_unit_range(value),
{
    value.bits <= ONE_BITS || value.abs_bits() == 0
}

/// A complete vector of coefficients in canonical order.
#[derive(Clone, Copy, Debug, PartialEq, Eq)]
pub struct Arkit52Coefficients {
    /// One value per channel.
    pub values: [Binary32; 52],
}

impl View for Arkit52Coefficients {
    type V = Seq<Binary32>;

    open spec fn view(&self) -> Seq<Binary32> {
        self.values@
    }
}

/// Every coefficient lies in `0..=1`.
pub open spec fn all_in_unit_range(values: Seq<Binary32>) -> bool {
    forall|i: int| 0 <= i < values.len() ==> in_unit_range(#[trigger] values[i])
}

/// The two vectors hold the same numbers; the two zeros are equal.
pub open spec fn same_numbers(left: Seq<Binary32>, right: Seq<Binary32>) -> bool {
    left.len() == right.len() && forall|i: int|
        0 <= i < left.len() ==> (#[trigger] left[i]).same_number(right[i])
}

impl Arkit52Coefficients {
    /// Every coefficient lies in `0..=1`.
    pub open spec fn valid(self) -> bool {
        all_in_unit_range(self@)
    }

    /// Accepts a vector whose values all lie in `0..=1`, and reports the first
    /// channel that does not.
    pub fn try_from_array(values: [Binary32; 52]) -> (result: Result<Self, Arkit52ValueError>)
        ensures
            match result {
                Ok(coefficients) => coefficients.valid() && coefficients@ == values@,
                Err(Arkit52ValueError::NonFinite { channel }) => {
                    &&& channel < 52
                    &&& all_in_unit_range(values@.take(channel as int))
                    &&& !values@[channel as int].finite()
                },
                Err(Arkit52ValueError::OutOfRange { channel }) => {
                    &&& channel < 52
                    &&& all_in_unit_range(values@.take(channel as int))
                    &&& values@[channel as int].finite()
                    &&& !in_unit_range(values@[channel as int])
                },
            },
    {
        for channel in 0..52usize
            invariant
                forall|i: int| 0 <= i < channel ==> in_unit_range(#[trigger] values@[i]),
        {
            let value = values[channel];
            if !value.is_finite() {
                return Err(Arkit52ValueError::NonFinite { channel });
            }
            if !is_in_unit_range(value) {
                return Err(Arkit52ValueError::OutOfRange { channel });
            }
        }
        Ok(Arkit52Coefficients { values })
    }

    /// The coefficient of one channel.
    pub fn get(&self, channel: ArkitBlendshape) -> (value: Binary32)
        ensures
            value == self@[channel.position()],
    {
        self.values[channel.index()]
    }

    /// All coefficients in canonical order.
    pub fn as_array(&self) -> (values: [Binary32; 52])
        ensures
            values@ == self@,
    {
        self.values
    }

    /// Whether both vectors hold the same numbers.
    pub fn is_same(&self, other: &Self) -> (same: bool)
        ensures
            same == same_numbers(self@, other@),
    {
        for i in 0..52usize
            invariant
                forall|j: int| 0 <= j < i ==> (#[trigger] self@[j]).same_number(other@[j]),
        {
            if !self.values[i].is_same_number(other.values[i]) {
                assert(!self@[i as int].same_number(other@[i as int]));
                return false;
            }
        }
        true
    }
}

/// Non-tongue coefficients with a zero appended for `TongueOut`.
pub open spec fn with_zero_tongue(values: Seq<Binary32>) -> Seq<Binary32> {
    values.push(Binary32 { bits: 0 })
}

/// The first fifty-one coefficients.
pub fn arkit_non_tongue_values(coefficients: &Arkit52Coefficients) -> (values: Vec<Binary32>)
    ensures
        values@ == coefficients@.take(ARKIT_NON_TONGUE_CHANNEL_COUNT as int),
{
    let mut values: Vec<Binary32> = Vec::with_capacity(ARKIT_NON_TONGUE_CHANNEL_COUNT);
    for i in 0..ARKIT_NON_TONGUE_CHANNEL_COUNT
        invariant
            values@ =~= coefficients@.take(i as int),
    {
        values.push(coefficients.values[i]);
    }
    values
}

/// Completes non-tongue values with a zero `TongueOut`, and reports the first
/// value outside `0..=1`.
pub fn arkit52_with_zero_tongue(values: &[Binary32]) -> (result: Result<
    Arkit52Coefficients,
    Arkit52ValueError,
>)
    requires
        values@.len() == ARKIT_NON_TONGUE_CHANNEL_COUNT,
    ensures
        result is Ok <==> all_in_unit_range(values@),
        match result {
            Ok(coefficients) => coefficients.valid() && coefficients@ == with_zero_tongue(values@),
            Err(Arkit52ValueError::NonFinite { channel }) => {
                &&& channel < 51
                &&& all_in_unit_range(values@.take(channel as int))
                &&& !values@[channel as int].finite()
            },
            Err(Arkit52ValueError::OutOfRange { channel }) => {
                &&& channel < 51
                &&& all_in_unit_range(values@.take(channel as int))
                &&& values@[channel as int].finite()
                &&& !in_unit_range(values@[channel as int])
            },
        },
{
    let mut all: [Binary32; 52] = [Binary32 { bits: 0 }; 52];
    for i in 0..ARKIT_NON_TONGUE_CHANNEL_COUNT
        invariant
            values@.len() == ARKIT_NON_TONGUE_CHANNEL_COUNT,
            forall|j: int| 0 <= j < i ==> all@[j] == values@[j],
            forall|j: int| i <= j < 52 ==> all@[j] == (Binary32 { bits: 0 }),
    {
        all[i] = values[i];
    }
    assert(all@ =~= with_zero_tongue(values@));
    let result = Arkit52Coefficients::try_from_array(all);
    proof {
        assert(forall|i: int| 0 <= i < 51 ==> all@[i] == values@[i]);
        match result {
            Ok(coefficients) => {
                assert forall|i: int| 0 <= i < 51 implies in_unit_range(#[trigger] values@[i]) by {
                    assert(in_unit_range(coefficients@[i]));
                }
            },
            Err(Arkit52ValueError::NonFinite { channel }) => {
                assert(values@.take(channel as int) =~= all@.take(channel as int));
                assert(!in_unit_range(values@[channel as int]));
            },
            Err(Arkit52ValueError::OutOfRange { channel }) => {
                assert(values@.take(channel as int) =~= all@.take(channel as int));
                assert(!in_unit_range(values@[channel as int]));
            },
        }
    }
    result
}

} // verus!
