//! The control frame that the avatar consumes.

use vstd::prelude::*;

use crate::arkit::Arkit52Coefficients;
use crate::binary::Binary32;
use crate::clock::{FrameSeq, MonoTimeNs};

verus! {

/// `a + t * (b - a)`.
pub open spec fn lerp_of(a: Binary32, b: Binary32, t: Binary32) -> Binary32 {
    a.plus(t.times(b.minus(a)))
}

/// Linearly interpolates two numbers.
pub fn lerp(a: Binary32, b: Binary32, t: Binary32) -> (value: Binary32)
    ensures
        value == lerp_of(a, b, t),
{
    a.sum(t.product(b.difference(a)))
}

/// State of the face tracker.
#[derive(Clone, Copy, Debug, PartialEq, Eq, Structural)]
pub enum TrackingState {
    /// Before the first frame.
    Starting,
    /// Looking for a face.
    Searching,
    /// A face is being acquired.
    Acquiring,
    /// A face is tracked.
    Tracking,
    /// A face is tracked with reduced quality.
    Degraded,
    /// The face was lost a moment ago.
    LostHold,
    /// The pose is returning to neutral.
    ReturningNeutral,
}

impl TrackingState {
    /// The face is lost.
    pub open spec fn lost(self) -> bool {
        self is LostHold || self is ReturningNeutral || self is Searching
    }

    /// A face is tracked or being acquired.
    pub open spec fn acquired(self) -> bool {
        self is Tracking || self is Acquiring
    }

    /// Whether the face is lost.
    pub fn is_lost(self) -> (lost: bool)
        ensures
            lost == self.lost(),
    {
        matches!(
            self,
            TrackingState::LostHold | TrackingState::ReturningNeutral | TrackingState::Searching
        )
    }

    /// Whether a face is tracked or being acquired.
    pub fn is_acquired(self) -> (acquired: bool)
        ensures
            acquired == self.acquired(),
    {
        matches!(self, TrackingState::Tracking | TrackingState::Acquiring)
    }
}

/// Head rotation in radians.
#[derive(Clone, Copy, Debug, PartialEq, Eq, Structural)]
pub struct HeadPose {
    /// Yaw.
    pub yaw_rad: Binary32,
    /// Pitch.
    pub pitch_rad: Binary32,
    /// Roll.
    pub roll_rad: Binary32,
}

/// Availability of a head translation.
#[derive(Clone, Copy, Debug, PartialEq, Eq, Structural)]
pub enum HeadTranslationState {
    /// Fresh and reliable.
    Observed,
    /// Fresh but of reduced quality.
    Degraded,
    /// No observation.
    Unavailable,
}

/// Neutral-relative head translation in meters.
#[derive(Clone, Copy, Debug, PartialEq, Eq, Structural)]
pub struct HeadTranslationSignal {
    /// Toward image right.
    pub x_meters: Binary32,
    /// Up.
    pub y_meters: Binary32,
    /// Away from the camera.
    pub z_meters: Binary32,
    /// Availability.
    pub state: HeadTranslationState,
}

impl HeadTranslationSignal {
    /// All components are finite.
    pub open spec fn finite(self) -> bool {
        self.x_meters.finite() && self.y_meters.finite() && self.z_meters.finite()
    }

    /// The signal that carries no observation.
    pub open spec fn none() -> Self {
        HeadTranslationSignal {
            x_meters: Binary32 { bits: 0 },
            y_meters: Binary32 { bits: 0 },
            z_meters: Binary32 { bits: 0 },
            state: HeadTranslationState::Unavailable,
        }
    }

    /// The signal with these components, or none when one is not finite.
    pub open spec fn of(x: Binary32, y: Binary32, z: Binary32, state: HeadTranslationState) -> Self {
        if x.finite() && y.finite() && z.finite() {
            HeadTranslationSignal { x_meters: x, y_meters: y, z_meters: z, state }
        } else {
            Self::none()
        }
    }

    /// The signal that carries no observation.
    pub fn unavailable() -> (signal: Self)
        ensures
            signal == Self::none(),
    {
        HeadTranslationSignal {
            x_meters: Binary32::zero(),
            y_meters: Binary32::zero(),
            z_meters: Binary32::zero(),
            state: HeadTranslationState::Unavailable,
        }
    }

    /// A reliable signal, or none when a component is not finite.
    pub fn observed(x: Binary32, y: Binary32, z: Binary32) -> (signal: Self)
        ensures
            signal == Self::of(x, y, z, HeadTranslationState::Observed),
    {
        if x.is_finite() && y.is_finite() && z.is_finite() {
            HeadTranslationSignal {
                x_meters: x,
                y_meters: y,
                z_meters: z,
                state: HeadTranslationState::Observed,
            }
        } else {
            Self::unavailable()
        }
    }

    /// A signal of reduced quality, or none when a component is not finite.
    pub fn degraded(x: Binary32, y: Binary32, z: Binary32) -> (signal: Self)
        ensures
            signal == Self::of(x, y, z, HeadTranslationState::Degraded),
    {
        if x.is_finite() && y.is_finite() && z.is_finite() {
            HeadTranslationSignal {
                x_meters: x,
                y_meters: y,
                z_meters: z,
                state: HeadTranslationState::Degraded,
            }
        } else {
            Self::unavailable()
        }
    }

    /// Whether the signal carries an observation.
    pub fn is_available(&self) -> (available: bool)
        ensures
            available == !(self.state is Unavailable),
    {
        !matches!(self.state, HeadTranslationState::Unavailable)
    }

    /// The signal seen in a mirror: only the horizontal component flips.
    pub fn mirrored(&self) -> (signal: Self)
        ensures
            signal == (HeadTranslationSignal { x_meters: self.x_meters.negated(), ..*self }),
    {
        HeadTranslationSignal {
            x_meters: self.x_meters.neg(),
            y_meters: self.y_meters,
            z_meters: self.z_meters,
            state: self.state,
        }
    }
}

/// Availability of a gaze signal.
#[derive(Clone, Copy, Debug, PartialEq, Eq, Structural)]
pub enum GazeTrackingState {
    /// Fresh and reliable.
    Observed,
    /// Fresh but of reduced quality.
    Degraded,
    /// No observation.
    Unavailable,
}

/// Gaze direction and its confidence.
#[derive(Clone, Copy, Debug, PartialEq, Eq, Structural)]
pub struct GazeSignal {
    /// Horizontal direction.
    pub horizontal: Binary32,
    /// Vertical direction.
    pub vertical: Binary32,
    /// Confidence.
    pub confidence: Binary32,
    /// Availability.
    pub state: GazeTrackingState,
}

impl GazeSignal {
    /// The signal that carries no observation.
    pub open spec fn none() -> Self {
        GazeSignal {
            horizontal: Binary32 { bits: 0 },
            vertical: Binary32 { bits: 0 },
            confidence: Binary32 { bits: 0 },
            state: GazeTrackingState::Unavailable,
        }
    }

    /// The signal with these components; an unavailable one carries nothing.
    pub open spec fn of(
        horizontal: Binary32,
        vertical: Binary32,
        confidence: Binary32,
        state: GazeTrackingState,
    ) -> Self {
        if state is Unavailable {
            Self::none()
        } else {
            GazeSignal { horizontal, vertical, confidence, state }
        }
    }

    /// The signal that carries no observation.
    pub fn unavailable() -> (signal: Self)
        ensures
            signal == Self::none(),
    {
        GazeSignal {
            horizontal: Binary32::zero(),
            vertical: Binary32::zero(),
            confidence: Binary32::zero(),
            state: GazeTrackingState::Unavailable,
        }
    }

    /// The signal with these components; an unavailable one carries nothing.
    pub fn with_state(
        horizontal: Binary32,
        vertical: Binary32,
        confidence: Binary32,
        state: GazeTrackingState,
    ) -> (signal: Self)
        ensures
            signal == Self::of(horizontal, vertical, confidence, state),
    {
        match state {
            GazeTrackingState::Unavailable => Self::unavailable(),
            _ => GazeSignal { horizontal, vertical, confidence, state },
        }
    }

    /// Whether the signal carries an observation.
    pub fn is_available(&self) -> (available: bool)
        ensures
            available == !(self.state is Unavailable),
    {
        !matches!(self.state, GazeTrackingState::Unavailable)
    }
}

/// The avatar's basic expression coefficients.
#[derive(Clone, Copy, Debug, PartialEq, Eq, Structural)]
pub struct ExpressionCoefficients {
    /// Blink left.
    pub blink_left: Binary32,
    /// Blink right.
    pub blink_right: Binary32,
    /// Aa.
    pub aa: Binary32,
    /// Ih.
    pub ih: Binary32,
    /// Ou.
    pub ou: Binary32,
    /// Ee.
    pub ee: Binary32,
    /// Oh.
    pub oh: Binary32,
    /// Look left.
    pub look_left: Binary32,
    /// Look right.
    pub look_right: Binary32,
    /// Look up.
    pub look_up: Binary32,
    /// Look down.
    pub look_down: Binary32,
    /// Happy.
    pub happy: Binary32,
    /// Angry.
    pub angry: Binary32,
    /// Sad.
    pub sad: Binary32,
    /// Relaxed.
    pub relaxed: Binary32,
    /// Surprised.
    pub surprised: Binary32,
}

impl ExpressionCoefficients {
    /// Every coefficient is zero.
    pub open spec fn neutral() -> Self {
        ExpressionCoefficients {
            blink_left: Binary32 { bits: 0 },
            blink_right: Binary32 { bits: 0 },
            aa: Binary32 { bits: 0 },
            ih: Binary32 { bits: 0 },
            ou: Binary32 { bits: 0 },
            ee: Binary32 { bits: 0 },
            oh: Binary32 { bits: 0 },
            look_left: Binary32 { bits: 0 },
            look_right: Binary32 { bits: 0 },
            look_up: Binary32 { bits: 0 },
            look_down: Binary32 { bits: 0 },
            happy: Binary32 { bits: 0 },
            angry: Binary32 { bits: 0 },
            sad: Binary32 { bits: 0 },
            relaxed: Binary32 { bits: 0 },
            surprised: Binary32 { bits: 0 },
        }
    }

    /// The coefficients in declaration order.
    pub open spec fn listed(self) -> Seq<Binary32> {
        seq![
            self.blink_left,
            self.blink_right,
            self.aa,
            self.ih,
            self.ou,
            self.ee,
            self.oh,
            self.look_left,
            self.look_right,
            self.look_up,
            self.look_down,
            self.happy,
            self.angry,
            self.sad,
            self.relaxed,
            self.surprised,
        ]
    }

    /// The coefficients determine the set.
    pub proof fn lemma_listed_is_injective(self, other: Self)
        requires
            forall|i: int| 0 <= i < 16 ==> self.listed()[i] == other.listed()[i],
        ensures
            self == other,
    {
        let a = self.listed();
        let b = other.listed();
        assert(a[0] == b[0] && a[1] == b[1] && a[2] == b[2] && a[3] == b[3]);
        assert(a[4] == b[4] && a[5] == b[5] && a[6] == b[6] && a[7] == b[7]);
        assert(a[8] == b[8] && a[9] == b[9] && a[10] == b[10] && a[11] == b[11]);
        assert(a[12] == b[12] && a[13] == b[13] && a[14] == b[14] && a[15] == b[15]);
    }

    /// Every coefficient times `factor`.
    pub open spec fn scaled_by(self, factor: Binary32) -> Self {
        ExpressionCoefficients {
            blink_left: self.blink_left.times(factor),
            blink_right: self.blink_right.times(factor),
            aa: self.aa.times(factor),
            ih: self.ih.times(factor),
            ou: self.ou.times(factor),
            ee: self.ee.times(factor),
            oh: self.oh.times(factor),
            look_left: self.look_left.times(factor),
            look_right: self.look_right.times(factor),
            look_up: self.look_up.times(factor),
            look_down: self.look_down.times(factor),
            happy: self.happy.times(factor),
            angry: self.angry.times(factor),
            sad: self.sad.times(factor),
            relaxed: self.relaxed.times(factor),
            surprised: self.surprised.times(factor),
        }
    }

    /// Every coefficient interpolated toward `other`.
    pub open spec fn lerped(self, other: Self, t: Binary32) -> Self {
        ExpressionCoefficients {
            blink_left: lerp_of(self.blink_left, other.blink_left, t),
            blink_right: lerp_of(self.blink_right, other.blink_right, t),
            aa: lerp_of(self.aa, other.aa, t),
            ih: lerp_of(self.ih, other.ih, t),
            ou: lerp_of(self.ou, other.ou, t),
            ee: lerp_of(self.ee, other.ee, t),
            oh: lerp_of(self.oh, other.oh, t),
            look_left: lerp_of(self.look_left, other.look_left, t),
            look_right: lerp_of(self.look_right, other.look_right, t),
            look_up: lerp_of(self.look_up, other.look_up, t),
            look_down: lerp_of(self.look_down, other.look_down, t),
            happy: lerp_of(self.happy, other.happy, t),
            angry: lerp_of(self.angry, other.angry, t),
            sad: lerp_of(self.sad, other.sad, t),
            relaxed: lerp_of(self.relaxed, other.relaxed, t),
            surprised: lerp_of(self.surprised, other.surprised, t),
        }
    }

    /// The coefficients in declaration order.
    pub fn to_array(&self) -> (values: [Binary32; 16])
        ensures
            values@ == self.listed(),
    {
        let values = [
            self.blink_left,
            self.blink_right,
            self.aa,
            self.ih,
            self.ou,
            self.ee,
            self.oh,
            self.look_left,
            self.look_right,
            self.look_up,
            self.look_down,
            self.happy,
            self.angry,
            self.sad,
            self.relaxed,
            self.surprised,
        ];
        assert(values@ =~= self.listed());
        values
    }

    /// Every coefficient times `factor`.
    pub fn scale(&self, factor: Binary32) -> (scaled: Self)
        ensures
            scaled == self.scaled_by(factor),
    {
        ExpressionCoefficients {
            blink_left: self.blink_left.product(factor),
            blink_right: self.blink_right.product(factor),
            aa: self.aa.product(factor),
            ih: self.ih.product(factor),
            ou: self.ou.product(factor),
            ee: self.ee.product(factor),
            oh: self.oh.product(factor),
            look_left: self.look_left.product(factor),
            look_right: self.look_right.product(factor),
            look_up: self.look_up.product(factor),
            look_down: self.look_down.product(factor),
            happy: self.happy.product(factor),
            angry: self.angry.product(factor),
            sad: self.sad.product(factor),
            relaxed: self.relaxed.product(factor),
            surprised: self.surprised.product(factor),
        }
    }

    /// Every coefficient interpolated toward `other`.
    pub fn blend(&self, other: &Self, t: Binary32) -> (blended: Self)
        ensures
            blended == self.lerped(*other, t),
    {
        ExpressionCoefficients {
            blink_left: lerp(self.blink_left, other.blink_left, t),
            blink_right: lerp(self.blink_right, other.blink_right, t),
            aa: lerp(self.aa, other.aa, t),
            ih: lerp(self.ih, other.ih, t),
            ou: lerp(self.ou, other.ou, t),
            ee: lerp(self.ee, other.ee, t),
            oh: lerp(self.oh, other.oh, t),
            look_left: lerp(self.look_left, other.look_left, t),
            look_right: lerp(self.look_right, other.look_right, t),
            look_up: lerp(self.look_up, other.look_up, t),
            look_down: lerp(self.look_down, other.look_down, t),
            happy: lerp(self.happy, other.happy, t),
            angry: lerp(self.angry, other.angry, t),
            sad: lerp(self.sad, other.sad, t),
            relaxed: lerp(self.relaxed, other.relaxed, t),
            surprised: lerp(self.surprised, other.surprised, t),
        }
    }
}

impl Default for ExpressionCoefficients {
    fn default() -> (expressions: Self)
        ensures
            expressions == Self::neutral(),
    {
        ExpressionCoefficients {
            blink_left: Binary32 { bits: 0 },
            blink_right: Binary32 { bits: 0 },
            aa: Binary32 { bits: 0 },
            ih: Binary32 { bits: 0 },
            ou: Binary32 { bits: 0 },
            ee: Binary32 { bits: 0 },
            oh: Binary32 { bits: 0 },
            look_left: Binary32 { bits: 0 },
            look_right: Binary32 { bits: 0 },
            look_up: Binary32 { bits: 0 },
            look_down: Binary32 { bits: 0 },
            happy: Binary32 { bits: 0 },
            angry: Binary32 { bits: 0 },
            sad: Binary32 { bits: 0 },
            relaxed: Binary32 { bits: 0 },
            surprised: Binary32 { bits: 0 },
        }
    }
}

/// One frame of avatar control.
#[derive(Clone, Copy, Debug, PartialEq)]
pub struct AvatarControlFrame {
    /// Source frame the observation came from.
    pub source_seq: FrameSeq,
    /// Capture time of that source frame.
    pub captured_at: MonoTimeNs,
    /// Time at which this frame was produced.
    pub produced_at: MonoTimeNs,
    /// Authority with which consumers weight the pose.
    pub confidence: Binary32,
    /// Tracker state.
    pub state: TrackingState,
    /// Head rotation.
    pub head: HeadPose,
    /// Head translation.
    pub head_translation: HeadTranslationSignal,
    /// Gaze.
    pub gaze: GazeSignal,
    /// Basic expressions.
    pub expressions: ExpressionCoefficients,
    /// Detailed coefficients.
    pub detailed_face: Option<Arkit52Coefficients>,
}

impl AvatarControlFrame {
    /// Confidences and coefficients are finite, and detailed coefficients in range.
    pub open spec fn finite(self) -> bool {
        &&& self.confidence.finite()
        &&& self.gaze.confidence.finite()
        &&& forall|i: int| 0 <= i < 16 ==> (#[trigger] self.expressions.listed()[i]).finite()
        &&& self.detailed_face is Some ==> self.detailed_face->0.valid()
    }
}

} // verus!
