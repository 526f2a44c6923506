//! Canonical same-frame fan-out from one MediaPipe inference result.
//!
//! Every camera frame runs MediaPipe inference exactly once. This module is the
//! single place where that one result is split into the three consumers: the
//! unchanged direct-path sample, the dense GNM observation, and the auxiliary
//! semantic observation. All outputs carry the identical source sequence and
//! capture timestamp; there is no nearest-timestamp frame mixing anywhere in this
//! boundary.

use vstd::prelude::*;
use vstd::string::*;

use crate::ab_backend::{AbBackendError, SourceFrameStamp};
use crate::binary::Binary32;
use crate::clock::{FrameSeq, MonoTimeNs};
use crate::gnm_fitter_contract::{AuxiliaryExpressionError, AuxiliaryExpressionObservation};
use crate::gnm_model::GnmDenseObservation;
use crate::landmark_basis::LANDMARK_COUNT;
use crate::text::{append_decimal, decimal};

verus! {

/// A dense observation could not be built.
#[derive(Clone, Copy, Debug, PartialEq)]
pub enum GnmDenseError {
    /// A list has the wrong length.
    Shape {
        /// Which list.
        field: &'static str,
        /// Required length.
        expected: usize,
        /// Given length.
        actual: usize,
    },
    /// The observation was rejected.
    Rejected(&'static str),
}

/// Failure while fanning out one inference result.
#[derive(Clone, Copy, Debug, PartialEq)]
#[allow(inconsistent_fields)]
pub enum SameFrameFanOutError {
    /// The shared source stamp failed chronology validation.
    Stamp(AbBackendError),
    /// The dense observation could not be built from the landmarks.
    Dense(GnmDenseError),
    /// The auxiliary observation rejected the blendshape scores or config.
    Auxiliary(AuxiliaryExpressionError),
    /// A produced output does not carry the shared source sequence.
    SourceSequenceMismatch {
        /// Shared source sequence from the direct sample.
        expected: u64,
        /// Sequence embedded in the dense observation.
        dense: u64,
        /// Sequence embedded in the auxiliary observation.
        auxiliary: u64,
    },
    /// A produced output does not carry the shared capture timestamp.
    CaptureTimestampMismatch {
        /// Shared capture timestamp, in microseconds.
        expected: u64,
        /// Timestamp embedded in the dense observation, in microseconds.
        dense: u64,
        /// Timestamp embedded in the auxiliary observation, in microseconds.
        auxiliary: u64,
    },
}

/// Three numbers that should be one.
pub open spec fn three_way(prefix: Seq<char>, expected: u64, dense: u64, auxiliary: u64) -> Seq<char> {
    prefix + decimal(expected as nat) + ", dense "@ + decimal(dense as nat) + ", auxiliary "@
        + decimal(auxiliary as nat)
}

fn write_three_way(prefix: &str, expected: u64, dense: u64, auxiliary: u64) -> (message: String)
    ensures
        message@ == three_way(prefix@, expected, dense, auxiliary),
{
    let mut message = prefix.to_owned();
    append_decimal(&mut message, expected);
    message.append(", dense ");
    append_decimal(&mut message, dense);
    message.append(", auxiliary ");
    append_decimal(&mut message, auxiliary);
    message
}

impl SameFrameFanOutError {
    /// The message of the error; `reason` is the message of what it carries.
    pub open spec fn text(self, reason: Seq<char>) -> Seq<char> {
        match self {
            SameFrameFanOutError::Stamp(_) => "source stamp invalid: "@ + reason,
            SameFrameFanOutError::Dense(_) => "dense observation failed: "@ + reason,
            SameFrameFanOutError::Auxiliary(_) => "auxiliary observation failed: "@ + reason,
            SameFrameFanOutError::SourceSequenceMismatch { expected, dense, auxiliary } => {
                three_way(
                    "same-frame fan-out sequence mismatch: direct "@,
                    expected,
                    dense,
                    auxiliary,
                )
            },
            SameFrameFanOutError::CaptureTimestampMismatch { expected, dense, auxiliary } => {
                three_way(
                    "same-frame fan-out capture timestamp mismatch: direct "@,
                    expected,
                    dense,
                    auxiliary,
                )
            },
        }
    }

    /// The message of the error.
    pub fn message(&self, reason: &str) -> (message: String)
        ensures
            message@ == self.text(reason@),
    {
        match self {
            SameFrameFanOutError::Stamp(_) => {
                let mut message = "source stamp invalid: ".to_owned();
                message.append(reason);
                message
            },
            SameFrameFanOutError::Dense(_) => {
                let mut message = "dense observation failed: ".to_owned();
                message.append(reason);
                message
            },
            SameFrameFanOutError::Auxiliary(_) => {
                let mut message = "auxiliary observation failed: ".to_owned();
                message.append(reason);
                message
            },
            SameFrameFanOutError::SourceSequenceMismatch { expected, dense, auxiliary } => {
                write_three_way(
                    "same-frame fan-out sequence mismatch: direct ",
                    *expected,
                    *dense,
                    *auxiliary,
                )
            },
            SameFrameFanOutError::CaptureTimestampMismatch { expected, dense, auxiliary } => {
                write_three_way(
                    "same-frame fan-out capture timestamp mismatch: direct ",
                    *expected,
                    *dense,
                    *auxiliary,
                )
            },
        }
    }
}

/// One face landmark.
#[derive(Clone, Copy, Debug, PartialEq)]
pub struct FaceLandmark {
    /// Horizontal image position.
    pub x: Binary32,
    /// Vertical image position.
    pub y: Binary32,
    /// Relative depth.
    pub z: Binary32,
    /// Visibility score.
    pub visibility: Option<Binary32>,
    /// Presence score.
    pub presence: Option<Binary32>,
}

/// Quality of an inference result.
#[derive(Clone, Copy, Debug, PartialEq)]
pub struct FaceTrackingQuality {
    /// Median landmark presence.
    pub landmark_presence_median: Option<Binary32>,
    /// How far the pose matrix is from orthogonal.
    pub matrix_orthogonality_error: Binary32,
    /// Determinant of the pose matrix.
    pub matrix_determinant: Binary32,
}

/// One MediaPipe inference result.
#[derive(Clone, Debug, PartialEq)]
pub struct FaceTrackingSample {
    /// Source frame.
    pub source_seq: FrameSeq,
    /// Capture time.
    pub captured_at: MonoTimeNs,
    /// Start of the inference.
    pub inference_started_at: MonoTimeNs,
    /// End of the inference.
    pub inference_finished_at: MonoTimeNs,
    /// Pose matrix in rows.
    pub camera_to_face: Vec<Binary32>,
    /// Center of the face in the image.
    pub face_center: [Binary32; 2],
    /// Landmarks.
    pub landmarks: Vec<FaceLandmark>,
    /// Blendshape scores in channel order.
    pub blendshapes: Vec<Binary32>,
    /// Quality.
    pub quality: FaceTrackingQuality,
}

impl FaceTrackingSample {
    /// Both samples hold the same values.
    pub open spec fn same(self, other: Self) -> bool {
        &&& self.source_seq == other.source_seq
        &&& self.captured_at == other.captured_at
        &&& self.inference_started_at == other.inference_started_at
        &&& self.inference_finished_at == other.inference_finished_at
        &&& self.camera_to_face@ == other.camera_to_face@
        &&& self.face_center == other.face_center
        &&& self.landmarks@ == other.landmarks@
        &&& self.blendshapes@ == other.blendshapes@
        &&& self.quality == other.quality
    }

    /// The same sample again.
    pub fn duplicate(&self) -> (copy: Self)
        ensures
            copy.same(*self),
    {
        let mut landmarks: Vec<FaceLandmark> = Vec::new();
        for i in 0..self.landmarks.len()
            invariant
                landmarks@ =~= self.landmarks@.take(i as int),
        {
            landmarks.push(self.landmarks[i]);
        }
        assert(self.landmarks@.take(self.landmarks@.len() as int) =~= self.landmarks@);
        FaceTrackingSample {
            source_seq: self.source_seq,
            captured_at: self.captured_at,
            inference_started_at: self.inference_started_at,
            inference_finished_at: self.inference_finished_at,
            camera_to_face: crate::linear_map::copy_numbers(&self.camera_to_face),
            face_center: self.face_center,
            landmarks,
            blendshapes: crate::linear_map::copy_numbers(&self.blendshapes),
            quality: self.quality,
        }
    }
}

/// One canonical fan-out: three consumers aligned to one exact source frame.
///
/// The direct member is an untouched copy of the input sample, so the existing
/// direct path keeps its exact output values and filter behavior. The dense and
/// auxiliary members are derived once per inference.
#[derive(Debug)]
pub struct SameFrameFanOut {
    stamp: SourceFrameStamp,
    direct: FaceTrackingSample,
    dense: GnmDenseObservation,
    auxiliary: AuxiliaryExpressionObservation,
}

/// Whole microseconds of a time.
pub open spec fn micros_of(time: MonoTimeNs) -> u64 {
    time.0 / 1_000
}

/// Converts a monotonic nanosecond timestamp to microseconds (truncating).
fn micros(nanos: u64) -> (micros: u64)
    ensures
        micros == nanos / 1_000,
{
    nanos / 1_000
}

/// Why members do not carry one source identity, if they do not.
pub open spec fn identity_fault(
    stamp: SourceFrameStamp,
    dense: GnmDenseObservation,
    auxiliary: AuxiliaryExpressionObservation,
) -> Option<SameFrameFanOutError> {
    if stamp.seq() != dense.source_seq || stamp.seq() != auxiliary.source_seq {
        Some(
            SameFrameFanOutError::SourceSequenceMismatch {
                expected: stamp.seq(),
                dense: dense.source_seq,
                auxiliary: auxiliary.source_seq,
            },
        )
    } else if stamp.captured() != dense.captured_at_micros || stamp.captured()
        != auxiliary.captured_at_micros {
        Some(
            SameFrameFanOutError::CaptureTimestampMismatch {
                expected: stamp.captured(),
                dense: dense.captured_at_micros,
                auxiliary: auxiliary.captured_at_micros,
            },
        )
    } else {
        None
    }
}

/// The image positions of the landmarks, which a dense observation is built
/// from.
pub fn landmark_points(sample: &FaceTrackingSample) -> (points: Vec<[Binary32; 2]>)
    ensures
        points@.len() == sample.landmarks@.len(),
        forall|i: int|
            0 <= i < points@.len() ==> (#[trigger] points@[i])@ == seq![
                sample.landmarks@[i].x,
                sample.landmarks@[i].y,
            ],
{
    let mut points: Vec<[Binary32; 2]> = Vec::new();
    for i in 0..sample.landmarks.len()
        invariant
            points@.len() == i,
            forall|j: int|
                0 <= j < i ==> (#[trigger] points@[j])@ == seq![
                    sample.landmarks@[j].x,
                    sample.landmarks@[j].y,
                ],
    {
        let point: [Binary32; 2] = [sample.landmarks[i].x, sample.landmarks[i].y];
        assert(point@ =~= seq![sample.landmarks@[i as int].x, sample.landmarks@[i as int].y]);
        points.push(point);
    }
    points
}

/// What a fan-out amounts to, given what the two observations came to.
pub open spec fn is_fan_out(
    sample: FaceTrackingSample,
    dense: Result<GnmDenseObservation, GnmDenseError>,
    auxiliary: Result<AuxiliaryExpressionObservation, AuxiliaryExpressionError>,
    result: Result<SameFrameFanOut, SameFrameFanOutError>,
) -> bool {
    let captured = micros_of(sample.captured_at);
    let inferred = micros_of(sample.inference_finished_at);
    match result {
        Ok(fan_out) => {
            &&& sample.landmarks@.len() == LANDMARK_COUNT
            &&& captured <= inferred
            &&& fan_out.source().seq() == sample.source_seq.0
            &&& fan_out.source().captured() == captured
            &&& fan_out.source().inferred() == Some(inferred)
            &&& fan_out.sample().same(sample)
            &&& dense == Ok::<_, GnmDenseError>(fan_out.seen())
            &&& auxiliary == Ok::<_, AuxiliaryExpressionError>(fan_out.extra())
            &&& fan_out.one_frame()
        },
        Err(error) => {
            if sample.landmarks@.len() != LANDMARK_COUNT {
                error == SameFrameFanOutError::Dense(
                    GnmDenseError::Shape {
                        field: "landmarks",
                        expected: LANDMARK_COUNT,
                        actual: sample.landmarks@.len() as usize,
                    },
                )
            } else if inferred < captured {
                error == SameFrameFanOutError::Stamp(
                    AbBackendError::Chronology { earlier_micros: captured, later_micros: inferred },
                )
            } else if dense is Err {
                error == SameFrameFanOutError::Dense(dense->Err_0)
            } else if auxiliary is Err {
                error == SameFrameFanOutError::Auxiliary(auxiliary->Err_0)
            } else {
                exists|stamp: SourceFrameStamp|
                    {
                        &&& stamp.seq() == sample.source_seq.0
                        &&& stamp.captured() == captured
                        &&& #[trigger] identity_fault(stamp, dense->Ok_0, auxiliary->Ok_0) == Some(
                            error,
                        )
                    }
            }
        },
    }
}

/// Fans one MediaPipe inference result out to the direct, dense-GNM, and
/// auxiliary consumers.
///
/// `dense` and `auxiliary` are what the observations derived from this very
/// sample came to. The function reads no other frame, interpolates across no
/// timestamps and consults no clock.
///
/// # Errors
///
/// Fails when the landmark buffer has the wrong length, the stamp chronology
/// fails, an observation could not be built, or a member carries another source
/// identity.
pub fn fan_out_same_frame(
    sample: &FaceTrackingSample,
    dense: Result<GnmDenseObservation, GnmDenseError>,
    auxiliary: Result<AuxiliaryExpressionObservation, AuxiliaryExpressionError>,
) -> (result: Result<SameFrameFanOut, SameFrameFanOutError>)
    ensures
        is_fan_out(*sample, dense, auxiliary, result),
{
    if sample.landmarks.len() != LANDMARK_COUNT {
        return Err(
            SameFrameFanOutError::Dense(
                GnmDenseError::Shape {
                    field: "landmarks",
                    expected: LANDMARK_COUNT,
                    actual: sample.landmarks.len(),
                },
            ),
        );
    }
    let capture_micros: u64 = micros(sample.captured_at.0);
    let stamp = match SourceFrameStamp::new(
        sample.source_seq.0,
        capture_micros,
        Some(micros(sample.inference_finished_at.0)),
    ) {
        Ok(stamp) => stamp,
        Err(error) => {
            return Err(SameFrameFanOutError::Stamp(error));
        },
    };
    let dense = match dense {
        Ok(dense) => dense,
        Err(error) => {
            return Err(SameFrameFanOutError::Dense(error));
        },
    };
    let auxiliary = match auxiliary {
        Ok(auxiliary) => auxiliary,
        Err(error) => {
            return Err(SameFrameFanOutError::Auxiliary(error));
        },
    };
    let fan_out = SameFrameFanOut { stamp, direct: sample.duplicate(), dense, auxiliary };
    match fan_out.verify() {
        Ok(_) => Ok(fan_out),
        Err(error) => Err(error),
    }
}

impl SameFrameFanOut {
    /// The shared stamp.
    pub closed spec fn source(self) -> SourceFrameStamp {
        self.stamp
    }

    /// The direct sample.
    pub closed spec fn sample(self) -> FaceTrackingSample {
        self.direct
    }

    /// The dense observation.
    pub closed spec fn seen(self) -> GnmDenseObservation {
        self.dense
    }

    /// The auxiliary observation.
    pub closed spec fn extra(self) -> AuxiliaryExpressionObservation {
        self.auxiliary
    }

    /// Every member carries the shared source identity.
    pub open spec fn one_frame(self) -> bool {
        &&& self.seen().source_seq == self.source().seq()
        &&& self.extra().source_seq == self.source().seq()
        &&& self.seen().captured_at_micros == self.source().captured()
        &&& self.extra().captured_at_micros == self.source().captured()
    }

    /// Re-validates that every member carries the same source identity.
    ///
    /// # Errors
    ///
    /// Reports a sequence that differs, then a capture timestamp that differs.
    pub fn verify(&self) -> (result: Result<(), SameFrameFanOutError>)
        ensures
            match result {
                Ok(_) => identity_fault(self.source(), self.seen(), self.extra()) is None,
                Err(error) => identity_fault(self.source(), self.seen(), self.extra()) == Some(
                    error,
                ),
            },
    {
        verify_identity(self.stamp, &self.dense, &self.auxiliary)
    }

    /// Returns the shared source stamp.
    #[must_use]
    pub fn stamp(&self) -> (stamp: SourceFrameStamp)
        ensures
            stamp == self.source(),
    {
        self.stamp
    }

    /// Returns the untouched direct-path sample.
    #[must_use]
    pub fn direct(&self) -> (direct: &FaceTrackingSample)
        ensures
            *direct == self.sample(),
    {
        &self.direct
    }

    /// Returns the shared dense observation.
    #[must_use]
    pub fn dense(&self) -> (dense: &GnmDenseObservation)
        ensures
            *dense == self.seen(),
    {
        &self.dense
    }

    /// Returns the auxiliary semantic observation.
    #[must_use]
    pub fn auxiliary(&self) -> (auxiliary: &AuxiliaryExpressionObservation)
        ensures
            *auxiliary == self.extra(),
    {
        &self.auxiliary
    }
}

/// Checks that two observations carry the identity of a stamp.
///
/// # Errors
///
/// Reports a sequence that differs, then a capture timestamp that differs.
pub fn verify_identity(
    stamp: SourceFrameStamp,
    dense: &GnmDenseObservation,
    auxiliary: &AuxiliaryExpressionObservation,
) -> (result: Result<(), SameFrameFanOutError>)
    ensures
        match result {
            Ok(_) => identity_fault(stamp, *dense, *auxiliary) is None,
            Err(error) => identity_fault(stamp, *dense, *auxiliary) == Some(error),
        },
{
    let expected: u64 = stamp.source_seq();
    if expected != dense.source_seq || expected != auxiliary.source_seq {
        return Err(
            SameFrameFanOutError::SourceSequenceMismatch {
                expected,
                dense: dense.source_seq,
                auxiliary: auxiliary.source_seq,
            },
        );
    }
    let captured: u64 = stamp.capture_micros();
    if captured != dense.captured_at_micros || captured != auxiliary.captured_at_micros {
        return Err(
            SameFrameFanOutError::CaptureTimestampMismatch {
                expected: captured,
                dense: dense.captured_at_micros,
                auxiliary: auxiliary.captured_at_micros,
            },
        );
    }
    Ok(())
}

/// Observations of another frame are never mixed in: where either carries another
/// sequence or capture time than the sample, there is no fan-out.
pub proof fn lemma_frames_are_not_mixed(
    sample: FaceTrackingSample,
    dense: GnmDenseObservation,
    auxiliary: AuxiliaryExpressionObservation,
    result: Result<SameFrameFanOut, SameFrameFanOutError>,
)
    requires
        is_fan_out(sample, Ok(dense), Ok(auxiliary), result),
        dense.source_seq != sample.source_seq.0 || auxiliary.source_seq != sample.source_seq.0
            || dense.captured_at_micros != micros_of(sample.captured_at)
            || auxiliary.captured_at_micros != micros_of(sample.captured_at),
    ensures
        result is Err,
{
}

} // verus!
