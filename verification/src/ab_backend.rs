//! Source-frame stamps and backend outputs that are aligned by exact source
//! identity.

use vstd::prelude::*;

use crate::temporal_report::FaceTrackingBackend;

verus! {

/// A stamp, a timing record or a pair is not usable.
#[derive(Clone, Copy, Debug, PartialEq, Eq, Structural)]
pub enum AbBackendError {
    /// A stage is recorded before the stage that feeds it.
    Chronology {
        /// Time of the earlier stage.
        earlier_micros: u64,
        /// Time recorded for the later stage.
        later_micros: u64,
    },
}

/// Shared identity of one inferred source frame.
#[derive(Clone, Copy, Debug, PartialEq, Eq)]
pub struct SourceFrameStamp {
    source_seq: u64,
    capture_micros: u64,
    inference_complete_micros: Option<u64>,
}

impl SourceFrameStamp {
    /// Source frame sequence.
    pub closed spec fn seq(self) -> u64 {
        self.source_seq
    }

    /// Capture time.
    pub closed spec fn captured(self) -> u64 {
        self.capture_micros
    }

    /// End of the inference, where it is known.
    pub closed spec fn inferred(self) -> Option<u64> {
        self.inference_complete_micros
    }

    /// The last known time of the stamp.
    pub open spec fn latest(self) -> u64 {
        match self.inferred() {
            Some(micros) => micros,
            None => self.captured(),
        }
    }

    /// Stamps a frame.
    ///
    /// # Errors
    ///
    /// Rejects an inference that ends before the capture.
    pub fn new(source_seq: u64, capture_micros: u64, inference_complete_micros: Option<u64>) -> (result:
        Result<Self, AbBackendError>)
        ensures
            match result {
                Ok(stamp) => {
                    &&& stamp.seq() == source_seq
                    &&& stamp.captured() == capture_micros
                    &&& stamp.inferred() == inference_complete_micros
                    &&& capture_micros <= stamp.latest()
                },
                Err(error) => inference_complete_micros matches Some(micros) && micros
                    < capture_micros && error == (AbBackendError::Chronology {
                    earlier_micros: capture_micros,
                    later_micros: micros,
                }),
            },
    {
        if let Some(micros) = inference_complete_micros {
            if micros < capture_micros {
                return Err(
                    AbBackendError::Chronology {
                        earlier_micros: capture_micros,
                        later_micros: micros,
                    },
                );
            }
        }
        Ok(SourceFrameStamp { source_seq, capture_micros, inference_complete_micros })
    }

    /// Source frame sequence.
    #[must_use]
    pub fn source_seq(&self) -> (seq: u64)
        ensures
            seq == self.seq(),
    {
        self.source_seq
    }

    /// Capture time in microseconds.
    #[must_use]
    pub fn capture_micros(&self) -> (micros: u64)
        ensures
            micros == self.captured(),
    {
        self.capture_micros
    }

    /// End of the inference in microseconds, where it is known.
    #[must_use]
    pub fn inference_complete_micros(&self) -> (micros: Option<u64>)
        ensures
            micros == self.inferred(),
    {
        self.inference_complete_micros
    }
}

/// Stage times of one backend's output for one source frame.
#[derive(Clone, Copy, Debug, PartialEq, Eq)]
pub struct BackendOutputTiming {
    stamp: SourceFrameStamp,
    backend: FaceTrackingBackend,
    fit_complete_micros: Option<u64>,
    decoder_complete_micros: Option<u64>,
    publish_micros: u64,
}

/// The time of a stage, or of the one before where it is not recorded.
pub open spec fn stage(before: u64, micros: Option<u64>) -> u64 {
    match micros {
        Some(micros) => micros,
        None => before,
    }
}

/// Why stage times are out of order, if they are: each recorded stage must not lie
/// before the last recorded one.
pub open spec fn timing_fault(
    stamp: SourceFrameStamp,
    fit: Option<u64>,
    decoder: Option<u64>,
    publish: u64,
) -> Option<AbBackendError> {
    let inferred = stamp.latest();
    let fitted = stage(inferred, fit);
    let decoded = stage(fitted, decoder);
    if fitted < inferred {
        Some(AbBackendError::Chronology { earlier_micros: inferred, later_micros: fitted })
    } else if decoded < fitted {
        Some(AbBackendError::Chronology { earlier_micros: fitted, later_micros: decoded })
    } else if publish < decoded {
        Some(AbBackendError::Chronology { earlier_micros: decoded, later_micros: publish })
    } else {
        None
    }
}

impl BackendOutputTiming {
    /// Source frame.
    pub closed spec fn source(self) -> SourceFrameStamp {
        self.stamp
    }

    /// Backend.
    pub closed spec fn role(self) -> FaceTrackingBackend {
        self.backend
    }

    /// End of the fit.
    pub closed spec fn fitted(self) -> Option<u64> {
        self.fit_complete_micros
    }

    /// End of the decoder.
    pub closed spec fn decoded(self) -> Option<u64> {
        self.decoder_complete_micros
    }

    /// Time of publication.
    pub closed spec fn published(self) -> u64 {
        self.publish_micros
    }

    /// Records stage times.
    ///
    /// # Errors
    ///
    /// Rejects times that are out of order.
    pub fn new(
        stamp: SourceFrameStamp,
        backend: FaceTrackingBackend,
        fit_complete_micros: Option<u64>,
        decoder_complete_micros: Option<u64>,
        publish_micros: u64,
    ) -> (result: Result<Self, AbBackendError>)
        ensures
            ({
                let fault = timing_fault(
                    stamp,
                    fit_complete_micros,
                    decoder_complete_micros,
                    publish_micros,
                );
                match result {
                    Ok(timing) => {
                        &&& fault is None
                        &&& timing.source() == stamp
                        &&& timing.role() == backend
                        &&& timing.fitted() == fit_complete_micros
                        &&& timing.decoded() == decoder_complete_micros
                        &&& timing.published() == publish_micros
                    },
                    Err(error) => fault == Some(error),
                }
            }),
    {
        let inferred: u64 = match stamp.inference_complete_micros {
            Some(micros) => micros,
            None => stamp.capture_micros,
        };
        let fitted: u64 = match fit_complete_micros {
            Some(micros) => micros,
            None => inferred,
        };
        let decoded: u64 = match decoder_complete_micros {
            Some(micros) => micros,
            None => fitted,
        };
        if fitted < inferred {
            return Err(
                AbBackendError::Chronology { earlier_micros: inferred, later_micros: fitted },
            );
        }
        if decoded < fitted {
            return Err(
                AbBackendError::Chronology { earlier_micros: fitted, later_micros: decoded },
            );
        }
        if publish_micros < decoded {
            return Err(
                AbBackendError::Chronology { earlier_micros: decoded, later_micros: publish_micros },
            );
        }
        Ok(
            BackendOutputTiming {
                stamp,
                backend,
                fit_complete_micros,
                decoder_complete_micros,
                publish_micros,
            },
        )
    }

    /// Source frame.
    #[must_use]
    pub fn stamp(&self) -> (stamp: SourceFrameStamp)
        ensures
            stamp == self.source(),
    {
        self.stamp
    }

    /// Backend.
    #[must_use]
    pub fn backend(&self) -> (backend: FaceTrackingBackend)
        ensures
            backend == self.role(),
    {
        self.backend
    }

    /// End of the fit in microseconds.
    #[must_use]
    pub fn fit_complete_micros(&self) -> (micros: Option<u64>)
        ensures
            micros == self.fitted(),
    {
        self.fit_complete_micros
    }

    /// End of the decoder in microseconds.
    #[must_use]
    pub fn decoder_complete_micros(&self) -> (micros: Option<u64>)
        ensures
            micros == self.decoded(),
    {
        self.decoder_complete_micros
    }

    /// Time of publication in microseconds.
    #[must_use]
    pub fn publish_micros(&self) -> (micros: u64)
        ensures
            micros == self.published(),
    {
        self.publish_micros
    }
}

/// One backend's output with its stage times.
#[derive(Clone, Copy, Debug, PartialEq)]
pub struct StampedBackendOutput<T> {
    /// Stage times.
    pub timing: BackendOutputTiming,
    /// Output.
    pub output: T,
}

/// Both backends' outputs for one source frame.
#[derive(Clone, Copy, Debug, PartialEq)]
pub struct AlignedBackendOutputs<T> {
    /// The direct output, which alone has authority.
    pub direct: StampedBackendOutput<T>,
    /// The output of the model fit.
    pub gnm: StampedBackendOutput<T>,
}

impl<T> AlignedBackendOutputs<T> {
    /// Both outputs belong to one source frame, each to its own backend.
    pub open spec fn aligned(self) -> bool {
        &&& self.direct.timing.source() == self.gnm.timing.source()
        &&& self.direct.timing.role() == FaceTrackingBackend::DirectMediaPipe
        &&& self.gnm.timing.role() == FaceTrackingBackend::GnmTemporal
    }
}

} // verus!
