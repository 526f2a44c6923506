//! Composition of Direct/GNM temporal quality rows.
//!
//! A row combines one channel's stationary noise with its responses to the
//! commands that were given, and one backend's rows with its measured latency, so
//! that added delay cannot pass for smoothness. The noise, step and pulse kernels
//! run on the trace before; their results are handed in.

use vstd::prelude::*;

use crate::binary::Binary64;

verus! {

/// A kernel could not measure a response.
#[derive(Clone, Copy, Debug, PartialEq)]
pub enum TemporalMetricError {
    /// The trace is too short or not ordered.
    InvalidTrace(&'static str),
    /// The command is not usable.
    InvalidResponseSpec(&'static str),
}

/// Stationary noise of one trace.
#[derive(Clone, Copy, Debug, PartialEq, Eq, Structural)]
pub struct TemporalNoiseMetrics {
    /// Stationary RMS.
    pub stationary_rms: Binary64,
    /// First difference RMS per second.
    pub first_difference_rms_per_second: Option<Binary64>,
    /// Second difference RMS per second squared.
    pub second_difference_rms_per_second_squared: Option<Binary64>,
}

/// A commanded step.
#[derive(Clone, Copy, Debug, PartialEq, Eq, Structural)]
pub struct StepResponseSpec {
    /// Time of the command.
    pub command_micros: u64,
    /// Value before the command.
    pub baseline: Binary64,
    /// Commanded value.
    pub target: Binary64,
    /// Fraction of the step within which the response counts as settled.
    pub settling_tolerance_fraction: Binary64,
}

/// Response to a commanded step.
#[derive(Clone, Copy, Debug, PartialEq, Eq, Structural)]
pub struct StepResponseMetrics {
    /// Time of the first response.
    pub onset_ms: Option<Binary64>,
    /// Time of the 10% crossing.
    pub t10_ms: Option<Binary64>,
    /// Time of the 50% crossing.
    pub t50_ms: Option<Binary64>,
    /// Time of the 90% crossing.
    pub t90_ms: Option<Binary64>,
    /// Time between the 10% and 90% crossings.
    pub rise_time_10_90_ms: Option<Binary64>,
    /// Peak response over the commanded step.
    pub peak_response_ratio: Binary64,
    /// Missing part of the commanded step.
    pub peak_attenuation: Binary64,
    /// Response beyond the commanded step.
    pub overshoot: Binary64,
    /// Time after which the response stays settled.
    pub settling_time_ms: Option<Binary64>,
}

/// A short pulse such as a blink.
#[derive(Clone, Copy, Debug, PartialEq, Eq, Structural)]
pub struct PulseResponseSpec {
    /// Time of the onset.
    pub onset_micros: u64,
    /// Value before the pulse.
    pub baseline: Binary64,
    /// Peak of the pulse.
    pub target_peak: Binary64,
    /// Time of the peak, where it is known.
    pub expected_peak_micros: Option<u64>,
}

/// Response to a pulse.
#[derive(Clone, Copy, Debug, PartialEq, Eq, Structural)]
pub struct PulseResponseMetrics {
    /// Observed peak over the commanded peak.
    pub peak_response_ratio: Binary64,
    /// Missing part of the commanded peak.
    pub peak_attenuation: Binary64,
    /// Time from the onset to the observed peak.
    pub observed_peak_delay_ms: Binary64,
    /// Observed minus expected peak time, where the latter is known.
    pub peak_timing_error_ms: Option<Binary64>,
}

/// Response commands measured against one channel's trace.
#[derive(Clone, Copy, Debug, PartialEq, Eq, Structural)]
pub struct TemporalChannelSpecs {
    /// Commanded step upward from baseline to target.
    pub rise: Option<StepResponseSpec>,
    /// Commanded release downward (target below baseline).
    pub release: Option<StepResponseSpec>,
    /// Short pulse such as a blink.
    pub pulse: Option<PulseResponseSpec>,
}

/// What the kernels found on one channel's trace.
#[derive(Clone, Copy, Debug, PartialEq)]
pub struct ChannelMeasurements {
    /// Stationary noise.
    pub noise: TemporalNoiseMetrics,
    /// Result of the step kernel on the rise command.
    pub rise: Option<Result<StepResponseMetrics, TemporalMetricError>>,
    /// Result of the step kernel on the release command.
    pub release: Option<Result<StepResponseMetrics, TemporalMetricError>>,
    /// Result of the pulse kernel on the pulse command.
    pub pulse: Option<Result<PulseResponseMetrics, TemporalMetricError>>,
}

/// One channel's stillness/responsiveness metrics plus its name.
#[derive(Clone, Debug, PartialEq)]
pub struct ChannelTemporalQuality {
    /// Human-readable channel name used in report rows.
    pub channel_name: String,
    /// Stationary RMS, first/second difference RMS.
    pub noise: TemporalNoiseMetrics,
    /// Rise response metrics when a rise command was supplied.
    pub rise: Option<StepResponseMetrics>,
    /// Release response metrics when a release command was supplied.
    pub release: Option<StepResponseMetrics>,
    /// Pulse peak preservation metrics when a pulse command was supplied.
    pub pulse: Option<PulseResponseMetrics>,
}

/// Which source drives the face.
#[derive(Clone, Copy, Debug, PartialEq, Eq, Structural)]
pub enum FaceTrackingBackend {
    /// MediaPipe coefficients.
    DirectMediaPipe,
    /// Per-frame model fits.
    GnmTemporal,
}

/// One backend's per-channel temporal quality and overall latency.
#[derive(Clone, Debug, PartialEq)]
pub struct BackendTemporalQuality {
    /// Backend this row describes.
    pub backend: FaceTrackingBackend,
    /// Measured capture-to-publish end-to-end latency in milliseconds.
    pub end_to_end_latency_ms: Binary64,
    /// Per-channel metric rows in input order.
    pub channels: Vec<ChannelTemporalQuality>,
}

/// One channel to be reported.
#[derive(Clone, Debug, PartialEq)]
pub struct ChannelInput {
    /// Channel name.
    pub name: String,
    /// Commands that were given.
    pub specs: TemporalChannelSpecs,
    /// What the kernels found.
    pub measurements: ChannelMeasurements,
}

impl ChannelMeasurements {
    /// The kernels ran on exactly the commands that were given.
    pub open spec fn answers(self, specs: TemporalChannelSpecs) -> bool {
        &&& self.rise is Some <==> specs.rise is Some
        &&& self.release is Some <==> specs.release is Some
        &&& self.pulse is Some <==> specs.pulse is Some
    }

    /// The first failure, in the order rise, release, pulse.
    pub open spec fn failure(self) -> Option<TemporalMetricError> {
        if let Some(Err(error)) = self.rise {
            Some(error)
        } else if let Some(Err(error)) = self.release {
            Some(error)
        } else if let Some(Err(error)) = self.pulse {
            Some(error)
        } else {
            None
        }
    }
}

/// What a kernel measured, where it ran and succeeded.
pub open spec fn measured<T>(result: Option<Result<T, TemporalMetricError>>) -> Option<T> {
    match result {
        Some(Ok(metrics)) => Some(metrics),
        _ => None,
    }
}

/// The row that a channel's measurements give.
pub open spec fn is_channel_row(
    name: Seq<char>,
    measurements: ChannelMeasurements,
    row: ChannelTemporalQuality,
) -> bool {
    &&& row.channel_name@ == name
    &&& row.noise == measurements.noise
    &&& row.rise == measured(measurements.rise)
    &&& row.release == measured(measurements.release)
    &&& row.pulse == measured(measurements.pulse)
}

/// Composes one channel's row; the first kernel failure is handed on.
///
/// # Errors
///
/// Propagates the failures of the step and pulse kernels.
pub fn channel_temporal_quality(
    channel_name: &str,
    specs: &TemporalChannelSpecs,
    measurements: &ChannelMeasurements,
) -> (result: Result<ChannelTemporalQuality, TemporalMetricError>)
    requires
        measurements.answers(*specs),
    ensures
        match result {
            Ok(row) => {
                &&& measurements.failure() is None
                &&& is_channel_row(channel_name@, *measurements, row)
                &&& row.rise is Some <==> specs.rise is Some
                &&& row.release is Some <==> specs.release is Some
                &&& row.pulse is Some <==> specs.pulse is Some
            },
            Err(error) => measurements.failure() == Some(error),
        },
{
    let rise = match measurements.rise {
        Some(Ok(metrics)) => Some(metrics),
        Some(Err(error)) => return Err(error),
        None => None,
    };
    let release = match measurements.release {
        Some(Ok(metrics)) => Some(metrics),
        Some(Err(error)) => return Err(error),
        None => None,
    };
    let pulse = match measurements.pulse {
        Some(Ok(metrics)) => Some(metrics),
        Some(Err(error)) => return Err(error),
        None => None,
    };
    Ok(
        ChannelTemporalQuality {
            channel_name: channel_name.to_owned(),
            noise: measurements.noise,
            rise,
            release,
            pulse,
        },
    )
}

/// A latency is finite and not negative.
pub open spec fn latency_usable(latency: Binary64) -> bool {
    latency.finite() && !latency.less(Binary64 { bits: 0 })
}

/// The first channel that fails is `at`.
pub open spec fn first_failure(channels: Seq<ChannelInput>, at: int) -> bool {
    &&& 0 <= at < channels.len()
    &&& channels[at].measurements.failure() is Some
    &&& forall|j: int|
        0 <= j < at ==> (#[trigger] channels[j]).measurements.failure() is None
}

/// Builds one backend's report row from its channels, in their order.
///
/// # Errors
///
/// Rejects a latency that is not finite or negative, and propagates the first
/// channel failure.
pub fn backend_temporal_quality(
    backend: FaceTrackingBackend,
    end_to_end_latency_ms: Binary64,
    channels: &Vec<ChannelInput>,
) -> (result: Result<BackendTemporalQuality, TemporalMetricError>)
    requires
        forall|i: int|
            0 <= i < channels@.len() ==> (#[trigger] channels@[i]).measurements.answers(
                channels@[i].specs,
            ),
    ensures
        match result {
            Ok(report) => {
                &&& latency_usable(end_to_end_latency_ms)
                &&& report.backend == backend
                &&& report.end_to_end_latency_ms == end_to_end_latency_ms
                &&& report.channels@.len() == channels@.len()
                &&& forall|i: int|
                    0 <= i < channels@.len() ==> (#[trigger] channels@[i]).measurements.failure()
                        is None && is_channel_row(
                        channels@[i].name@,
                        channels@[i].measurements,
                        report.channels@[i],
                    )
            },
            Err(error) => {
                if !latency_usable(end_to_end_latency_ms) {
                    error == TemporalMetricError::InvalidResponseSpec(
                        "end-to-end latency must be finite and non-negative",
                    )
                } else {
                    exists|at: int|
                        #[trigger] first_failure(channels@, at)
                            && channels@[at].measurements.failure() == Some(error)
                }
            },
        },
{
    if !end_to_end_latency_ms.is_finite() || end_to_end_latency_ms.is_less(Binary64::zero()) {
        return Err(
            TemporalMetricError::InvalidResponseSpec(
                "end-to-end latency must be finite and non-negative",
            ),
        );
    }
    let mut rows: Vec<ChannelTemporalQuality> = Vec::new();
    for i in 0..channels.len()
        invariant
            latency_usable(end_to_end_latency_ms),
            forall|j: int|
                0 <= j < channels@.len() ==> (#[trigger] channels@[j]).measurements.answers(
                    channels@[j].specs,
                ),
            rows@.len() == i,
            forall|j: int|
                0 <= j < i ==> (#[trigger] channels@[j]).measurements.failure() is None
                    && is_channel_row(channels@[j].name@, channels@[j].measurements, rows@[j]),
    {
        let channel = &channels[i];
        match channel_temporal_quality(
            channel.name.as_str(),
            &channel.specs,
            &channel.measurements,
        ) {
            Ok(row) => rows.push(row),
            Err(error) => {
                assert(first_failure(channels@, i as int));
                return Err(error);
            },
        }
    }
    Ok(BackendTemporalQuality { backend, end_to_end_latency_ms, channels: rows })
}

} // verus!
