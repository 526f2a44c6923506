use vtuber_tracking::binary::Binary64;
use vtuber_tracking::temporal_report::{
    backend_temporal_quality, channel_temporal_quality, ChannelInput, ChannelMeasurements, ChannelTemporalQuality,
    FaceTrackingBackend, PulseResponseMetrics, PulseResponseSpec, StepResponseMetrics, StepResponseSpec,
    TemporalChannelSpecs, TemporalMetricError, TemporalNoiseMetrics,
};

const DT_MICROS: u64 = 16_667;

fn wide(value: f64) -> Binary64 {
    Binary64::from_bits(value.to_bits())
}

fn double(value: Binary64) -> f64 {
    f64::from_bits(value.to_bits())
}

fn close(actual: f64, expected: f64) -> bool {
    (actual - expected).abs() <= f64::EPSILON * actual.abs().max(expected.abs()).max(1.0)
}

fn ms(index: usize, micros: u64) -> f64 {
    (index as u64 * DT_MICROS - micros) as f64 / 1_000.0
}

fn rms(values: &[f64]) -> f64 {
    (values.iter().map(|value| value * value).sum::<f64>() / values.len() as f64).sqrt()
}

fn noise(values: &[f64]) -> TemporalNoiseMetrics {
    let mean = values.iter().sum::<f64>() / values.len() as f64;
    let centered: Vec<f64> = values.iter().map(|value| value - mean).collect();
    let dt = DT_MICROS as f64 / 1.0e6;
    let first: Vec<f64> = values.windows(2).map(|pair| (pair[1] - pair[0]) / dt).collect();
    let second: Vec<f64> = first.windows(2).map(|pair| (pair[1] - pair[0]) / dt).collect();
    TemporalNoiseMetrics {
        stationary_rms: wide(rms(&centered)),
        first_difference_rms_per_second: Some(wide(rms(&first))),
        second_difference_rms_per_second_squared: Some(wide(rms(&second))),
    }
}

fn step(values: &[f64], spec: &StepResponseSpec) -> StepResponseMetrics {
    let baseline = double(spec.baseline);
    let amplitude = double(spec.target) - baseline;
    let start = (spec.command_micros / DT_MICROS) as usize;
    let progress: Vec<f64> = values[start..].iter().map(|value| (value - baseline) / amplitude).collect();
    let reach = |level: f64| {
        progress
            .iter()
            .position(|value| *value >= level)
            .map(|at| ms(start + at, spec.command_micros))
    };
    let (t10, t50, t90) = (reach(0.1), reach(0.5), reach(0.9));
    let peak = progress.iter().copied().fold(0.0, f64::max);
    let settled = progress
        .iter()
        .rposition(|value| (value - 1.0).abs() > double(spec.settling_tolerance_fraction))
        .map_or(0, |at| at + 1);
    StepResponseMetrics {
        onset_ms: reach(f64::MIN_POSITIVE).map(wide),
        t10_ms: t10.map(wide),
        t50_ms: t50.map(wide),
        t90_ms: t90.map(wide),
        rise_time_10_90_ms: t90.zip(t10).map(|(late, early)| wide(late - early)),
        peak_response_ratio: wide(peak),
        peak_attenuation: wide((1.0 - peak).max(0.0)),
        overshoot: wide((peak - 1.0).max(0.0)),
        settling_time_ms: if settled < progress.len() {
            Some(wide(ms(start + settled, spec.command_micros)))
        } else {
            None
        },
    }
}

fn pulse(values: &[f64], spec: &PulseResponseSpec) -> PulseResponseMetrics {
    let baseline = double(spec.baseline);
    let amplitude = double(spec.target_peak) - baseline;
    let start = (spec.onset_micros / DT_MICROS) as usize;
    let mut peak = start;
    for index in start..values.len() {
        if values[index] > values[peak] {
            peak = index;
        }
    }
    let ratio = (values[peak] - baseline) / amplitude;
    PulseResponseMetrics {
        peak_response_ratio: wide(ratio),
        peak_attenuation: wide((1.0 - ratio).max(0.0)),
        observed_peak_delay_ms: wide(ms(peak, spec.onset_micros)),
        peak_timing_error_ms: spec
            .expected_peak_micros
            .map(|expected| wide((peak as f64 * DT_MICROS as f64 - expected as f64) / 1_000.0)),
    }
}

fn measure(values: &[f64], specs: &TemporalChannelSpecs) -> ChannelMeasurements {
    ChannelMeasurements {
        noise: noise(values),
        rise: specs.rise.as_ref().map(|spec| Ok(step(values, spec))),
        release: specs.release.as_ref().map(|spec| Ok(step(values, spec))),
        pulse: specs.pulse.as_ref().map(|spec| Ok(pulse(values, spec))),
    }
}

fn quality(
    name: &str,
    values: &[f64],
    specs: TemporalChannelSpecs,
) -> Result<ChannelTemporalQuality, TemporalMetricError> {
    channel_temporal_quality(name, &specs, &measure(values, &specs))
}

fn no_specs() -> TemporalChannelSpecs {
    TemporalChannelSpecs {
        rise: None,
        release: None,
        pulse: None,
    }
}

fn rise_spec(command_index: u64) -> StepResponseSpec {
    StepResponseSpec {
        command_micros: command_index * DT_MICROS,
        baseline: wide(0.0),
        target: wide(1.0),
        settling_tolerance_fraction: wide(0.1),
    }
}

#[test]
fn static_fixture_reports_small_stationary_noise_without_commands() {
    let values = [0.0_f64, 0.001, -0.001, 0.0005, -0.0005];
    let quality = quality("jawOpen", &values, no_specs()).expect("static fixture measures");
    assert!(double(quality.noise.stationary_rms) < 0.001);
    assert!(quality.noise.first_difference_rms_per_second.is_some());
    assert!(quality.rise.is_none());
    assert!(quality.release.is_none());
    assert!(quality.pulse.is_none());
}

#[test]
fn ramp_fixture_crosses_10_50_90_in_order_with_measured_rise_time() {
    let values: Vec<f64> = (0..120)
        .map(|index| {
            if index <= 10 {
                0.0
            } else if index >= 110 {
                1.0
            } else {
                (index - 10) as f64 / 100.0
            }
        })
        .collect();
    let mut specs = no_specs();
    specs.rise = Some(rise_spec(10));
    let quality = quality("mouthSmile", &values, specs).expect("ramp fixture measures");
    let rise = quality.rise.expect("rise measured");
    let t10 = double(rise.t10_ms.expect("t10 reached"));
    let t50 = double(rise.t50_ms.expect("t50 reached"));
    let t90 = double(rise.t90_ms.expect("t90 reached"));
    assert!(t10 < t50 && t50 < t90);
    assert!(close(double(rise.rise_time_10_90_ms.unwrap()), t90 - t10));
    assert!((1300.0..=1400.0).contains(&double(rise.rise_time_10_90_ms.unwrap())));
    assert_eq!(double(rise.overshoot), 0.0);
    assert!(rise.settling_time_ms.is_some());
}

#[test]
fn release_fixture_reports_attenuation_and_settling_for_a_falling_step() {
    let values: Vec<f64> = (0..60).map(|index| if index < 40 { 1.0 } else { 0.0 }).collect();
    let mut specs = no_specs();
    specs.release = Some(StepResponseSpec {
        command_micros: 40 * DT_MICROS,
        baseline: wide(1.0),
        target: wide(0.0),
        settling_tolerance_fraction: wide(0.1),
    });
    let quality = quality("jawOpen", &values, specs).expect("release fixture measures");
    let release = quality.release.expect("release measured");
    assert!(release.t90_ms.is_some());
    assert_eq!(double(release.peak_response_ratio), 1.0);
    assert_eq!(double(release.peak_attenuation), 0.0);
    assert!(release.settling_time_ms.is_some());
}

#[test]
fn pulse_fixture_preserves_blink_peak_and_reports_timing_error() {
    let mut values = vec![0.0_f64; 40];
    for (index, value) in values.iter_mut().enumerate().take(23).skip(18) {
        *value = match index {
            18 => 0.3,
            19 | 21 => 0.8,
            20 => 1.0,
            22 => 0.2,
            _ => 0.0,
        };
    }
    let mut specs = no_specs();
    specs.pulse = Some(PulseResponseSpec {
        onset_micros: 17 * DT_MICROS,
        baseline: wide(0.0),
        target_peak: wide(1.0),
        expected_peak_micros: Some(20 * DT_MICROS),
    });
    let quality = quality("eyeBlinkLeft", &values, specs).expect("pulse fixture measures");
    let pulse = quality.pulse.expect("pulse measured");
    assert!(close(double(pulse.peak_response_ratio), 1.0));
    assert_eq!(double(pulse.peak_attenuation), 0.0);
    assert!(close(
        double(pulse.observed_peak_delay_ms),
        3.0 * DT_MICROS as f64 / 1_000.0
    ));
    assert!(close(double(pulse.peak_timing_error_ms.unwrap()), 0.0));
}

#[test]
fn failed_kernels_fail_the_channel_in_order() {
    let mut specs = no_specs();
    specs.rise = Some(rise_spec(0));
    specs.release = Some(rise_spec(0));
    let mut measurements = measure(&[0.0, 1.0, 1.0], &specs);
    measurements.release = Some(Err(TemporalMetricError::InvalidResponseSpec("release")));
    assert_eq!(
        channel_temporal_quality("jawOpen", &specs, &measurements).err(),
        Some(TemporalMetricError::InvalidResponseSpec("release"))
    );
    measurements.rise = Some(Err(TemporalMetricError::InvalidTrace("rise")));
    assert_eq!(
        channel_temporal_quality("jawOpen", &specs, &measurements).err(),
        Some(TemporalMetricError::InvalidTrace("rise"))
    );
}

#[test]
fn backend_row_carries_latency_and_channel_order() {
    let values = [0.0_f64, 0.0, 0.0];
    let channel = |name: &str| ChannelInput {
        name: name.to_owned(),
        specs: no_specs(),
        measurements: measure(&values, &no_specs()),
    };
    let row = backend_temporal_quality(
        FaceTrackingBackend::DirectMediaPipe,
        wide(42.5),
        &vec![channel("jawOpen")],
    )
    .expect("backend row builds");
    assert_eq!(row.backend, FaceTrackingBackend::DirectMediaPipe);
    assert!(close(double(row.end_to_end_latency_ms), 42.5));
    assert_eq!(row.channels.len(), 1);
    assert_eq!(row.channels[0].channel_name, "jawOpen");

    assert!(backend_temporal_quality(FaceTrackingBackend::GnmTemporal, wide(-1.0), &Vec::new()).is_err());
    assert!(backend_temporal_quality(FaceTrackingBackend::GnmTemporal, wide(f64::NAN), &Vec::new()).is_err());

    let row = backend_temporal_quality(
        FaceTrackingBackend::GnmTemporal,
        wide(0.0),
        &vec![channel("jawOpen"), channel("mouthSmile")],
    )
    .unwrap();
    assert_eq!(row.channels[1].channel_name, "mouthSmile");
}
