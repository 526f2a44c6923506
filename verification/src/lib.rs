//! Face-tracking decisions: validation, timelines, state machines, feature
//! layouts, metrics and artifact checks.
//!
//! Every number that the camera or a solver produces is held by its IEEE 754 bit
//! pattern (see [`binary`]), so that ordering, finiteness, selection and hashing are
//! exact. Sums, products, quotients and square roots are computed here, correctly
//! rounded (see [`arithmetic`]), and every formula is stated down to its last bit.
//! What is not elementary arithmetic (exponentials, sines, matrix decompositions,
//! quaternion interpolation) and what other services answer (the model's lifecycle,
//! its solver) is handed in as an argument.

// Numbers.
pub mod binary;
pub mod binary_convert;
pub mod rounding;
pub mod rounding_error;
pub mod closeness;
pub mod mean_laws;
pub mod arithmetic;
pub mod arithmetic_laws;
pub mod unit_range;
pub mod interpolation;
pub mod weighted_mean;
pub mod unit_length;
pub mod column_length;
pub mod basis_length;
pub mod whole;
pub mod matrix;
pub mod linear_map;
pub mod map_laws;

// Texts, orders, times and hashes.
pub mod text;
pub mod ordering;
pub mod clock;
pub mod content_hash;
pub mod takes;

// Coefficients and the avatar's side of the pipeline.
pub mod arkit;
pub mod avatar;
pub mod loss_blend;
pub mod loss_recovery;
pub mod loss_rounding;
pub mod recovery_laws;
pub mod micro_motion;
pub mod sway_laws;
pub mod timing_laws;
pub mod translation;
pub mod translation_shaping;
pub mod translation_laws;

// The fitted head model.
pub mod gnm_model;
pub mod gnm_fitter_contract;
pub mod gnm_persistent_fitter;
pub mod gnm_latest_frame_worker;
pub mod gnm_sequence_fixture;
pub mod gnm_sequence_regression;
pub mod gnm_sequence_run;
pub mod latency_laws;
pub mod report_laws;
pub mod gnm_arkit_projector;
pub mod projection_laws;
pub mod ab_backend;
pub mod same_frame_fanout;
pub mod gnm_shadow;

// Learned decoders and their artifacts.
pub mod arkit_teacher;
pub mod observable_basis;
pub mod teacher_aligned_basis;
pub mod teacher_residual;
pub mod gnm_semantic_decoder;
pub mod hash_changes;
pub mod landmark_basis;
pub mod landmark_control;
pub mod basis_laws;
pub mod feature_laws;
pub mod reduced_gnm;
pub mod reduced_temporal;
pub mod gain_laws;
pub mod prediction_laws;

// Offline comparison.
pub mod temporal_report;
pub mod unified_ablation;
pub mod blink_events;
pub mod blink_laws;
pub mod temporal_metrics;
pub mod temporal_laws;
pub mod non_tongue_metrics;
pub mod metric_laws;
pub mod avatar_response;
pub mod response_laws;
