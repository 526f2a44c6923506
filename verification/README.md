# vtuber_tracking

Face tracking for a virtual avatar: loss recovery and idle motion, head
translation, per-frame fits of a parametric head model, and the evaluation of
decoders learned against a teacher. The library is written in Verus; every
function in `src/` is verified against its contract.

## Numbers

The library computes on IEEE 754 values by their bit patterns (`Binary32`,
`Binary64`). Sums, products, quotients and roots are exact real results rounded
to nearest, ties to even, and contracts speak of them that way. Exponentials,
sines, quaternions and matrix decompositions are handed in by the caller.

## Layout

- `src/binary*.rs`, `rounding.rs`, `arithmetic*.rs`, `whole.rs`, `matrix.rs`,
  `linear_map.rs`: numbers and small dense linear algebra.
- `src/unit_range.rs`, `weighted_mean.rs`, `unit_length.rs`, `rounding_error.rs`,
  `column_length.rs`, `basis_length.rs`: bounds that rounding keeps, and how far it
  takes a result from its exact value.
- `src/text.rs`, `ordering.rs`, `clock.rs`, `content_hash.rs`, `hash_changes.rs`,
  `takes.rs`: text, stable order, time, hashing, take selection.
- `src/avatar.rs`, `loss_*.rs`, `micro_motion.rs`, `translation*.rs`: the avatar's
  motion.
- `src/gnm_*.rs`, `ab_backend.rs`, `same_frame_fanout.rs`: head-model fits, the
  latest-frame worker and the sequence harness.
- `src/arkit*.rs`, `observable_basis.rs`, `teacher_*.rs`, `landmark_*.rs`,
  `reduced_*.rs`: expression bases and decoders.
- `src/temporal_*.rs`, `unified_ablation.rs`, `blink_events.rs`,
  `non_tongue_metrics.rs`, `avatar_response.rs`: reports and metrics.
- `app/`: native floating point, decompositions, threads, serialization and error
  texts around the library.
- `tests/`: scenarios on concrete values.
