# ringbuffer

A lossy ring buffer verified with Verus: a fixed-capacity FIFO queue over a caller-supplied
backing array `[T; N]`, in which adding a sample to a full buffer drops the oldest one, a
double-ended cursor over the samples, and integer statistics (mean, mean squared deviation)
over them.

- `src/cyclic.rs` — ring geometry: slots, windows, distances.
- `src/ring_buffer.rs` — `RingBuffer` and `RingBufferIterator`, modelled as the sequence of
  samples they hold, with type invariants on their indices.
- `src/sample.rs` — the `Sample` trait tying primitive integers to their values, and the calls
  into `num-traits`.
- `src/stats.rs` — `mean`, `windowed_mean`, `mean_square_deviation`,
  `windowed_mean_square_deviation`, and the laws they obey.
- `app/lib.rs` — `ac_rms` and `windowed_ac_rms`, which take the floating-point square root
  of the verified mean squared deviation with `libm`.
