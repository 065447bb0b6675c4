//! A lossy ring buffer: a fixed-capacity FIFO queue over a caller-supplied backing array, in
//! which a new sample overwrites the oldest one once the buffer is full, together with a
//! double-ended cursor over its contents and integer statistics over the samples it holds.
pub mod cyclic;
pub mod ring_buffer;
pub mod sample;
mod sealed;
pub mod stats;

pub use ring_buffer::{RingBuffer, RingBufferIterator};
pub use sample::Sample;
