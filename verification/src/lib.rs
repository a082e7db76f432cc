//! Chunked binary encoding and decoding of dynamic-vision-sensor change
//! events.
//!
//! An event stream is packed into self-describing binary frames: each frame
//! is a 4-byte little-endian length prefix followed by a payload holding a
//! rising-edge count, a falling-edge count, and a list of fixed-size event
//! records. The encoder groups events into bounded-size batches and emits one
//! frame per batch; the decoder recovers the batches one frame at a time,
//! reporting end-of-stream, truncation, and count inconsistencies
//! separately.

pub mod decode;
pub mod encode;
pub mod events;
pub mod frame;
pub mod wire;
