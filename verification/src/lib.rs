//! Chunked run-length encoding of byte buffers.
//!
//! A buffer is cut into fixed-size chunks, every chunk is encoded on its own,
//! and the per-chunk runs are joined in chunk order. Runs are never merged
//! across a chunk boundary.

pub mod encode;
pub mod partition;
pub mod progress;
pub mod runs;
