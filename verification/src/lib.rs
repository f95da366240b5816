//! Baseline sequential JFIF/JPEG still-image decoder.
//!
//! The pipeline: marker-segment parsing fills quantization and Huffman
//! tables and the frame header; on start-of-scan the entropy-coded data is
//! un-stuffed and decoded block by block, dequantized, un-zigzagged, run
//! through an integer inverse DCT, expanded for chroma subsampling, and
//! converted to RGB pixels.

pub mod color;
pub mod decoder;
pub mod error;
pub mod huffman;
pub mod jpeg;
pub mod transform;
