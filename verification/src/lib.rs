//! A JPEG encoder with baseline and progressive compression, chroma
//! subsampling, optimized Huffman tables and 1, 3 and 4 component
//! colorspaces.
pub mod bitstream;
pub mod blocks;
pub mod decode;
pub mod encoder;
pub mod error;
pub mod fdct;
pub mod huffman;
pub mod image_buffer;
pub mod marker;
pub mod optimal;
pub mod optimality;
pub mod quantization;
pub mod scans;
pub mod simd;
pub mod stream;
pub mod symbols;
pub mod writer;

pub use encoder::{ColorType, Encoder, JpegColorType, SamplingFactor};
pub use error::EncodingError;
pub use image_buffer::ImageBuffer;
pub use writer::Density;
