//! Errors of the encoder.
use vstd::prelude::*;

verus! {

/// Reasons why encoding, or a setting of the encoder, is refused.
#[derive(Debug, PartialEq, Eq, Structural)]
pub enum EncodingError {
    /// An application segment number outside of 1 to 15
    InvalidAppSegment(u8),
    /// Application segment data longer than 65533 bytes
    AppSegmentTooLarge(usize),
    /// An ICC profile longer than 16,707,345 bytes (more than 255 segments)
    ICCTooLarge(usize),
    /// Image data shorter than width, height and color type require
    BadImageData { length: usize, required: usize },
    /// An image with no pixels
    ZeroImageDimensions { width: u16, height: u16 },
}

} // verus!
