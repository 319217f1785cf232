//! JPEG markers used by the encoder.
use vstd::prelude::*;

verus! {

/// Kind of frame that a start-of-frame marker announces.
#[derive(Clone, Copy, Debug, PartialEq, Eq, Structural)]
pub enum SOFType {
    /// Baseline sequential DCT (SOF0)
    BaselineDCT,
    /// Progressive DCT (SOF2)
    ProgressiveDCT,
}

/// The markers that the encoder writes.
#[derive(Clone, Copy, Debug, PartialEq, Eq, Structural)]
pub enum Marker {
    /// Start of frame
    SOF(SOFType),
    /// Define huffman table
    DHT,
    /// Start of image
    SOI,
    /// End of image
    EOI,
    /// Start of scan
    SOS,
    /// Define quantization table
    DQT,
    /// Application segment `n` (0 to 15)
    APP(u8),
}

impl Marker {
    /// A marker can be written: an application segment number is below 16.
    pub open spec fn valid(self) -> bool {
        match self {
            Marker::APP(n) => n < 16,
            _ => true,
        }
    }

    /// The byte that follows `0xFF` for this marker.
    pub open spec fn spec_code(self) -> u8 {
        match self {
            Marker::SOF(SOFType::BaselineDCT) => 0xC0,
            Marker::SOF(SOFType::ProgressiveDCT) => 0xC2,
            Marker::DHT => 0xC4,
            Marker::SOI => 0xD8,
            Marker::EOI => 0xD9,
            Marker::SOS => 0xDA,
            Marker::DQT => 0xDB,
            Marker::APP(n) => (0xE0 + n) as u8,
        }
    }

    /// The byte that follows `0xFF` for this marker.
    pub fn code(self) -> (r: u8)
        requires
            self.valid(),
        ensures
            r == self.spec_code(),
    {
        match self {
            Marker::SOF(SOFType::BaselineDCT) => 0xC0,
            Marker::SOF(SOFType::ProgressiveDCT) => 0xC2,
            Marker::DHT => 0xC4,
            Marker::SOI => 0xD8,
            Marker::EOI => 0xD9,
            Marker::SOS => 0xDA,
            Marker::DQT => 0xDB,
            Marker::APP(n) => 0xE0 + n,
        }
    }
}

} // verus!
