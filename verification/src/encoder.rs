//! The JPEG encoder.
use vstd::prelude::*;

use crate::blocks::{code_component, fill_rows};
use crate::error::EncodingError;
use crate::huffman::HuffmanTable;
use crate::image_buffer::ImageBuffer;
use crate::quantization::QuantizationTable;
use crate::huffman::CodingClass;
use crate::scans::{blocks_in_range, write_ac_scan, write_dc_scan, write_mcu_component, write_sequential_scan};
use crate::symbols::{ac_band, count_component_ac, count_dc, freq_codes, freq_codes_ac_scans};
use crate::stream::{
    ac_scan_end, ac_scan_start, ac_scans, block_views, component_blocks, dc_scans, dimensions_fit, frame_bytes,
    image_blocks, interleaved_body, interleaved_units, lemma_components, max_h, max_v, mcu_component_units,
    mcu_units, progressive_ac_scans, progressive_body, sequential_body, sequential_scans, spec_components,
};
use crate::image_buffer::{
    BgraImage, BgrImage, CmykAsYcckImage, CmykImage, GrayImage, RgbaImage, RgbImage, YCbCrImage, YcckImage,
};
use crate::marker::Marker;
use crate::writer::{header_bytes, marker_bytes, segment_bytes, Density, JfifWriter};

verus! {

/// # Color types used in encoding
#[derive(Clone, Copy, Debug, PartialEq, Eq, Structural)]
pub enum JpegColorType {
    /// One component grayscale colorspace
    Luma,
    /// Three component YCbCr colorspace
    Ycbcr,
    /// 4 Component CMYK colorspace
    Cmyk,
    /// 4 Component YCbCrK colorspace
    Ycck,
}

impl JpegColorType {
    /// Number of components of the colorspace.
    pub open spec fn spec_num_components(self) -> nat {
        match self {
            JpegColorType::Luma => 1,
            JpegColorType::Ycbcr => 3,
            JpegColorType::Cmyk => 4,
            JpegColorType::Ycck => 4,
        }
    }

    /// Number of components of the colorspace.
    pub fn get_num_components(&self) -> (r: usize)
        ensures
            r == self.spec_num_components(),
    {
        match self {
            JpegColorType::Luma => 1,
            JpegColorType::Ycbcr => 3,
            JpegColorType::Cmyk | JpegColorType::Ycck => 4,
        }
    }
}

/// # Color types for input images
///
/// Available color input formats for [Encoder::encode]. Other types can be used
/// by implementing an [ImageBuffer](crate::ImageBuffer).
#[derive(Clone, Copy, Debug, PartialEq, Eq, Structural)]
pub enum ColorType {
    /// Grayscale with 1 byte per pixel
    Luma,
    /// RGB with 3 bytes per pixel
    Rgb,
    /// Red, Green, Blue with 4 bytes per pixel. The alpha channel will be ignored during encoding.
    Rgba,
    /// RGB with 3 bytes per pixel
    Bgr,
    /// RGBA with 4 bytes per pixel. The alpha channel will be ignored during encoding.
    Bgra,
    /// YCbCr with 3 bytes per pixel.
    Ycbcr,
    /// CMYK with 4 bytes per pixel.
    Cmyk,
    /// CMYK with 4 bytes per pixel. Encoded as YCCK (YCbCrK)
    CmykAsYcck,
    /// YCCK (YCbCrK) with 4 bytes per pixel.
    Ycck,
}

impl ColorType {
    /// Bytes per pixel of the input format.
    pub open spec fn spec_bytes_per_pixel(self) -> nat {
        match self {
            ColorType::Luma => 1,
            ColorType::Rgb | ColorType::Bgr | ColorType::Ycbcr => 3,
            _ => 4,
        }
    }

    /// Bytes per pixel of the input format.
    pub fn get_bytes_per_pixel(&self) -> (r: usize)
        ensures
            r == self.spec_bytes_per_pixel(),
    {
        match self {
            ColorType::Luma => 1,
            ColorType::Rgb | ColorType::Bgr | ColorType::Ycbcr => 3,
            ColorType::Rgba | ColorType::Bgra | ColorType::Cmyk | ColorType::CmykAsYcck
            | ColorType::Ycck => 4,
        }
    }
}

/// # Sampling factors for chroma subsampling
///
/// ## Warning
/// Sampling factor of 4 are not supported by all decoders or applications
#[derive(Clone, Copy, Debug, PartialEq, Eq, Structural)]
pub enum SamplingFactor {
    /// No subsampling (1x1)
    R4_4_4,
    /// Subsampling of 1x2
    R4_4_0,
    /// Subsampling of 1x4
    R4_4_1,
    /// Subsampling of 2x1
    R4_2_2,
    /// Subsampling of 2x2
    R4_2_0,
    /// Subsampling of 2x4
    R4_2_1,
    /// Subsampling of 4x1
    R4_1_1,
    /// Subsampling of 4x2
    R4_1_0,
}

impl SamplingFactor {
    /// Horizontal and vertical factor of the luma component.
    pub open spec fn spec_factors(self) -> (u8, u8) {
        match self {
            SamplingFactor::R4_4_4 => (1, 1),
            SamplingFactor::R4_4_0 => (1, 2),
            SamplingFactor::R4_4_1 => (1, 4),
            SamplingFactor::R4_2_2 => (2, 1),
            SamplingFactor::R4_2_0 => (2, 2),
            SamplingFactor::R4_2_1 => (2, 4),
            SamplingFactor::R4_1_1 => (4, 1),
            SamplingFactor::R4_1_0 => (4, 2),
        }
    }

    /// Get variant for supplied factors or None if not supported
    pub fn from_factors(horizontal: u8, vertical: u8) -> (r: Option<SamplingFactor>)
        ensures
            r matches Some(f) ==> f.spec_factors() == (horizontal, vertical),
            r is None <==> !(exists|f: SamplingFactor| #[trigger] f.spec_factors() == (horizontal, vertical)),
    {
        let r = match (horizontal, vertical) {
            (1, 1) => Some(SamplingFactor::R4_4_4),
            (1, 2) => Some(SamplingFactor::R4_4_0),
            (1, 4) => Some(SamplingFactor::R4_4_1),
            (2, 1) => Some(SamplingFactor::R4_2_2),
            (2, 2) => Some(SamplingFactor::R4_2_0),
            (2, 4) => Some(SamplingFactor::R4_2_1),
            (4, 1) => Some(SamplingFactor::R4_1_1),
            (4, 2) => Some(SamplingFactor::R4_1_0),
            _ => None,
        };
        proof {
            if let Some(f) = r {
                assert(f.spec_factors() == (horizontal, vertical));
            }
            if r is None {
                assert forall|f: SamplingFactor| #[trigger] f.spec_factors() != (horizontal, vertical) by {
                    match f {
                        SamplingFactor::R4_4_4 => {},
                        SamplingFactor::R4_4_0 => {},
                        SamplingFactor::R4_4_1 => {},
                        SamplingFactor::R4_2_2 => {},
                        SamplingFactor::R4_2_0 => {},
                        SamplingFactor::R4_2_1 => {},
                        SamplingFactor::R4_1_1 => {},
                        SamplingFactor::R4_1_0 => {},
                    }
                }
            }
        }
        r
    }

    /// Horizontal and vertical factor of the luma component.
    pub fn get_sampling_factors(&self) -> (r: (u8, u8))
        ensures
            r == self.spec_factors(),
    {
        match self {
            SamplingFactor::R4_4_4 => (1, 1),
            SamplingFactor::R4_4_0 => (1, 2),
            SamplingFactor::R4_4_1 => (1, 4),
            SamplingFactor::R4_2_2 => (2, 1),
            SamplingFactor::R4_2_0 => (2, 2),
            SamplingFactor::R4_2_1 => (2, 4),
            SamplingFactor::R4_1_1 => (4, 1),
            SamplingFactor::R4_1_0 => (4, 2),
        }
    }

    /// Interleaved mode is only supported with h/v sampling factors of 1 or 2.
    pub open spec fn spec_supports_interleaved(self) -> bool {
        self.spec_factors().0 <= 2 && self.spec_factors().1 <= 2
    }

    /// Interleaved mode is only supported with h/v sampling factors of 1 or 2.
    /// Sampling factors of 4 needs sequential encoding
    pub fn supports_interleaved(&self) -> (r: bool)
        ensures
            r == self.spec_supports_interleaved(),
    {
        match self {
            SamplingFactor::R4_4_4 | SamplingFactor::R4_4_0 | SamplingFactor::R4_2_2
            | SamplingFactor::R4_2_0 => true,
            _ => false,
        }
    }
}

/// Law: each subsampling has its documented luma sampling factors, given
/// here as the byte the frame header holds for them (horizontal factor in
/// the high four bits, vertical in the low four): 4:4:4 is 1x1, 4:4:0 1x2,
/// 4:4:1 1x4, 4:2:2 2x1, 4:2:0 2x2, 4:2:1 2x4, 4:1:1 4x1 and 4:1:0 4x2. No
/// two subsamplings have the same factors, the chroma components of a YCbCr
/// image keep factors 1x1, and interleaved coding is used exactly for the
/// factors up to 2.
pub proof fn lemma_sampling_factors(sf: SamplingFactor, other: SamplingFactor)
    ensures
        ({
            let (h, v) = sf.spec_factors();
            h * 16 + v == match sf {
                SamplingFactor::R4_4_4 => 0x11int,
                SamplingFactor::R4_4_0 => 0x12int,
                SamplingFactor::R4_4_1 => 0x14int,
                SamplingFactor::R4_2_2 => 0x21int,
                SamplingFactor::R4_2_0 => 0x22int,
                SamplingFactor::R4_2_1 => 0x24int,
                SamplingFactor::R4_1_1 => 0x41int,
                SamplingFactor::R4_1_0 => 0x42int,
            }
        }),
        1 <= sf.spec_factors().0 <= 4 && 1 <= sf.spec_factors().1 <= 4,
        other.spec_factors() == sf.spec_factors() ==> other == sf,
        ({
            let comps = crate::stream::spec_components(JpegColorType::Ycbcr, sf);
            &&& comps[0].horizontal_sampling_factor * 16 + comps[0].vertical_sampling_factor == sf.spec_factors().0
                * 16 + sf.spec_factors().1
            &&& comps[1].horizontal_sampling_factor == 1 && comps[1].vertical_sampling_factor == 1
            &&& comps[2].horizontal_sampling_factor == 1 && comps[2].vertical_sampling_factor == 1
        }),
        sf.spec_supports_interleaved() <==> (sf == SamplingFactor::R4_4_4 || sf == SamplingFactor::R4_4_0 || sf
            == SamplingFactor::R4_2_2 || sf == SamplingFactor::R4_2_0),
{
}

/// A component of the frame: its identifier, its tables and its sampling
/// factors.
#[derive(Clone, Copy, Debug, PartialEq, Eq, Structural)]
pub struct Component {
    pub id: u8,
    pub quantization_table: u8,
    pub dc_huffman_table: u8,
    pub ac_huffman_table: u8,
    pub horizontal_sampling_factor: u8,
    pub vertical_sampling_factor: u8,
}

/// The byte string `ICC_PROFILE\0` that starts each ICC profile segment.
pub open spec fn icc_marker() -> Seq<u8> {
    seq![0x49u8, 0x43, 0x43, 0x5F, 0x50, 0x52, 0x4F, 0x46, 0x49, 0x4C, 0x45, 0x00]
}

/// Most bytes of an ICC profile in one segment.
pub open spec fn icc_chunk_length() -> nat {
    65519
}

/// Rounded-up quotient.
pub open spec fn ceil_div_spec(value: nat, div: nat) -> nat {
    ((value + div - 1) / (div as int)) as nat
}

/// Number of segments for an ICC profile of `len` bytes.
pub open spec fn icc_num_chunks(len: nat) -> nat {
    ceil_div_spec(len, icc_chunk_length())
}

/// Data of the `i`-th of `n` ICC profile segments: the marker, the
/// sequence number starting at one, the number of segments and the chunk.
pub open spec fn icc_segment(data: Seq<u8>, i: int, n: nat) -> Seq<u8> {
    let start = i * icc_chunk_length();
    let end = if start + icc_chunk_length() < data.len() {
        start + icc_chunk_length()
    } else {
        data.len() as int
    };
    icc_marker() + seq![(i + 1) as u8, n as u8] + data.subrange(start, end)
}

/// A valid application segment: number 1 to 15, at most 65533 bytes.
pub open spec fn valid_app_segment(nr: u8, data: Seq<u8>) -> bool {
    1 <= nr <= 15 && data.len() <= 65533
}

/// The rounded-up quotient of two numbers.
pub fn ceil_div(value: usize, div: usize) -> (r: usize)
    requires
        div > 0,
    ensures
        r == ceil_div_spec(value as nat, div as nat),
{
    proof {
        vstd::arithmetic::div_mod::lemma_fundamental_div_mod(value as int, div as int);
        vstd::arithmetic::div_mod::lemma_fundamental_div_mod((value + div - 1) as int, div as int);
        let q = value as int / div as int;
        let m = value as int % div as int;
        vstd::arithmetic::mul::lemma_mul_is_distributive_add_other_way(div as int, q, 1);
        vstd::arithmetic::mul::lemma_mul_is_commutative(div as int, q);
        vstd::arithmetic::mul::lemma_mul_is_commutative(div as int, q + 1);
        if m != 0 {
            assert(q <= q * div) by (nonlinear_arith)
                requires
                    q >= 0,
                    div >= 1,
            ;
        }
        if m == 0 {
            vstd::arithmetic::div_mod::lemma_fundamental_div_mod_converse(
                (value + div - 1) as int,
                div as int,
                q,
                div - 1,
            );
        } else {
            vstd::arithmetic::div_mod::lemma_fundamental_div_mod_converse(
                (value + div - 1) as int,
                div as int,
                q + 1,
                m - 1,
            );
        }
    }
    value / div + (if value % div != 0 {
        1
    } else {
        0
    })
}

/// A copy of a slice.
pub fn to_vec(s: &[u8]) -> (r: Vec<u8>)
    ensures
        r@ == s@,
{
    let mut v: Vec<u8> = Vec::new();
    let mut i: usize = 0;
    while i < s.len()
        invariant
            i <= s.len(),
            v@ == s@.take(i as int),
        decreases s.len() - i,
    {
        v.push(s[i]);
        i = i + 1;
        assert(v@ =~= s@.take(i as int));
    }
    assert(s@.take(i as int) =~= s@);
    v
}

/// # The JPEG encoder
pub struct Encoder {
    writer: JfifWriter,
    density: Density,
    components: Vec<Component>,
    quantization_tables: [QuantizationTable; 2],
    huffman_tables: [(HuffmanTable, HuffmanTable); 2],
    sampling_factor: SamplingFactor,
    // A non zero value enables progressive mode
    progressive_scans: u8,
    optimize_huffman_table: bool,
    app_segments: Vec<(u8, Vec<u8>)>,
}

impl Encoder {
    /// Pixel density written into the header.
    pub closed spec fn spec_density(&self) -> Density {
        self.density
    }

    /// Chroma subsampling.
    pub closed spec fn spec_sampling_factor(&self) -> SamplingFactor {
        self.sampling_factor
    }

    /// Number of scans per component in progressive mode, 0 when not
    /// progressive.
    pub closed spec fn spec_progressive_scans(&self) -> u8 {
        self.progressive_scans
    }

    /// Whether optimized Huffman tables are built.
    pub closed spec fn spec_optimize(&self) -> bool {
        self.optimize_huffman_table
    }

    /// Application segments to write, in order.
    pub closed spec fn spec_app_segments(&self) -> Seq<(u8, Seq<u8>)> {
        self.app_segments@.map_values(|p: (u8, Vec<u8>)| (p.0, p.1@))
    }

    /// The luminance (0) and chrominance (1) quantization tables.
    pub closed spec fn spec_quantization_table(&self, i: int) -> QuantizationTable {
        self.quantization_tables@[i]
    }

    /// The DC Huffman table of destination `i` (0 luminance, 1 chrominance).
    pub closed spec fn spec_dc_table(&self, i: int) -> HuffmanTable {
        self.huffman_tables@[i].0
    }

    /// The AC Huffman table of destination `i` (0 luminance, 1 chrominance).
    pub closed spec fn spec_ac_table(&self, i: int) -> HuffmanTable {
        self.huffman_tables@[i].1
    }

    /// The same encoder with another density.
    pub closed spec fn with_density(self, density: Density) -> Encoder {
        Encoder { density, ..self }
    }

    /// The same encoder with another chroma subsampling.
    pub closed spec fn with_sampling_factor(self, sampling_factor: SamplingFactor) -> Encoder {
        Encoder { sampling_factor, ..self }
    }

    /// The same encoder with another number of progressive scans.
    pub closed spec fn with_progressive_scans(self, progressive_scans: u8) -> Encoder {
        Encoder { progressive_scans, ..self }
    }

    /// The same encoder with Huffman table optimization set as given.
    pub closed spec fn with_optimize(self, optimize_huffman_table: bool) -> Encoder {
        Encoder { optimize_huffman_table, ..self }
    }

    /// Both encoders have the same application segments and the same
    /// quantization and Huffman tables.
    pub open spec fn same_tables_and_segments(&self, other: &Encoder) -> bool {
        &&& self.spec_app_segments() == other.spec_app_segments()
        &&& forall|i: int| 0 <= i < 2 ==> #[trigger] self.spec_quantization_table(i) == other.spec_quantization_table(i)
        &&& forall|i: int| 0 <= i < 2 ==> #[trigger] self.spec_dc_table(i) == other.spec_dc_table(i)
        &&& forall|i: int| 0 <= i < 2 ==> #[trigger] self.spec_ac_table(i) == other.spec_ac_table(i)
    }

    /// Law: each setting can be changed alone; the encoder reads back the
    /// value set and keeps all other settings.
    pub proof fn lemma_settings_independent(
        self,
        density: Density,
        sampling_factor: SamplingFactor,
        scans: u8,
        optimize: bool,
    )
        ensures
            self.with_density(density).spec_density() == density,
            self.with_sampling_factor(sampling_factor).spec_sampling_factor() == sampling_factor,
            self.with_progressive_scans(scans).spec_progressive_scans() == scans,
            self.with_optimize(optimize).spec_optimize() == optimize,
            self.with_density(density).with_density(self.spec_density()) == self,
            self.with_sampling_factor(sampling_factor).with_sampling_factor(self.spec_sampling_factor()) == self,
            self.with_progressive_scans(scans).with_progressive_scans(self.spec_progressive_scans()) == self,
            self.with_optimize(optimize).with_optimize(self.spec_optimize()) == self,
    {
    }

    /// A usable encoder: valid tables (the default Huffman tables until an
    /// image is encoded), valid application segments, a valid number of
    /// progressive scans and no components chosen yet.
    pub closed spec fn wf(&self) -> bool {
        &&& self.quantization_tables@[0].wf()
        &&& self.quantization_tables@[1].wf()
        &&& self.huffman_tables@[0].0.wf()
        &&& self.huffman_tables@[0].1.wf()
        &&& self.huffman_tables@[1].0.wf()
        &&& self.huffman_tables@[1].1.wf()
        &&& (self.progressive_scans == 0 || 2 <= self.progressive_scans <= 64)
        &&& forall|i: int|
            0 <= i < self.app_segments@.len() ==> valid_app_segment(
                #[trigger] self.app_segments@[i].0,
                self.app_segments@[i].1@,
            )
        &&& self.components@.len() == 0
        &&& self.writer.wf()
        &&& self.writer.bytes() == Seq::<u8>::empty()
        &&& self.writer.pending() == Seq::<bool>::empty()
        &&& self.huffman_tables@[0].0.spec_values() == crate::huffman::default_luma_dc_values()
        &&& self.huffman_tables@[0].1.spec_values() == crate::huffman::default_luma_ac_values()
        &&& self.huffman_tables@[1].0.spec_values() == crate::huffman::default_chroma_dc_values()
        &&& self.huffman_tables@[1].1.spec_values() == crate::huffman::default_chroma_ac_values()
    }

    /// All quantization and Huffman tables are valid.
    pub closed spec fn tables_wf(&self) -> bool {
        &&& self.quantization_tables@[0].wf()
        &&& self.quantization_tables@[1].wf()
        &&& self.huffman_tables@[0].0.wf()
        &&& self.huffman_tables@[0].1.wf()
        &&& self.huffman_tables@[1].0.wf()
        &&& self.huffman_tables@[1].1.wf()
    }

    /// Create a new encoder with the given quality
    ///
    /// The quality must be between 1 and 100 where 100 is the highest image quality.<br>
    /// By default, quality settings below 90 use a chroma subsampling (4:2:0) which can
    /// be changed with [set_sampling_factor](Encoder::set_sampling_factor)
    pub fn new(quality: u8) -> (r: Encoder)
        ensures
            r.wf(),
            r.spec_density() == Density::Unspecified,
            r.spec_sampling_factor() == (if quality < 90 {
                SamplingFactor::R4_2_0
            } else {
                SamplingFactor::R4_4_4
            }),
            r.spec_progressive_scans() == 0,
            !r.spec_optimize(),
            r.spec_app_segments() == Seq::<(u8, Seq<u8>)>::empty(),
            r.spec_quantization_table(0).entries() == Seq::new(
                64,
                |i: int| crate::quantization::scaled_entry(crate::quantization::default_luma_table()[i], quality),
            ),
            r.spec_quantization_table(1).entries() == Seq::new(
                64,
                |i: int| crate::quantization::scaled_entry(crate::quantization::default_chroma_table()[i], quality),
            ),
            r.spec_dc_table(0).lengths() == crate::huffman::default_luma_dc_lengths(),
            r.spec_dc_table(0).spec_values() == crate::huffman::default_luma_dc_values(),
            r.spec_ac_table(0).lengths() == crate::huffman::default_luma_ac_lengths(),
            r.spec_ac_table(0).spec_values() == crate::huffman::default_luma_ac_values(),
            r.spec_dc_table(1).lengths() == crate::huffman::default_chroma_dc_lengths(),
            r.spec_dc_table(1).spec_values() == crate::huffman::default_chroma_dc_values(),
            r.spec_ac_table(1).lengths() == crate::huffman::default_chroma_ac_lengths(),
            r.spec_ac_table(1).spec_values() == crate::huffman::default_chroma_ac_values(),
    {
        let huffman_tables = [
            (HuffmanTable::default_luma_dc(), HuffmanTable::default_luma_ac()),
            (HuffmanTable::default_chroma_dc(), HuffmanTable::default_chroma_ac()),
        ];

        let quantization_tables = [
            QuantizationTable::default_luma(quality),
            QuantizationTable::default_chroma(quality),
        ];

        let sampling_factor = if quality < 90 {
            SamplingFactor::R4_2_0
        } else {
            SamplingFactor::R4_4_4
        };

        let r = Encoder {
            writer: JfifWriter::new(),
            density: Density::Unspecified,
            components: Vec::new(),
            quantization_tables,
            huffman_tables,
            sampling_factor,
            progressive_scans: 0,
            optimize_huffman_table: false,
            app_segments: Vec::new(),
        };
        assert(r.spec_app_segments() =~= Seq::<(u8, Seq<u8>)>::empty());
        r
    }

    /// Set pixel density for the image
    ///
    /// By default, this value is None which is equal to "1 pixel per pixel".
    pub fn set_density(&mut self, density: Density)
        requires
            old(self).wf(),
        ensures
            final(self).wf(),
            final(self).spec_density() == density,
            final(self).spec_sampling_factor() == old(self).spec_sampling_factor(),
            final(self).spec_progressive_scans() == old(self).spec_progressive_scans(),
            final(self).spec_optimize() == old(self).spec_optimize(),
            final(self).same_tables_and_segments(&*old(self)),
            *final(self) == old(self).with_density(density),
    {
        self.density = density;
    }

    /// Return pixel density
    pub fn density(&self) -> (r: Density)
        ensures
            r == self.spec_density(),
    {
        self.density
    }

    /// Set chroma subsampling factor
    pub fn set_sampling_factor(&mut self, sampling: SamplingFactor)
        requires
            old(self).wf(),
        ensures
            final(self).wf(),
            final(self).spec_sampling_factor() == sampling,
            final(self).spec_density() == old(self).spec_density(),
            final(self).spec_progressive_scans() == old(self).spec_progressive_scans(),
            final(self).spec_optimize() == old(self).spec_optimize(),
            final(self).same_tables_and_segments(&*old(self)),
            *final(self) == old(self).with_sampling_factor(sampling),
    {
        self.sampling_factor = sampling;
    }

    /// Get chroma subsampling factor
    pub fn sampling_factor(&self) -> (r: SamplingFactor)
        ensures
            r == self.spec_sampling_factor(),
    {
        self.sampling_factor
    }

    /// Controls if progressive encoding is used.
    ///
    /// By default, progressive encoding uses 4 scans.<br>
    /// Use [set_progressive_scans](Encoder::set_progressive_scans) to use a different number of scans
    pub fn set_progressive(&mut self, progressive: bool)
        requires
            old(self).wf(),
        ensures
            final(self).wf(),
            final(self).spec_progressive_scans() == (if progressive {
                4u8
            } else {
                0u8
            }),
            final(self).spec_density() == old(self).spec_density(),
            final(self).spec_sampling_factor() == old(self).spec_sampling_factor(),
            final(self).spec_optimize() == old(self).spec_optimize(),
            final(self).same_tables_and_segments(&*old(self)),
            *final(self) == old(self).with_progressive_scans(
                if progressive {
                    4u8
                } else {
                    0u8
                },
            ),
    {
        if progressive {
            self.set_progressive_scans(4);
        } else {
            self.progressive_scans = 0;
        }
    }

    /// Set number of scans per component for progressive encoding
    ///
    /// Number of scans must be between 2 and 64.
    /// There is at least one scan for the DC coefficients and one for the remaining 63 AC coefficients.
    pub fn set_progressive_scans(&mut self, scans: u8)
        requires
            old(self).wf(),
            2 <= scans <= 64,
        ensures
            final(self).wf(),
            final(self).spec_progressive_scans() == scans,
            final(self).spec_density() == old(self).spec_density(),
            final(self).spec_sampling_factor() == old(self).spec_sampling_factor(),
            final(self).spec_optimize() == old(self).spec_optimize(),
            final(self).same_tables_and_segments(&*old(self)),
            *final(self) == old(self).with_progressive_scans(scans),
    {
        self.progressive_scans = scans;
    }

    /// Return number of progressive scans if progressive encoding is enabled
    pub fn progressive_scans(&self) -> (r: Option<u8>)
        ensures
            r == (if self.spec_progressive_scans() == 0 {
                None
            } else {
                Some(self.spec_progressive_scans())
            }),
    {
        match self.progressive_scans {
            0 => None,
            scans => Some(scans),
        }
    }

    /// Set if optimized huffman table should be created
    ///
    /// Optimized tables result in slightly smaller file sizes but decrease encoding performance.
    pub fn set_optimized_huffman_tables(&mut self, optimize_huffman_table: bool)
        requires
            old(self).wf(),
        ensures
            final(self).wf(),
            final(self).spec_optimize() == optimize_huffman_table,
            final(self).spec_density() == old(self).spec_density(),
            final(self).spec_sampling_factor() == old(self).spec_sampling_factor(),
            final(self).spec_progressive_scans() == old(self).spec_progressive_scans(),
            final(self).same_tables_and_segments(&*old(self)),
            *final(self) == old(self).with_optimize(optimize_huffman_table),
    {
        self.optimize_huffman_table = optimize_huffman_table;
    }

    /// Returns if optimized huffman table should be generated
    pub fn optimized_huffman_tables(&self) -> (r: bool)
        ensures
            r == self.spec_optimize(),
    {
        self.optimize_huffman_table
    }

    /// Appends a custom app segment to the JFIF file
    ///
    /// Segment numbers need to be in the range between 1 and 15<br>
    /// The maximum allowed data length is 65533 bytes (2^16 - 3): the
    /// segment's 16-bit length field counts its own two bytes and the data,
    /// so a longer segment could not be written.
    pub fn add_app_segment(&mut self, segment_nr: u8, data: &[u8]) -> (r: Result<(), EncodingError>)
        requires
            old(self).wf(),
        ensures
            final(self).wf(),
            segment_nr == 0 || segment_nr > 15 ==> r == Err::<(), EncodingError>(
                EncodingError::InvalidAppSegment(segment_nr),
            ),
            1 <= segment_nr <= 15 && data@.len() > 65533 ==> r == Err::<(), EncodingError>(
                EncodingError::AppSegmentTooLarge(data@.len() as usize),
            ),
            r is Ok <==> valid_app_segment(segment_nr, data@),
            r is Ok ==> final(self).spec_app_segments() == old(self).spec_app_segments().push(
                (segment_nr, data@),
            ),
            r is Err ==> *final(self) == *old(self),
            final(self).spec_density() == old(self).spec_density(),
            final(self).spec_sampling_factor() == old(self).spec_sampling_factor(),
            final(self).spec_progressive_scans() == old(self).spec_progressive_scans(),
            final(self).spec_optimize() == old(self).spec_optimize(),
            forall|i: int| 0 <= i < 2 ==> #[trigger] final(self).spec_quantization_table(i) == old(self).spec_quantization_table(i),
            forall|i: int| 0 <= i < 2 ==> #[trigger] final(self).spec_dc_table(i) == old(self).spec_dc_table(i),
            forall|i: int| 0 <= i < 2 ==> #[trigger] final(self).spec_ac_table(i) == old(self).spec_ac_table(i),
    {
        if segment_nr == 0 || segment_nr > 15 {
            Err(EncodingError::InvalidAppSegment(segment_nr))
        } else if data.len() > 65533 {
            Err(EncodingError::AppSegmentTooLarge(data.len()))
        } else {
            let v = to_vec(data);
            self.app_segments.push((segment_nr, v));
            assert(self.spec_app_segments() =~= old(self).spec_app_segments().push((segment_nr, data@)));
            Ok(())
        }
    }

    /// Add an ICC profile
    ///
    /// The maximum allowed data length is 16,707,345 bytes.
    pub fn add_icc_profile(&mut self, data: &[u8]) -> (r: Result<(), EncodingError>)
        requires
            old(self).wf(),
        ensures
            final(self).wf(),
            r is Err <==> icc_num_chunks(data@.len()) > 255,
            r is Err <==> data@.len() > 16_707_345,
            r is Err ==> r == Err::<(), EncodingError>(EncodingError::ICCTooLarge(data@.len() as usize))
                && *final(self) == *old(self),
            r is Ok ==> final(self).spec_app_segments() == old(self).spec_app_segments() + Seq::new(
                icc_num_chunks(data@.len()),
                |i: int| (2u8, icc_segment(data@, i, icc_num_chunks(data@.len()))),
            ),
            final(self).spec_density() == old(self).spec_density(),
            final(self).spec_sampling_factor() == old(self).spec_sampling_factor(),
            final(self).spec_progressive_scans() == old(self).spec_progressive_scans(),
            final(self).spec_optimize() == old(self).spec_optimize(),
            forall|i: int| 0 <= i < 2 ==> #[trigger] final(self).spec_quantization_table(i) == old(self).spec_quantization_table(i),
            forall|i: int| 0 <= i < 2 ==> #[trigger] final(self).spec_dc_table(i) == old(self).spec_dc_table(i),
            forall|i: int| 0 <= i < 2 ==> #[trigger] final(self).spec_ac_table(i) == old(self).spec_ac_table(i),
    {
        // Based on https://www.color.org/ICC_Minor_Revision_for_Web.pdf
        // B.4  Embedding ICC profiles in JFIF files
        let marker: [u8; 12] = [0x49, 0x43, 0x43, 0x5F, 0x50, 0x52, 0x4F, 0x46, 0x49, 0x4C, 0x45, 0x00];
        let max_chunk_length: usize = 65535 - 2 - 12 - 2;

        let num_chunks = ceil_div(data.len(), max_chunk_length);

        // Sequence number is stored as a byte and starts with 1
        if num_chunks > 255 {
            return Err(EncodingError::ICCTooLarge(data.len()));
        }
        let ghost n = num_chunks as nat;
        let ghost start = self.spec_app_segments();
        proof {
            assert(data@.len() <= 16_707_345) by (nonlinear_arith)
                requires
                    num_chunks <= 255,
                    num_chunks == (data@.len() + 65519 - 1) / 65519,
            ;
        }
        let mut i: usize = 0;
        while i < num_chunks
            invariant
                i <= num_chunks <= 255,
                n == num_chunks,
                num_chunks == icc_num_chunks(data@.len()),
                max_chunk_length == icc_chunk_length(),
                marker@ == icc_marker(),
                self.wf(),
                self.spec_app_segments() == start + Seq::new(
                    i as nat,
                    |j: int| (2u8, icc_segment(data@, j, n)),
                ),
                self.spec_density() == old(self).spec_density(),
                self.spec_sampling_factor() == old(self).spec_sampling_factor(),
                self.spec_progressive_scans() == old(self).spec_progressive_scans(),
                self.spec_optimize() == old(self).spec_optimize(),
                forall|k: int| 0 <= k < 2 ==> #[trigger] self.spec_quantization_table(k) == old(self).spec_quantization_table(k),
                forall|k: int| 0 <= k < 2 ==> #[trigger] self.spec_dc_table(k) == old(self).spec_dc_table(k),
                forall|k: int| 0 <= k < 2 ==> #[trigger] self.spec_ac_table(k) == old(self).spec_ac_table(k),
            decreases num_chunks - i,
        {
            proof {
                assert(i * max_chunk_length < data@.len()) by (nonlinear_arith)
                    requires
                        i < num_chunks,
                        num_chunks == (data@.len() + max_chunk_length - 1) / max_chunk_length as int,
                        max_chunk_length == 65519,
                ;
            }
            let chunk_start = i * max_chunk_length;
            let chunk_end = if data.len() - chunk_start > max_chunk_length {
                chunk_start + max_chunk_length
            } else {
                data.len()
            };
            let mut chunk_data: Vec<u8> = Vec::new();
            let mut k: usize = 0;
            while k < 12
                invariant
                    k <= 12,
                    marker@ == icc_marker(),
                    chunk_data@ == icc_marker().take(k as int),
                decreases 12 - k,
            {
                chunk_data.push(marker[k]);
                k = k + 1;
                assert(chunk_data@ =~= icc_marker().take(k as int));
            }
            chunk_data.push(i as u8 + 1);
            chunk_data.push(num_chunks as u8);
            let mut j: usize = chunk_start;
            while j < chunk_end
                invariant
                    chunk_start <= j <= chunk_end <= data@.len(),
                    chunk_data@ == icc_marker() + seq![(i + 1) as u8, num_chunks as u8] + data@.subrange(
                        chunk_start as int,
                        j as int,
                    ),
                decreases chunk_end - j,
            {
                chunk_data.push(data[j]);
                j = j + 1;
                assert(chunk_data@ =~= icc_marker() + seq![(i + 1) as u8, num_chunks as u8]
                    + data@.subrange(chunk_start as int, j as int));
            }
            assert(chunk_data@ =~= icc_segment(data@, i as int, n));
            let res = self.add_app_segment(2, chunk_data.as_slice());
            assert(res is Ok);
            i = i + 1;
            assert(self.spec_app_segments() =~= start + Seq::new(
                i as nat,
                |j: int| (2u8, icc_segment(data@, j, n)),
            ));
        }
        Ok(())
    }
}


impl Encoder {
    /// The components for an image of the given colorspace.
    fn init_components(&mut self, color: JpegColorType)
        requires
            old(self).components@.len() == 0,
        ensures
            final(self).components@ == spec_components(color, old(self).sampling_factor),
            final(self).writer == old(self).writer,
            final(self).density == old(self).density,
            final(self).quantization_tables == old(self).quantization_tables,
            final(self).huffman_tables == old(self).huffman_tables,
            final(self).sampling_factor == old(self).sampling_factor,
            final(self).progressive_scans == old(self).progressive_scans,
            final(self).optimize_huffman_table == old(self).optimize_huffman_table,
            final(self).app_segments == old(self).app_segments,
    {
        let (h, v) = self.sampling_factor.get_sampling_factors();
        match color {
            JpegColorType::Luma => {
                self.components.push(new_component(0, 0, 1, 1));
            },
            JpegColorType::Ycbcr => {
                self.components.push(new_component(0, 0, h, v));
                self.components.push(new_component(1, 1, 1, 1));
                self.components.push(new_component(2, 1, 1, 1));
            },
            JpegColorType::Cmyk => {
                self.components.push(new_component(0, 1, 1, 1));
                self.components.push(new_component(1, 1, 1, 1));
                self.components.push(new_component(2, 1, 1, 1));
                self.components.push(new_component(3, 0, h, v));
            },
            JpegColorType::Ycck => {
                self.components.push(new_component(0, 0, h, v));
                self.components.push(new_component(1, 1, 1, 1));
                self.components.push(new_component(2, 1, 1, 1));
                self.components.push(new_component(3, 0, h, v));
            },
        }
        assert(self.components@ =~= spec_components(color, old(self).sampling_factor));
    }

    /// Largest horizontal and vertical sampling factor of the components.
    fn get_max_sampling_size(&self) -> (r: (usize, usize))
        requires
            self.components@.len() <= 4,
        ensures
            r.0 == max_h(self.components@),
            r.1 == max_v(self.components@),
    {
        let mut max_h_sampling: u8 = 1;
        let mut max_v_sampling: u8 = 1;
        let mut i: usize = 0;
        while i < self.components.len()
            invariant
                i <= self.components@.len() <= 4,
                max_h_sampling == max_h(self.components@.take(i as int)),
                max_v_sampling == max_v(self.components@.take(i as int)),
            decreases self.components@.len() - i,
        {
            let c = self.components[i];
            proof {
                assert(self.components@.take(i + 1).drop_last() =~= self.components@.take(i as int));
            }
            if c.horizontal_sampling_factor > max_h_sampling {
                max_h_sampling = c.horizontal_sampling_factor;
            }
            if c.vertical_sampling_factor > max_v_sampling {
                max_v_sampling = c.vertical_sampling_factor;
            }
            i = i + 1;
        }
        assert(self.components@.take(i as int) =~= self.components@);
        (max_h_sampling as usize, max_v_sampling as usize)
    }

    /// The coded blocks of every component of the image, each component's
    /// blocks in the order of a scan of that component alone.
    #[verifier::spinoff_prover]
    #[verifier::rlimit(40)]
    fn encode_blocks<I: ImageBuffer>(&self, image: &I) -> (r: [Vec<[i16; 64]>; 4])
        requires
            image.valid(),
            image.spec_width() > 0,
            image.spec_height() > 0,
            crate::stream::dimensions_fit(image.spec_width(), image.spec_height()),
            self.components@ == spec_components(image.spec_color_type(), self.sampling_factor),
            self.quantization_tables@[0].wf(),
            self.quantization_tables@[1].wf(),
        ensures
            forall|i: int|
                0 <= i < 4 ==> #[trigger] block_views(r@[i]@) == (if i < self.components@.len() {
                    component_blocks(
                        *image,
                        self.components@,
                        max_h(self.components@),
                        max_v(self.components@),
                        i,
                        self.quantization_tables@[self.components@[i].quantization_table as int],
                    )
                } else {
                    Seq::empty()
                }),
    {
        let width = image.width();
        let height = image.height();
        let num_cols = ceil_div(width as usize, 8);
        let num_rows = ceil_div(height as usize, 8);
        proof {
            lemma_components(image.spec_color_type(), self.sampling_factor);
            assert(num_cols * 8 <= width + 7 && num_rows * 8 <= height + 7);
            assert(num_cols * 8 * (num_rows * 8) <= (width + 32) * (height + 32)) by (nonlinear_arith)
                requires
                    0 <= num_cols * 8 <= width + 7,
                    0 <= num_rows * 8 <= height + 7,
            ;
            assert(num_rows * 8 * (num_cols * 8) == num_cols * 8 * (num_rows * 8)) by (nonlinear_arith);
        }
        let (max_h_sampling, max_v_sampling) = self.get_max_sampling_size();
        proof {
            lemma_components(image.spec_color_type(), self.sampling_factor);
        }
        // The lines are filled up to whole MCUs, so that every component
        // gets the blocks that its subsampled size needs.
        let mcus_across = ceil_div(num_cols, max_h_sampling);
        let mcus_down = ceil_div(num_rows, max_v_sampling);
        proof {
            lemma_ceil_round(num_cols as int, max_h_sampling as int);
            lemma_ceil_round(num_rows as int, max_v_sampling as int);
        }
        let mcu_cols = mcus_across * max_h_sampling;
        let mcu_rows = mcus_down * max_v_sampling;
        proof {
            assert(mcu_cols * 8 * (mcu_rows * 8) <= (width + 32) * (height + 32)) by (nonlinear_arith)
                requires
                    0 <= mcu_cols * 8 <= width + 31,
                    0 <= mcu_rows * 8 <= height + 31,
            ;
            assert(mcu_rows * 8 * (mcu_cols * 8) == mcu_cols * 8 * (mcu_rows * 8)) by (nonlinear_arith);
        }
        let buffer_width = mcu_cols * 8;
        let lines = mcu_rows * 8;
        let row = fill_rows(image, 0, lines, buffer_width);
        let ghost comps = self.components@;
        let mut blocks: [Vec<[i16; 64]>; 4] = [Vec::new(), Vec::new(), Vec::new(), Vec::new()];
        let mut i: usize = 0;
        while i < self.components.len()
            invariant
                i <= comps.len() <= 4,
                comps == self.components@,
                comps == spec_components(image.spec_color_type(), self.sampling_factor),
                comps.len() == image.spec_color_type().spec_num_components(),
                max_h_sampling == max_h(comps),
                max_v_sampling == max_v(comps),
                max_h_sampling == 1 || max_h_sampling == 2 || max_h_sampling == 4,
                max_v_sampling == 1 || max_v_sampling == 2 || max_v_sampling == 4,
                forall|j: int|
                    0 <= j < comps.len() ==> {
                        let c = #[trigger] comps[j];
                        &&& c.quantization_table < 2
                        &&& (c.horizontal_sampling_factor == 1 || c.horizontal_sampling_factor
                            == max_h_sampling)
                        &&& (c.vertical_sampling_factor == 1 || c.vertical_sampling_factor == max_v_sampling)
                    },
                self.quantization_tables@[0].wf(),
                self.quantization_tables@[1].wf(),
                image.valid(),
                width == image.spec_width(),
                height == image.spec_height(),
                num_cols == crate::stream::ceil_div_int(width as int, 8),
                num_rows == crate::stream::ceil_div_int(height as int, 8),
                num_cols <= mcu_cols,
                num_rows <= mcu_rows,
                (mcu_cols as int) % (max_h_sampling as int) == 0,
                (mcu_rows as int) % (max_v_sampling as int) == 0,
                buffer_width == mcu_cols * 8,
                lines == mcu_rows * 8,
                lines * buffer_width <= usize::MAX,
                forall|c: int|
                    0 <= c < comps.len() ==> (#[trigger] row@[c]@).len() == lines * buffer_width,
                forall|c: int|
                    0 <= c < comps.len() ==> crate::blocks::holds_lines(
                        #[trigger] row@[c]@,
                        *image,
                        c,
                        buffer_width as int,
                        0,
                    ),
                forall|j: int|
                    0 <= j < 4 ==> #[trigger] block_views(blocks@[j]@) == (if j < i {
                        component_blocks(
                            *image,
                            comps,
                            max_h(comps),
                            max_v(comps),
                            j,
                            self.quantization_tables@[comps[j].quantization_table as int],
                        )
                    } else {
                        Seq::empty()
                    }),
            decreases comps.len() - i,
        {
            let component = self.components[i];
            assert(comps[i as int] == component);
            let h_scale = max_h_sampling / (component.horizontal_sampling_factor as usize);
            let v_scale = max_v_sampling / (component.vertical_sampling_factor as usize);
            proof {
                lemma_scale(max_h_sampling as int, component.horizontal_sampling_factor as int);
                lemma_scale(max_v_sampling as int, component.vertical_sampling_factor as int);
            }
            let cols = ceil_div(num_cols, h_scale);
            let rows = ceil_div(num_rows, v_scale);
            proof {
                assert(1 <= h_scale && 1 <= v_scale);
                lemma_ceil_within(num_cols as int, h_scale as int, max_h_sampling as int, mcu_cols as int);
                lemma_ceil_within(num_rows as int, v_scale as int, max_v_sampling as int, mcu_rows as int);
                assert(cols * 8 * h_scale <= buffer_width) by (nonlinear_arith)
                    requires
                        cols * h_scale <= mcu_cols,
                        buffer_width == mcu_cols * 8,
                ;
                assert(rows * 8 * v_scale * buffer_width <= lines * buffer_width) by (nonlinear_arith)
                    requires
                        rows * v_scale <= mcu_rows,
                        lines == mcu_rows * 8,
                        buffer_width >= 0,
                ;
            }
            let table = &self.quantization_tables[component.quantization_table as usize];
            let b = code_component(
                image,
                Ghost(i as int),
                &row[i],
                buffer_width,
                cols,
                rows,
                h_scale,
                v_scale,
                table,
            );
            proof {
                let want = component_blocks(
                    *image,
                    comps,
                    max_h(comps),
                    max_v(comps),
                    i as int,
                    self.quantization_tables@[comps[i as int].quantization_table as int],
                );
                assert(block_views(b@) =~= want);
            }
            blocks[i] = b;
            i = i + 1;
        }
        blocks
    }
}


impl Encoder {
    /// The settings other than the writer are the same.
    closed spec fn same_settings(&self, other: &Encoder) -> bool {
        &&& self.density == other.density
        &&& self.components == other.components
        &&& self.quantization_tables == other.quantization_tables
        &&& self.huffman_tables == other.huffman_tables
        &&& self.sampling_factor == other.sampling_factor
        &&& self.progressive_scans == other.progressive_scans
        &&& self.optimize_huffman_table == other.optimize_huffman_table
        &&& self.app_segments == other.app_segments
    }

    /// Ready to encode the image: its components chosen, valid tables and
    /// settings, and nothing pending in the writer.
    closed spec fn ready_for<I: ImageBuffer>(&self, image: I) -> bool {
        &&& image.valid()
        &&& image.spec_width() > 0
        &&& image.spec_height() > 0
        &&& dimensions_fit(image.spec_width(), image.spec_height())
        &&& self.components@ == spec_components(image.spec_color_type(), self.sampling_factor)
        &&& self.tables_wf()
        &&& (self.progressive_scans == 0 || 2 <= self.progressive_scans <= 64)
        &&& self.writer.wf()
        &&& self.writer.pending() == Seq::<bool>::empty()
    }

    /// Write the frame header, the quantization tables and the Huffman
    /// tables.
    #[verifier::spinoff_prover]
    #[verifier::rlimit(40)]
    fn write_frame_header<I: ImageBuffer>(&mut self, image: &I)
        requires
            old(self).ready_for(*image),
        ensures
            final(self).same_settings(&*old(self)),
            final(self).writer.wf(),
            final(self).writer.pending() == Seq::<bool>::empty(),
            final(self).writer.bytes() == old(self).writer.bytes() + frame_bytes(
                image.spec_width(),
                image.spec_height(),
                old(self).components@,
                old(self).progressive_scans != 0,
                old(self).quantization_tables@,
                old(self).huffman_tables@,
            ),
    {
        proof {
            lemma_components(image.spec_color_type(), self.sampling_factor);
        }
        self.writer.write_frame_header(
            image.width(),
            image.height(),
            self.components.as_slice(),
            self.progressive_scans != 0,
        );
        self.writer.write_quantization_segment(0, &self.quantization_tables[0]);
        self.writer.write_quantization_segment(1, &self.quantization_tables[1]);
        self.writer.write_huffman_segment(CodingClass::Dc, 0, &self.huffman_tables[0].0);
        self.writer.write_huffman_segment(CodingClass::Ac, 0, &self.huffman_tables[0].1);
        if image.get_jpeg_color_type().get_num_components() >= 3 {
            self.writer.write_huffman_segment(CodingClass::Dc, 1, &self.huffman_tables[1].0);
            self.writer.write_huffman_segment(CodingClass::Ac, 1, &self.huffman_tables[1].1);
        }
        assert(self.writer.bytes() =~= old(self).writer.bytes() + frame_bytes(
            image.spec_width(),
            image.spec_height(),
            old(self).components@,
            old(self).progressive_scans != 0,
            old(self).quantization_tables@,
            old(self).huffman_tables@,
        ));
    }

    /// The settings other than the writer and the Huffman tables are the
    /// same.
    closed spec fn same_settings_but_tables(&self, other: &Encoder) -> bool {
        &&& self.density == other.density
        &&& self.components == other.components
        &&& self.quantization_tables == other.quantization_tables
        &&& self.sampling_factor == other.sampling_factor
        &&& self.progressive_scans == other.progressive_scans
        &&& self.optimize_huffman_table == other.optimize_huffman_table
        &&& self.app_segments == other.app_segments
    }

    /// Build tables for the image when optimized tables are asked for.
    fn optimize_for<I: ImageBuffer>(&mut self, image: &I, blocks: &[Vec<[i16; 64]>; 4])
        requires
            old(self).ready_for(*image),
            old(self).optimize_huffman_table ==> optimize_fits(
                image.spec_color_type(),
                old(self).sampling_factor,
                image.spec_width(),
                image.spec_height(),
            ),
            forall|i: int|
                0 <= i < 4 ==> #[trigger] block_views(blocks@[i]@) == (if i < old(self).components@.len() {
                    component_blocks(
                        *image,
                        old(self).components@,
                        max_h(old(self).components@),
                        max_v(old(self).components@),
                        i,
                        old(self).quantization_tables@[old(self).components@[i].quantization_table as int],
                    )
                } else {
                    Seq::empty()
                }),
        ensures
            final(self).same_settings_but_tables(&*old(self)),
            final(self).writer == old(self).writer,
            final(self).ready_for(*image),
            !old(self).optimize_huffman_table ==> final(self).huffman_tables == old(self).huffman_tables,
            forall|t: int|
                0 <= t < 2 && !table_used(old(self).components@, t) ==> #[trigger] final(self).huffman_tables@[t]
                    == old(self).huffman_tables@[t],
            old(self).optimize_huffman_table ==> crate::stream::tables_code_scans(
                final(self).huffman_tables@,
                old(self).components@,
                image_blocks(*image, old(self).components@, old(self).quantization_tables@),
                old(self).progressive_scans as int,
            ),
            old(self).optimize_huffman_table ==> tables_built(
                final(self).huffman_tables@,
                old(self).components@,
                image_blocks(*image, old(self).components@, old(self).quantization_tables@),
                old(self).progressive_scans as int,
            ),
    {
        if self.optimize_huffman_table {
            let ghost comps = self.components@;
            let ghost qts = self.quantization_tables@;
            proof {
                lemma_components(image.spec_color_type(), self.sampling_factor);
                lemma_tables_used(image.spec_color_type(), self.sampling_factor);
                assert forall|i: int| 0 <= i < comps.len() implies blocks_in_range(#[trigger] blocks@[i]@) && 1
                    <= blocks@[i]@.len() by {
                    crate::blocks::lemma_component_blocks_in_range(
                        *image,
                        comps,
                        max_h(comps),
                        max_v(comps),
                        i,
                        qts[comps[i].quantization_table as int],
                    );
                    assert(block_views(blocks@[i]@) == component_blocks(
                        *image,
                        comps,
                        max_h(comps),
                        max_v(comps),
                        i,
                        qts[comps[i].quantization_table as int],
                    ));
                    assert forall|n: int| 0 <= n < blocks@[i]@.len() implies crate::stream::block_in_range(
                        #[trigger] blocks@[i]@[n]@,
                    ) by {
                        assert(block_views(blocks@[i]@)[n] == blocks@[i]@[n]@);
                    }
                    lemma_block_count(*image, comps, i, qts[comps[i].quantization_table as int], self.sampling_factor);
                }
            }
            proof {
                assert(Seq::new(comps.len(), |i: int| block_views(blocks@[i]@)) =~= image_blocks(*image, comps, qts));
                lemma_fits_tables(*image, self.sampling_factor, qts);
            }
            self.optimize_huffman_table(blocks);
        }
    }

    /// Create new huffman tables optimized for this image: for each table
    /// destination used, the frequencies of the symbols that the scans of
    /// its components code, and tables built for them.
    #[verifier::spinoff_prover]
    #[verifier::rlimit(40)]
    fn optimize_huffman_table(&mut self, blocks: &[Vec<[i16; 64]>; 4])
        requires
            old(self).tables_wf(),
            1 <= old(self).components@.len() <= 4,
            forall|i: int|
                0 <= i < old(self).components@.len() ==> {
                    let c = #[trigger] old(self).components@[i];
                    &&& c.dc_huffman_table < 2
                    &&& c.ac_huffman_table == c.dc_huffman_table
                    &&& (old(self).components@.len() == 1 ==> c.dc_huffman_table == 0)
                },
            forall|t: int|
                0 <= t < 2 && t < old(self).components@.len() ==> #[trigger] table_used(old(self).components@, t),
            forall|i: int|
                0 <= i < old(self).components@.len() ==> blocks_in_range(#[trigger] blocks@[i]@) && 1
                    <= blocks@[i]@.len(),
            1 + 63 * table_blocks(
                old(self).components@,
                Seq::new(old(self).components@.len(), |i: int| block_views(blocks@[i]@)),
                0,
                old(self).components@.len() as int,
            ) <= u32::MAX,
            1 + 63 * table_blocks(
                old(self).components@,
                Seq::new(old(self).components@.len(), |i: int| block_views(blocks@[i]@)),
                1,
                old(self).components@.len() as int,
            ) <= u32::MAX,
            old(self).progressive_scans == 0 || 2 <= old(self).progressive_scans <= 64,
        ensures
            final(self).writer == old(self).writer,
            final(self).density == old(self).density,
            final(self).components == old(self).components,
            final(self).quantization_tables == old(self).quantization_tables,
            final(self).sampling_factor == old(self).sampling_factor,
            final(self).progressive_scans == old(self).progressive_scans,
            final(self).optimize_huffman_table == old(self).optimize_huffman_table,
            final(self).app_segments == old(self).app_segments,
            final(self).tables_wf(),
            forall|t: int|
                0 <= t < 2 && !table_used(old(self).components@, t) ==> #[trigger] final(self).huffman_tables@[t]
                    == old(self).huffman_tables@[t],
            crate::stream::tables_code_scans(
                final(self).huffman_tables@,
                old(self).components@,
                Seq::new(old(self).components@.len(), |i: int| block_views(blocks@[i]@)),
                old(self).progressive_scans as int,
            ),
            tables_built(
                final(self).huffman_tables@,
                old(self).components@,
                Seq::new(old(self).components@.len(), |i: int| block_views(blocks@[i]@)),
                old(self).progressive_scans as int,
            ),
    {
        let ghost comps = self.components@;
        let ghost ps = self.progressive_scans as int;
        let ghost all = Seq::new(comps.len(), |i: int| block_views(blocks@[i]@));
        let max_tables: u8 = if self.components.len() < 2 {
            self.components.len() as u8
        } else {
            2
        };
        let mut table: u8 = 0;
        while table < max_tables
            invariant
                table <= max_tables,
                max_tables as int == if comps.len() < 2 {
                    comps.len() as int
                } else {
                    2
                },
                comps == self.components@,
                self.components == old(self).components,
                self.progressive_scans == old(self).progressive_scans,
                ps == self.progressive_scans,
                ps == 0 || 2 <= ps <= 64,
                all == Seq::new(comps.len(), |i: int| block_views(blocks@[i]@)),
                1 <= comps.len() <= 4,
                forall|i: int|
                    0 <= i < comps.len() ==> {
                        let c = #[trigger] comps[i];
                        &&& c.dc_huffman_table < 2
                        &&& c.ac_huffman_table == c.dc_huffman_table
                        &&& (comps.len() == 1 ==> c.dc_huffman_table == 0)
                    },
                forall|t: int| 0 <= t < 2 && t < comps.len() ==> #[trigger] table_used(comps, t),
                forall|i: int|
                    0 <= i < comps.len() ==> blocks_in_range(#[trigger] blocks@[i]@) && 1 <= blocks@[i]@.len(),
                forall|t: int|
                    0 <= t < 2 ==> 1 + 63 * #[trigger] table_blocks(comps, all, t, comps.len() as int) <= u32::MAX,
                self.writer == old(self).writer,
                self.density == old(self).density,
                self.quantization_tables == old(self).quantization_tables,
                self.sampling_factor == old(self).sampling_factor,
                self.optimize_huffman_table == old(self).optimize_huffman_table,
                self.app_segments == old(self).app_segments,
                self.tables_wf(),
                forall|i: int|
                    0 <= i < comps.len() && (#[trigger] comps[i]).dc_huffman_table < table ==> {
                        &&& crate::stream::codes_all(
                            self.huffman_tables@[comps[i].dc_huffman_table as int].0,
                            crate::stream::dc_symbols(all[i]),
                        )
                        &&& crate::stream::codes_ac_scans(
                            self.huffman_tables@[comps[i].ac_huffman_table as int].1,
                            all[i],
                            ps,
                        )
                    },
                forall|t: int| 0 <= t < table ==> table_built(#[trigger] self.huffman_tables@[t], comps, all, t, ps),
                forall|t: int| table <= t < 2 ==> #[trigger] self.huffman_tables@[t] == old(self).huffman_tables@[t],
            decreases max_tables - table,
        {
            let mut dc_freq = [0u32; 257];
            let ghost z = dc_freq@;
            proof {
                assert(z.len() == 257);
                assert(forall|s: int| 0 <= s < 257 ==> z[s] == 0);
                crate::optimal::lemma_total_update(z, 256, 1, 257);
                lemma_total_zero(z, 257);
            }
            dc_freq[256] = 1;
            let mut ac_freq = [0u32; 257];
            ac_freq[256] = 1;
            assert(dc_freq@ == z.update(256, 1));
            assert(ac_freq@ =~= z.update(256, 1));
            assert(dc_freq@ =~= dc_counts_upto(comps, all, table as int, 0));
            assert(ac_freq@ =~= ac_counts_upto(comps, all, table as int, ps, 0));
            assert forall|x: u8| #[trigger] dc_freq@[x as int] > 0 <==> dc_symbol_used_upto(comps, all, table as int, x, 0) by {
                assert(dc_freq@[x as int] == z[x as int]);
            }
            assert forall|x: u8|
                #[trigger] ac_freq@[x as int] > 0 <==> ac_symbol_used_upto(comps, all, table as int, ps, x, 0) by {
                assert(ac_freq@[x as int] == z[x as int]);
            }
            let mut i: usize = 0;
            while i < self.components.len()
                invariant
                    i <= comps.len(),
                    table < max_tables,
                    comps == self.components@,
                    ps == self.progressive_scans,
                    ps == 0 || 2 <= ps <= 64,
                    all == Seq::new(comps.len(), |i: int| block_views(blocks@[i]@)),
                    1 <= comps.len() <= 4,
                    forall|j: int|
                        0 <= j < comps.len() ==> {
                            let c = #[trigger] comps[j];
                            &&& c.dc_huffman_table < 2
                            &&& c.ac_huffman_table == c.dc_huffman_table
                        },
                    forall|j: int|
                        0 <= j < comps.len() ==> blocks_in_range(#[trigger] blocks@[j]@) && 1
                            <= blocks@[j]@.len(),
                    1 + 63 * table_blocks(comps, all, table as int, comps.len() as int) <= u32::MAX,
                    crate::optimal::total(dc_freq@, 257) <= 1 + table_blocks(comps, all, table as int, i as int),
                    crate::optimal::total(ac_freq@, 257) <= 1 + 63 * table_blocks(
                        comps,
                        all,
                        table as int,
                        i as int,
                    ),
                    dc_freq@[256] >= 1,
                    ac_freq@[256] >= 1,
                    dc_freq@[15] == 0,
                    ac_freq@[15] == 0,
                    forall|j: int|
                        0 <= j < i && (#[trigger] comps[j]).dc_huffman_table == table ==> freq_codes(
                            dc_freq@,
                            crate::stream::dc_symbols(all[j]),
                        ) && freq_codes_ac_scans(ac_freq@, all[j], ps),
                    (exists|j: int| 0 <= j < i && #[trigger] comps[j].dc_huffman_table == table) ==> (exists|
                        s: int,
                    | 0 <= s < 256 && dc_freq@[s] > 0) && (exists|s: int| 0 <= s < 256 && ac_freq@[s] > 0),
                    dc_freq@ == dc_counts_upto(comps, all, table as int, i as int),
                    ac_freq@ == ac_counts_upto(comps, all, table as int, ps, i as int),
                    forall|x: u8|
                        #[trigger] dc_freq@[x as int] > 0 <==> dc_symbol_used_upto(comps, all, table as int, x, i as int),
                    forall|x: u8|
                        #[trigger] ac_freq@[x as int] > 0 <==> ac_symbol_used_upto(
                            comps,
                            all,
                            table as int,
                            ps,
                            x,
                            i as int,
                        ),
                decreases comps.len() - i,
            {
                let component = self.components[i];
                assert(comps[i as int] == component);
                let ghost dc0 = dc_freq@;
                let ghost ac0 = ac_freq@;
                let ghost tb = table_blocks(comps, all, table as int, i as int);
                proof {
                    lemma_table_blocks_mono(comps, all, table as int, i + 1, comps.len() as int);
                    assert(all[i as int].len() == blocks@[i as int]@.len());
                    assert(table_blocks(comps, all, table as int, i + 1) == tb + if component.dc_huffman_table
                        == table {
                        blocks@[i as int]@.len() as int
                    } else {
                        0
                    });
                }
                if component.dc_huffman_table == table {
                    count_dc(&mut dc_freq, &blocks[i]);
                }
                if component.ac_huffman_table == table {
                    count_component_ac(&mut ac_freq, &blocks[i], self.progressive_scans);
                }
                proof {
                    assert(all[i as int] == block_views(blocks@[i as int]@));
                    if component.dc_huffman_table == table {
                        crate::symbols::lemma_counted_positive(dc0, dc_freq@, crate::stream::dc_symbols(all[i as int]));
                        crate::symbols::lemma_counted_positive(
                            ac0,
                            ac_freq@,
                            crate::symbols::component_ac_symbols(all[i as int], ps),
                        );
                        assert(dc_freq@ =~= dc_counts_upto(comps, all, table as int, i + 1));
                        assert(ac_freq@ =~= ac_counts_upto(comps, all, table as int, ps, i + 1));
                    } else {
                        assert(dc_freq@ == dc_counts_upto(comps, all, table as int, i + 1));
                        assert(ac_freq@ == ac_counts_upto(comps, all, table as int, ps, i + 1));
                    }
                    assert forall|x: u8|
                        #[trigger] dc_freq@[x as int] > 0 <==> dc_symbol_used_upto(
                            comps,
                            all,
                            table as int,
                            x,
                            i + 1,
                        ) by {
                        assert(dc0[x as int] > 0 <==> dc_symbol_used_upto(comps, all, table as int, x, i as int));
                        if dc_symbol_used_upto(comps, all, table as int, x, i + 1) {
                            let j = choose|j: int|
                                0 <= j < i + 1 && comps[j].dc_huffman_table == table
                                    && #[trigger] crate::stream::dc_symbols(all[j]).contains(x);
                            if j < i {
                                assert(dc_symbol_used_upto(comps, all, table as int, x, i as int));
                            }
                        }
                        if dc_symbol_used_upto(comps, all, table as int, x, i as int) {
                            let j = choose|j: int|
                                0 <= j < i && comps[j].dc_huffman_table == table
                                    && #[trigger] crate::stream::dc_symbols(all[j]).contains(x);
                            assert(dc_symbol_used_upto(comps, all, table as int, x, i + 1));
                        }
                        if component.dc_huffman_table == table && crate::stream::dc_symbols(
                            all[i as int],
                        ).contains(x) {
                            assert(dc_symbol_used_upto(comps, all, table as int, x, i + 1));
                        }
                    }
                    assert forall|x: u8|
                        #[trigger] ac_freq@[x as int] > 0 <==> ac_symbol_used_upto(
                            comps,
                            all,
                            table as int,
                            ps,
                            x,
                            i + 1,
                        ) by {
                        assert(ac0[x as int] > 0 <==> ac_symbol_used_upto(comps, all, table as int, ps, x, i as int));
                        if ac_symbol_used_upto(comps, all, table as int, ps, x, i + 1) {
                            let j = choose|j: int|
                                0 <= j < i + 1 && comps[j].ac_huffman_table == table
                                    && #[trigger] crate::symbols::component_ac_symbols(all[j], ps).contains(x);
                            if j < i {
                                assert(ac_symbol_used_upto(comps, all, table as int, ps, x, i as int));
                            }
                        }
                        if ac_symbol_used_upto(comps, all, table as int, ps, x, i as int) {
                            let j = choose|j: int|
                                0 <= j < i && comps[j].ac_huffman_table == table
                                    && #[trigger] crate::symbols::component_ac_symbols(all[j], ps).contains(x);
                            assert(ac_symbol_used_upto(comps, all, table as int, ps, x, i + 1));
                        }
                        if component.ac_huffman_table == table && crate::symbols::component_ac_symbols(
                            all[i as int],
                            ps,
                        ).contains(x) {
                            assert(ac_symbol_used_upto(comps, all, table as int, ps, x, i + 1));
                        }
                    }
                    assert forall|j: int|
                        0 <= j < i + 1 && (#[trigger] comps[j]).dc_huffman_table == table implies freq_codes(
                        dc_freq@,
                        crate::stream::dc_symbols(all[j]),
                    ) && freq_codes_ac_scans(ac_freq@, all[j], ps) by {
                        if j < i {
                            crate::symbols::lemma_freq_grow_all(dc0, dc_freq@, all[j], ps, crate::stream::dc_symbols(all[j]));
                            crate::symbols::lemma_freq_grow_all(ac0, ac_freq@, all[j], ps, crate::stream::dc_symbols(all[j]));
                        }
                    }
                    if component.dc_huffman_table == table {
                        let d = crate::stream::dc_symbols(all[i as int]);
                        assert(d.len() >= 1);
                        assert(dc_freq@[d[0] as int] > 0);
                        crate::symbols::lemma_some_ac_symbol(ac_freq@, all[i as int], ps);
                    } else if exists|j: int| 0 <= j < i && #[trigger] comps[j].dc_huffman_table == table {
                        let s1 = choose|s: int| 0 <= s < 256 && dc0[s] > 0;
                        let s2 = choose|s: int| 0 <= s < 256 && ac0[s] > 0;
                        assert(dc_freq@[s1] > 0);
                        assert(ac_freq@[s2] > 0);
                    }
                    assert((exists|j: int| 0 <= j < i + 1 && #[trigger] comps[j].dc_huffman_table == table) ==> (
                    exists|s: int| 0 <= s < 256 && dc_freq@[s] > 0) && (exists|s: int|
                        0 <= s < 256 && ac_freq@[s] > 0));
                }
                i = i + 1;
            }
            proof {
                assert(table_used(comps, table as int));
                assert(exists|j: int| 0 <= j < comps.len() && #[trigger] comps[j].dc_huffman_table == table);
                assert(dc_freq@[15] == 0);
            }
            let dc_table = HuffmanTable::new_optimized(dc_freq);
            let ac_table = HuffmanTable::new_optimized(ac_freq);
            let ghost before = self.huffman_tables@;
            self.huffman_tables[table as usize] = (dc_table, ac_table);
            proof {
                assert(table_built((dc_table, ac_table), comps, all, table as int, ps));
                assert forall|t: int| 0 <= t < table + 1 implies table_built(
                    #[trigger] self.huffman_tables@[t],
                    comps,
                    all,
                    t,
                    ps,
                ) by {
                    if t < table {
                        assert(self.huffman_tables@[t] == before[t]);
                    }
                }
                assert forall|j: int|
                    0 <= j < comps.len() && (#[trigger] comps[j]).dc_huffman_table < table + 1 implies {
                        &&& crate::stream::codes_all(
                            self.huffman_tables@[comps[j].dc_huffman_table as int].0,
                            crate::stream::dc_symbols(all[j]),
                        )
                        &&& crate::stream::codes_ac_scans(
                            self.huffman_tables@[comps[j].ac_huffman_table as int].1,
                            all[j],
                            ps,
                        )
                    } by {
                    if comps[j].dc_huffman_table == table {
                        crate::symbols::lemma_table_codes(dc_table, dc_freq@, all[j], ps, crate::stream::dc_symbols(all[j]));
                        crate::symbols::lemma_table_codes(ac_table, ac_freq@, all[j], ps, crate::stream::dc_symbols(all[j]));
                    } else {
                        assert(self.huffman_tables@[comps[j].dc_huffman_table as int] == before[comps[j].dc_huffman_table as int]);
                    }
                }
            }
            table = table + 1;
        }
        proof {
            assert forall|i: int| 0 <= i < comps.len() implies (#[trigger] comps[i]).dc_huffman_table < max_tables by {}
            assert forall|t: int| 0 <= t < 2 && #[trigger] table_used(comps, t) implies table_built(
                self.huffman_tables@[t],
                comps,
                all,
                t,
                ps,
            ) by {
                let i = choose|i: int| 0 <= i < comps.len() && #[trigger] comps[i].dc_huffman_table == t;
                assert(comps[i].dc_huffman_table < max_tables);
            }
        }
    }

    /// Encode the image in progressive mode: a DC scan per component, then
    /// rounds of AC scans over consecutive ranges of coefficients; with
    /// tables built for the image when optimized tables are asked for.
    ///
    /// This only support spectral selection for now
    #[verifier::spinoff_prover]
    #[verifier::rlimit(40)]
    fn encode_image_progressive<I: ImageBuffer>(&mut self, image: I)
        requires
            old(self).ready_for(image),
            old(self).progressive_scans != 0,
            old(self).optimize_huffman_table ==> optimize_fits(
                image.spec_color_type(),
                old(self).sampling_factor,
                image.spec_width(),
                image.spec_height(),
            ),
        ensures
            final(self).same_settings_but_tables(&*old(self)),
            final(self).tables_wf(),
            !old(self).optimize_huffman_table ==> final(self).huffman_tables == old(self).huffman_tables,
            forall|t: int|
                0 <= t < 2 && !table_used(old(self).components@, t) ==> #[trigger] final(self).huffman_tables@[t]
                    == old(self).huffman_tables@[t],
            old(self).optimize_huffman_table ==> crate::stream::tables_code_scans(
                final(self).huffman_tables@,
                old(self).components@,
                image_blocks(image, old(self).components@, old(self).quantization_tables@),
                old(self).progressive_scans as int,
            ),
            old(self).optimize_huffman_table ==> tables_built(
                final(self).huffman_tables@,
                old(self).components@,
                image_blocks(image, old(self).components@, old(self).quantization_tables@),
                old(self).progressive_scans as int,
            ),
            final(self).writer.wf(),
            final(self).writer.pending() == Seq::<bool>::empty(),
            final(self).writer.bytes() == old(self).writer.bytes() + progressive_body(
                image,
                old(self).components@,
                old(self).quantization_tables@,
                final(self).huffman_tables@,
                old(self).progressive_scans as int,
            ),
    {
        let blocks = self.encode_blocks(&image);
        self.optimize_for(&image, &blocks);
        let ghost before = *self;
        self.write_frame_header(&image);
        let ghost comps = self.components@;
        let ghost qts = self.quantization_tables@;
        let ghost hts = self.huffman_tables@;
        let ghost all = image_blocks(image, comps, qts);
        let ghost mid = self.writer.bytes();
        proof {
            lemma_components(image.spec_color_type(), self.sampling_factor);
            assert forall|j: int| 0 <= j < comps.len() implies blocks_in_range(#[trigger] blocks@[j]@) by {
                crate::blocks::lemma_component_blocks_in_range(
                    image,
                    comps,
                    max_h(comps),
                    max_v(comps),
                    j,
                    qts[comps[j].quantization_table as int],
                );
                assert(block_views(blocks@[j]@) == all[j]);
                assert forall|n: int| 0 <= n < blocks@[j]@.len() implies crate::stream::block_in_range(
                    #[trigger] blocks@[j]@[n]@,
                ) by {
                    assert(block_views(blocks@[j]@)[n] == blocks@[j]@[n]@);
                }
            }
        }
        // Phase 1: DC Scan
        //          Only the DC coefficients can be transfer in the first component scans
        let mut i: usize = 0;
        while i < self.components.len()
            invariant
                i <= comps.len(),
                self.same_settings(&before),
                comps == self.components@,
                qts == self.quantization_tables@,
                hts == self.huffman_tables@,
                before.ready_for(image),
                comps == spec_components(image.spec_color_type(), self.sampling_factor),
                all == image_blocks(image, comps, qts),
                forall|j: int| 0 <= j < comps.len() ==> #[trigger] block_views(blocks@[j]@) == all[j],
                forall|j: int| 0 <= j < comps.len() ==> blocks_in_range(#[trigger] blocks@[j]@),
                self.writer.wf(),
                self.writer.pending() == Seq::<bool>::empty(),
                self.writer.bytes() == mid + dc_scans(comps, all, hts, i as int),
            decreases comps.len() - i,
        {
            let component = self.components[i];
            proof {
                lemma_components(image.spec_color_type(), self.sampling_factor);
                assert(comps[i as int] == component);
            }
            write_dc_scan(
                &mut self.writer,
                &component,
                &blocks[i],
                &self.huffman_tables[component.dc_huffman_table as usize].0,
            );
            i = i + 1;
            proof {
                assert(self.writer.bytes() =~= mid + dc_scans(comps, all, hts, i as int));
            }
        }
        // Phase 2: AC scans
        let ghost mid2 = self.writer.bytes();
        let scans = self.progressive_scans as usize - 1;
        let mut scan: usize = 0;
        while scan < scans
            invariant
                scan <= scans,
                1 <= scans <= 63,
                scans == before.progressive_scans - 1,
                self.same_settings(&before),
                comps == self.components@,
                qts == self.quantization_tables@,
                hts == self.huffman_tables@,
                before.ready_for(image),
                comps == spec_components(image.spec_color_type(), self.sampling_factor),
                all == image_blocks(image, comps, qts),
                forall|j: int| 0 <= j < comps.len() ==> #[trigger] block_views(blocks@[j]@) == all[j],
                forall|j: int| 0 <= j < comps.len() ==> blocks_in_range(#[trigger] blocks@[j]@),
                self.writer.wf(),
                self.writer.pending() == Seq::<bool>::empty(),
                self.writer.bytes() == mid2 + progressive_ac_scans(comps, all, hts, scans as int, scan as int),
            decreases scans - scan,
        {
            let (start, end) = ac_band(scan, scans);
            let ghost mid3 = self.writer.bytes();
            let mut i: usize = 0;
            while i < self.components.len()
                invariant
                    i <= comps.len(),
                    1 <= start <= end <= 64,
                    self.same_settings(&before),
                    comps == self.components@,
                    qts == self.quantization_tables@,
                    hts == self.huffman_tables@,
                    before.ready_for(image),
                    comps == spec_components(image.spec_color_type(), self.sampling_factor),
                    forall|j: int| 0 <= j < comps.len() ==> #[trigger] block_views(blocks@[j]@) == all[j],
                    forall|j: int| 0 <= j < comps.len() ==> blocks_in_range(#[trigger] blocks@[j]@),
                    self.writer.wf(),
                    self.writer.pending() == Seq::<bool>::empty(),
                    self.writer.bytes() == mid3 + ac_scans(comps, all, hts, start as int, end as int, i as int),
                decreases comps.len() - i,
            {
                let component = self.components[i];
                proof {
                    lemma_components(image.spec_color_type(), self.sampling_factor);
                    assert(comps[i as int] == component);
                }
                write_ac_scan(
                    &mut self.writer,
                    &component,
                    &blocks[i],
                    start,
                    end,
                    &self.huffman_tables[component.ac_huffman_table as usize].1,
                );
                i = i + 1;
                proof {
                    assert(self.writer.bytes() =~= mid3 + ac_scans(
                        comps,
                        all,
                        hts,
                        start as int,
                        end as int,
                        i as int,
                    ));
                }
            }
            scan = scan + 1;
            proof {
                assert(self.writer.bytes() =~= mid2 + progressive_ac_scans(
                    comps,
                    all,
                    hts,
                    scans as int,
                    scan as int,
                ));
            }
        }
        assert(self.writer.bytes() =~= old(self).writer.bytes() + progressive_body(
            image,
            comps,
            qts,
            hts,
            old(self).progressive_scans as int,
        ));
    }

    /// Facts that hold while an image is encoded in one interleaved scan.
    closed spec fn interleaving<I: ImageBuffer>(
        &self,
        before: Encoder,
        image: I,
        num_cols: usize,
        buffer_width: usize,
        mh: usize,
        mv: usize,
    ) -> bool {
        &&& self.same_settings(&before)
        &&& before.ready_for(image)
        &&& self.components@ == spec_components(image.spec_color_type(), self.sampling_factor)
        &&& mh == max_h(self.components@)
        &&& mv == max_v(self.components@)
        &&& (mh == 1 || mh == 2 || mh == 4)
        &&& (mv == 1 || mv == 2 || mv == 4)
        &&& buffer_width == num_cols * 8 * mh
        &&& 8 * mv * buffer_width <= usize::MAX
    }

    /// Write one MCU of an interleaved scan: the blocks of each component in
    /// turn, each coded against the last DC coefficient of its component.
    #[verifier::spinoff_prover]
    #[verifier::rlimit(40)]
    fn write_mcu<I: ImageBuffer>(
        &mut self,
        image: &I,
        row: &[Vec<u8>; 4],
        Ghost(before): Ghost<Encoder>,
        Ghost(block_y): Ghost<int>,
        block_x: usize,
        num_cols: usize,
        buffer_width: usize,
        mh: usize,
        mv: usize,
        prev_dc: &mut [i16; 4],
        Ghost(start): Ghost<Seq<u8>>,
        Ghost(done): Ghost<Seq<(int, Seq<i16>)>>,
    ) -> (r: Ghost<Seq<(int, Seq<i16>)>>)
        requires
            old(self).interleaving(before, *image, num_cols, buffer_width, mh, mv),
            block_x < num_cols,
            0 <= block_y,
            forall|c: int|
                0 <= c < old(self).components@.len() ==> (#[trigger] row@[c]@).len() == 8 * mv * buffer_width,
            forall|c: int|
                0 <= c < old(self).components@.len() ==> crate::blocks::holds_lines(
                    #[trigger] row@[c]@,
                    *image,
                    c,
                    buffer_width as int,
                    block_y * 8 * mv,
                ),
            old(self).writer.wf(),
            (old(self).writer.bytes(), old(self).writer.pending()) == crate::bitstream::emit(
                start,
                Seq::empty(),
                crate::stream::units_bits(
                    done,
                    done.len() as int,
                    old(self).components@,
                    old(self).huffman_tables@,
                ),
            ),
            forall|c: int|
                0 <= c < 4 ==> #[trigger] old(prev_dc)@[c] as int == crate::stream::last_dc(
                    done,
                    done.len() as int,
                    c,
                ) && -1024 <= old(prev_dc)@[c] <= 1024,
        ensures
            final(self).interleaving(before, *image, num_cols, buffer_width, mh, mv),
            final(self).writer.wf(),
            r@ == done + mcu_units(
                *image,
                old(self).components@,
                mh as int,
                mv as int,
                old(self).quantization_tables@,
                old(self).components@.len() as int,
                block_x as int,
                block_y,
            ),
            (final(self).writer.bytes(), final(self).writer.pending()) == crate::bitstream::emit(
                start,
                Seq::empty(),
                crate::stream::units_bits(r@, r@.len() as int, old(self).components@, old(self).huffman_tables@),
            ),
            forall|c: int|
                0 <= c < 4 ==> #[trigger] final(prev_dc)@[c] as int == crate::stream::last_dc(
                    r@,
                    r@.len() as int,
                    c,
                ) && -1024 <= final(prev_dc)@[c] <= 1024,
    {
        let ghost comps = self.components@;
        let ghost qts = self.quantization_tables@;
        let ghost hts = self.huffman_tables@;
        let ghost mut cur = done;
        proof {
            assert(done + mcu_units(*image, comps, mh as int, mv as int, qts, 0, block_x as int, block_y) =~= done);
            assert((block_x + 1) * (8 * mh) <= num_cols * (8 * mh)) by (nonlinear_arith)
                requires
                    block_x < num_cols,
                    mh >= 1,
            ;
            assert(block_x * 8 * mh + 8 * mh == (block_x + 1) * (8 * mh)) by (nonlinear_arith);
            assert(num_cols * 8 * mh == num_cols * (8 * mh)) by (nonlinear_arith);
            assert(block_x * 8 <= block_x * 8 * mh) by (nonlinear_arith)
                requires
                    mh >= 1,
            ;
            assert(block_x * 8 * mh <= buffer_width);
        }
        let x_start = block_x * 8 * mh;
        let mut i: usize = 0;
        while i < self.components.len()
            invariant
                i <= comps.len(),
                self.interleaving(before, *image, num_cols, buffer_width, mh, mv),
                comps == self.components@,
                qts == self.quantization_tables@,
                hts == self.huffman_tables@,
                x_start == block_x * 8 * mh,
                x_start + 8 * mh <= buffer_width,
                0 <= block_y,
                forall|c: int| 0 <= c < comps.len() ==> (#[trigger] row@[c]@).len() == 8 * mv * buffer_width,
                forall|c: int|
                    0 <= c < comps.len() ==> crate::blocks::holds_lines(
                        #[trigger] row@[c]@,
                        *image,
                        c,
                        buffer_width as int,
                        block_y * 8 * mv,
                    ),
                cur == done + mcu_units(*image, comps, mh as int, mv as int, qts, i as int, block_x as int, block_y),
                self.writer.wf(),
                (self.writer.bytes(), self.writer.pending()) == crate::bitstream::emit(
                    start,
                    Seq::empty(),
                    crate::stream::units_bits(cur, cur.len() as int, comps, hts),
                ),
                forall|c: int|
                    0 <= c < 4 ==> #[trigger] prev_dc@[c] as int == crate::stream::last_dc(cur, cur.len() as int, c)
                        && -1024 <= prev_dc@[c] <= 1024,
            decreases comps.len() - i,
        {
            let component = self.components[i];
            proof {
                lemma_components(image.spec_color_type(), self.sampling_factor);
                assert(comps[i as int] == component);
                assert(prev_dc@[i as int] as int == crate::stream::last_dc(cur, cur.len() as int, i as int));
            }
            let p = write_mcu_component(
                &mut self.writer,
                image,
                Ghost(comps),
                Ghost(qts),
                Ghost(hts),
                i,
                component.horizontal_sampling_factor as usize,
                component.vertical_sampling_factor as usize,
                &row[i],
                buffer_width,
                Ghost(block_x as int),
                Ghost(block_y),
                x_start,
                mh,
                mv,
                &self.quantization_tables[component.quantization_table as usize],
                &self.huffman_tables[component.dc_huffman_table as usize].0,
                &self.huffman_tables[component.ac_huffman_table as usize].1,
                prev_dc[i],
                Ghost(start),
                Ghost(cur),
            );
            let ghost old_cur = cur;
            proof {
                cur = cur + mcu_component_units(*image, comps, mh as int, mv as int, qts, i as int, block_x as int, block_y);
            }
            let ghost old_prev = *prev_dc;
            prev_dc[i] = p;
            proof {
                assert forall|c: int|
                    0 <= c < 4 implies #[trigger] prev_dc@[c] as int == crate::stream::last_dc(cur, cur.len() as int, c)
                        && -1024 <= prev_dc@[c] <= 1024 by {
                    if c != i {
                        assert(prev_dc@[c] == old_prev@[c]);
                        assert(crate::stream::last_dc(cur, cur.len() as int, c) == crate::stream::last_dc(
                            old_cur,
                            old_cur.len() as int,
                            c,
                        ));
                    }
                }
            }
            i = i + 1;
            proof {
                assert(cur =~= done + mcu_units(*image, comps, mh as int, mv as int, qts, i as int, block_x as int, block_y));
            }
        }
        Ghost(cur)
    }

    /// Write one row of MCUs of an interleaved scan, reading the lines of
    /// the image that the row covers.
    #[verifier::spinoff_prover]
    #[verifier::rlimit(40)]
    fn write_mcu_row<I: ImageBuffer>(
        &mut self,
        image: &I,
        Ghost(before): Ghost<Encoder>,
        block_y: usize,
        num_cols: usize,
        buffer_width: usize,
        mh: usize,
        mv: usize,
        prev_dc: &mut [i16; 4],
        Ghost(start): Ghost<Seq<u8>>,
        Ghost(done): Ghost<Seq<(int, Seq<i16>)>>,
    ) -> (r: Ghost<Seq<(int, Seq<i16>)>>)
        requires
            old(self).interleaving(before, *image, num_cols, buffer_width, mh, mv),
            image.spec_width() <= buffer_width,
            (block_y + 1) * (8 * mv) <= usize::MAX,
            done == interleaved_units(
                *image,
                old(self).components@,
                mh as int,
                mv as int,
                old(self).quantization_tables@,
                num_cols as int,
                block_y * num_cols,
            ),
            old(self).writer.wf(),
            (old(self).writer.bytes(), old(self).writer.pending()) == crate::bitstream::emit(
                start,
                Seq::empty(),
                crate::stream::units_bits(
                    done,
                    done.len() as int,
                    old(self).components@,
                    old(self).huffman_tables@,
                ),
            ),
            forall|c: int|
                0 <= c < 4 ==> #[trigger] old(prev_dc)@[c] as int == crate::stream::last_dc(
                    done,
                    done.len() as int,
                    c,
                ) && -1024 <= old(prev_dc)@[c] <= 1024,
        ensures
            final(self).interleaving(before, *image, num_cols, buffer_width, mh, mv),
            final(self).writer.wf(),
            r@ == interleaved_units(
                *image,
                old(self).components@,
                mh as int,
                mv as int,
                old(self).quantization_tables@,
                num_cols as int,
                (block_y + 1) * num_cols,
            ),
            (final(self).writer.bytes(), final(self).writer.pending()) == crate::bitstream::emit(
                start,
                Seq::empty(),
                crate::stream::units_bits(r@, r@.len() as int, old(self).components@, old(self).huffman_tables@),
            ),
            forall|c: int|
                0 <= c < 4 ==> #[trigger] final(prev_dc)@[c] as int == crate::stream::last_dc(
                    r@,
                    r@.len() as int,
                    c,
                ) && -1024 <= final(prev_dc)@[c] <= 1024,
    {
        let ghost comps = self.components@;
        let ghost qts = self.quantization_tables@;
        let ghost hts = self.huffman_tables@;
        let lines = 8 * mv;
        proof {
            assert(block_y * lines + lines == (block_y + 1) * (8 * mv)) by (nonlinear_arith)
                requires
                    lines == 8 * mv,
            ;
            assert(block_y * lines <= (block_y + 1) * (8 * mv)) by (nonlinear_arith)
                requires
                    lines == 8 * mv,
            ;
            assert(block_y * lines == block_y * 8 * mv) by (nonlinear_arith)
                requires
                    lines == 8 * mv,
            ;
        }
        let first_line = block_y * lines;
        let row = fill_rows(image, first_line, lines, buffer_width);
        proof {
            lemma_components(image.spec_color_type(), self.sampling_factor);
        }
        let ghost mut cur = done;
        let mut block_x: usize = 0;
        while block_x < num_cols
            invariant
                block_x <= num_cols,
                self.interleaving(before, *image, num_cols, buffer_width, mh, mv),
                comps == self.components@,
                qts == self.quantization_tables@,
                hts == self.huffman_tables@,
                comps.len() == image.spec_color_type().spec_num_components(),
                first_line == block_y * 8 * mv,
                forall|c: int| 0 <= c < comps.len() ==> (#[trigger] row@[c]@).len() == 8 * mv * buffer_width,
                forall|c: int|
                    0 <= c < comps.len() ==> crate::blocks::holds_lines(
                        #[trigger] row@[c]@,
                        *image,
                        c,
                        buffer_width as int,
                        first_line as int,
                    ),
                cur == interleaved_units(
                    *image,
                    comps,
                    mh as int,
                    mv as int,
                    qts,
                    num_cols as int,
                    block_y * num_cols + block_x,
                ),
                self.writer.wf(),
                (self.writer.bytes(), self.writer.pending()) == crate::bitstream::emit(
                    start,
                    Seq::empty(),
                    crate::stream::units_bits(cur, cur.len() as int, comps, hts),
                ),
                forall|c: int|
                    0 <= c < 4 ==> #[trigger] prev_dc@[c] as int == crate::stream::last_dc(cur, cur.len() as int, c)
                        && -1024 <= prev_dc@[c] <= 1024,
            decreases num_cols - block_x,
        {
            let ghost m = block_y * num_cols + block_x;
            proof {
                crate::blocks::lemma_split_index(m, num_cols as int, block_y as int, block_x as int);
            }
            let Ghost(next) = self.write_mcu(
                image,
                &row,
                Ghost(before),
                Ghost(block_y as int),
                block_x,
                num_cols,
                buffer_width,
                mh,
                mv,
                prev_dc,
                Ghost(start),
                Ghost(cur),
            );
            proof {
                cur = next;
            }
            block_x = block_x + 1;
        }
        proof {
            assert(block_y * num_cols + num_cols == (block_y + 1) * num_cols) by (nonlinear_arith);
        }
        Ghost(cur)
    }

    /// Encode the image in one scan of all components, MCU by MCU.
    #[verifier::spinoff_prover]
    #[verifier::rlimit(40)]
    fn encode_image_interleaved<I: ImageBuffer>(&mut self, image: I)
        requires
            old(self).ready_for(image),
            old(self).progressive_scans == 0,
        ensures
            final(self).same_settings(&*old(self)),
            final(self).writer.wf(),
            final(self).writer.pending() == Seq::<bool>::empty(),
            final(self).writer.bytes() == old(self).writer.bytes() + interleaved_body(
                image,
                old(self).components@,
                old(self).quantization_tables@,
                old(self).huffman_tables@,
            ),
    {
        let ghost before = *self;
        self.write_frame_header(&image);
        proof {
            lemma_components(image.spec_color_type(), self.sampling_factor);
        }
        self.writer.write_scan_header(self.components.as_slice(), None);
        let ghost comps = self.components@;
        let ghost qts = self.quantization_tables@;
        let ghost hts = self.huffman_tables@;
        let ghost start = self.writer.bytes();
        let (max_h_sampling, max_v_sampling) = self.get_max_sampling_size();
        let width = image.width();
        let height = image.height();
        let num_cols = ceil_div(width as usize, 8 * max_h_sampling);
        let num_rows = ceil_div(height as usize, 8 * max_v_sampling);
        proof {
            let dh = 8 * max_h_sampling as int;
            let dv = 8 * max_v_sampling as int;
            vstd::arithmetic::div_mod::lemma_fundamental_div_mod(width + dh - 1, dh);
            vstd::arithmetic::div_mod::lemma_fundamental_div_mod(height + dv - 1, dv);
            assert(num_cols * dh <= width + dh - 1 && num_cols * dh >= width) by (nonlinear_arith)
                requires
                    width + dh - 1 == dh * num_cols + (width + dh - 1) % dh,
                    0 <= (width + dh - 1) % dh < dh,
            ;
            assert(num_rows * dv <= height + dv - 1) by (nonlinear_arith)
                requires
                    height + dv - 1 == dv * num_rows + (height + dv - 1) % dv,
                    0 <= (height + dv - 1) % dv < dv,
            ;
            assert(num_cols * 8 * max_h_sampling == num_cols * dh) by (nonlinear_arith)
                requires
                    dh == 8 * max_h_sampling,
            ;
            assert(8 * max_v_sampling * (num_cols * dh) <= (width + 32) * (height + 32)) by (nonlinear_arith)
                requires
                    0 <= num_cols * dh <= width + 31,
                    8 * max_v_sampling <= 32,
                    max_v_sampling >= 1,
            ;
            assert(num_rows * dv <= (width + 32) * (height + 32)) by (nonlinear_arith)
                requires
                    0 <= num_rows * dv <= height + 31,
            ;
        }
        let buffer_width = num_cols * 8 * max_h_sampling;
        let mut prev_dc: [i16; 4] = [0; 4];
        let ghost mut done: Seq<(int, Seq<i16>)> = Seq::empty();
        proof {
            crate::bitstream::lemma_emit_empty(start, Seq::empty());
        }
        let mut block_y: usize = 0;
        while block_y < num_rows
            invariant
                block_y <= num_rows,
                self.interleaving(before, image, num_cols, buffer_width, max_h_sampling, max_v_sampling),
                comps == self.components@,
                qts == self.quantization_tables@,
                hts == self.huffman_tables@,
                width == image.spec_width(),
                width <= buffer_width,
                num_rows * (8 * max_v_sampling) <= usize::MAX,
                done == interleaved_units(
                    image,
                    comps,
                    max_h_sampling as int,
                    max_v_sampling as int,
                    qts,
                    num_cols as int,
                    block_y * num_cols,
                ),
                self.writer.wf(),
                (self.writer.bytes(), self.writer.pending()) == crate::bitstream::emit(
                    start,
                    Seq::empty(),
                    crate::stream::units_bits(done, done.len() as int, comps, hts),
                ),
                forall|c: int|
                    0 <= c < 4 ==> #[trigger] prev_dc@[c] as int == crate::stream::last_dc(done, done.len() as int, c)
                        && -1024 <= prev_dc@[c] <= 1024,
            decreases num_rows - block_y,
        {
            proof {
                assert((block_y + 1) * (8 * max_v_sampling) <= num_rows * (8 * max_v_sampling)) by (nonlinear_arith)
                    requires
                        block_y < num_rows,
                        max_v_sampling >= 1,
                ;
            }
            let Ghost(next) = self.write_mcu_row(
                &image,
                Ghost(before),
                block_y,
                num_cols,
                buffer_width,
                max_h_sampling,
                max_v_sampling,
                &mut prev_dc,
                Ghost(start),
                Ghost(done),
            );
            proof {
                done = next;
            }
            block_y = block_y + 1;
        }
        let ghost bits = crate::stream::units_bits(done, done.len() as int, comps, hts);
        self.writer.finalize_bit_buffer();
        proof {
            crate::bitstream::lemma_emit_then_pad(start, bits);
            assert(num_rows * num_cols == num_cols * num_rows) by (nonlinear_arith);
            assert(self.writer.bytes() =~= old(self).writer.bytes() + interleaved_body(image, comps, qts, hts));
        }
    }

    /// Encode the image with one sequential scan per component, with tables
    /// built for the image when optimized tables are asked for.
    #[verifier::spinoff_prover]
    #[verifier::rlimit(40)]
    fn encode_image_sequential<I: ImageBuffer>(&mut self, image: I)
        requires
            old(self).ready_for(image),
            old(self).progressive_scans == 0,
            old(self).optimize_huffman_table ==> optimize_fits(
                image.spec_color_type(),
                old(self).sampling_factor,
                image.spec_width(),
                image.spec_height(),
            ),
        ensures
            final(self).same_settings_but_tables(&*old(self)),
            final(self).tables_wf(),
            !old(self).optimize_huffman_table ==> final(self).huffman_tables == old(self).huffman_tables,
            forall|t: int|
                0 <= t < 2 && !table_used(old(self).components@, t) ==> #[trigger] final(self).huffman_tables@[t]
                    == old(self).huffman_tables@[t],
            old(self).optimize_huffman_table ==> crate::stream::tables_code_scans(
                final(self).huffman_tables@,
                old(self).components@,
                image_blocks(image, old(self).components@, old(self).quantization_tables@),
                0,
            ),
            old(self).optimize_huffman_table ==> tables_built(
                final(self).huffman_tables@,
                old(self).components@,
                image_blocks(image, old(self).components@, old(self).quantization_tables@),
                0,
            ),
            final(self).writer.wf(),
            final(self).writer.pending() == Seq::<bool>::empty(),
            final(self).writer.bytes() == old(self).writer.bytes() + sequential_body(
                image,
                old(self).components@,
                old(self).quantization_tables@,
                final(self).huffman_tables@,
            ),
    {
        let blocks = self.encode_blocks(&image);
        self.optimize_for(&image, &blocks);
        let ghost before = *self;
        self.write_frame_header(&image);
        let ghost comps = self.components@;
        let ghost qts = self.quantization_tables@;
        let ghost hts = self.huffman_tables@;
        let ghost all = image_blocks(image, comps, qts);
        let ghost mid = self.writer.bytes();
        proof {
            lemma_components(image.spec_color_type(), self.sampling_factor);
        }
        let mut i: usize = 0;
        while i < self.components.len()
            invariant
                i <= comps.len(),
                self.same_settings(&before),
                comps == self.components@,
                qts == self.quantization_tables@,
                hts == self.huffman_tables@,
                before.ready_for(image),
                comps == spec_components(image.spec_color_type(), self.sampling_factor),
                all == image_blocks(image, comps, qts),
                forall|j: int|
                    0 <= j < 4 ==> #[trigger] block_views(blocks@[j]@) == (if j < comps.len() {
                        component_blocks(
                            image,
                            comps,
                            max_h(comps),
                            max_v(comps),
                            j,
                            qts[comps[j].quantization_table as int],
                        )
                    } else {
                        Seq::empty()
                    }),
                self.writer.wf(),
                self.writer.pending() == Seq::<bool>::empty(),
                self.writer.bytes() == mid + sequential_scans(comps, all, hts, i as int),
            decreases comps.len() - i,
        {
            let component = self.components[i];
            proof {
                lemma_components(image.spec_color_type(), self.sampling_factor);
                assert(comps[i as int] == component);
                crate::blocks::lemma_component_blocks_in_range(
                    image,
                    comps,
                    max_h(comps),
                    max_v(comps),
                    i as int,
                    qts[component.quantization_table as int],
                );
                assert(block_views(blocks@[i as int]@) == all[i as int]);
                assert forall|n: int| 0 <= n < blocks@[i as int]@.len() implies crate::stream::block_in_range(
                    #[trigger] blocks@[i as int]@[n]@,
                ) by {
                    assert(block_views(blocks@[i as int]@)[n] == blocks@[i as int]@[n]@);
                }
            }
            write_sequential_scan(
                &mut self.writer,
                &component,
                &blocks[i],
                &self.huffman_tables[component.dc_huffman_table as usize].0,
                &self.huffman_tables[component.ac_huffman_table as usize].1,
            );
            i = i + 1;
            proof {
                assert(self.writer.bytes() =~= mid + sequential_scans(comps, all, hts, i as int));
            }
        }
        assert(self.writer.bytes() =~= old(self).writer.bytes() + sequential_body(image, comps, qts, hts));
    }
}

/// Data of the Adobe APP14 segment with the given color transform: version
/// 100 stored as zeros, no flags, and the transform in the last byte.
pub open spec fn adobe_data(transform: u8) -> Seq<u8> {
    seq![0x41u8, 0x64, 0x6F, 0x62, 0x65, 0, 0, 0, 0, 0, 0, transform]
}

/// The Adobe segment for CMYK (transform unknown) and YCCK images, nothing
/// for the other colorspaces.
pub open spec fn adobe_bytes(color: JpegColorType) -> Seq<u8> {
    match color {
        JpegColorType::Cmyk => segment_bytes(Marker::APP(14), adobe_data(0)),
        JpegColorType::Ycck => segment_bytes(Marker::APP(14), adobe_data(2)),
        _ => Seq::empty(),
    }
}

/// The first `n` application segments, one after the other.
pub open spec fn app_segments_bytes(segments: Seq<(u8, Seq<u8>)>, n: int) -> Seq<u8>
    decreases n,
{
    if n <= 0 {
        Seq::empty()
    } else {
        app_segments_bytes(segments, n - 1) + segment_bytes(Marker::APP(segments[n - 1].0), segments[n - 1].1)
    }
}

impl Encoder {
    /// The luminance and chrominance quantization tables.
    pub closed spec fn spec_quantization_tables(&self) -> Seq<QuantizationTable> {
        self.quantization_tables@
    }

    /// The luminance and chrominance Huffman tables, DC and AC each.
    pub closed spec fn spec_huffman_tables(&self) -> Seq<(HuffmanTable, HuffmanTable)> {
        self.huffman_tables@
    }

    /// Tables built for the image: valid, coding every symbol that the scans
    /// of the image code, and for each table destination in use, no other
    /// symbol, with the code lengths and values that Annex K.2 gives for the
    /// symbols' frequencies.
    pub open spec fn tables_for<I: ImageBuffer>(&self, image: I, hts: Seq<(HuffmanTable, HuffmanTable)>) -> bool {
        let comps = spec_components(image.spec_color_type(), self.spec_sampling_factor());
        &&& crate::stream::tables_code_scans(
            hts,
            comps,
            image_blocks(image, comps, self.spec_quantization_tables()),
            self.spec_progressive_scans() as int,
        )
        &&& tables_built(
            hts,
            comps,
            image_blocks(image, comps, self.spec_quantization_tables()),
            self.spec_progressive_scans() as int,
        )
    }

    /// The frame and scans of an image coded with the Huffman tables `hts`:
    /// progressive when progressive scans are set, sequential when the tables
    /// are optimized or the subsampling needs it, interleaved otherwise.
    pub open spec fn body_with<I: ImageBuffer>(&self, image: I, hts: Seq<(HuffmanTable, HuffmanTable)>) -> Seq<u8> {
        let comps = spec_components(image.spec_color_type(), self.spec_sampling_factor());
        let qts = self.spec_quantization_tables();
        if self.spec_progressive_scans() != 0 {
            progressive_body(image, comps, qts, hts, self.spec_progressive_scans() as int)
        } else if self.spec_optimize() || !self.spec_sampling_factor().spec_supports_interleaved() {
            sequential_body(image, comps, qts, hts)
        } else {
            interleaved_body(image, comps, qts, hts)
        }
    }

    /// The whole JPEG stream of an image coded with the Huffman tables `hts`:
    /// start of image, JFIF header, Adobe segment, application segments,
    /// frame and scans, end of image.
    pub open spec fn jpeg_with<I: ImageBuffer>(&self, image: I, hts: Seq<(HuffmanTable, HuffmanTable)>) -> Seq<u8> {
        marker_bytes(Marker::SOI) + header_bytes(self.spec_density()) + adobe_bytes(image.spec_color_type())
            + app_segments_bytes(self.spec_app_segments(), self.spec_app_segments().len() as int)
            + self.body_with(image, hts) + marker_bytes(Marker::EOI)
    }

    /// The JPEG stream of an image given as `data` in the format
    /// `color_type`, pixels row by row, coded with the Huffman tables `hts`.
    pub open spec fn data_jpeg_with(
        &self,
        data: &[u8],
        width: u16,
        height: u16,
        color_type: ColorType,
        hts: Seq<(HuffmanTable, HuffmanTable)>,
    ) -> Seq<u8> {
        match color_type {
            ColorType::Luma => self.jpeg_with(GrayImage(data, width, height), hts),
            ColorType::Rgb => self.jpeg_with(RgbImage(data, width, height), hts),
            ColorType::Rgba => self.jpeg_with(RgbaImage(data, width, height), hts),
            ColorType::Bgr => self.jpeg_with(BgrImage(data, width, height), hts),
            ColorType::Bgra => self.jpeg_with(BgraImage(data, width, height), hts),
            ColorType::Ycbcr => self.jpeg_with(YCbCrImage(data, width, height), hts),
            ColorType::Cmyk => self.jpeg_with(CmykImage(data, width, height), hts),
            ColorType::CmykAsYcck => self.jpeg_with(CmykAsYcckImage(data, width, height), hts),
            ColorType::Ycck => self.jpeg_with(YcckImage(data, width, height), hts),
        }
    }

    /// Tables built for the image given as `data` in the format
    /// `color_type`.
    pub open spec fn data_tables_for(
        &self,
        data: &[u8],
        width: u16,
        height: u16,
        color_type: ColorType,
        hts: Seq<(HuffmanTable, HuffmanTable)>,
    ) -> bool {
        match color_type {
            ColorType::Luma => self.tables_for(GrayImage(data, width, height), hts),
            ColorType::Rgb => self.tables_for(RgbImage(data, width, height), hts),
            ColorType::Rgba => self.tables_for(RgbaImage(data, width, height), hts),
            ColorType::Bgr => self.tables_for(BgrImage(data, width, height), hts),
            ColorType::Bgra => self.tables_for(BgraImage(data, width, height), hts),
            ColorType::Ycbcr => self.tables_for(YCbCrImage(data, width, height), hts),
            ColorType::Cmyk => self.tables_for(CmykImage(data, width, height), hts),
            ColorType::CmykAsYcck => self.tables_for(CmykAsYcckImage(data, width, height), hts),
            ColorType::Ycck => self.tables_for(YcckImage(data, width, height), hts),
        }
    }

    /// Encode an image
    ///
    /// Data format and length must conform to specified width, height and color type.
    /// This will consume the encoder because it will get unusable after an image has been written.
    #[verifier::spinoff_prover]
    #[verifier::rlimit(40)]
    pub fn encode(self, data: &[u8], width: u16, height: u16, color_type: ColorType) -> (r: Result<
        Vec<u8>,
        EncodingError,
    >)
        requires
            self.wf(),
            dimensions_fit(width, height),
            self.spec_optimize() && width > 0 && height > 0 && data@.len() >= width * height
                * color_type.spec_bytes_per_pixel() ==> optimize_fits(
                jpeg_color_of(color_type),
                self.spec_sampling_factor(),
                width,
                height,
            ),
        ensures
            data@.len() < width * height * color_type.spec_bytes_per_pixel() <==> r == Err::<Vec<u8>, EncodingError>(
                EncodingError::BadImageData {
                    length: data@.len() as usize,
                    required: (width * height * color_type.spec_bytes_per_pixel()) as usize,
                },
            ),
            data@.len() >= width * height * color_type.spec_bytes_per_pixel() && (width == 0 || height == 0)
                <==> r == Err::<Vec<u8>, EncodingError>(
                EncodingError::ZeroImageDimensions { width, height },
            ),
            r is Ok <==> data@.len() >= width * height * color_type.spec_bytes_per_pixel() && width > 0
                && height > 0,
            !self.spec_optimize() ==> (r matches Ok(bytes) ==> bytes@ == self.data_jpeg_with(
                data,
                width,
                height,
                color_type,
                self.spec_huffman_tables(),
            )),
            self.spec_optimize() ==> (r matches Ok(bytes) ==> exists|hts: Seq<(HuffmanTable, HuffmanTable)>|
                self.data_tables_for(data, width, height, color_type, hts) && bytes@ == self.data_jpeg_with(
                    data,
                    width,
                    height,
                    color_type,
                    hts,
                )),
    {
        let bpp = color_type.get_bytes_per_pixel();
        proof {
            assert(width * height * bpp <= (width + 32) * (height + 32) * 4) by (nonlinear_arith)
                requires
                    1 <= bpp <= 4,
            ;
            assert(width * height <= width * height * bpp) by (nonlinear_arith)
                requires
                    1 <= bpp,
            ;
        }
        let required_data_len = width as usize * height as usize * bpp;
        if data.len() < required_data_len {
            return Err(EncodingError::BadImageData { length: data.len(), required: required_data_len });
        }
        let ghost orig = self;
        let r = match color_type {
            ColorType::Luma => self.encode_image(GrayImage(data, width, height)),
            ColorType::Rgb => self.encode_image(RgbImage(data, width, height)),
            ColorType::Rgba => self.encode_image(RgbaImage(data, width, height)),
            ColorType::Bgr => self.encode_image(BgrImage(data, width, height)),
            ColorType::Bgra => self.encode_image(BgraImage(data, width, height)),
            ColorType::Ycbcr => self.encode_image(YCbCrImage(data, width, height)),
            ColorType::Cmyk => self.encode_image(CmykImage(data, width, height)),
            ColorType::CmykAsYcck => self.encode_image(CmykAsYcckImage(data, width, height)),
            ColorType::Ycck => self.encode_image(YcckImage(data, width, height)),
        };
        proof {
            if orig.spec_optimize() {
                if let Ok(ref bytes) = r {
                    match color_type {
                        ColorType::Luma => {
                            let h = choose|h: Seq<(HuffmanTable, HuffmanTable)>|
                                orig.tables_for(GrayImage(data, width, height), h) && bytes@ == orig.jpeg_with(
                                    GrayImage(data, width, height),
                                    h,
                                );
                            assert(orig.data_tables_for(data, width, height, color_type, h));
                        },
                        ColorType::Rgb => {
                            let h = choose|h: Seq<(HuffmanTable, HuffmanTable)>|
                                orig.tables_for(RgbImage(data, width, height), h) && bytes@ == orig.jpeg_with(
                                    RgbImage(data, width, height),
                                    h,
                                );
                            assert(orig.data_tables_for(data, width, height, color_type, h));
                        },
                        ColorType::Rgba => {
                            let h = choose|h: Seq<(HuffmanTable, HuffmanTable)>|
                                orig.tables_for(RgbaImage(data, width, height), h) && bytes@ == orig.jpeg_with(
                                    RgbaImage(data, width, height),
                                    h,
                                );
                            assert(orig.data_tables_for(data, width, height, color_type, h));
                        },
                        ColorType::Bgr => {
                            let h = choose|h: Seq<(HuffmanTable, HuffmanTable)>|
                                orig.tables_for(BgrImage(data, width, height), h) && bytes@ == orig.jpeg_with(
                                    BgrImage(data, width, height),
                                    h,
                                );
                            assert(orig.data_tables_for(data, width, height, color_type, h));
                        },
                        ColorType::Bgra => {
                            let h = choose|h: Seq<(HuffmanTable, HuffmanTable)>|
                                orig.tables_for(BgraImage(data, width, height), h) && bytes@ == orig.jpeg_with(
                                    BgraImage(data, width, height),
                                    h,
                                );
                            assert(orig.data_tables_for(data, width, height, color_type, h));
                        },
                        ColorType::Ycbcr => {
                            let h = choose|h: Seq<(HuffmanTable, HuffmanTable)>|
                                orig.tables_for(YCbCrImage(data, width, height), h) && bytes@ == orig.jpeg_with(
                                    YCbCrImage(data, width, height),
                                    h,
                                );
                            assert(orig.data_tables_for(data, width, height, color_type, h));
                        },
                        ColorType::Cmyk => {
                            let h = choose|h: Seq<(HuffmanTable, HuffmanTable)>|
                                orig.tables_for(CmykImage(data, width, height), h) && bytes@ == orig.jpeg_with(
                                    CmykImage(data, width, height),
                                    h,
                                );
                            assert(orig.data_tables_for(data, width, height, color_type, h));
                        },
                        ColorType::CmykAsYcck => {
                            let h = choose|h: Seq<(HuffmanTable, HuffmanTable)>|
                                orig.tables_for(CmykAsYcckImage(data, width, height), h) && bytes@
                                    == orig.jpeg_with(CmykAsYcckImage(data, width, height), h);
                            assert(orig.data_tables_for(data, width, height, color_type, h));
                        },
                        ColorType::Ycck => {
                            let h = choose|h: Seq<(HuffmanTable, HuffmanTable)>|
                                orig.tables_for(YcckImage(data, width, height), h) && bytes@ == orig.jpeg_with(
                                    YcckImage(data, width, height),
                                    h,
                                );
                            assert(orig.data_tables_for(data, width, height, color_type, h));
                        },
                    }
                }
            }
        }
        r
    }

    /// Encode an image
    ///
    /// This will consume the encoder because it will get unusable after an image has been written.
    #[verifier::spinoff_prover]
    #[verifier::rlimit(40)]
    pub fn encode_image<I: ImageBuffer>(self, image: I) -> (r: Result<Vec<u8>, EncodingError>)
        requires
            self.wf(),
            image.valid(),
            dimensions_fit(image.spec_width(), image.spec_height()),
            self.spec_optimize() && image.spec_width() > 0 && image.spec_height() > 0 ==> optimize_fits(
                image.spec_color_type(),
                self.spec_sampling_factor(),
                image.spec_width(),
                image.spec_height(),
            ),
        ensures
            (image.spec_width() == 0 || image.spec_height() == 0) <==> r is Err,
            r is Err ==> r == Err::<Vec<u8>, EncodingError>(
                EncodingError::ZeroImageDimensions { width: image.spec_width(), height: image.spec_height() },
            ),
            !self.spec_optimize() ==> (r matches Ok(bytes) ==> bytes@ == self.jpeg_with(
                image,
                self.spec_huffman_tables(),
            )),
            self.spec_optimize() ==> (r matches Ok(bytes) ==> exists|hts: Seq<(HuffmanTable, HuffmanTable)>|
                self.tables_for(image, hts) && bytes@ == self.jpeg_with(image, hts)),
    {
        if image.width() == 0 || image.height() == 0 {
            return Err(EncodingError::ZeroImageDimensions { width: image.width(), height: image.height() });
        }
        let ghost orig = self;
        let mut this = self;
        let jpeg_color_type = image.get_jpeg_color_type();
        this.init_components(jpeg_color_type);
        let ghost init = this;
        this.writer.write_marker(Marker::SOI);
        this.writer.write_header(&this.density);
        if jpeg_color_type == JpegColorType::Cmyk {
            //Set ColorTransform info to "Unknown"
            let app_14: [u8; 12] = [0x41, 0x64, 0x6F, 0x62, 0x65, 0, 0, 0, 0, 0, 0, 0];
            assert(app_14@ =~= adobe_data(0));
            this.writer.write_segment(Marker::APP(14), &app_14);
        } else if jpeg_color_type == JpegColorType::Ycck {
            //Set ColorTransform info to YCCK
            let app_14: [u8; 12] = [0x41, 0x64, 0x6F, 0x62, 0x65, 0, 0, 0, 0, 0, 0, 2];
            assert(app_14@ =~= adobe_data(2));
            this.writer.write_segment(Marker::APP(14), &app_14);
        }
        let ghost head = this.writer.bytes();
        assert(head =~= marker_bytes(Marker::SOI) + header_bytes(orig.spec_density()) + adobe_bytes(
            image.spec_color_type(),
        ));
        let mut k: usize = 0;
        while k < this.app_segments.len()
            invariant
                k <= this.app_segments@.len(),
                this.app_segments == orig.app_segments,
                this.same_settings(&init),
                init.components@ == spec_components(image.spec_color_type(), orig.sampling_factor),
                init.sampling_factor == orig.sampling_factor,
                init.quantization_tables == orig.quantization_tables,
                init.huffman_tables == orig.huffman_tables,
                init.progressive_scans == orig.progressive_scans,
                init.optimize_huffman_table == orig.optimize_huffman_table,
                init.density == orig.density,
                this.writer.wf(),
                this.writer.pending() == Seq::<bool>::empty(),
                orig.wf(),
                this.writer.bytes() == head + app_segments_bytes(orig.spec_app_segments(), k as int),
            decreases this.app_segments@.len() - k,
        {
            let (nr, ref data) = this.app_segments[k];
            assert(crate::encoder::valid_app_segment(orig.app_segments@[k as int].0, orig.app_segments@[k as int].1@));
            assert(orig.spec_app_segments()[k as int] == (nr, data@));
            this.writer.write_segment(Marker::APP(nr), data.as_slice());
            k = k + 1;
            assert(this.writer.bytes() =~= head + app_segments_bytes(orig.spec_app_segments(), k as int));
        }
        let ghost mid = this.writer.bytes();
        proof {
            lemma_components(image.spec_color_type(), this.sampling_factor);
            assert(orig.spec_app_segments().len() == k);
        }
        if this.progressive_scans != 0 {
            this.encode_image_progressive(image);
        } else if this.optimize_huffman_table || !this.sampling_factor.supports_interleaved() {
            this.encode_image_sequential(image);
        } else {
            this.encode_image_interleaved(image);
        }
        this.writer.write_marker(Marker::EOI);
        assert(this.writer.bytes() =~= orig.jpeg_with(image, this.huffman_tables@));
        proof {
            if orig.spec_optimize() {
                assert(orig.tables_for(image, this.huffman_tables@));
            }
        }
        Ok(this.writer.into_bytes())
    }
}

/// The colorspace in which an input format is encoded.
pub open spec fn jpeg_color_of(color_type: ColorType) -> JpegColorType {
    match color_type {
        ColorType::Luma => JpegColorType::Luma,
        ColorType::Cmyk => JpegColorType::Cmyk,
        ColorType::CmykAsYcck | ColorType::Ycck => JpegColorType::Ycck,
        _ => JpegColorType::Ycbcr,
    }
}

/// Blocks of 8x8 samples whose symbols each Huffman table destination
/// counts: the luminance (0) and chrominance (1) components' blocks of an
/// image of this colorspace, sampling and size.
pub open spec fn table_block_totals(color: JpegColorType, sf: SamplingFactor, width: u16, height: u16) -> (
    int,
    int,
) {
    let (mh, mv) = crate::stream::max_sampling(color, sf);
    let cols = crate::stream::ceil_div_int(width as int, 8);
    let rows = crate::stream::ceil_div_int(height as int, 8);
    let full = cols * rows;
    let sub = crate::stream::ceil_div_int(cols, mh) * crate::stream::ceil_div_int(rows, mv);
    match color {
        JpegColorType::Luma => (full, 0),
        JpegColorType::Ycbcr => (full, 2 * sub),
        JpegColorType::Cmyk => (full, 3 * sub),
        JpegColorType::Ycck => (2 * full, 2 * sub),
    }
}

/// Optimized tables can be built for an image of this colorspace, sampling
/// and size: the symbol counts of each table (the reserved one and at most
/// 63 AC symbols per block of the components that share the table) fit its
/// 32-bit counters. Always true for grayscale images.
pub open spec fn optimize_fits(color: JpegColorType, sf: SamplingFactor, width: u16, height: u16) -> bool {
    let (luma, chroma) = table_block_totals(color, sf, width, height);
    1 + 63 * luma <= u32::MAX && 1 + 63 * chroma <= u32::MAX
}

/// Whether the buffers for an image of these dimensions can be addressed on
/// this machine.
pub fn dimensions_supported(width: u16, height: u16) -> (r: bool)
    ensures
        r == dimensions_fit(width, height),
{
    let w: usize = width as usize + 32;
    let h: usize = height as usize + 32;
    match w.checked_mul(h) {
        Some(a) => a.checked_mul(4).is_some(),
        None => {
            proof {
                assert(w * h * 4 > usize::MAX) by (nonlinear_arith)
                    requires
                        w * h > usize::MAX,
                ;
            }
            false
        },
    }
}

/// Whether the symbol counts for optimized Huffman tables of an image of
/// this colorspace, sampling and size fit their 32-bit counters.
pub fn optimization_fits(color: JpegColorType, sf: SamplingFactor, width: u16, height: u16) -> (r: bool)
    ensures
        r == optimize_fits(color, sf, width, height),
{
    let (mh, mv): (u8, u8) = match color {
        JpegColorType::Luma => (1, 1),
        _ => sf.get_sampling_factors(),
    };
    proof {
        lemma_components(color, sf);
    }
    let cols: u64 = (width as u64 + 7) / 8;
    let rows: u64 = (height as u64 + 7) / 8;
    let sub_cols: u64 = (cols + mh as u64 - 1) / mh as u64;
    let sub_rows: u64 = (rows + mv as u64 - 1) / mv as u64;
    proof {
        assert(cols * rows <= 8192 * 8192) by (nonlinear_arith)
            requires
                cols <= 8192,
                rows <= 8192,
        ;
        assert(sub_cols <= cols && sub_rows <= rows) by (nonlinear_arith)
            requires
                sub_cols == (cols + mh - 1) / (mh as int),
                sub_rows == (rows + mv - 1) / (mv as int),
                mh >= 1,
                mv >= 1,
        ;
        assert(sub_cols * sub_rows <= cols * rows) by (nonlinear_arith)
            requires
                sub_cols <= cols,
                sub_rows <= rows,
        ;
    }
    let full: u64 = cols * rows;
    let sub: u64 = sub_cols * sub_rows;
    let (luma, chroma): (u64, u64) = match color {
        JpegColorType::Luma => (full, 0),
        JpegColorType::Ycbcr => (full, 2 * sub),
        JpegColorType::Cmyk => (full, 3 * sub),
        JpegColorType::Ycck => (2 * full, 2 * sub),
    };
    1 + 63 * luma <= 0xFFFF_FFFF && 1 + 63 * chroma <= 0xFFFF_FFFF
}

impl ColorType {
    /// Colorspace in which an image of this input format is encoded.
    pub fn jpeg_color_type(&self) -> (r: JpegColorType)
        ensures
            r == jpeg_color_of(*self),
    {
        match self {
            ColorType::Luma => JpegColorType::Luma,
            ColorType::Cmyk => JpegColorType::Cmyk,
            ColorType::CmykAsYcck | ColorType::Ycck => JpegColorType::Ycck,
            _ => JpegColorType::Ycbcr,
        }
    }
}

/// Number of blocks among those of the first `n` components whose tables
/// are those of destination `t`.
pub open spec fn table_blocks(comps: Seq<Component>, all: Seq<Seq<Seq<i16>>>, t: int, n: int) -> int
    decreases n,
{
    if n <= 0 {
        0
    } else {
        table_blocks(comps, all, t, n - 1) + if comps[n - 1].dc_huffman_table == t {
            all[n - 1].len() as int
        } else {
            0
        }
    }
}

/// Counting the blocks of more components counts no fewer.
proof fn lemma_table_blocks_mono(comps: Seq<Component>, all: Seq<Seq<Seq<i16>>>, t: int, i: int, n: int)
    requires
        0 <= i <= n,
    ensures
        0 <= table_blocks(comps, all, t, i) <= table_blocks(comps, all, t, n),
    decreases n,
{
    if n > i {
        lemma_table_blocks_mono(comps, all, t, i, n - 1);
    } else if i > 0 {
        lemma_table_blocks_mono(comps, all, t, i - 1, i - 1);
    }
}

/// Some component uses the tables of destination `t`.
pub open spec fn table_used(comps: Seq<Component>, t: int) -> bool {
    exists|i: int| 0 <= i < comps.len() && #[trigger] comps[i].dc_huffman_table == t
}

/// One of the first `n` components whose DC table is `t` codes `x` among
/// its DC symbols.
pub open spec fn dc_symbol_used_upto(
    comps: Seq<Component>,
    blocks: Seq<Seq<Seq<i16>>>,
    t: int,
    x: u8,
    n: int,
) -> bool {
    exists|i: int|
        0 <= i < n && comps[i].dc_huffman_table == t && #[trigger] crate::stream::dc_symbols(
            blocks[i],
        ).contains(x)
}

/// Some component whose DC table is `t` codes `x` among its DC symbols.
pub open spec fn dc_symbol_used(comps: Seq<Component>, blocks: Seq<Seq<Seq<i16>>>, t: int, x: u8) -> bool {
    dc_symbol_used_upto(comps, blocks, t, x, comps.len() as int)
}

/// One of the first `n` components whose AC table is `t` codes `x` among
/// its AC symbols.
pub open spec fn ac_symbol_used_upto(
    comps: Seq<Component>,
    blocks: Seq<Seq<Seq<i16>>>,
    t: int,
    progressive_scans: int,
    x: u8,
    n: int,
) -> bool {
    exists|i: int|
        0 <= i < n && comps[i].ac_huffman_table == t
            && #[trigger] crate::symbols::component_ac_symbols(blocks[i], progressive_scans).contains(x)
}

/// Some component whose AC table is `t` codes `x` among its AC symbols.
pub open spec fn ac_symbol_used(
    comps: Seq<Component>,
    blocks: Seq<Seq<Seq<i16>>>,
    t: int,
    progressive_scans: int,
    x: u8,
) -> bool {
    ac_symbol_used_upto(comps, blocks, t, progressive_scans, x, comps.len() as int)
}

/// Frequencies of the DC symbols of the first `n` components whose DC
/// table is `t`, the reserved symbol 256 counted once (Annex K.2).
pub open spec fn dc_counts_upto(comps: Seq<Component>, blocks: Seq<Seq<Seq<i16>>>, t: int, n: int) -> Seq<u32>
    decreases n,
{
    if n <= 0 {
        Seq::new(
            257,
            |s: int|
                if s == 256 {
                    1u32
                } else {
                    0u32
                },
        )
    } else {
        let prev = dc_counts_upto(comps, blocks, t, n - 1);
        if comps[n - 1].dc_huffman_table == t {
            Seq::new(
                257,
                |s: int| (prev[s] + crate::symbols::occurrences(crate::stream::dc_symbols(blocks[n - 1]), s)) as u32,
            )
        } else {
            prev
        }
    }
}

/// Frequencies of the AC symbols of the first `n` components whose AC
/// table is `t`, the reserved symbol 256 counted once (Annex K.2).
pub open spec fn ac_counts_upto(
    comps: Seq<Component>,
    blocks: Seq<Seq<Seq<i16>>>,
    t: int,
    progressive_scans: int,
    n: int,
) -> Seq<u32>
    decreases n,
{
    if n <= 0 {
        Seq::new(
            257,
            |s: int|
                if s == 256 {
                    1u32
                } else {
                    0u32
                },
        )
    } else {
        let prev = ac_counts_upto(comps, blocks, t, progressive_scans, n - 1);
        if comps[n - 1].ac_huffman_table == t {
            Seq::new(
                257,
                |s: int|
                    (prev[s] + crate::symbols::occurrences(
                        crate::symbols::component_ac_symbols(blocks[n - 1], progressive_scans),
                        s,
                    )) as u32,
            )
        } else {
            prev
        }
    }
}

/// The DC and AC tables of destination `t` are built for the symbols that
/// the scans of the components using them code: they code exactly those
/// symbols, with the code lengths and values that Annex K.2 gives for
/// their frequencies.
pub open spec fn table_built(
    pair: (HuffmanTable, HuffmanTable),
    comps: Seq<Component>,
    blocks: Seq<Seq<Seq<i16>>>,
    t: int,
    progressive_scans: int,
) -> bool {
    &&& forall|x: u8| #[trigger] pair.0.spec_values().contains(x) <==> dc_symbol_used(comps, blocks, t, x)
    &&& forall|x: u8|
        #[trigger] pair.1.spec_values().contains(x) <==> ac_symbol_used(comps, blocks, t, progressive_scans, x)
    &&& pair.0.lengths() == crate::optimal::optimized_lengths(dc_counts_upto(comps, blocks, t, comps.len() as int))
    &&& pair.0.spec_values() == crate::optimal::optimized_values(
        dc_counts_upto(comps, blocks, t, comps.len() as int),
    )
    &&& pair.1.lengths() == crate::optimal::optimized_lengths(
        ac_counts_upto(comps, blocks, t, progressive_scans, comps.len() as int),
    )
    &&& pair.1.spec_values() == crate::optimal::optimized_values(
        ac_counts_upto(comps, blocks, t, progressive_scans, comps.len() as int),
    )
}

/// Every table destination that a component uses holds tables built for
/// the symbols of its components' scans.
pub open spec fn tables_built(
    hts: Seq<(HuffmanTable, HuffmanTable)>,
    comps: Seq<Component>,
    blocks: Seq<Seq<Seq<i16>>>,
    progressive_scans: int,
) -> bool {
    forall|t: int|
        0 <= t < 2 && #[trigger] table_used(comps, t) ==> table_built(hts[t], comps, blocks, t, progressive_scans)
}

/// For every colorspace, each table destination below the number of
/// components, and below two, is used by a component.
proof fn lemma_tables_used(color: JpegColorType, sf: SamplingFactor)
    ensures
        forall|t: int|
            0 <= t < 2 && t < spec_components(color, sf).len() ==> #[trigger] table_used(
                spec_components(color, sf),
                t,
            ),
{
    let comps = spec_components(color, sf);
    assert forall|t: int| 0 <= t < 2 && t < comps.len() implies #[trigger] table_used(comps, t) by {
        match color {
            JpegColorType::Luma => {
                assert(comps[0].dc_huffman_table == 0);
            },
            JpegColorType::Cmyk => {
                if t == 0 {
                    assert(comps[3].dc_huffman_table == 0);
                } else {
                    assert(comps[0].dc_huffman_table == 1);
                }
            },
            _ => {
                if t == 0 {
                    assert(comps[0].dc_huffman_table == 0);
                } else {
                    assert(comps[1].dc_huffman_table == 1);
                }
            },
        }
    }
}

/// Every component of a non-empty image has a block at least, and no more
/// than the image has blocks of 8x8 pixels.
proof fn lemma_block_count<I: ImageBuffer>(
    image: I,
    comps: Seq<Component>,
    i: int,
    table: QuantizationTable,
    sf: SamplingFactor,
)
    requires
        comps == spec_components(image.spec_color_type(), sf),
        0 <= i < comps.len(),
        image.spec_width() > 0,
        image.spec_height() > 0,
    ensures
        1 <= component_blocks(image, comps, max_h(comps), max_v(comps), i, table).len(),
{
    lemma_components(image.spec_color_type(), sf);
    let mh = max_h(comps);
    let mv = max_v(comps);
    let hf = comps[i].horizontal_sampling_factor as int;
    let vf = comps[i].vertical_sampling_factor as int;
    lemma_scale(mh, hf);
    lemma_scale(mv, vf);
    let hs = mh / hf;
    let vs = mv / vf;
    let ncols = crate::stream::ceil_div_int(image.spec_width() as int, 8);
    let nrows = crate::stream::ceil_div_int(image.spec_height() as int, 8);
    assert(ncols >= 1 && nrows >= 1);
    let cols = crate::stream::ceil_div_int(ncols, hs);
    let rows = crate::stream::ceil_div_int(nrows, vs);
    assert(1 <= cols <= ncols) by (nonlinear_arith)
        requires
            ncols >= 1,
            hs >= 1,
            cols == (ncols + hs - 1) / hs,
    ;
    assert(1 <= rows <= nrows) by (nonlinear_arith)
        requires
            nrows >= 1,
            vs >= 1,
            rows == (nrows + vs - 1) / vs,
    ;
    assert(1 <= cols * rows <= ncols * nrows) by (nonlinear_arith)
        requires
            1 <= cols <= ncols,
            1 <= rows <= nrows,
    ;
}

/// The number of blocks of each component: those of the whole image for a
/// component of the largest sampling factors, those of the image subsampled
/// by the largest factors for a component of factors 1.
proof fn lemma_component_lens<I: ImageBuffer>(image: I, sf: SamplingFactor, qts: Seq<QuantizationTable>)
    ensures
        ({
            let comps = spec_components(image.spec_color_type(), sf);
            let all = image_blocks(image, comps, qts);
            let cols = crate::stream::ceil_div_int(image.spec_width() as int, 8);
            let rows = crate::stream::ceil_div_int(image.spec_height() as int, 8);
            let (mh, mv) = crate::stream::max_sampling(image.spec_color_type(), sf);
            let sub = crate::stream::ceil_div_int(cols, mh) * crate::stream::ceil_div_int(rows, mv);
            &&& (mh, mv) == (1int, 1int) ==> sub == cols * rows
            &&& forall|i: int|
                0 <= i < comps.len() ==> #[trigger] all[i].len() == if comps[i].horizontal_sampling_factor == 1
                    && comps[i].vertical_sampling_factor == 1 && (mh, mv) != (1int, 1int) {
                    sub
                } else {
                    cols * rows
                }
        }),
{
    let color = image.spec_color_type();
    let comps = spec_components(color, sf);
    lemma_components(color, sf);
    let mh = max_h(comps);
    let mv = max_v(comps);
    let all = image_blocks(image, comps, qts);
    let cols = crate::stream::ceil_div_int(image.spec_width() as int, 8);
    let rows = crate::stream::ceil_div_int(image.spec_height() as int, 8);
    let sc = crate::stream::ceil_div_int(cols, mh);
    let sr = crate::stream::ceil_div_int(rows, mv);
    assert(cols >= 0 && rows >= 0 && sc >= 0 && sr >= 0);
    assert(cols * rows >= 0 && sc * sr >= 0) by (nonlinear_arith)
        requires
            cols >= 0,
            rows >= 0,
            sc >= 0,
            sr >= 0,
    ;
    assert((cols + 1 - 1) / 1 == cols && (rows + 1 - 1) / 1 == rows) by (nonlinear_arith);
    assert(crate::stream::ceil_div_int(cols, 1) == cols);
    assert(crate::stream::ceil_div_int(rows, 1) == rows);
    assert forall|i: int| 0 <= i < comps.len() implies #[trigger] all[i].len() == if comps[i].horizontal_sampling_factor
        == 1 && comps[i].vertical_sampling_factor == 1 && (mh, mv) != (1int, 1int) {
        sc * sr
    } else {
        cols * rows
    } by {
        let h = comps[i].horizontal_sampling_factor as int;
        let v = comps[i].vertical_sampling_factor as int;
        lemma_scale(mh, h);
        lemma_scale(mv, v);
        assert(h == 1 && v == 1 || h == mh && v == mv) by {
            reveal_with_fuel(max_h, 5);
            reveal_with_fuel(max_v, 5);
        }
        assert(all[i] == component_blocks(image, comps, mh, mv, i, qts[comps[i].quantization_table as int]));
    }
}

/// Where optimized tables can be built, the blocks of the components that
/// share each table, 63 AC symbols each and the reserved one, fit a 32-bit
/// count.
#[verifier::spinoff_prover]
proof fn lemma_fits_tables<I: ImageBuffer>(image: I, sf: SamplingFactor, qts: Seq<QuantizationTable>)
    requires
        optimize_fits(image.spec_color_type(), sf, image.spec_width(), image.spec_height()),
    ensures
        ({
            let comps = spec_components(image.spec_color_type(), sf);
            forall|t: int|
                0 <= t < 2 ==> 1 + 63 * #[trigger] table_blocks(
                    comps,
                    image_blocks(image, comps, qts),
                    t,
                    comps.len() as int,
                ) <= u32::MAX
        }),
{
    let color = image.spec_color_type();
    let comps = spec_components(color, sf);
    let all = image_blocks(image, comps, qts);
    lemma_component_lens(image, sf, qts);
    let n = comps.len() as int;
    reveal_with_fuel(table_blocks, 5);
    match color {
        JpegColorType::Luma => {
            assert(all[0].len() == table_block_totals(color, sf, image.spec_width(), image.spec_height()).0);
        },
        JpegColorType::Ycbcr => {
            assert(all[0].len() + 0 == table_block_totals(color, sf, image.spec_width(), image.spec_height()).0);
            assert(all[1].len() + all[2].len() == table_block_totals(color, sf, image.spec_width(), image.spec_height()).1);
        },
        JpegColorType::Cmyk => {
            assert(all[3].len() == table_block_totals(color, sf, image.spec_width(), image.spec_height()).0);
            assert(all[0].len() + all[1].len() + all[2].len() == table_block_totals(color, sf, image.spec_width(), image.spec_height()).1);
        },
        JpegColorType::Ycck => {
            assert(all[0].len() + all[3].len() == table_block_totals(color, sf, image.spec_width(), image.spec_height()).0);
            assert(all[1].len() + all[2].len() == table_block_totals(color, sf, image.spec_width(), image.spec_height()).1);
        },
    }
}

/// All-zero frequencies sum to zero.
proof fn lemma_total_zero(f: Seq<u32>, n: int)
    requires
        0 <= n <= f.len(),
        forall|s: int| 0 <= s < f.len() ==> f[s] == 0,
    ensures
        crate::optimal::total(f, n) == 0,
    decreases n,
{
    if n > 0 {
        lemma_total_zero(f, n - 1);
    }
}

/// The profile data that the first `k` of `n` ICC segments carry, one after
/// the other.
pub open spec fn icc_payloads(data: Seq<u8>, k: int, n: nat) -> Seq<u8>
    decreases k,
{
    if k <= 0 {
        Seq::empty()
    } else {
        icc_payloads(data, k - 1, n) + icc_segment(data, k - 1, n).skip(14)
    }
}

proof fn lemma_icc_prefix(data: Seq<u8>, k: int, n: nat)
    requires
        0 <= k <= n,
        n == icc_num_chunks(data.len()),
    ensures
        icc_payloads(data, k, n) == data.subrange(
            0,
            if k * 65519 < data.len() {
                k * 65519
            } else {
                data.len() as int
            },
        ),
    decreases k,
{
    if k > 0 {
        lemma_icc_prefix(data, k - 1, n);
        assert((k - 1) * 65519 < data.len()) by (nonlinear_arith)
            requires
                1 <= k <= n,
                n == (data.len() + 65519 - 1) / 65519,
        ;
        let start = (k - 1) * 65519;
        assert(start + 65519 == k * 65519);
        assert(icc_segment(data, k - 1, n).skip(14) =~= data.subrange(
            start,
            if start + 65519 < data.len() {
                start + 65519
            } else {
                data.len() as int
            },
        ));
        assert(icc_payloads(data, k, n) =~= data.subrange(
            0,
            if k * 65519 < data.len() {
                k * 65519
            } else {
                data.len() as int
            },
        ));
    }
}

/// Law: the segments of an ICC profile carry the whole profile: each starts
/// with `ICC_PROFILE\0`, its sequence number counting from one and the
/// number of segments; what follows those 14 bytes, segment after segment,
/// is the profile.
pub proof fn lemma_icc_reassembles(data: Seq<u8>)
    requires
        data.len() <= 16_707_345,
    ensures
        icc_payloads(data, icc_num_chunks(data.len()) as int, icc_num_chunks(data.len())) == data,
        forall|i: int|
            0 <= i < icc_num_chunks(data.len()) ==> {
                let seg = #[trigger] icc_segment(data, i, icc_num_chunks(data.len()));
                &&& seg.subrange(0, 12) == icc_marker()
                &&& seg[12] == i + 1
                &&& seg[13] == icc_num_chunks(data.len())
            },
{
    let n = icc_num_chunks(data.len());
    assert(n <= 255) by (nonlinear_arith)
        requires
            n == (data.len() + 65519 - 1) / 65519,
            data.len() <= 16_707_345,
    ;
    lemma_icc_prefix(data, n as int, n);
    assert(n * 65519 >= data.len()) by (nonlinear_arith)
        requires
            n == (data.len() + 65519 - 1) / 65519,
    ;
    assert(data.subrange(0, data.len() as int) =~= data);
    assert forall|i: int| 0 <= i < n implies {
        let seg = #[trigger] icc_segment(data, i, n);
        &&& seg.subrange(0, 12) == icc_marker()
        &&& seg[12] == i + 1
        &&& seg[13] == n
    } by {
        let seg = icc_segment(data, i, n);
        assert(seg.subrange(0, 12) =~= icc_marker());
    }
}

/// The first `k` application segments start the first `n`; the result is
/// what follows them.
proof fn lemma_app_prefix(segments: Seq<(u8, Seq<u8>)>, k: int, n: int) -> (rest: Seq<u8>)
    requires
        0 <= k <= n,
    ensures
        app_segments_bytes(segments, n) == app_segments_bytes(segments, k) + rest,
    decreases n,
{
    if n == k {
        assert(app_segments_bytes(segments, n) =~= app_segments_bytes(segments, k) + Seq::<u8>::empty());
        Seq::empty()
    } else {
        let rest = lemma_app_prefix(segments, k, n - 1);
        let seg = segment_bytes(Marker::APP(segments[n - 1].0), segments[n - 1].1);
        assert(app_segments_bytes(segments, n) =~= app_segments_bytes(segments, k) + (rest + seg));
        rest + seg
    }
}

impl Encoder {
    /// Law: every stream starts with the start-of-image marker, followed by
    /// the JFIF header, and ends with the end-of-image marker.
    #[verifier::spinoff_prover]
    pub proof fn lemma_stream_frame<I: ImageBuffer>(&self, image: I, hts: Seq<(HuffmanTable, HuffmanTable)>)
        ensures
            self.jpeg_with(image, hts).len() >= 22,
            self.jpeg_with(image, hts).subrange(0, 2) == seq![0xFFu8, 0xD8u8],
            self.jpeg_with(image, hts).subrange(2, 20) == header_bytes(self.spec_density()),
            self.jpeg_with(image, hts).subrange(
                self.jpeg_with(image, hts).len() - 2,
                self.jpeg_with(image, hts).len() as int,
            ) == seq![0xFFu8, 0xD9u8],
    {
        let j = self.jpeg_with(image, hts);
        let head = marker_bytes(Marker::SOI) + header_bytes(self.spec_density());
        let tail = adobe_bytes(image.spec_color_type()) + app_segments_bytes(
            self.spec_app_segments(),
            self.spec_app_segments().len() as int,
        ) + self.body_with(image, hts);
        assert(header_bytes(self.spec_density()).len() == 18);
        assert(j =~= head + tail + marker_bytes(Marker::EOI));
        assert(j.subrange(0, 2) =~= seq![0xFFu8, 0xD8u8]);
        assert(j.subrange(2, 20) =~= header_bytes(self.spec_density()));
        assert(j.subrange(j.len() - 2, j.len() as int) =~= seq![0xFFu8, 0xD9u8]);
    }

    /// Law: the stream holds every application segment that was added, in
    /// full and in the order in which they were added.
    pub proof fn lemma_app_segment_in_stream<I: ImageBuffer>(
        &self,
        image: I,
        hts: Seq<(HuffmanTable, HuffmanTable)>,
        k: int,
    )
        requires
            0 <= k < self.spec_app_segments().len(),
        ensures
            ({
                let j = self.jpeg_with(image, hts);
                let seg = segment_bytes(
                    Marker::APP(self.spec_app_segments()[k].0),
                    self.spec_app_segments()[k].1,
                );
                let off: int = 20 + adobe_bytes(image.spec_color_type()).len() as int
                    + app_segments_bytes(self.spec_app_segments(), k).len() as int;
                off + seg.len() <= j.len() && j.subrange(off, off + seg.len() as int) == seg
            }),
    {
        let segs = self.spec_app_segments();
        let n = segs.len() as int;
        let head = marker_bytes(Marker::SOI) + header_bytes(self.spec_density()) + adobe_bytes(
            image.spec_color_type(),
        );
        let seg = segment_bytes(Marker::APP(segs[k].0), segs[k].1);
        let rest = lemma_app_prefix(segs, k + 1, n);
        let before = app_segments_bytes(segs, k);
        assert(header_bytes(self.spec_density()).len() == 18);
        assert(app_segments_bytes(segs, k + 1) == before + seg);
        vstd::seq_lib::lemma_concat_associative(
            head + app_segments_bytes(segs, n),
            self.body_with(image, hts),
            marker_bytes(Marker::EOI),
        );
        lemma_window(
            self.jpeg_with(image, hts),
            head,
            app_segments_bytes(segs, n),
            before,
            seg,
            rest,
            self.body_with(image, hts) + marker_bytes(Marker::EOI),
        );
    }
}

impl Encoder {
    /// Law: the Huffman tables of a usable encoder (the default tables of
    /// Annex K.3) code every symbol that the scans of any image code: every
    /// DC size category up to 11 and every AC symbol of coefficients of at
    /// most 1023 in magnitude.
    pub proof fn lemma_default_tables_code_scans<I: ImageBuffer>(&self, image: I)
        requires
            self.wf(),
        ensures
            crate::stream::tables_code_scans(
                self.spec_huffman_tables(),
                spec_components(image.spec_color_type(), self.spec_sampling_factor()),
                image_blocks(
                    image,
                    spec_components(image.spec_color_type(), self.spec_sampling_factor()),
                    self.spec_quantization_tables(),
                ),
                self.spec_progressive_scans() as int,
            ),
    {
        let comps = spec_components(image.spec_color_type(), self.spec_sampling_factor());
        let qts = self.spec_quantization_tables();
        let hts = self.spec_huffman_tables();
        let blocks = image_blocks(image, comps, qts);
        let ps = self.spec_progressive_scans() as int;
        lemma_components(image.spec_color_type(), self.spec_sampling_factor());
        crate::huffman::lemma_default_dc_symbols();
        crate::huffman::lemma_default_ac_symbols();
        assert forall|i: int| 0 <= i < comps.len() implies {
            &&& crate::stream::codes_all(
                hts[(#[trigger] comps[i]).dc_huffman_table as int].0,
                crate::stream::dc_symbols(blocks[i]),
            )
            &&& crate::stream::codes_ac_scans(hts[comps[i].ac_huffman_table as int].1, blocks[i], ps)
        } by {
            let c = comps[i];
            let t = c.dc_huffman_table as int;
            assert(t < 2);
            assert(qts[c.quantization_table as int].wf());
            crate::blocks::lemma_component_blocks_in_range(
                image,
                comps,
                max_h(comps),
                max_v(comps),
                i,
                qts[c.quantization_table as int],
            );
            let b = blocks[i];
            crate::symbols::lemma_dc_symbols_8bit(b);
            let dc = hts[t].0;
            let ac = hts[t].1;
            assert forall|y: u8| y <= 11 implies #[trigger] dc.spec_values().contains(y) by {
                if t == 0 {
                    assert(dc.spec_values() == crate::huffman::default_luma_dc_values());
                } else {
                    assert(dc.spec_values() == crate::huffman::default_chroma_dc_values());
                }
            }
            assert forall|y: u8| crate::huffman::ac_symbol_of_8bit(y) implies #[trigger] ac.spec_values().contains(
                y,
            ) by {
                if t == 0 {
                    assert(ac.spec_values() == crate::huffman::default_luma_ac_values());
                } else {
                    assert(ac.spec_values() == crate::huffman::default_chroma_ac_values());
                }
            }
            assert forall|k: int| 0 <= k < crate::stream::dc_symbols(b).len() implies dc.spec_values().contains(
                #[trigger] crate::stream::dc_symbols(b)[k],
            ) by {
                assert(crate::stream::dc_symbols(b)[k] <= 11);
            }
            if ps == 0 {
                crate::symbols::lemma_codes_ac_8bit(ac, b, 1, 64);
            } else {
                assert forall|s: int| 0 <= s < ps - 1 implies crate::stream::codes_ac(
                    ac,
                    b,
                    crate::stream::ac_scan_start(s, ps - 1),
                    #[trigger] crate::stream::ac_scan_end(s, ps - 1),
                ) by {
                    crate::symbols::lemma_scan_ranges(s, ps - 1);
                    crate::symbols::lemma_codes_ac_8bit(
                        ac,
                        b,
                        crate::stream::ac_scan_start(s, ps - 1),
                        crate::stream::ac_scan_end(s, ps - 1),
                    );
                }
            }
        }
    }

    /// Law: in sequential mode, with tables that code every symbol of the
    /// image's scans (as tables built for the image do), the entropy-coded
    /// data of the scan of each component, unstuffed and unpacked, reads
    /// back as the component's quantized blocks, followed only by the ones
    /// that pad the last byte.
    pub proof fn lemma_scan_reads_back<I: ImageBuffer>(
        &self,
        image: I,
        hts: Seq<(HuffmanTable, HuffmanTable)>,
        i: int,
    )
        requires
            self.wf(),
            crate::stream::tables_code_scans(
                hts,
                spec_components(image.spec_color_type(), self.spec_sampling_factor()),
                image_blocks(
                    image,
                    spec_components(image.spec_color_type(), self.spec_sampling_factor()),
                    self.spec_quantization_tables(),
                ),
                0,
            ),
            self.spec_progressive_scans() == 0,
            0 <= i < spec_components(image.spec_color_type(), self.spec_sampling_factor()).len(),
        ensures
            ({
                let comps = spec_components(image.spec_color_type(), self.spec_sampling_factor());
                let blocks = image_blocks(image, comps, self.spec_quantization_tables())[i];
                let dc = hts[comps[i].dc_huffman_table as int].0;
                let ac = hts[comps[i].ac_huffman_table as int].1;
                let bits = crate::stream::sequential_bits(blocks, blocks.len() as int, dc, ac);
                crate::decode::read_blocks(
                    dc,
                    ac,
                    crate::decode::byte_bits(crate::decode::unstuff(crate::bitstream::padded_bytes(bits))),
                    blocks.len(),
                    0,
                ) == Some((blocks, crate::bitstream::ones(crate::decode::padding(bits.len()))))
            }),
    {
        let comps = spec_components(image.spec_color_type(), self.spec_sampling_factor());
        let qts = self.spec_quantization_tables();
        lemma_components(image.spec_color_type(), self.spec_sampling_factor());
        let c = comps[i];
        assert(c.quantization_table < 2);
        assert(qts[c.quantization_table as int].wf());
        crate::blocks::lemma_component_blocks_in_range(
            image,
            comps,
            max_h(comps),
            max_v(comps),
            i,
            qts[c.quantization_table as int],
        );
        let blocks = image_blocks(image, comps, qts)[i];
        crate::decode::lemma_read_sequential_scan(hts[c.dc_huffman_table as int].0, hts[c.ac_huffman_table as int].1, blocks);
    }
}

impl Encoder {
    /// Law: in progressive mode, with tables that code every symbol of the
    /// image's scans (as the default tables and tables built for the image
    /// do), the entropy-coded data of the DC scan of each component reads
    /// back as the DC coefficients of its blocks, and that of each AC scan
    /// as the scan's range of coefficients of each block; each followed only
    /// by the ones that pad the last byte.
    pub proof fn lemma_progressive_scans_read_back<I: ImageBuffer>(
        &self,
        image: I,
        hts: Seq<(HuffmanTable, HuffmanTable)>,
        i: int,
        s: int,
    )
        requires
            self.wf(),
            self.spec_progressive_scans() != 0,
            crate::stream::tables_code_scans(
                hts,
                spec_components(image.spec_color_type(), self.spec_sampling_factor()),
                image_blocks(
                    image,
                    spec_components(image.spec_color_type(), self.spec_sampling_factor()),
                    self.spec_quantization_tables(),
                ),
                self.spec_progressive_scans() as int,
            ),
            0 <= i < spec_components(image.spec_color_type(), self.spec_sampling_factor()).len(),
            0 <= s < self.spec_progressive_scans() - 1,
        ensures
            ({
                let comps = spec_components(image.spec_color_type(), self.spec_sampling_factor());
                let blocks = image_blocks(image, comps, self.spec_quantization_tables())[i];
                let dc = hts[comps[i].dc_huffman_table as int].0;
                let ac = hts[comps[i].ac_huffman_table as int].1;
                let scans = self.spec_progressive_scans() - 1;
                let start = crate::stream::ac_scan_start(s, scans);
                let end = crate::stream::ac_scan_end(s, scans);
                let dc_bits = crate::stream::dc_scan_bits(blocks, blocks.len() as int, dc);
                let ac_bits = crate::stream::ac_scan_bits(blocks, blocks.len() as int, start, end, ac);
                &&& crate::decode::read_dcs(
                    dc,
                    crate::decode::byte_bits(crate::decode::unstuff(crate::bitstream::padded_bytes(dc_bits))),
                    blocks.len(),
                    0,
                ) == Some(
                    (crate::decode::dc_values(blocks), crate::bitstream::ones(crate::decode::padding(dc_bits.len()))),
                )
                &&& crate::decode::read_ac_runs(
                    ac,
                    crate::decode::byte_bits(crate::decode::unstuff(crate::bitstream::padded_bytes(ac_bits))),
                    blocks.len(),
                    (end - start) as nat,
                ) == Some(
                    (
                        crate::decode::coef_runs(blocks, start, end),
                        crate::bitstream::ones(crate::decode::padding(ac_bits.len())),
                    ),
                )
            }),
    {
        let comps = spec_components(image.spec_color_type(), self.spec_sampling_factor());
        let qts = self.spec_quantization_tables();
        lemma_components(image.spec_color_type(), self.spec_sampling_factor());
        let c = comps[i];
        assert(c.quantization_table < 2);
        assert(qts[c.quantization_table as int].wf());
        crate::blocks::lemma_component_blocks_in_range(
            image,
            comps,
            max_h(comps),
            max_v(comps),
            i,
            qts[c.quantization_table as int],
        );
        let blocks = image_blocks(image, comps, qts)[i];
        let dc = hts[c.dc_huffman_table as int].0;
        let ac = hts[c.ac_huffman_table as int].1;
        let scans = self.spec_progressive_scans() - 1;
        crate::symbols::lemma_scan_ranges(s, scans);
        let start = crate::stream::ac_scan_start(s, scans);
        let end = crate::stream::ac_scan_end(s, scans);
        let dc_bits = crate::stream::dc_scan_bits(blocks, blocks.len() as int, dc);
        let ac_bits = crate::stream::ac_scan_bits(blocks, blocks.len() as int, start, end, ac);
        crate::decode::lemma_unpack_padded(dc_bits);
        crate::decode::lemma_unpack_padded(ac_bits);
        crate::decode::lemma_read_dc_scan(dc, blocks, crate::bitstream::ones(crate::decode::padding(dc_bits.len())));
        crate::decode::lemma_read_ac_scan(
            ac,
            blocks,
            start,
            end,
            crate::bitstream::ones(crate::decode::padding(ac_bits.len())),
        );
    }
}

/// The labeled blocks of the first `n` components of an MCU belong to those
/// components and hold quantized coefficients.
proof fn lemma_mcu_units_in_range<I: ImageBuffer>(
    img: I,
    comps: Seq<Component>,
    mh: int,
    mv: int,
    qts: Seq<QuantizationTable>,
    n: int,
    bx: int,
    by: int,
)
    requires
        0 <= n <= comps.len(),
        forall|i: int| 0 <= i < comps.len() ==> (#[trigger] qts[comps[i].quantization_table as int]).wf(),
    ensures
        forall|k: int|
            0 <= k < mcu_units(img, comps, mh, mv, qts, n, bx, by).len() ==> {
                let u = #[trigger] mcu_units(img, comps, mh, mv, qts, n, bx, by)[k];
                &&& 0 <= u.0 < n
                &&& crate::stream::block_in_range(u.1)
            },
    decreases n,
{
    if n > 0 {
        lemma_mcu_units_in_range(img, comps, mh, mv, qts, n - 1, bx, by);
        let p = mcu_units(img, comps, mh, mv, qts, n - 1, bx, by);
        let q = mcu_component_units(img, comps, mh, mv, qts, n - 1, bx, by);
        let c = comps[n - 1];
        let h = c.horizontal_sampling_factor as int;
        let v = c.vertical_sampling_factor as int;
        assert(qts[c.quantization_table as int].wf());
        assert forall|k: int| 0 <= k < (p + q).len() implies {
            let u = #[trigger] (p + q)[k];
            &&& 0 <= u.0 < n
            &&& crate::stream::block_in_range(u.1)
        } by {
            if k < p.len() {
                assert((p + q)[k] == p[k]);
            } else {
                let j = k - p.len();
                assert((p + q)[k] == q[j]);
                crate::blocks::lemma_coded_block_in_range(
                    img,
                    n - 1,
                    bx * 8 * mh + (j % h) * 8,
                    by * 8 * mv + (j / h) * 8,
                    mh / h,
                    mv / v,
                    qts[c.quantization_table as int],
                );
            }
        }
    }
}

/// The labeled blocks of the first `m` MCUs belong to the components and
/// hold quantized coefficients.
proof fn lemma_interleaved_units_in_range<I: ImageBuffer>(
    img: I,
    comps: Seq<Component>,
    mh: int,
    mv: int,
    qts: Seq<QuantizationTable>,
    cols: int,
    m: int,
)
    requires
        forall|i: int| 0 <= i < comps.len() ==> (#[trigger] qts[comps[i].quantization_table as int]).wf(),
    ensures
        forall|k: int|
            0 <= k < interleaved_units(img, comps, mh, mv, qts, cols, m).len() ==> {
                let u = #[trigger] interleaved_units(img, comps, mh, mv, qts, cols, m)[k];
                &&& 0 <= u.0 < comps.len()
                &&& crate::stream::block_in_range(u.1)
            },
    decreases m,
{
    if m > 0 {
        lemma_interleaved_units_in_range(img, comps, mh, mv, qts, cols, m - 1);
        let p = interleaved_units(img, comps, mh, mv, qts, cols, m - 1);
        let q = mcu_units(img, comps, mh, mv, qts, comps.len() as int, (m - 1) % cols, (m - 1) / cols);
        lemma_mcu_units_in_range(img, comps, mh, mv, qts, comps.len() as int, (m - 1) % cols, (m - 1) / cols);
        assert forall|k: int| 0 <= k < (p + q).len() implies {
            let u = #[trigger] (p + q)[k];
            &&& 0 <= u.0 < comps.len()
            &&& crate::stream::block_in_range(u.1)
        } by {
            if k < p.len() {
                assert((p + q)[k] == p[k]);
            } else {
                assert((p + q)[k] == q[k - p.len()]);
            }
        }
    }
}

impl Encoder {
    /// Law: in interleaved mode, the entropy-coded data of the scan, coded
    /// with the default tables, unstuffed and unpacked, reads back as the
    /// labeled blocks of every MCU, each with the tables of its component
    /// and its DC coefficient a difference to that of the last block of the
    /// same component; followed only by the ones that pad the last byte.
    pub proof fn lemma_interleaved_reads_back<I: ImageBuffer>(&self, image: I)
        requires
            self.wf(),
        ensures
            ({
                let comps = spec_components(image.spec_color_type(), self.spec_sampling_factor());
                let mh = max_h(comps);
                let mv = max_v(comps);
                let cols = crate::stream::ceil_div_int(image.spec_width() as int, 8 * mh);
                let rows = crate::stream::ceil_div_int(image.spec_height() as int, 8 * mv);
                let units = interleaved_units(image, comps, mh, mv, self.spec_quantization_tables(), cols, cols * rows);
                let hts = self.spec_huffman_tables();
                let bits = crate::stream::units_bits(units, units.len() as int, comps, hts);
                crate::decode::read_units(
                    comps,
                    hts,
                    crate::decode::unit_labels(units),
                    crate::decode::byte_bits(crate::decode::unstuff(crate::bitstream::padded_bytes(bits))),
                    Seq::empty(),
                ) == Some((units, crate::bitstream::ones(crate::decode::padding(bits.len()))))
            }),
    {
        let comps = spec_components(image.spec_color_type(), self.spec_sampling_factor());
        let qts = self.spec_quantization_tables();
        let hts = self.spec_huffman_tables();
        let mh = max_h(comps);
        let mv = max_v(comps);
        let cols = crate::stream::ceil_div_int(image.spec_width() as int, 8 * mh);
        let rows = crate::stream::ceil_div_int(image.spec_height() as int, 8 * mv);
        let units = interleaved_units(image, comps, mh, mv, qts, cols, cols * rows);
        lemma_components(image.spec_color_type(), self.spec_sampling_factor());
        assert forall|i: int| 0 <= i < comps.len() implies (#[trigger] qts[comps[i].quantization_table as int]).wf() by {
            assert(comps[i].quantization_table < 2);
        }
        lemma_interleaved_units_in_range(image, comps, mh, mv, qts, cols, cols * rows);
        crate::huffman::lemma_default_dc_symbols();
        crate::huffman::lemma_default_ac_symbols();
        assert forall|k: int| 0 <= k < units.len() implies {
            let (i, b) = #[trigger] units[k];
            let dc = hts[comps[i].dc_huffman_table as int].0;
            let ac = hts[comps[i].ac_huffman_table as int].1;
            &&& 0 <= i < comps.len()
            &&& dc.wf()
            &&& ac.wf()
            &&& crate::stream::block_in_range(b)
            &&& dc.spec_values().contains(crate::writer::coef_size(b[0] - crate::stream::last_dc(units, k, i)) as u8)
            &&& crate::stream::codes_all(ac, crate::stream::ac_symbols(b.subrange(1, 64), 0))
        } by {
            let (i, b) = units[k];
            let c = comps[i];
            let t = c.dc_huffman_table as int;
            assert(t < 2 && c.ac_huffman_table as int == t);
            let dc = hts[t].0;
            let ac = hts[t].1;
            assert forall|j: int| 0 <= j < k implies crate::stream::block_in_range(#[trigger] units[j].1) by {
                let u = units[j];
            }
            crate::decode::lemma_last_dc_range(units, k, i);
            let diff = b[0] - crate::stream::last_dc(units, k, i);
            crate::writer::lemma_num_bits_mono(crate::writer::abs(diff), 2047);
            assert(crate::writer::num_bits(2047) == 11) by {
                reveal_with_fuel(crate::writer::num_bits, 12);
            }
            let sym = crate::writer::coef_size(diff) as u8;
            assert(sym <= 11);
            if t == 0 {
                assert(dc.spec_values() == crate::huffman::default_luma_dc_values());
                assert(ac.spec_values() == crate::huffman::default_luma_ac_values());
            } else {
                assert(dc.spec_values() == crate::huffman::default_chroma_dc_values());
                assert(ac.spec_values() == crate::huffman::default_chroma_ac_values());
            }
            assert(dc.spec_values().contains(sym));
            let coefs = b.subrange(1, 64);
            assert(forall|j: int| 0 <= j < coefs.len() ==> coefs[j] == b[j + 1]);
            crate::symbols::lemma_ac_symbols_8bit(coefs, 0);
            let syms = crate::stream::ac_symbols(coefs, 0);
            assert forall|j: int| 0 <= j < syms.len() implies ac.spec_values().contains(#[trigger] syms[j]) by {
                assert(crate::huffman::ac_symbol_of_8bit(syms[j]));
            }
        }
        assert(crate::decode::units_codable(units, comps, hts));
        let bits = crate::stream::units_bits(units, units.len() as int, comps, hts);
        crate::decode::lemma_unpack_padded(bits);
        crate::decode::lemma_read_interleaved(comps, hts, units, crate::bitstream::ones(crate::decode::padding(bits.len())));
    }
}

/// A part of a sequence, found where the parts before it end.
proof fn lemma_window(
    whole: Seq<u8>,
    head: Seq<u8>,
    mid: Seq<u8>,
    before: Seq<u8>,
    part: Seq<u8>,
    rest: Seq<u8>,
    tail: Seq<u8>,
)
    requires
        whole == head + mid + tail,
        mid == before + part + rest,
    ensures
        head.len() + before.len() + part.len() <= whole.len(),
        whole.subrange(
            head.len() + before.len() as int,
            head.len() + before.len() + part.len() as int,
        ) == part,
{
    assert(whole.subrange(
        head.len() + before.len() as int,
        head.len() + before.len() + part.len() as int,
    ) =~= part);
}

/// The scale of a component's samples: 1 when its factor is the largest,
/// the largest factor when its factor is 1.
proof fn lemma_scale(m: int, f: int)
    requires
        m == 1 || m == 2 || m == 4,
        f == 1 || f == m,
    ensures
        1 <= m / f <= 4,
        f == 1 ==> m / f == m,
        f == m ==> m / f == 1,
        (m / f) * f == m,
{
}

/// Rounding `a` up to a multiple of `m` (1, 2 or 4) adds less than `m`.
proof fn lemma_ceil_round(a: int, m: int)
    requires
        0 <= a,
        m == 1 || m == 2 || m == 4,
    ensures
        a <= crate::stream::ceil_div_int(a, m) * m <= a + m - 1,
        (crate::stream::ceil_div_int(a, m) * m) % m == 0,
{
    let q = crate::stream::ceil_div_int(a, m);
    assert(a <= q * m <= a + m - 1) by (nonlinear_arith)
        requires
            q == (a + m - 1) / m,
            m >= 1,
    ;
    assert((q * m) % m == 0) by (nonlinear_arith)
        requires
            m >= 1,
    ;
}

/// The blocks of `a` rounded up to a scale `s` that divides the MCU size
/// `m` fit within `a` rounded up to whole MCUs `r`.
proof fn lemma_ceil_within(a: int, s: int, m: int, r: int)
    requires
        0 <= a <= r,
        m == 1 || m == 2 || m == 4,
        s == 1 || s == m,
        r % m == 0,
    ensures
        crate::stream::ceil_div_int(a, s) * s <= r,
        a >= 1 ==> crate::stream::ceil_div_int(a, s) >= 1,
        crate::stream::ceil_div_int(a, s) <= a,
{
    let q = crate::stream::ceil_div_int(a, s);
    if s == 1 {
        assert(q == a);
    } else {
        assert(q * m < a + m) by (nonlinear_arith)
            requires
                q == (a + m - 1) / m,
                m >= 1,
        ;
        assert(r == (r / m) * m) by (nonlinear_arith)
            requires
                r % m == 0,
                m >= 1,
        ;
        assert(q * m <= r) by (nonlinear_arith)
            requires
                q * m < a + m,
                a <= r,
                r == (r / m) * m,
                q == (a + m - 1) / m,
                m >= 1,
        ;
        assert(a >= 1 ==> q >= 1) by (nonlinear_arith)
            requires
                q == (a + m - 1) / m,
                m >= 1,
        ;
        assert(q <= a || a == 0) by (nonlinear_arith)
            requires
                q == (a + m - 1) / m,
                m >= 2,
                a >= 0,
        ;
    }
}

/// A component with the given identifier, table destination and sampling
/// factors.
fn new_component(id: u8, dest: u8, h: u8, v: u8) -> (r: Component)
    ensures
        r == crate::stream::component(id, dest, h, v),
{
    Component {
        id,
        quantization_table: dest,
        dc_huffman_table: dest,
        ac_huffman_table: dest,
        horizontal_sampling_factor: h,
        vertical_sampling_factor: v,
    }
}

/// Number of bits of the magnitude of a coefficient.
pub fn get_num_bits(value: i16) -> (r: u8)
    requires
        value > i16::MIN,
    ensures
        r == crate::writer::coef_size(value as int),
{
    let mut value = value;
    if value < 0 {
        value = -value;
    }
    let ghost a = value as nat;
    proof {
        crate::writer::lemma_num_bits_mono(a, 32767);
        assert(crate::writer::num_bits(32767) == 15) by {
            reveal_with_fuel(crate::writer::num_bits, 16);
        }
    }
    let mut num_bits: u8 = 0;
    while value > 0
        invariant
            value >= 0,
            num_bits as nat + crate::writer::num_bits(value as nat) == crate::writer::num_bits(a),
            crate::writer::num_bits(a) <= 15,
        decreases value,
    {
        num_bits = num_bits + 1;
        value = value / 2;
    }
    num_bits
}

} // verus!
