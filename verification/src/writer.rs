//! Writer of the JFIF byte stream: markers, segments, headers and the
//! entropy-coded bit stream.
use vstd::arithmetic::power2::*;
use vstd::bits::*;
use vstd::prelude::*;

use crate::bitstream::{
    bits_of, bytes_of, lemma_bits_of_len, lemma_bits_of_split, lemma_bytes_of_append, lemma_bytes_of_byte,
    lemma_bytes_of_short, lemma_stuff_append, lemma_stuff_byte, ones, stuff, tail_bits, emit,
    lemma_emit_compose, lemma_emit_empty,
};
use vstd::arithmetic::mul::{
    lemma_mul_inequality, lemma_mul_is_commutative, lemma_mul_is_distributive_add_other_way,
    lemma_mul_strict_inequality,
};
use crate::encoder::Component;
use crate::huffman::{CodingClass, HuffmanTable};
use crate::marker::{Marker, SOFType};
use crate::quantization::QuantizationTable;

verus! {

/// Pixel density of the image
#[derive(Clone, Copy, Debug, PartialEq, Eq, Structural)]
pub enum Density {
    /// No pixel density is set, which means "1 pixel per pixel"
    Unspecified,
    /// Horizontal and vertical dots per inch (dpi)
    Inch { x: u16, y: u16 },
    /// Horizontal and vertical dots per centimeter
    Centimeter { x: u16, y: u16 },
}

/// Big-endian bytes of a 16 bit value.
pub open spec fn u16_bytes(v: u16) -> Seq<u8> {
    seq![(v / 256) as u8, (v % 256) as u8]
}

/// A marker: `0xFF` and the marker's code.
pub open spec fn marker_bytes(m: Marker) -> Seq<u8> {
    seq![0xFFu8, m.spec_code()]
}

/// A segment: marker, length (counting the two length bytes) and data.
pub open spec fn segment_bytes(m: Marker, data: Seq<u8>) -> Seq<u8> {
    marker_bytes(m) + u16_bytes((data.len() + 2) as u16) + data
}

/// Density unit and the two density values of the JFIF header.
pub open spec fn density_bytes(density: Density) -> Seq<u8> {
    match density {
        Density::Unspecified => seq![0u8] + u16_bytes(1) + u16_bytes(1),
        Density::Inch { x, y } => seq![1u8] + u16_bytes(x) + u16_bytes(y),
        Density::Centimeter { x, y } => seq![2u8] + u16_bytes(x) + u16_bytes(y),
    }
}

/// The JFIF APP0 header: version 1.02, the density and no thumbnail.
pub open spec fn header_bytes(density: Density) -> Seq<u8> {
    marker_bytes(Marker::APP(0)) + u16_bytes(16) + seq![0x4Au8, 0x46u8, 0x49u8, 0x46u8, 0u8]
        + seq![1u8, 2u8] + density_bytes(density) + seq![0u8, 0u8]
}

/// Law: the JFIF APP0 header is 18 bytes: the APP0 marker, length 16,
/// `JFIF\0`, version 1.02, the density unit (0 no unit, 1 dots per inch, 2
/// dots per centimeter), the horizontal and vertical density big-endian (1
/// and 1 where no unit is given) and no thumbnail.
pub proof fn lemma_jfif_header(density: Density)
    ensures
        ({
            let (unit, x, y) = match density {
                Density::Unspecified => (0u8, 1u16, 1u16),
                Density::Inch { x, y } => (1u8, x, y),
                Density::Centimeter { x, y } => (2u8, x, y),
            };
            header_bytes(density) == seq![
                0xFFu8,
                0xE0u8,
                0u8,
                16u8,
                0x4Au8,
                0x46u8,
                0x49u8,
                0x46u8,
                0u8,
                1u8,
                2u8,
                unit,
                (x / 256) as u8,
                (x % 256) as u8,
                (y / 256) as u8,
                (y % 256) as u8,
                0u8,
                0u8,
            ]
        }),
{
    assert(Marker::APP(0).spec_code() == 0xE0);
    let h = header_bytes(density);
    let (unit, x, y) = match density {
        Density::Unspecified => (0u8, 1u16, 1u16),
        Density::Inch { x, y } => (1u8, x, y),
        Density::Centimeter { x, y } => (2u8, x, y),
    };
    assert(h =~= seq![
        0xFFu8,
        0xE0u8,
        0u8,
        16u8,
        0x4Au8,
        0x46u8,
        0x49u8,
        0x46u8,
        0u8,
        1u8,
        2u8,
        unit,
        (x / 256) as u8,
        (x % 256) as u8,
        (y / 256) as u8,
        (y % 256) as u8,
        0u8,
        0u8,
    ]);
}

/// Law: the header tells the density units apart: the same density values
/// in inches and in centimeters give different headers, which differ in
/// the unit byte alone.
pub proof fn lemma_density_units_differ(x: u16, y: u16)
    ensures
        header_bytes(Density::Inch { x, y }) != header_bytes(Density::Centimeter { x, y }),
        header_bytes(Density::Inch { x, y })[11] == 1,
        header_bytes(Density::Centimeter { x, y })[11] == 2,
        header_bytes(Density::Unspecified)[11] == 0,
        forall|i: int|
            0 <= i < 18 && i != 11 ==> #[trigger] header_bytes(Density::Inch { x, y })[i] == header_bytes(
                Density::Centimeter { x, y },
            )[i],
{
    lemma_jfif_header(Density::Inch { x, y });
    lemma_jfif_header(Density::Centimeter { x, y });
    lemma_jfif_header(Density::Unspecified);
    assert(header_bytes(Density::Inch { x, y })[11] != header_bytes(Density::Centimeter { x, y })[11]);
}

/// Zig-zag sequence of quantized DCT coefficients (Figure A.6): position `i`
/// of the sequence holds the coefficient at natural index `zigzag()[i]`.
pub open spec fn zigzag() -> Seq<u8> {
    seq![
        0u8, 1, 8, 16, 9, 2, 3, 10, 17, 24, 32, 25, 18, 11, 4, 5, 12, 19, 26, 33, 40, 48, 41, 34, 27,
        20, 13, 6, 7, 14, 21, 28, 35, 42, 49, 56, 57, 50, 43, 36, 29, 22, 15, 23, 30, 37, 44, 51,
        58, 59, 52, 45, 38, 31, 39, 46, 53, 60, 61, 54, 47, 55, 62, 63,
    ]
}

/// The zig-zag sequence.
pub fn zigzag_table() -> (r: [u8; 64])
    ensures
        r@ == zigzag(),
{
    let r: [u8; 64] = [
        0, 1, 8, 16, 9, 2, 3, 10, 17, 24, 32, 25, 18, 11, 4, 5, 12, 19, 26, 33, 40, 48, 41, 34, 27,
        20, 13, 6, 7, 14, 21, 28, 35, 42, 49, 56, 57, 50, 43, 36, 29, 22, 15, 23, 30, 37, 44, 51,
        58, 59, 52, 45, 38, 31, 39, 46, 53, 60, 61, 54, 47, 55, 62, 63,
    ];
    assert(r@ =~= zigzag());
    r
}

/// Absolute value.
pub open spec fn abs(v: int) -> nat {
    if v < 0 {
        (-v) as nat
    } else {
        v as nat
    }
}

/// Number of binary digits of `a`.
pub open spec fn num_bits(a: nat) -> nat
    decreases a,
{
    if a == 0 {
        0
    } else {
        1 + num_bits(a / 2)
    }
}

/// Size category of a coefficient (Tables F.1 and F.2).
pub open spec fn coef_size(v: int) -> nat {
    num_bits(abs(v))
}

/// The additional bits that follow the size category of a coefficient: the
/// value itself when positive, `v - 1` in `size` bits when negative.
pub open spec fn coef_bits(v: int) -> nat {
    if v >= 0 {
        v as nat
    } else {
        (v + pow2(coef_size(v)) - 1) as nat
    }
}

/// The value that a decoder reads back from a size and additional bits
/// (procedure EXTEND of Figure F.12).
pub open spec fn extend(size: nat, bits: nat) -> int {
    if size == 0 {
        0
    } else if bits < pow2((size - 1) as nat) {
        bits - pow2(size) + 1
    } else {
        bits as int
    }
}

/// Additional bits of a coefficient.
pub open spec fn value_bits(v: int) -> Seq<bool> {
    bits_of(coef_bits(v), coef_size(v))
}

/// Bits that code the difference of a DC coefficient to the previous one.
pub open spec fn dc_bits(table: HuffmanTable, diff: int) -> Seq<bool> {
    table.sym_bits(coef_size(diff) as u8) + value_bits(diff)
}

/// `k` zero run length codes (ZRL, sixteen zeros each).
pub open spec fn zrl_bits(table: HuffmanTable, k: nat) -> Seq<bool>
    decreases k,
{
    if k == 0 {
        Seq::empty()
    } else {
        zrl_bits(table, (k - 1) as nat) + table.sym_bits(0xF0)
    }
}

/// Bits that code AC coefficients run-length style (Figure F.2), after `run`
/// zeros that were not coded yet: each non-zero coefficient is coded with the
/// preceding run of zeros, sixteen zeros at a time as ZRL; trailing zeros end
/// with an end-of-block code.
pub open spec fn ac_bits(table: HuffmanTable, coefs: Seq<i16>, run: nat) -> Seq<bool>
    decreases coefs.len(),
{
    if coefs.len() == 0 {
        if run > 0 {
            table.sym_bits(0x00)
        } else {
            Seq::empty()
        }
    } else if coefs[0] == 0 {
        ac_bits(table, coefs.drop_first(), run + 1)
    } else {
        zrl_bits(table, run / 16) + table.sym_bits(((run % 16) * 16 + coef_size(coefs[0] as int)) as u8)
            + value_bits(coefs[0] as int) + ac_bits(table, coefs.drop_first(), 0)
    }
}

/// Bits of a whole block in sequential mode: the DC difference to `prev_dc`
/// and the 63 AC coefficients.
pub open spec fn block_bits(block: Seq<i16>, prev_dc: int, dc_table: HuffmanTable, ac_table: HuffmanTable) -> Seq<bool> {
    dc_bits(dc_table, block[0] - prev_dc) + ac_bits(ac_table, block.subrange(1, 64), 0)
}

/// A DHT segment.
pub open spec fn huffman_segment_bytes(class: CodingClass, destination: u8, table: HuffmanTable) -> Seq<u8> {
    marker_bytes(Marker::DHT) + u16_bytes((19 + table.spec_values().len()) as u16) + seq![
        (class.spec_number() * 16 + destination) as u8,
    ] + table.lengths() + table.spec_values()
}

/// A DQT segment: 8 bit precision, then the 64 entries; entry `k` is the
/// divisor of the `k`-th coefficient in zig-zag order.
pub open spec fn quantization_segment_bytes(destination: u8, table: QuantizationTable) -> Seq<u8> {
    marker_bytes(Marker::DQT) + u16_bytes(67) + seq![destination] + table.entries()
}

/// Bytes of the components in a frame header.
pub open spec fn frame_components_bytes(components: Seq<Component>) -> Seq<u8>
    decreases components.len(),
{
    if components.len() == 0 {
        Seq::empty()
    } else {
        frame_components_bytes(components.drop_last()) + seq![
            components.last().id,
            (components.last().horizontal_sampling_factor * 16
                + components.last().vertical_sampling_factor) as u8,
            components.last().quantization_table,
        ]
    }
}

/// A start-of-frame segment.
pub open spec fn frame_header_bytes(width: u16, height: u16, components: Seq<Component>, progressive: bool) -> Seq<u8> {
    marker_bytes(
        Marker::SOF(
            if progressive {
                SOFType::ProgressiveDCT
            } else {
                SOFType::BaselineDCT
            },
        ),
    ) + u16_bytes((8 + 3 * components.len()) as u16) + seq![8u8] + u16_bytes(height) + u16_bytes(width)
        + seq![components.len() as u8] + frame_components_bytes(components)
}

/// Bytes of the components in a scan header.
pub open spec fn scan_components_bytes(components: Seq<Component>) -> Seq<u8>
    decreases components.len(),
{
    if components.len() == 0 {
        Seq::empty()
    } else {
        scan_components_bytes(components.drop_last()) + seq![
            components.last().id,
            (components.last().dc_huffman_table * 16 + components.last().ac_huffman_table) as u8,
        ]
    }
}

/// A start-of-scan segment; a scan without spectral selection covers the
/// coefficients 0 to 63.
pub open spec fn scan_header_bytes(components: Seq<Component>, spectral: Option<(u8, u8)>) -> Seq<u8> {
    let (start, end) = match spectral {
        Some(s) => s,
        None => (0u8, 63u8),
    };
    marker_bytes(Marker::SOS) + u16_bytes((6 + 2 * components.len()) as u16) + seq![
        components.len() as u8,
    ] + scan_components_bytes(components) + seq![start, end, 0u8]
}

/// Sampling factors and table numbers fit in four bits each.
pub open spec fn component_fits(c: Component) -> bool {
    &&& c.horizontal_sampling_factor < 16
    &&& c.vertical_sampling_factor < 16
    &&& c.dc_huffman_table < 16
    &&& c.ac_huffman_table < 16
}

pub proof fn lemma_num_bits_bound(a: nat)
    ensures
        a < pow2(num_bits(a)),
        a > 0 ==> pow2((num_bits(a) - 1) as nat) <= a,
    decreases a,
{
    lemma2_to64();
    if a > 0 {
        lemma_num_bits_bound(a / 2);
        lemma_pow2_unfold(num_bits(a));
        if a / 2 > 0 {
            lemma_pow2_unfold(num_bits(a / 2));
        }
    }
}

pub proof fn lemma_num_bits_mono(a: nat, b: nat)
    requires
        a <= b,
    ensures
        num_bits(a) <= num_bits(b),
    decreases b,
{
    if a > 0 {
        lemma_num_bits_mono(a / 2, b / 2);
    }
}

/// Size and additional bits of a coefficient fit: the size is at most 15 and
/// the bits are below `2^size`.
pub proof fn lemma_coef_fits(v: int)
    requires
        -32767 <= v <= 32767,
    ensures
        coef_size(v) <= 15,
        coef_bits(v) < pow2(coef_size(v)),
        v < 0 ==> v + pow2(coef_size(v)) - 1 >= 0,
{
    lemma2_to64();
    lemma_num_bits_bound(abs(v));
    lemma_num_bits_mono(abs(v), 32767);
    assert(num_bits(32767) == 15) by {
        reveal_with_fuel(num_bits, 16);
    }
    lemma_pow2_pos(coef_size(v));
    if v < 0 {
        lemma_pow2_unfold(coef_size(v));
    }
}

/// Law: a decoder reads every coefficient back from its size and additional
/// bits.
pub proof fn lemma_extend_coef(v: int)
    requires
        -32767 <= v <= 32767,
    ensures
        extend(coef_size(v), coef_bits(v)) == v,
{
    lemma_num_bits_bound(abs(v));
    lemma_coef_fits(v);
    if v != 0 {
        lemma_pow2_unfold(coef_size(v));
    }
}

/// The number of bits of a 16-bit number is 16 less its leading zeros.
proof fn lemma_leading_zeros_size(m: u16)
    ensures
        16 - vstd::std_specs::bits::u16_leading_zeros(m) == num_bits(m as nat),
{
    vstd::std_specs::bits::axiom_u16_leading_zeros(m);
    lemma2_to64();
    let lz = vstd::std_specs::bits::u16_leading_zeros(m);
    if m != 0 {
        assert(lz < 16);
        let k = 16 - lz;
        let s: u16 = (15 - lz) as u16;
        assert((m >> s) & 1u16 != 0u16);
        assert(((m >> s) & 1u16) != 0u16 && s < 16 ==> m >= (1u16 << s)) by (bit_vector);
        lemma_pow2_strictly_increases(s as nat, 16);
        lemma_u16_shl_is_mul(1, s);
        assert(pow2((k - 1) as nat) <= m);
        if k < 16 {
            let t: u16 = k as u16;
            assert(m >> t == 0);
            assert(m >> t == 0 && t < 16 ==> m < (1u16 << t)) by (bit_vector);
            lemma_pow2_strictly_increases(t as nat, 16);
            lemma_u16_shl_is_mul(1, t);
        }
        assert(m < pow2(k as nat));
        lemma_num_bits_bound(m as nat);
        let n = num_bits(m as nat);
        if n < k {
            if n < k - 1 {
                lemma_pow2_strictly_increases(n, (k - 1) as nat);
            }
        } else if n > k {
            if n - 1 > k {
                lemma_pow2_strictly_increases(k as nat, (n - 1) as nat);
            }
        }
    }
}

/// Size and additional bits of a coefficient (Tables F.1 and F.2).
pub fn get_code(value: i16) -> (r: (u8, u16))
    requires
        value > i16::MIN,
    ensures
        r.0 == coef_size(value as int),
        r.1 == coef_bits(value as int),
        r.1 < pow2(r.0 as nat),
        r.0 <= 15,
{
    let magnitude: u16 = if value < 0 {
        (-value) as u16
    } else {
        value as u16
    };
    proof {
        lemma_leading_zeros_size(magnitude);
        lemma_coef_fits(value as int);
    }
    let num_bits = (16 - magnitude.leading_zeros()) as u8;
    proof {
        lemma2_to64();
        lemma_pow2_strictly_increases(num_bits as nat, 16);
        lemma_u32_shl_is_mul(1, num_bits as u32);
    }
    let p: u32 = 1u32 << (num_bits as u32);
    let coefficient: u16 = if value < 0 {
        (value as i32 + p as i32 - 1) as u16
    } else {
        value as u16
    };
    (num_bits, coefficient)
}

/// Writer of a JFIF stream into memory.
///
/// Bytes are appended to `w`. Bits of the entropy-coded data are collected in
/// `bit_buffer` until they make whole bytes; at most seven bits wait there.
pub struct JfifWriter {
    w: Vec<u8>,
    bit_buffer: u64,
    bit_count: u8,
}

impl JfifWriter {
    /// Bytes written so far.
    pub closed spec fn bytes(&self) -> Seq<u8> {
        self.w@
    }

    /// Bits written that do not make a whole byte yet.
    pub closed spec fn pending(&self) -> Seq<bool> {
        bits_of(self.bit_buffer as nat, self.bit_count as nat)
    }

    /// Internal consistency of the bit buffer.
    pub closed spec fn wf(&self) -> bool {
        &&& self.bit_count < 8
        &&& self.bit_buffer < pow2(self.bit_count as nat)
    }

    /// Fewer than eight bits wait in a consistent writer.
    pub proof fn lemma_pending_short(&self)
        requires
            self.wf(),
        ensures
            self.pending().len() < 8,
    {
        lemma_bits_of_len(self.bit_buffer as nat, self.bit_count as nat);
    }

    /// A writer with nothing written.
    pub fn new() -> (r: JfifWriter)
        ensures
            r.wf(),
            r.bytes() == Seq::<u8>::empty(),
            r.pending() == Seq::<bool>::empty(),
    {
        proof {
            lemma2_to64();
        }
        JfifWriter { w: Vec::new(), bit_buffer: 0, bit_count: 0 }
    }

    /// The bytes written, handing over the writer.
    pub fn into_bytes(self) -> (r: Vec<u8>)
        ensures
            r@ == self.bytes(),
    {
        self.w
    }

    /// Append bytes.
    pub fn write(&mut self, buf: &[u8])
        ensures
            final(self).bytes() == old(self).bytes() + buf@,
            final(self).pending() == old(self).pending(),
            final(self).wf() == old(self).wf(),
    {
        let ghost start = self.w@;
        let mut i: usize = 0;
        while i < buf.len()
            invariant
                i <= buf.len(),
                self.w@ == start + buf@.take(i as int),
                self.bit_buffer == old(self).bit_buffer,
                self.bit_count == old(self).bit_count,
            decreases buf.len() - i,
        {
            self.w.push(buf[i]);
            i = i + 1;
            assert(buf@.take(i as int) =~= buf@.take((i - 1) as int).push(buf@[i - 1]));
        }
        assert(buf@.take(i as int) =~= buf@);
    }

    /// Append one byte.
    pub fn write_u8(&mut self, value: u8)
        ensures
            final(self).bytes() == old(self).bytes().push(value),
            final(self).pending() == old(self).pending(),
            final(self).wf() == old(self).wf(),
    {
        self.w.push(value);
    }

    /// Append a 16 bit value, most significant byte first.
    pub fn write_u16(&mut self, value: u16)
        ensures
            final(self).bytes() == old(self).bytes() + u16_bytes(value),
            final(self).pending() == old(self).pending(),
            final(self).wf() == old(self).wf(),
    {
        self.w.push((value / 256) as u8);
        self.w.push((value % 256) as u8);
        assert(self.w@ =~= old(self).bytes() + u16_bytes(value));
    }

    /// Append a marker.
    pub fn write_marker(&mut self, marker: Marker)
        requires
            marker.valid(),
        ensures
            final(self).bytes() == old(self).bytes() + marker_bytes(marker),
            final(self).pending() == old(self).pending(),
            final(self).wf() == old(self).wf(),
    {
        self.w.push(0xFF);
        self.w.push(marker.code());
        assert(self.w@ =~= old(self).bytes() + marker_bytes(marker));
    }

    /// Append a segment: marker, length and data.
    pub fn write_segment(&mut self, marker: Marker, data: &[u8])
        requires
            marker.valid(),
            data@.len() <= 65533,
        ensures
            final(self).bytes() == old(self).bytes() + segment_bytes(marker, data@),
            final(self).pending() == old(self).pending(),
            final(self).wf() == old(self).wf(),
    {
        self.write_marker(marker);
        self.write_u16(data.len() as u16 + 2);
        self.write(data);
        assert(self.bytes() =~= old(self).bytes() + segment_bytes(marker, data@));
    }

    /// Append the JFIF header with the given density.
    pub fn write_header(&mut self, density: &Density)
        ensures
            final(self).bytes() == old(self).bytes() + header_bytes(*density),
            final(self).pending() == old(self).pending(),
            final(self).wf() == old(self).wf(),
    {
        self.write_marker(Marker::APP(0));
        self.write_u16(16);
        self.write(&[0x4A, 0x46, 0x49, 0x46, 0x00]);
        self.write(&[0x01, 0x02]);
        match *density {
            Density::Unspecified => {
                self.write_u8(0x00);
                self.write_u16(1);
                self.write_u16(1);
            },
            Density::Inch { x, y } => {
                self.write_u8(0x01);
                self.write_u16(x);
                self.write_u16(y);
            },
            Density::Centimeter { x, y } => {
                self.write_u8(0x02);
                self.write_u16(x);
                self.write_u16(y);
            },
        }
        self.write(&[0x00, 0x00]);
        assert(self.bytes() =~= old(self).bytes() + header_bytes(*density));
    }

    /// Append the `size` low bits of `value` to the entropy-coded data.
    ///
    /// Every whole byte of pending bits is written out, stuffed.
    pub fn write_bits(&mut self, value: u32, size: u8)
        requires
            old(self).wf(),
            size <= 32,
            value < pow2(size as nat),
        ensures
            final(self).wf(),
            (final(self).bytes(), final(self).pending()) == emit(
                old(self).bytes(),
                old(self).pending(),
                bits_of(value as nat, size as nat),
            ),
    {
        let ghost all = self.pending() + bits_of(value as nat, size as nat);
        let ghost start = self.w@;
        proof {
            lemma2_to64();
            lemma2_to64_rest();
            lemma_pow2_strictly_increases(self.bit_count as nat, 8);
            lemma_bits_of_split(self.bit_buffer as nat, value as nat, self.bit_count as nat, size as nat);
            lemma_pow2_adds(self.bit_count as nat, size as nat);
            lemma_pow2_strictly_increases((self.bit_count + size) as nat, 64);
            lemma_pow2_pos(size as nat);
            vstd::arithmetic::mul::lemma_mul_strict_inequality(
                self.bit_buffer as int,
                pow2(self.bit_count as nat) as int,
                pow2(size as nat) as int,
            );
            vstd::arithmetic::mul::lemma_mul_is_commutative(
                self.bit_buffer as int,
                pow2(size as nat) as int,
            );
            vstd::arithmetic::mul::lemma_mul_is_commutative(
                pow2(self.bit_count as nat) as int,
                pow2(size as nat) as int,
            );
            lemma_u64_shl_is_mul(self.bit_buffer, size as u64);
        }
        let shifted: u64 = self.bit_buffer << (size as u64);
        assert(shifted == self.bit_buffer * pow2(size as nat));
        let mut buf: u64 = shifted + (value as u64);
        let mut count: u8 = self.bit_count + size;
        let ghost mut emitted: Seq<bool> = Seq::empty();
        proof {
            vstd::arithmetic::mul::lemma_mul_is_distributive_add(
                pow2(size as nat) as int,
                self.bit_buffer as int,
                1,
            );
            assert(buf < pow2(count as nat)) by {
                vstd::arithmetic::mul::lemma_mul_inequality(
                    (self.bit_buffer + 1) as int,
                    pow2(self.bit_count as nat) as int,
                    pow2(size as nat) as int,
                );
                vstd::arithmetic::mul::lemma_mul_is_commutative(
                    (self.bit_buffer + 1) as int,
                    pow2(size as nat) as int,
                );
            }
            assert(all == emitted + bits_of(buf as nat, count as nat));
        }
        while count >= 8
            invariant
                count <= 40,
                buf < pow2(count as nat),
                emitted.len() % 8 == 0,
                all == emitted + bits_of(buf as nat, count as nat),
                self.w@ == start + stuff(bytes_of(emitted)),
            decreases count,
        {
            let k: u8 = count - 8;
            proof {
                lemma2_to64();
                lemma_pow2_adds(k as nat, 8);
                lemma_pow2_pos(k as nat);
                lemma_u64_shr_is_div(buf, k as u64);
                lemma_u64_pow2_no_overflow(k as nat);
            }
            let high: u64 = buf >> (k as u64);
            let one_k: u64 = 1u64 << (k as u64);
            proof {
                lemma_u64_shl_is_mul(1, k as u64);
                vstd::arithmetic::div_mod::lemma_fundamental_div_mod(buf as int, pow2(k as nat) as int);
                vstd::arithmetic::div_mod::lemma_div_is_ordered(
                    buf as int,
                    (pow2(k as nat) * 256) as int,
                    pow2(k as nat) as int,
                );
                vstd::arithmetic::div_mod::lemma_div_multiples_vanish(256, pow2(k as nat) as int);
                vstd::arithmetic::mul::lemma_mul_is_commutative(256, pow2(k as nat) as int);
            }
            let low: u64 = buf % one_k;
            let byte: u8 = high as u8;
            proof {
                assert(high < 256);
                assert(buf == byte as nat * pow2(k as nat) + low) by {
                    vstd::arithmetic::mul::lemma_mul_is_commutative(
                        high as int,
                        pow2(k as nat) as int,
                    );
                }
                lemma_bits_of_split(byte as nat, low as nat, 8, k as nat);
                assert(bits_of(buf as nat, count as nat) == bits_of(byte as nat, 8) + bits_of(
                    low as nat,
                    k as nat,
                ));
                lemma_bits_of_len(byte as nat, 8);
                lemma_bytes_of_append(emitted, bits_of(byte as nat, 8));
                lemma_bytes_of_byte(byte);
                lemma_stuff_append(bytes_of(emitted), seq![byte]);
                lemma_stuff_byte(byte);
            }
            self.w.push(byte);
            if byte == 0xFF {
                self.w.push(0x00);
            }
            proof {
                assert(self.w@ =~= start + stuff(bytes_of(emitted + bits_of(byte as nat, 8))));
                assert(all =~= (emitted + bits_of(byte as nat, 8)) + bits_of(low as nat, k as nat));
                emitted = emitted + bits_of(byte as nat, 8);
            }
            buf = low;
            count = k;
        }
        proof {
            lemma_bits_of_len(buf as nat, count as nat);
            lemma_bits_of_len(value as nat, size as nat);
            lemma_bits_of_len(self.bit_buffer as nat, self.bit_count as nat);
            lemma_bytes_of_append(emitted, bits_of(buf as nat, count as nat));
            lemma_bytes_of_short(bits_of(buf as nat, count as nat));
            assert(bytes_of(all) =~= bytes_of(emitted));
            assert(8 * (all.len() / 8) == emitted.len()) by {
                vstd::arithmetic::div_mod::lemma_fundamental_div_mod_converse(
                    all.len() as int,
                    8,
                    (emitted.len() / 8) as int,
                    count as int,
                );
            }
            assert(tail_bits(all) =~= bits_of(buf as nat, count as nat));
        }
        self.bit_buffer = buf;
        self.bit_count = count;
    }

    /// Append the code of a symbol.
    pub fn huffman_encode(&mut self, val: u8, table: &HuffmanTable)
        requires
            old(self).wf(),
            table.wf(),
        ensures
            final(self).wf(),
            (final(self).bytes(), final(self).pending()) == emit(
                old(self).bytes(),
                old(self).pending(),
                table.sym_bits(val),
            ),
    {
        let (size, code) = table.get_for_value(val);
        proof {
            lemma2_to64();
            if size < 16 {
                lemma_pow2_strictly_increases(size as nat, 16);
            }
        }
        self.write_bits(code as u32, size);
    }

    /// Append the code of a symbol followed by `size` additional bits.
    pub fn huffman_encode_value(&mut self, size: u8, symbol: u8, value: u16, table: &HuffmanTable)
        requires
            old(self).wf(),
            table.wf(),
            size <= 16,
            value < pow2(size as nat),
        ensures
            final(self).wf(),
            (final(self).bytes(), final(self).pending()) == emit(
                old(self).bytes(),
                old(self).pending(),
                table.sym_bits(symbol) + bits_of(value as nat, size as nat),
            ),
    {
        let (num_bits, code) = table.get_for_value(symbol);
        proof {
            lemma2_to64();
            lemma_pow2_adds(num_bits as nat, size as nat);
            lemma_pow2_pos(size as nat);
            lemma_pow2_strictly_increases((num_bits + size) as nat, 33);
            lemma_mul_strict_inequality(code as int, pow2(num_bits as nat) as int, pow2(size as nat) as int);
            lemma_mul_is_commutative(code as int, pow2(size as nat) as int);
            lemma_mul_is_commutative(pow2(num_bits as nat) as int, pow2(size as nat) as int);
            lemma_mul_is_distributive_add_other_way(pow2(size as nat) as int, code as int, 1);
            assert(code as nat * pow2(size as nat) + value < pow2((num_bits + size) as nat)) by {
                lemma_mul_inequality(
                    (code + 1) as int,
                    pow2(num_bits as nat) as int,
                    pow2(size as nat) as int,
                );
            }
            lemma_u32_shl_is_mul(code as u32, size as u32);
            lemma_bits_of_split(code as nat, value as nat, num_bits as nat, size as nat);
        }
        let shifted: u32 = (code as u32) << (size as u32);
        let temp: u32 = shifted + (value as u32);
        self.write_bits(temp, size + num_bits);
        proof {
            assert((size + num_bits) as nat == num_bits as nat + size as nat);
        }
    }

    /// Append the coded difference of a DC coefficient to the previous one.
    pub fn write_dc(&mut self, value: i16, prev_dc: i16, dc_table: &HuffmanTable)
        requires
            old(self).wf(),
            dc_table.wf(),
            -32767 <= value - prev_dc <= 32767,
        ensures
            final(self).wf(),
            (final(self).bytes(), final(self).pending()) == emit(
                old(self).bytes(),
                old(self).pending(),
                dc_bits(*dc_table, value - prev_dc),
            ),
    {
        let diff = value - prev_dc;
        let (size, value) = get_code(diff);
        self.huffman_encode_value(size, size, value, dc_table);
    }

    /// Append the coded AC coefficients `start` to `end` (exclusive) of a
    /// block in zig-zag order.
    pub fn write_ac_block(&mut self, block: &[i16; 64], start: usize, end: usize, ac_table: &HuffmanTable)
        requires
            old(self).wf(),
            ac_table.wf(),
            start <= end <= 64,
            forall|i: int| start <= i < end ==> #[trigger] block@[i] > i16::MIN,
        ensures
            final(self).wf(),
            (final(self).bytes(), final(self).pending()) == emit(
                old(self).bytes(),
                old(self).pending(),
                ac_bits(*ac_table, block@.subrange(start as int, end as int), 0),
            ),
    {
        let ghost whole = block@.subrange(start as int, end as int);
        let ghost mut written: Seq<bool> = Seq::empty();
        let mut zero_run: u8 = 0;
        let mut i: usize = start;
        proof {
            self.lemma_pending_short();
            lemma_emit_empty(self.bytes(), self.pending());
            assert(block@.subrange(start as int, end as int) =~= whole);
        }
        while i < end
            invariant
                start <= i <= end <= 64,
                zero_run as int <= i - start,
                self.wf(),
                ac_table.wf(),
                forall|j: int| start <= j < end ==> #[trigger] block@[j] > i16::MIN,
                whole == block@.subrange(start as int, end as int),
                (self.bytes(), self.pending()) == emit(old(self).bytes(), old(self).pending(), written),
                written + ac_bits(*ac_table, block@.subrange(i as int, end as int), zero_run as nat)
                    == ac_bits(*ac_table, whole, 0),
            decreases end - i,
        {
            let value = block[i];
            let ghost rest = block@.subrange(i as int, end as int);
            assert(rest.drop_first() =~= block@.subrange(i + 1, end as int));
            assert(rest[0] == value);
            if value == 0 {
                zero_run = zero_run + 1;
            } else {
                let ghost run0 = zero_run as nat;
                let ghost mut k: nat = 0;
                let ghost before = written;
                while zero_run > 15
                    invariant
                        run0 == zero_run + 16 * k,
                        zero_run <= 64,
                        self.wf(),
                        ac_table.wf(),
                        written == before + zrl_bits(*ac_table, k),
                        (self.bytes(), self.pending()) == emit(old(self).bytes(), old(self).pending(), written),
                    decreases zero_run,
                {
                    let ghost b = self.bytes();
                    let ghost p = self.pending();
                    self.huffman_encode(0xF0, ac_table);
                    proof {
                        lemma_emit_compose(old(self).bytes(), old(self).pending(), written, ac_table.sym_bits(0xF0));
                        written = written + ac_table.sym_bits(0xF0);
                        k = k + 1;
                        assert(zrl_bits(*ac_table, k) == zrl_bits(*ac_table, (k - 1) as nat) + ac_table.sym_bits(0xF0));
                        assert(written =~= before + zrl_bits(*ac_table, k));
                    }
                    zero_run = zero_run - 16;
                }
                proof {
                    assert(k == run0 / 16 && zero_run == run0 % 16) by {
                        vstd::arithmetic::div_mod::lemma_fundamental_div_mod_converse(
                            run0 as int,
                            16,
                            k as int,
                            zero_run as int,
                        );
                    }
                    lemma_coef_fits(value as int);
                }
                let (size, bits) = get_code(value);
                let symbol: u8 = zero_run * 16 + size;
                self.huffman_encode_value(size, symbol, bits, ac_table);
                proof {
                    let add = ac_table.sym_bits(symbol) + bits_of(bits as nat, size as nat);
                    lemma_emit_compose(old(self).bytes(), old(self).pending(), written, add);
                    written = written + add;
                    assert(written + ac_bits(*ac_table, block@.subrange(i + 1, end as int), 0) =~= before
                        + ac_bits(*ac_table, rest, run0));
                }
                zero_run = 0;
            }
            i = i + 1;
        }
        if zero_run > 0 {
            self.huffman_encode(0x00, ac_table);
            proof {
                lemma_emit_compose(old(self).bytes(), old(self).pending(), written, ac_table.sym_bits(0x00));
                assert(block@.subrange(i as int, end as int).len() == 0);
                written = written + ac_table.sym_bits(0x00);
            }
        } else {
            proof {
                assert(block@.subrange(i as int, end as int).len() == 0);
                assert(written =~= written + ac_bits(*ac_table, block@.subrange(i as int, end as int), 0));
            }
        }
        proof {
            assert(written =~= ac_bits(*ac_table, whole, 0));
        }
    }

    /// Append a whole block in sequential mode.
    pub fn write_block(&mut self, block: &[i16; 64], prev_dc: i16, dc_table: &HuffmanTable, ac_table: &HuffmanTable)
        requires
            old(self).wf(),
            dc_table.wf(),
            ac_table.wf(),
            -32767 <= block@[0] - prev_dc <= 32767,
            forall|i: int| 1 <= i < 64 ==> #[trigger] block@[i] > i16::MIN,
        ensures
            final(self).wf(),
            (final(self).bytes(), final(self).pending()) == emit(
                old(self).bytes(),
                old(self).pending(),
                block_bits(block@, prev_dc as int, *dc_table, *ac_table),
            ),
    {
        self.write_dc(block[0], prev_dc, dc_table);
        let ghost mid = (self.bytes(), self.pending());
        self.write_ac_block(block, 1, 64, ac_table);
        proof {
            lemma_emit_compose(
                old(self).bytes(),
                old(self).pending(),
                dc_bits(*dc_table, block@[0] - prev_dc),
                ac_bits(*ac_table, block@.subrange(1, 64), 0),
            );
        }
    }

    /// Append a DHT segment for a table.
    pub fn write_huffman_segment(&mut self, class: CodingClass, destination: u8, table: &HuffmanTable)
        requires
            destination < 4,
            table.wf(),
        ensures
            final(self).bytes() == old(self).bytes() + huffman_segment_bytes(class, destination, *table),
            final(self).pending() == old(self).pending(),
            final(self).wf() == old(self).wf(),
    {
        proof {
            table.lemma_wf();
        }
        self.write_marker(Marker::DHT);
        self.write_u16(2 + 1 + 16 + table.values().len() as u16);
        self.write_u8(class.number() * 16 + destination);
        self.write(table.length());
        self.write(table.values());
        assert(self.bytes() =~= old(self).bytes() + huffman_segment_bytes(class, destination, *table));
    }

    /// Append a DQT segment for a table.
    pub fn write_quantization_segment(&mut self, destination: u8, table: &QuantizationTable)
        requires
            destination < 4,
            table.wf(),
        ensures
            final(self).bytes() == old(self).bytes() + quantization_segment_bytes(destination, *table),
            final(self).pending() == old(self).pending(),
            final(self).wf() == old(self).wf(),
    {
        self.write_marker(Marker::DQT);
        self.write_u16(2 + 1 + 64);
        self.write_u8(destination);
        proof {
            table.lemma_wf();
        }
        let ghost start = self.bytes();
        let mut i: usize = 0;
        while i < 64
            invariant
                i <= 64,
                table.entries().len() == 64,
                self.bytes() == start + table.entries().take(i as int),
                self.pending() == old(self).pending(),
                self.wf() == old(self).wf(),
            decreases 64 - i,
        {
            let v = table.get(i);
            self.write_u8(v);
            i = i + 1;
            assert(self.bytes() =~= start + table.entries().take(i as int));
        }
        assert(table.entries().take(64) =~= table.entries());
        assert(self.bytes() =~= old(self).bytes() + quantization_segment_bytes(destination, *table));
    }

    /// Append a start-of-frame segment.
    pub fn write_frame_header(&mut self, width: u16, height: u16, components: &[Component], progressive: bool)
        requires
            components@.len() <= 4,
            forall|i: int| 0 <= i < components@.len() ==> component_fits(#[trigger] components@[i]),
        ensures
            final(self).bytes() == old(self).bytes() + frame_header_bytes(width, height, components@, progressive),
            final(self).pending() == old(self).pending(),
            final(self).wf() == old(self).wf(),
    {
        if progressive {
            self.write_marker(Marker::SOF(SOFType::ProgressiveDCT));
        } else {
            self.write_marker(Marker::SOF(SOFType::BaselineDCT));
        }
        self.write_u16(2 + 1 + 2 + 2 + 1 + (components.len() as u16) * 3);
        self.write_u8(8);
        self.write_u16(height);
        self.write_u16(width);
        self.write_u8(components.len() as u8);
        let ghost start = self.bytes();
        let mut i: usize = 0;
        while i < components.len()
            invariant
                i <= components@.len() <= 4,
                forall|j: int| 0 <= j < components@.len() ==> component_fits(#[trigger] components@[j]),
                self.bytes() == start + frame_components_bytes(components@.take(i as int)),
                self.pending() == old(self).pending(),
                self.wf() == old(self).wf(),
            decreases components@.len() - i,
        {
            let c = components[i];
            assert(component_fits(components@[i as int]));
            self.write_u8(c.id);
            self.write_u8(c.horizontal_sampling_factor * 16 + c.vertical_sampling_factor);
            self.write_u8(c.quantization_table);
            i = i + 1;
            assert(components@.take(i as int).drop_last() =~= components@.take(i - 1));
            assert(self.bytes() =~= start + frame_components_bytes(components@.take(i as int)));
        }
        assert(components@.take(i as int) =~= components@);
        assert(self.bytes() =~= old(self).bytes() + frame_header_bytes(width, height, components@, progressive));
    }

    /// Append a start-of-scan segment.
    pub fn write_scan_header(&mut self, components: &[Component], spectral: Option<(u8, u8)>)
        requires
            components@.len() <= 4,
            forall|i: int| 0 <= i < components@.len() ==> component_fits(#[trigger] components@[i]),
        ensures
            final(self).bytes() == old(self).bytes() + scan_header_bytes(components@, spectral),
            final(self).pending() == old(self).pending(),
            final(self).wf() == old(self).wf(),
    {
        self.write_marker(Marker::SOS);
        self.write_u16(2 + 1 + (components.len() as u16) * 2 + 3);
        self.write_u8(components.len() as u8);
        let ghost start = self.bytes();
        let mut i: usize = 0;
        while i < components.len()
            invariant
                i <= components@.len() <= 4,
                forall|j: int| 0 <= j < components@.len() ==> component_fits(#[trigger] components@[j]),
                self.bytes() == start + scan_components_bytes(components@.take(i as int)),
                self.pending() == old(self).pending(),
                self.wf() == old(self).wf(),
            decreases components@.len() - i,
        {
            let c = components[i];
            assert(component_fits(components@[i as int]));
            self.write_u8(c.id);
            self.write_u8(c.dc_huffman_table * 16 + c.ac_huffman_table);
            i = i + 1;
            assert(components@.take(i as int).drop_last() =~= components@.take(i - 1));
            assert(self.bytes() =~= start + scan_components_bytes(components@.take(i as int)));
        }
        assert(components@.take(i as int) =~= components@);
        let (spectral_start, spectral_end) = match spectral {
            Some(s) => s,
            None => (0, 63),
        };
        self.write_u8(spectral_start);
        self.write_u8(spectral_end);
        self.write_u8(0);
        assert(self.bytes() =~= old(self).bytes() + scan_header_bytes(components@, spectral));
    }

    /// End the entropy-coded data: pad the pending bits with ones to a whole
    /// byte and write it.
    pub fn finalize_bit_buffer(&mut self)
        requires
            old(self).wf(),
        ensures
            final(self).wf(),
            final(self).bytes() == old(self).bytes() + stuff(bytes_of(old(self).pending() + ones(7))),
            final(self).pending() == Seq::<bool>::empty(),
    {
        proof {
            lemma2_to64();
            assert(bits_of(0x7F, 7) =~= ones(7)) by {
                reveal_with_fuel(bits_of, 8);
            }
        }
        self.write_bits(0x7F, 7);
        self.bit_buffer = 0;
        self.bit_count = 0;
        proof {
            lemma2_to64();
        }
    }
}

} // verus!
