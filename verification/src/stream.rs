//! Model of the JPEG stream that the encoder writes: the components of each
//! colorspace, the blocks of each component and the scans that code them.
use vstd::prelude::*;

use crate::bitstream::padded_bytes;
use crate::encoder::{Component, JpegColorType, SamplingFactor};
use crate::fdct::{as_ints, fdct_spec};
use crate::huffman::{CodingClass, HuffmanTable};
use crate::image_buffer::ImageBuffer;
use crate::quantization::{quantized, QuantizationTable};
use crate::writer::{
    ac_bits, block_bits, dc_bits, frame_header_bytes, huffman_segment_bytes, quantization_segment_bytes,
    scan_header_bytes, zigzag,
};

verus! {

/// A component with the given identifier, tables and sampling factors.
pub open spec fn component(id: u8, dest: u8, h: u8, v: u8) -> Component {
    Component {
        id,
        quantization_table: dest,
        dc_huffman_table: dest,
        ac_huffman_table: dest,
        horizontal_sampling_factor: h,
        vertical_sampling_factor: v,
    }
}

/// The components of a colorspace: luma-like components use the tables of
/// destination 0 and the luma sampling factors, the others destination 1 and
/// no subsampling. CMYK keeps all of C, M and Y at destination 1.
pub open spec fn spec_components(color: JpegColorType, sf: SamplingFactor) -> Seq<Component> {
    let (h, v) = sf.spec_factors();
    match color {
        JpegColorType::Luma => seq![component(0, 0, 1, 1)],
        JpegColorType::Ycbcr => seq![component(0, 0, h, v), component(1, 1, 1, 1), component(2, 1, 1, 1)],
        JpegColorType::Cmyk => seq![
            component(0, 1, 1, 1),
            component(1, 1, 1, 1),
            component(2, 1, 1, 1),
            component(3, 0, h, v),
        ],
        JpegColorType::Ycck => seq![
            component(0, 0, h, v),
            component(1, 1, 1, 1),
            component(2, 1, 1, 1),
            component(3, 0, h, v),
        ],
    }
}

/// Largest horizontal and vertical sampling factor of the components.
pub open spec fn max_sampling(color: JpegColorType, sf: SamplingFactor) -> (int, int) {
    match color {
        JpegColorType::Luma => (1, 1),
        _ => (sf.spec_factors().0 as int, sf.spec_factors().1 as int),
    }
}

/// Rounded-up quotient.
pub open spec fn ceil_div_int(value: int, div: int) -> int {
    (value + div - 1) / div
}

/// A coordinate moved inside `0 .. size`: positions past the edge repeat the
/// last row or column.
pub open spec fn clamp_to(v: int, size: int) -> int {
    if v < size {
        v
    } else {
        size - 1
    }
}

/// Value of component `c` at `(x, y)`, the image extended past its right and
/// bottom edges by repeating the last column and row.
pub open spec fn sample<I: ImageBuffer>(img: I, c: int, x: int, y: int) -> u8 {
    img.pixel(clamp_to(x, img.spec_width() as int), clamp_to(y, img.spec_height() as int))[c]
}

/// The 8x8 samples of component `c` with the top left one at `(x0, y0)`,
/// taking every `hs`-th column and `vs`-th row, shifted to be centered on 0.
pub open spec fn level_shifted_block<I: ImageBuffer>(img: I, c: int, x0: int, y0: int, hs: int, vs: int) -> Seq<i16> {
    Seq::new(64, |k: int| (sample(img, c, x0 + (k % 8) * hs, y0 + (k / 8) * vs) - 128) as i16)
}

/// Quantized coefficients of a block, in zig-zag order.
pub open spec fn quantize_spec(coefs: Seq<int>, table: QuantizationTable) -> Seq<i16> {
    Seq::new(64, |k: int| quantized(coefs[zigzag()[k] as int], table.entries()[k] as int) as i16)
}

/// A block as it is coded: samples, level shift, DCT and quantization.
#[verifier::opaque]
pub open spec fn coded_block<I: ImageBuffer>(
    img: I,
    c: int,
    x0: int,
    y0: int,
    hs: int,
    vs: int,
    table: QuantizationTable,
) -> Seq<i16> {
    quantize_spec(fdct_spec(as_ints(level_shifted_block(img, c, x0, y0, hs, vs))), table)
}

/// The blocks of component `i` in the order of a scan of that component
/// alone: rows of blocks from the top, blocks of a row from the left. A
/// component sampled at `h` of the largest factor `mh` is `ceil(W * h / mh)`
/// samples wide, so its rows hold `ceil(ceil(W * h / mh) / 8)` blocks, which
/// is `ceil(ceil(W / 8) / (mh / h))`; likewise for the number of rows.
pub open spec fn component_blocks<I: ImageBuffer>(
    img: I,
    comps: Seq<Component>,
    mh: int,
    mv: int,
    i: int,
    table: QuantizationTable,
) -> Seq<Seq<i16>> {
    let hs = mh / comps[i].horizontal_sampling_factor as int;
    let vs = mv / comps[i].vertical_sampling_factor as int;
    let cols = ceil_div_int(ceil_div_int(img.spec_width() as int, 8), hs);
    let rows = ceil_div_int(ceil_div_int(img.spec_height() as int, 8), vs);
    Seq::new(
        (cols * rows) as nat,
        |n: int| coded_block(img, i, (n % cols) * 8 * hs, (n / cols) * 8 * vs, hs, vs, table),
    )
}

/// Rounding up twice is rounding up once by the product.
proof fn lemma_ceil_nested(x: int, b: int, c: int)
    requires
        x >= 0,
        b > 0,
        c > 0,
    ensures
        ceil_div_int(ceil_div_int(x, b), c) == ceil_div_int(x, b * c),
{
    let y = x + b - 1;
    vstd::arithmetic::div_mod::lemma_fundamental_div_mod(y, b);
    vstd::arithmetic::div_mod::lemma_mod_pos_bound(y, b);
    let q = y / b;
    let r = y % b;
    assert(y + b * (c - 1) == (q + c - 1) * b + r) by (nonlinear_arith)
        requires
            y == b * q + r,
    ;
    vstd::arithmetic::div_mod::lemma_fundamental_div_mod_converse(y + b * (c - 1), b, q + c - 1, r);
    assert(y + b * (c - 1) == x + b * c - 1) by (nonlinear_arith)
        requires
            y == x + b - 1,
    ;
    assert(x + b * c - 1 >= 0) by (nonlinear_arith)
        requires
            x >= 0,
            b > 0,
            c > 0,
    ;
    vstd::arithmetic::div_mod::lemma_div_denominator(x + b * c - 1, b, c);
}

/// Rounding up `a * h / (s * h)` is rounding up `a / s`.
proof fn lemma_ceil_scaled(a: int, s: int, h: int)
    requires
        a >= 0,
        s > 0,
        h > 0,
    ensures
        ceil_div_int(a * h, s * h) == ceil_div_int(a, s),
{
    let y = a + s - 1;
    vstd::arithmetic::div_mod::lemma_fundamental_div_mod(y, s);
    vstd::arithmetic::div_mod::lemma_mod_pos_bound(y, s);
    let q = y / s;
    let r = y % s;
    assert(a * h + s * h - 1 == q * (s * h) + ((r + 1) * h - 1) && 0 <= (r + 1) * h - 1 < s * h)
        by (nonlinear_arith)
        requires
            y == a + s - 1,
            y == s * q + r,
            0 <= r < s,
            h > 0,
    ;
    vstd::arithmetic::div_mod::lemma_fundamental_div_mod_converse(a * h + s * h - 1, s * h, q, (r + 1) * h - 1);
}

/// Law: a component scanned alone has the blocks that its sampled size
/// needs: `ceil(ceil(W * h / mh) / 8)` blocks across and
/// `ceil(ceil(H * v / mv) / 8)` down, for a component of sampling factors
/// `h` and `v` that divide the largest ones `mh` and `mv`.
pub proof fn lemma_component_block_count<I: ImageBuffer>(
    img: I,
    comps: Seq<Component>,
    mh: int,
    mv: int,
    i: int,
    table: QuantizationTable,
)
    requires
        0 <= i < comps.len(),
        comps[i].horizontal_sampling_factor >= 1,
        comps[i].vertical_sampling_factor >= 1,
        mh >= 1,
        mv >= 1,
        mh % (comps[i].horizontal_sampling_factor as int) == 0,
        mv % (comps[i].vertical_sampling_factor as int) == 0,
    ensures
        component_blocks(img, comps, mh, mv, i, table).len() == ceil_div_int(
            ceil_div_int(img.spec_width() * comps[i].horizontal_sampling_factor, mh),
            8,
        ) * ceil_div_int(ceil_div_int(img.spec_height() * comps[i].vertical_sampling_factor, mv), 8),
{
    let h = comps[i].horizontal_sampling_factor as int;
    let v = comps[i].vertical_sampling_factor as int;
    let w = img.spec_width() as int;
    let ht = img.spec_height() as int;
    vstd::arithmetic::div_mod::lemma_fundamental_div_mod(mh, h);
    vstd::arithmetic::div_mod::lemma_fundamental_div_mod(mv, v);
    let hs = mh / h;
    let vs = mv / v;
    assert(hs >= 1 && vs >= 1) by (nonlinear_arith)
        requires
            mh == h * hs,
            mv == v * vs,
            mh >= 1,
            mv >= 1,
            h >= 1,
            v >= 1,
    ;
    assert(hs * h == mh && vs * v == mv) by (nonlinear_arith)
        requires
            mh == h * hs,
            mv == v * vs,
    ;
    lemma_ceil_nested(w, 8, hs);
    lemma_ceil_scaled(w, hs, h);
    lemma_ceil_nested(w, hs, 8);
    lemma_ceil_nested(ht, 8, vs);
    lemma_ceil_scaled(ht, vs, v);
    lemma_ceil_nested(ht, vs, 8);
    assert(8 * hs == hs * 8 && 8 * vs == vs * 8);
    let cols = ceil_div_int(ceil_div_int(w, 8), hs);
    let rows = ceil_div_int(ceil_div_int(ht, 8), vs);
    assert(cols >= 0 && rows >= 0);
    assert(cols * rows >= 0) by (nonlinear_arith)
        requires
            cols >= 0,
            rows >= 0,
    ;
}

/// DC value that the `n`-th block of a sequence is coded against.
pub open spec fn prev_dc(blocks: Seq<Seq<i16>>, n: int) -> int {
    if n <= 0 {
        0
    } else {
        blocks[n - 1][0] as int
    }
}

/// Bits of the first `n` blocks of a sequential scan.
pub open spec fn sequential_bits(blocks: Seq<Seq<i16>>, n: int, dc: HuffmanTable, ac: HuffmanTable) -> Seq<bool>
    decreases n,
{
    if n <= 0 {
        Seq::empty()
    } else {
        sequential_bits(blocks, n - 1, dc, ac) + block_bits(blocks[n - 1], prev_dc(blocks, n - 1), dc, ac)
    }
}

/// Bits of the DC coefficients of the first `n` blocks of a progressive DC
/// scan.
pub open spec fn dc_scan_bits(blocks: Seq<Seq<i16>>, n: int, dc: HuffmanTable) -> Seq<bool>
    decreases n,
{
    if n <= 0 {
        Seq::empty()
    } else {
        dc_scan_bits(blocks, n - 1, dc) + dc_bits(dc, blocks[n - 1][0] - prev_dc(blocks, n - 1))
    }
}

/// Bits of the coefficients `start` to `end` (exclusive) of the first `n`
/// blocks of a progressive AC scan.
pub open spec fn ac_scan_bits(blocks: Seq<Seq<i16>>, n: int, start: int, end: int, ac: HuffmanTable) -> Seq<bool>
    decreases n,
{
    if n <= 0 {
        Seq::empty()
    } else {
        ac_scan_bits(blocks, n - 1, start, end, ac) + ac_bits(ac, blocks[n - 1].subrange(start, end), 0)
    }
}

/// Coefficients that a quantized block of 8-bit samples holds.
pub open spec fn block_in_range(b: Seq<i16>) -> bool {
    b.len() == 64 && forall|k: int| 0 <= k < 64 ==> -1023 <= #[trigger] b[k] <= 1023
}

/// A whole scan of one component in sequential mode.
pub open spec fn sequential_scan(c: Component, blocks: Seq<Seq<i16>>, dc: HuffmanTable, ac: HuffmanTable) -> Seq<u8> {
    scan_header_bytes(seq![c], None) + padded_bytes(sequential_bits(blocks, blocks.len() as int, dc, ac))
}

/// A progressive DC scan of one component.
pub open spec fn dc_scan(c: Component, blocks: Seq<Seq<i16>>, dc: HuffmanTable) -> Seq<u8> {
    scan_header_bytes(seq![c], Some((0u8, 0u8))) + padded_bytes(dc_scan_bits(blocks, blocks.len() as int, dc))
}

/// A progressive AC scan of one component over the coefficients `start` to
/// `end` (exclusive).
pub open spec fn ac_scan(c: Component, blocks: Seq<Seq<i16>>, start: int, end: int, ac: HuffmanTable) -> Seq<u8> {
    scan_header_bytes(seq![c], Some((start as u8, (end - 1) as u8))) + padded_bytes(
        ac_scan_bits(blocks, blocks.len() as int, start, end, ac),
    )
}

/// First coefficient of AC scan `scan` of `scans` (the DC scan excluded):
/// scans of `64 / scans` coefficients each, where that leaves every scan at
/// least one coefficient after the DC one; one coefficient per scan
/// otherwise.
pub open spec fn ac_scan_start(scan: int, scans: int) -> int {
    let values_per_scan = 64int / scans;
    if scan * values_per_scan < scan + 1 {
        scan + 1
    } else {
        scan * values_per_scan
    }
}

/// End (exclusive) of AC scan `scan` of `scans`: where the next scan
/// starts; the last scan takes the coefficients left over, up to 63.
pub open spec fn ac_scan_end(scan: int, scans: int) -> int {
    if scan == scans - 1 {
        64
    } else {
        ac_scan_start(scan + 1, scans)
    }
}

/// Largest horizontal sampling factor of the components, at least 1.
pub open spec fn max_h(comps: Seq<Component>) -> int
    decreases comps.len(),
{
    if comps.len() == 0 {
        1
    } else {
        let m = max_h(comps.drop_last());
        let h = comps.last().horizontal_sampling_factor as int;
        if h > m {
            h
        } else {
            m
        }
    }
}

/// Largest vertical sampling factor of the components, at least 1.
pub open spec fn max_v(comps: Seq<Component>) -> int
    decreases comps.len(),
{
    if comps.len() == 0 {
        1
    } else {
        let m = max_v(comps.drop_last());
        let v = comps.last().vertical_sampling_factor as int;
        if v > m {
            v
        } else {
            m
        }
    }
}

/// Facts about the components of a colorspace: one per component of the
/// colorspace, numbered from 0, with tables 0 or 1, sampling factors of 1 or
/// the largest factor, which is 1, 2 or 4.
pub proof fn lemma_components(color: JpegColorType, sf: SamplingFactor)
    ensures
        ({
            let comps = spec_components(color, sf);
            let mh = max_h(comps);
            let mv = max_v(comps);
            &&& comps.len() == color.spec_num_components()
            &&& 1 <= comps.len() <= 4
            &&& (mh == 1 || mh == 2 || mh == 4)
            &&& (mv == 1 || mv == 2 || mv == 4)
            &&& (mh, mv) == max_sampling(color, sf)
            &&& forall|i: int|
                0 <= i < comps.len() ==> {
                    let c = #[trigger] comps[i];
                    &&& c.id == i
                    &&& c.quantization_table < 2
                    &&& c.dc_huffman_table == c.quantization_table
                    &&& c.ac_huffman_table == c.quantization_table
                    &&& (c.horizontal_sampling_factor == 1 || c.horizontal_sampling_factor == mh)
                    &&& (c.vertical_sampling_factor == 1 || c.vertical_sampling_factor == mv)
                    &&& crate::writer::component_fits(c)
                }
        }),
{
    let comps = spec_components(color, sf);
    reveal_with_fuel(max_h, 5);
    reveal_with_fuel(max_v, 5);
    match sf {
        SamplingFactor::R4_4_4 => {},
        SamplingFactor::R4_4_0 => {},
        SamplingFactor::R4_4_1 => {},
        SamplingFactor::R4_2_2 => {},
        SamplingFactor::R4_2_0 => {},
        SamplingFactor::R4_2_1 => {},
        SamplingFactor::R4_1_1 => {},
        SamplingFactor::R4_1_0 => {},
    }
    match color {
        JpegColorType::Luma => {
            assert(comps.drop_last() =~= Seq::<Component>::empty());
        },
        JpegColorType::Ycbcr => {
            assert(comps.drop_last().drop_last().drop_last() =~= Seq::<Component>::empty());
        },
        _ => {
            assert(comps.drop_last().drop_last().drop_last().drop_last() =~= Seq::<Component>::empty());
        },
    }
}

/// The blocks of a list, each as its sequence of coefficients.
pub open spec fn block_views(blocks: Seq<[i16; 64]>) -> Seq<Seq<i16>> {
    blocks.map_values(|b: [i16; 64]| b@)
}


/// Buffers for an image of these dimensions, padded to whole MCUs, fit in
/// memory.
pub open spec fn dimensions_fit(width: u16, height: u16) -> bool {
    (width + 32) * (height + 32) * 4 <= usize::MAX
}


/// The blocks of component `i` in the MCU whose top left pixel is
/// `(8 * bx * mh, 8 * by * mv)`: rows of blocks from the top, each block
/// labeled with its component.
pub open spec fn mcu_component_units<I: ImageBuffer>(
    img: I,
    comps: Seq<Component>,
    mh: int,
    mv: int,
    tables: Seq<QuantizationTable>,
    i: int,
    bx: int,
    by: int,
) -> Seq<(int, Seq<i16>)> {
    let c = comps[i];
    let h = c.horizontal_sampling_factor as int;
    let v = c.vertical_sampling_factor as int;
    Seq::new(
        (h * v) as nat,
        |j: int|
            (
                i,
                coded_block(
                    img,
                    i,
                    bx * 8 * mh + (j % h) * 8,
                    by * 8 * mv + (j / h) * 8,
                    mh / h,
                    mv / v,
                    tables[c.quantization_table as int],
                ),
            ),
    )
}

/// The blocks of the first `n` components in an MCU, components in order.
pub open spec fn mcu_units<I: ImageBuffer>(
    img: I,
    comps: Seq<Component>,
    mh: int,
    mv: int,
    tables: Seq<QuantizationTable>,
    n: int,
    bx: int,
    by: int,
) -> Seq<(int, Seq<i16>)>
    decreases n,
{
    if n <= 0 {
        Seq::empty()
    } else {
        mcu_units(img, comps, mh, mv, tables, n - 1, bx, by) + mcu_component_units(
            img,
            comps,
            mh,
            mv,
            tables,
            n - 1,
            bx,
            by,
        )
    }
}

/// The blocks of the first `m` MCUs of an interleaved scan, `cols` MCUs per
/// row, rows from the top.
pub open spec fn interleaved_units<I: ImageBuffer>(
    img: I,
    comps: Seq<Component>,
    mh: int,
    mv: int,
    tables: Seq<QuantizationTable>,
    cols: int,
    m: int,
) -> Seq<(int, Seq<i16>)>
    decreases m,
{
    if m <= 0 {
        Seq::empty()
    } else {
        interleaved_units(img, comps, mh, mv, tables, cols, m - 1) + mcu_units(
            img,
            comps,
            mh,
            mv,
            tables,
            comps.len() as int,
            (m - 1) % cols,
            (m - 1) / cols,
        )
    }
}

/// DC coefficient of the last block of component `i` among the first `n`
/// labeled blocks, 0 when there is none.
pub open spec fn last_dc(units: Seq<(int, Seq<i16>)>, n: int, i: int) -> int
    decreases n,
{
    if n <= 0 {
        0
    } else if units[n - 1].0 == i {
        units[n - 1].1[0] as int
    } else {
        last_dc(units, n - 1, i)
    }
}

/// Bits of the first `n` labeled blocks of an interleaved scan: each block
/// coded against the last DC coefficient of its own component, with the
/// Huffman tables of its component.
pub open spec fn units_bits(
    units: Seq<(int, Seq<i16>)>,
    n: int,
    comps: Seq<Component>,
    tables: Seq<(HuffmanTable, HuffmanTable)>,
) -> Seq<bool>
    decreases n,
{
    if n <= 0 {
        Seq::empty()
    } else {
        let (i, b) = units[n - 1];
        units_bits(units, n - 1, comps, tables) + block_bits(
            b,
            last_dc(units, n - 1, i),
            tables[comps[i].dc_huffman_table as int].0,
            tables[comps[i].ac_huffman_table as int].1,
        )
    }
}

/// An interleaved scan of all components.
pub open spec fn interleaved_scan(
    comps: Seq<Component>,
    units: Seq<(int, Seq<i16>)>,
    tables: Seq<(HuffmanTable, HuffmanTable)>,
) -> Seq<u8> {
    scan_header_bytes(comps, None) + padded_bytes(units_bits(units, units.len() as int, comps, tables))
}

/// Blocks past the first `n` do not change what the first `n` give.
pub proof fn lemma_units_prefix(
    s: Seq<(int, Seq<i16>)>,
    t: Seq<(int, Seq<i16>)>,
    n: int,
    comps: Seq<Component>,
    tables: Seq<(HuffmanTable, HuffmanTable)>,
)
    requires
        0 <= n <= s.len(),
    ensures
        units_bits(s + t, n, comps, tables) == units_bits(s, n, comps, tables),
        forall|i: int| #[trigger] last_dc(s + t, n, i) == last_dc(s, n, i),
    decreases n,
{
    if n > 0 {
        lemma_units_prefix(s, t, n - 1, comps, tables);
        assert((s + t)[n - 1] == s[n - 1]);
        assert forall|i: int| #[trigger] last_dc(s + t, n, i) == last_dc(s, n, i) by {
            assert(last_dc(s + t, n - 1, i) == last_dc(s, n - 1, i));
        }
    }
}

/// Appending a block to the labeled blocks: its bits follow, and it becomes
/// the last block of its component.
pub proof fn lemma_units_push(
    s: Seq<(int, Seq<i16>)>,
    u: (int, Seq<i16>),
    comps: Seq<Component>,
    tables: Seq<(HuffmanTable, HuffmanTable)>,
)
    ensures
        units_bits(s.push(u), s.len() + 1int, comps, tables) == units_bits(s, s.len() as int, comps, tables)
            + block_bits(
            u.1,
            last_dc(s, s.len() as int, u.0),
            tables[comps[u.0].dc_huffman_table as int].0,
            tables[comps[u.0].ac_huffman_table as int].1,
        ),
        forall|i: int|
            #[trigger] last_dc(s.push(u), s.len() + 1int, i) == if i == u.0 {
                u.1[0] as int
            } else {
                last_dc(s, s.len() as int, i)
            },
{
    assert(s.push(u) =~= s + seq![u]);
    lemma_units_prefix(s, seq![u], s.len() as int, comps, tables);
    assert(s.push(u)[s.len() as int] == u);
    assert forall|i: int|
        #[trigger] last_dc(s.push(u), s.len() + 1int, i) == if i == u.0 {
            u.1[0] as int
        } else {
            last_dc(s, s.len() as int, i)
        } by {
        assert(last_dc(s + seq![u], s.len() as int, i) == last_dc(s, s.len() as int, i));
    }
}


/// The coded blocks of every component, each in the order of a scan of that
/// component alone, with the quantization table of the component.
pub open spec fn image_blocks<I: ImageBuffer>(
    img: I,
    comps: Seq<Component>,
    qts: Seq<QuantizationTable>,
) -> Seq<Seq<Seq<i16>>> {
    Seq::new(
        comps.len(),
        |i: int|
            component_blocks(img, comps, max_h(comps), max_v(comps), i, qts[comps[i].quantization_table as int]),
    )
}

/// Sequential scans of the first `n` components, one after the other.
pub open spec fn sequential_scans(
    comps: Seq<Component>,
    blocks: Seq<Seq<Seq<i16>>>,
    hts: Seq<(HuffmanTable, HuffmanTable)>,
    n: int,
) -> Seq<u8>
    decreases n,
{
    if n <= 0 {
        Seq::empty()
    } else {
        let c = comps[n - 1];
        sequential_scans(comps, blocks, hts, n - 1) + sequential_scan(
            c,
            blocks[n - 1],
            hts[c.dc_huffman_table as int].0,
            hts[c.ac_huffman_table as int].1,
        )
    }
}

/// Progressive DC scans of the first `n` components.
pub open spec fn dc_scans(
    comps: Seq<Component>,
    blocks: Seq<Seq<Seq<i16>>>,
    hts: Seq<(HuffmanTable, HuffmanTable)>,
    n: int,
) -> Seq<u8>
    decreases n,
{
    if n <= 0 {
        Seq::empty()
    } else {
        let c = comps[n - 1];
        dc_scans(comps, blocks, hts, n - 1) + dc_scan(c, blocks[n - 1], hts[c.dc_huffman_table as int].0)
    }
}

/// Progressive AC scans over the coefficients `start` to `end` (exclusive)
/// of the first `n` components.
pub open spec fn ac_scans(
    comps: Seq<Component>,
    blocks: Seq<Seq<Seq<i16>>>,
    hts: Seq<(HuffmanTable, HuffmanTable)>,
    start: int,
    end: int,
    n: int,
) -> Seq<u8>
    decreases n,
{
    if n <= 0 {
        Seq::empty()
    } else {
        let c = comps[n - 1];
        ac_scans(comps, blocks, hts, start, end, n - 1) + ac_scan(
            c,
            blocks[n - 1],
            start,
            end,
            hts[c.ac_huffman_table as int].1,
        )
    }
}

/// The first `s` of the `scans` rounds of progressive AC scans, each round
/// one scan per component.
pub open spec fn progressive_ac_scans(
    comps: Seq<Component>,
    blocks: Seq<Seq<Seq<i16>>>,
    hts: Seq<(HuffmanTable, HuffmanTable)>,
    scans: int,
    s: int,
) -> Seq<u8>
    decreases s,
{
    if s <= 0 {
        Seq::empty()
    } else {
        progressive_ac_scans(comps, blocks, hts, scans, s - 1) + ac_scans(
            comps,
            blocks,
            hts,
            ac_scan_start(s - 1, scans),
            ac_scan_end(s - 1, scans),
            comps.len() as int,
        )
    }
}

/// The frame header followed by the quantization tables and the Huffman
/// tables; the chrominance Huffman tables only for three or more components.
pub open spec fn frame_bytes(
    width: u16,
    height: u16,
    comps: Seq<Component>,
    progressive: bool,
    qts: Seq<QuantizationTable>,
    hts: Seq<(HuffmanTable, HuffmanTable)>,
) -> Seq<u8> {
    frame_header_bytes(width, height, comps, progressive) + quantization_segment_bytes(0, qts[0])
        + quantization_segment_bytes(1, qts[1]) + huffman_segment_bytes(CodingClass::Dc, 0, hts[0].0)
        + huffman_segment_bytes(CodingClass::Ac, 0, hts[0].1) + if comps.len() >= 3 {
        huffman_segment_bytes(CodingClass::Dc, 1, hts[1].0) + huffman_segment_bytes(CodingClass::Ac, 1, hts[1].1)
    } else {
        Seq::empty()
    }
}

/// A sequential image: the frame and one scan per component.
pub open spec fn sequential_body<I: ImageBuffer>(
    img: I,
    comps: Seq<Component>,
    qts: Seq<QuantizationTable>,
    hts: Seq<(HuffmanTable, HuffmanTable)>,
) -> Seq<u8> {
    frame_bytes(img.spec_width(), img.spec_height(), comps, false, qts, hts) + sequential_scans(
        comps,
        image_blocks(img, comps, qts),
        hts,
        comps.len() as int,
    )
}

/// A progressive image of `scans` scans per component: the frame, a DC scan
/// per component, then `scans - 1` rounds of AC scans.
pub open spec fn progressive_body<I: ImageBuffer>(
    img: I,
    comps: Seq<Component>,
    qts: Seq<QuantizationTable>,
    hts: Seq<(HuffmanTable, HuffmanTable)>,
    scans: int,
) -> Seq<u8> {
    let blocks = image_blocks(img, comps, qts);
    frame_bytes(img.spec_width(), img.spec_height(), comps, true, qts, hts) + dc_scans(
        comps,
        blocks,
        hts,
        comps.len() as int,
    ) + progressive_ac_scans(comps, blocks, hts, scans - 1, scans - 1)
}

/// An interleaved image: the frame and one scan of all components, MCU by
/// MCU.
pub open spec fn interleaved_body<I: ImageBuffer>(
    img: I,
    comps: Seq<Component>,
    qts: Seq<QuantizationTable>,
    hts: Seq<(HuffmanTable, HuffmanTable)>,
) -> Seq<u8> {
    let mh = max_h(comps);
    let mv = max_v(comps);
    let cols = ceil_div_int(img.spec_width() as int, 8 * mh);
    let rows = ceil_div_int(img.spec_height() as int, 8 * mv);
    frame_bytes(img.spec_width(), img.spec_height(), comps, false, qts, hts) + interleaved_scan(
        comps,
        interleaved_units(img, comps, mh, mv, qts, cols, cols * rows),
        hts,
    )
}


/// The DC symbols of a sequence of blocks: the size category of each DC
/// coefficient's difference to the previous one.
pub open spec fn dc_symbols(blocks: Seq<Seq<i16>>) -> Seq<u8> {
    Seq::new(blocks.len(), |n: int| crate::writer::coef_size(blocks[n][0] - prev_dc(blocks, n)) as u8)
}

/// The AC symbols that code `coefs` after `run` zeros not coded yet, in the
/// order of `ac_bits`: sixteen zeros as ZRL (0xF0), each non-zero
/// coefficient as its run of zeros and size category, trailing zeros as EOB
/// (0x00).
pub open spec fn ac_symbols(coefs: Seq<i16>, run: nat) -> Seq<u8>
    decreases coefs.len(),
{
    if coefs.len() == 0 {
        if run > 0 {
            seq![0x00u8]
        } else {
            Seq::empty()
        }
    } else if coefs[0] == 0 {
        ac_symbols(coefs.drop_first(), run + 1)
    } else {
        Seq::new(run / 16, |k: int| 0xF0u8) + seq![
            ((run % 16) * 16 + crate::writer::coef_size(coefs[0] as int)) as u8,
        ] + ac_symbols(coefs.drop_first(), 0)
    }
}

/// A table codes every symbol of a sequence.
pub open spec fn codes_all(table: HuffmanTable, syms: Seq<u8>) -> bool {
    forall|k: int| 0 <= k < syms.len() ==> table.spec_values().contains(#[trigger] syms[k])
}

/// A table codes every AC symbol of the coefficients `start` to `end`
/// (exclusive) of every block.
pub open spec fn codes_ac(table: HuffmanTable, blocks: Seq<Seq<i16>>, start: int, end: int) -> bool {
    forall|n: int| 0 <= n < blocks.len() ==> codes_all(table, ac_symbols(#[trigger] blocks[n].subrange(start, end), 0))
}

/// A table codes every AC symbol of the blocks' scans: coefficients 1 to 63
/// in sequential mode, each AC scan's range in progressive mode.
pub open spec fn codes_ac_scans(table: HuffmanTable, blocks: Seq<Seq<i16>>, progressive_scans: int) -> bool {
    if progressive_scans == 0 {
        codes_ac(table, blocks, 1, 64)
    } else {
        forall|s: int|
            0 <= s < progressive_scans - 1 ==> codes_ac(
                table,
                blocks,
                ac_scan_start(s, progressive_scans - 1),
                #[trigger] ac_scan_end(s, progressive_scans - 1),
            )
    }
}

/// The Huffman tables code every symbol that the scans of the components
/// code: valid tables, the DC symbols of each component in its DC table,
/// its AC symbols in its AC table.
pub open spec fn tables_code_scans(
    hts: Seq<(HuffmanTable, HuffmanTable)>,
    comps: Seq<Component>,
    blocks: Seq<Seq<Seq<i16>>>,
    progressive_scans: int,
) -> bool {
    &&& hts.len() == 2
    &&& forall|t: int| 0 <= t < 2 ==> (#[trigger] hts[t]).0.wf() && hts[t].1.wf()
    &&& forall|i: int|
        0 <= i < comps.len() ==> {
            &&& codes_all(hts[(#[trigger] comps[i]).dc_huffman_table as int].0, dc_symbols(blocks[i]))
            &&& codes_ac_scans(hts[comps[i].ac_huffman_table as int].1, blocks[i], progressive_scans)
        }
}

} // verus!
