//! Writing the scans of one component: sequential, progressive DC and
//! progressive AC.
use vstd::prelude::*;

use crate::bitstream::{emit, lemma_emit_compose, lemma_emit_empty, lemma_emit_then_pad};
use crate::blocks::{code_block, holds_lines, lemma_coded_block_in_range};
use crate::encoder::Component;
use crate::huffman::HuffmanTable;
use crate::image_buffer::ImageBuffer;
use crate::quantization::QuantizationTable;
use crate::stream::{
    ac_scan, ac_scan_bits, block_in_range, block_views, coded_block, dc_scan, dc_scan_bits, last_dc,
    lemma_units_push, mcu_component_units, prev_dc, sequential_bits, sequential_scan, units_bits,
};
use crate::writer::{ac_bits, block_bits, component_fits, dc_bits, JfifWriter};

verus! {

/// All blocks of a list hold coefficients a quantized block may hold.
pub open spec fn blocks_in_range(blocks: Seq<[i16; 64]>) -> bool {
    forall|n: int| 0 <= n < blocks.len() ==> block_in_range(#[trigger] blocks[n]@)
}

/// Write a sequential scan of one component: its header, every block and
/// the padding of the last byte.
pub fn write_sequential_scan(
    writer: &mut JfifWriter,
    component: &Component,
    blocks: &Vec<[i16; 64]>,
    dc_table: &HuffmanTable,
    ac_table: &HuffmanTable,
)
    requires
        old(writer).wf(),
        old(writer).pending() == Seq::<bool>::empty(),
        dc_table.wf(),
        ac_table.wf(),
        component_fits(*component),
        blocks_in_range(blocks@),
    ensures
        final(writer).wf(),
        final(writer).pending() == Seq::<bool>::empty(),
        final(writer).bytes() == old(writer).bytes() + sequential_scan(
            *component,
            block_views(blocks@),
            *dc_table,
            *ac_table,
        ),
{
    let comps = [*component];
    writer.write_scan_header(&comps, None);
    assert(comps@ =~= seq![*component]);
    let ghost start = writer.bytes();
    let ghost bv = block_views(blocks@);
    proof {
        lemma_emit_empty(start, Seq::empty());
    }
    let mut prev: i16 = 0;
    let mut n: usize = 0;
    while n < blocks.len()
        invariant
            n <= blocks@.len(),
            bv == block_views(blocks@),
            blocks_in_range(blocks@),
            dc_table.wf(),
            ac_table.wf(),
            writer.wf(),
            (writer.bytes(), writer.pending()) == emit(start, Seq::empty(), sequential_bits(bv, n as int, *dc_table, *ac_table)),
            prev as int == prev_dc(bv, n as int),
        decreases blocks@.len() - n,
    {
        let block = &blocks[n];
        assert(block_in_range(blocks@[n as int]@));
        assert(bv[n as int] == block@);
        writer.write_block(block, prev, dc_table, ac_table);
        proof {
            lemma_emit_compose(
                start,
                Seq::empty(),
                sequential_bits(bv, n as int, *dc_table, *ac_table),
                block_bits(bv[n as int], prev_dc(bv, n as int), *dc_table, *ac_table),
            );
        }
        prev = block[0];
        n = n + 1;
    }
    let ghost bits = sequential_bits(bv, n as int, *dc_table, *ac_table);
    writer.finalize_bit_buffer();
    proof {
        lemma_emit_then_pad(start, bits);
        assert(writer.bytes() =~= old(writer).bytes() + sequential_scan(*component, bv, *dc_table, *ac_table));
    }
}

/// Write the progressive DC scan of one component: its header, the DC
/// coefficient of every block and the padding of the last byte.
pub fn write_dc_scan(writer: &mut JfifWriter, component: &Component, blocks: &Vec<[i16; 64]>, dc_table: &HuffmanTable)
    requires
        old(writer).wf(),
        old(writer).pending() == Seq::<bool>::empty(),
        dc_table.wf(),
        component_fits(*component),
        blocks_in_range(blocks@),
    ensures
        final(writer).wf(),
        final(writer).pending() == Seq::<bool>::empty(),
        final(writer).bytes() == old(writer).bytes() + dc_scan(*component, block_views(blocks@), *dc_table),
{
    let comps = [*component];
    writer.write_scan_header(&comps, Some((0, 0)));
    assert(comps@ =~= seq![*component]);
    let ghost start = writer.bytes();
    let ghost bv = block_views(blocks@);
    proof {
        lemma_emit_empty(start, Seq::empty());
    }
    let mut prev: i16 = 0;
    let mut n: usize = 0;
    while n < blocks.len()
        invariant
            n <= blocks@.len(),
            bv == block_views(blocks@),
            blocks_in_range(blocks@),
            dc_table.wf(),
            writer.wf(),
            (writer.bytes(), writer.pending()) == emit(start, Seq::empty(), dc_scan_bits(bv, n as int, *dc_table)),
            prev as int == prev_dc(bv, n as int),
        decreases blocks@.len() - n,
    {
        let block = &blocks[n];
        assert(block_in_range(blocks@[n as int]@));
        assert(bv[n as int] == block@);
        assert(-1024 <= block@[0] <= 1024);
        writer.write_dc(block[0], prev, dc_table);
        proof {
            lemma_emit_compose(
                start,
                Seq::empty(),
                dc_scan_bits(bv, n as int, *dc_table),
                dc_bits(*dc_table, bv[n as int][0] - prev_dc(bv, n as int)),
            );
        }
        prev = block[0];
        n = n + 1;
    }
    let ghost bits = dc_scan_bits(bv, n as int, *dc_table);
    writer.finalize_bit_buffer();
    proof {
        lemma_emit_then_pad(start, bits);
        assert(writer.bytes() =~= old(writer).bytes() + dc_scan(*component, bv, *dc_table));
    }
}

/// Write a progressive AC scan of one component over the coefficients
/// `start` to `end` (exclusive): its header, those coefficients of every
/// block and the padding of the last byte.
pub fn write_ac_scan(
    writer: &mut JfifWriter,
    component: &Component,
    blocks: &Vec<[i16; 64]>,
    start: usize,
    end: usize,
    ac_table: &HuffmanTable,
)
    requires
        old(writer).wf(),
        old(writer).pending() == Seq::<bool>::empty(),
        ac_table.wf(),
        component_fits(*component),
        blocks_in_range(blocks@),
        1 <= start <= end <= 64,
    ensures
        final(writer).wf(),
        final(writer).pending() == Seq::<bool>::empty(),
        final(writer).bytes() == old(writer).bytes() + ac_scan(
            *component,
            block_views(blocks@),
            start as int,
            end as int,
            *ac_table,
        ),
{
    let comps = [*component];
    writer.write_scan_header(&comps, Some((start as u8, (end - 1) as u8)));
    assert(comps@ =~= seq![*component]);
    let ghost first = writer.bytes();
    let ghost bv = block_views(blocks@);
    proof {
        lemma_emit_empty(first, Seq::empty());
    }
    let mut n: usize = 0;
    while n < blocks.len()
        invariant
            n <= blocks@.len(),
            bv == block_views(blocks@),
            blocks_in_range(blocks@),
            1 <= start <= end <= 64,
            ac_table.wf(),
            writer.wf(),
            (writer.bytes(), writer.pending()) == emit(
                first,
                Seq::empty(),
                ac_scan_bits(bv, n as int, start as int, end as int, *ac_table),
            ),
        decreases blocks@.len() - n,
    {
        let block = &blocks[n];
        assert(block_in_range(blocks@[n as int]@));
        assert(bv[n as int] == block@);
        writer.write_ac_block(block, start, end, ac_table);
        proof {
            lemma_emit_compose(
                first,
                Seq::empty(),
                ac_scan_bits(bv, n as int, start as int, end as int, *ac_table),
                ac_bits(*ac_table, bv[n as int].subrange(start as int, end as int), 0),
            );
        }
        n = n + 1;
    }
    let ghost bits = ac_scan_bits(bv, n as int, start as int, end as int, *ac_table);
    writer.finalize_bit_buffer();
    proof {
        lemma_emit_then_pad(first, bits);
        assert(writer.bytes() =~= old(writer).bytes() + ac_scan(*component, bv, start as int, end as int, *ac_table));
    }
}


/// Where a block of an MCU starts: inside the MCU, `8 * mh` samples wide
/// and `8 * mv` lines high, when the component's factors are 1 or the
/// largest ones.
proof fn lemma_mcu_block_fits(m: int, f: int, off: int)
    requires
        m == 1 || m == 2 || m == 4,
        f == 1 || f == m,
        0 <= off < f,
    ensures
        off * 8 + 7 * (m / f) < 8 * m,
        0 <= off * 8,
        m / f >= 1,
{
}

/// Write the blocks of component `i` of one MCU of an interleaved scan, the
/// MCU `bx` of a row of MCUs whose lines `samples` holds; `prev` is the DC
/// coefficient of the last block of the component written before. Returns
/// the DC coefficient of the last block written.
pub fn write_mcu_component<I: ImageBuffer>(
    writer: &mut JfifWriter,
    image: &I,
    Ghost(comps): Ghost<Seq<Component>>,
    Ghost(qts): Ghost<Seq<QuantizationTable>>,
    Ghost(hts): Ghost<Seq<(HuffmanTable, HuffmanTable)>>,
    i: usize,
    h_factor: usize,
    v_factor: usize,
    samples: &Vec<u8>,
    buffer_width: usize,
    Ghost(bx): Ghost<int>,
    Ghost(by): Ghost<int>,
    x_start: usize,
    mh: usize,
    mv: usize,
    qtable: &QuantizationTable,
    dc_table: &HuffmanTable,
    ac_table: &HuffmanTable,
    prev: i16,
    Ghost(start): Ghost<Seq<u8>>,
    Ghost(done): Ghost<Seq<(int, Seq<i16>)>>,
) -> (r: i16)
    requires
        old(writer).wf(),
        (old(writer).bytes(), old(writer).pending()) == emit(
            start,
            Seq::empty(),
            units_bits(done, done.len() as int, comps, hts),
        ),
        prev as int == last_dc(done, done.len() as int, i as int),
        -1024 <= prev <= 1024,
        i < comps.len(),
        h_factor == comps[i as int].horizontal_sampling_factor,
        v_factor == comps[i as int].vertical_sampling_factor,
        mh == 1 || mh == 2 || mh == 4,
        mv == 1 || mv == 2 || mv == 4,
        h_factor == 1 || h_factor == mh,
        v_factor == 1 || v_factor == mv,
        *qtable == qts[comps[i as int].quantization_table as int],
        *dc_table == hts[comps[i as int].dc_huffman_table as int].0,
        *ac_table == hts[comps[i as int].ac_huffman_table as int].1,
        qtable.wf(),
        dc_table.wf(),
        ac_table.wf(),
        0 <= bx,
        0 <= by,
        x_start == bx * 8 * mh,
        x_start + 8 * mh <= buffer_width,
        8 * mv * buffer_width <= samples.len(),
        holds_lines(samples@, *image, i as int, buffer_width as int, by * 8 * mv),
    ensures
        ({
            let done2 = done + mcu_component_units(*image, comps, mh as int, mv as int, qts, i as int, bx, by);
            &&& final(writer).wf()
            &&& (final(writer).bytes(), final(writer).pending()) == emit(
                start,
                Seq::empty(),
                units_bits(done2, done2.len() as int, comps, hts),
            )
            &&& r as int == last_dc(done2, done2.len() as int, i as int)
            &&& -1024 <= r <= 1024
            &&& forall|c: int|
                c != i ==> #[trigger] last_dc(done2, done2.len() as int, c) == last_dc(
                    done,
                    done.len() as int,
                    c,
                )
        }),
{
    let ghost units = mcu_component_units(*image, comps, mh as int, mv as int, qts, i as int, bx, by);
    let ghost mut cur = done;
    let hs = mh / h_factor;
    let vs = mv / v_factor;
    let mut prev = prev;
    let mut v_off: usize = 0;
    proof {
        assert(done + units.take(0) =~= done);
    }
    while v_off < v_factor
        invariant
            v_off <= v_factor,
            writer.wf(),
            cur == done + units.take((v_off * h_factor) as int),
            (writer.bytes(), writer.pending()) == emit(start, Seq::empty(), units_bits(cur, cur.len() as int, comps, hts)),
            prev as int == last_dc(cur, cur.len() as int, i as int),
            -1024 <= prev <= 1024,
            forall|c: int| c != i ==> #[trigger] last_dc(cur, cur.len() as int, c) == last_dc(done, done.len() as int, c),
            units == mcu_component_units(*image, comps, mh as int, mv as int, qts, i as int, bx, by),
            units.len() == h_factor * v_factor,
            i < comps.len(),
            h_factor == comps[i as int].horizontal_sampling_factor,
            v_factor == comps[i as int].vertical_sampling_factor,
            mh == 1 || mh == 2 || mh == 4,
            mv == 1 || mv == 2 || mv == 4,
            h_factor == 1 || h_factor == mh,
            v_factor == 1 || v_factor == mv,
            hs == mh / h_factor,
            vs == mv / v_factor,
            *qtable == qts[comps[i as int].quantization_table as int],
            *dc_table == hts[comps[i as int].dc_huffman_table as int].0,
            *ac_table == hts[comps[i as int].ac_huffman_table as int].1,
            qtable.wf(),
            dc_table.wf(),
            ac_table.wf(),
            x_start == bx * 8 * mh,
            x_start + 8 * mh <= buffer_width,
            8 * mv * buffer_width <= samples.len(),
            holds_lines(samples@, *image, i as int, buffer_width as int, by * 8 * mv),
        decreases v_factor - v_off,
    {
        let mut h_off: usize = 0;
        while h_off < h_factor
            invariant
                h_off <= h_factor,
                v_off < v_factor,
                writer.wf(),
                cur == done + units.take((v_off * h_factor + h_off) as int),
                (writer.bytes(), writer.pending()) == emit(
                    start,
                    Seq::empty(),
                    units_bits(cur, cur.len() as int, comps, hts),
                ),
                prev as int == last_dc(cur, cur.len() as int, i as int),
                -1024 <= prev <= 1024,
                forall|c: int|
                    c != i ==> #[trigger] last_dc(cur, cur.len() as int, c) == last_dc(done, done.len() as int, c),
                units == mcu_component_units(*image, comps, mh as int, mv as int, qts, i as int, bx, by),
                units.len() == h_factor * v_factor,
                i < comps.len(),
                h_factor == comps[i as int].horizontal_sampling_factor,
                v_factor == comps[i as int].vertical_sampling_factor,
                mh == 1 || mh == 2 || mh == 4,
                mv == 1 || mv == 2 || mv == 4,
                h_factor == 1 || h_factor == mh,
                v_factor == 1 || v_factor == mv,
                hs == mh / h_factor,
                vs == mv / v_factor,
                *qtable == qts[comps[i as int].quantization_table as int],
                *dc_table == hts[comps[i as int].dc_huffman_table as int].0,
                *ac_table == hts[comps[i as int].ac_huffman_table as int].1,
                qtable.wf(),
                dc_table.wf(),
                ac_table.wf(),
                x_start == bx * 8 * mh,
                x_start + 8 * mh <= buffer_width,
                8 * mv * buffer_width <= samples.len(),
                holds_lines(samples@, *image, i as int, buffer_width as int, by * 8 * mv),
            decreases h_factor - h_off,
        {
            let ghost j = (v_off * h_factor + h_off) as int;
            proof {
                lemma_mcu_block_fits(mh as int, h_factor as int, h_off as int);
                lemma_mcu_block_fits(mv as int, v_factor as int, v_off as int);
                assert((v_off * 8 + 7 * vs) * buffer_width + buffer_width <= 8 * mv * buffer_width)
                    by (nonlinear_arith)
                    requires
                        v_off * 8 + 7 * vs < 8 * mv,
                        0 <= buffer_width,
                ;
                assert(j < h_factor * v_factor) by (nonlinear_arith)
                    requires
                        j == v_off * h_factor + h_off,
                        h_off < h_factor,
                        v_off < v_factor,
                ;
                crate::blocks::lemma_split_index(j, h_factor as int, v_off as int, h_off as int);
            }
            let x0 = x_start + h_off * 8;
            let y0 = v_off * 8;
            let ghost u = (
                i as int,
                coded_block(*image, i as int, x0 as int, by * 8 * mv + y0, hs as int, vs as int, *qtable),
            );
            proof {
                assert(units[j] == u);
            }
            prev = write_unit(
                writer,
                image,
                Ghost(comps),
                Ghost(hts),
                i,
                samples,
                buffer_width,
                Ghost(by * 8 * mv),
                x0,
                y0,
                hs,
                vs,
                qtable,
                dc_table,
                ac_table,
                prev,
                Ghost(start),
                Ghost(cur),
            );
            proof {
                assert(units.take(j + 1) =~= units.take(j).push(units[j]));
                assert(done + units.take(j + 1) =~= cur.push(u));
                cur = cur.push(u);
            }
            h_off = h_off + 1;
        }
        proof {
            assert((v_off + 1) * h_factor == v_off * h_factor + h_factor) by (nonlinear_arith);
        }
        v_off = v_off + 1;
    }
    proof {
        assert(units.take((v_off * h_factor) as int) =~= units) by {
            assert(v_off * h_factor == h_factor * v_factor) by (nonlinear_arith)
                requires
                    v_off == v_factor,
            ;
        }
    }
    prev
}


/// Write one block of an interleaved scan: the coded block of component `i`
/// with the top left sample at `(x0, first_line + y0)`, coded against `prev`.
/// Returns its DC coefficient.
#[verifier::rlimit(30)]
fn write_unit<I: ImageBuffer>(
    writer: &mut JfifWriter,
    image: &I,
    Ghost(comps): Ghost<Seq<Component>>,
    Ghost(hts): Ghost<Seq<(HuffmanTable, HuffmanTable)>>,
    i: usize,
    samples: &Vec<u8>,
    buffer_width: usize,
    Ghost(first_line): Ghost<int>,
    x0: usize,
    y0: usize,
    hs: usize,
    vs: usize,
    qtable: &QuantizationTable,
    dc_table: &HuffmanTable,
    ac_table: &HuffmanTable,
    prev: i16,
    Ghost(start): Ghost<Seq<u8>>,
    Ghost(cur): Ghost<Seq<(int, Seq<i16>)>>,
) -> (r: i16)
    requires
        old(writer).wf(),
        (old(writer).bytes(), old(writer).pending()) == emit(
            start,
            Seq::empty(),
            units_bits(cur, cur.len() as int, comps, hts),
        ),
        prev as int == last_dc(cur, cur.len() as int, i as int),
        -1024 <= prev <= 1024,
        i < comps.len(),
        *dc_table == hts[comps[i as int].dc_huffman_table as int].0,
        *ac_table == hts[comps[i as int].ac_huffman_table as int].1,
        qtable.wf(),
        dc_table.wf(),
        ac_table.wf(),
        x0 + 7 * hs < buffer_width,
        (y0 + 7 * vs) * buffer_width + buffer_width <= samples.len(),
        holds_lines(samples@, *image, i as int, buffer_width as int, first_line),
    ensures
        ({
            let u = (
                i as int,
                coded_block(*image, i as int, x0 as int, first_line + y0, hs as int, vs as int, *qtable),
            );
            let cur2 = cur.push(u);
            &&& final(writer).wf()
            &&& (final(writer).bytes(), final(writer).pending()) == emit(
                start,
                Seq::empty(),
                units_bits(cur2, cur2.len() as int, comps, hts),
            )
            &&& r == u.1[0]
            &&& -1024 <= r <= 1024
            &&& forall|c: int|
                #[trigger] last_dc(cur2, cur2.len() as int, c) == if c == i {
                    r as int
                } else {
                    last_dc(cur, cur.len() as int, c)
                }
        }),
{
    let block = code_block(image, Ghost(i as int), samples, buffer_width, Ghost(first_line), x0, y0, hs, vs, qtable);
    let ghost b = block@;
    let ghost ub = units_bits(cur, cur.len() as int, comps, hts);
    let ghost bb = crate::writer::block_bits(b, prev as int, *dc_table, *ac_table);
    proof {
        lemma_coded_block_in_range(*image, i as int, x0 as int, first_line + y0, hs as int, vs as int, *qtable);
        assert(block_in_range(b));
    }
    writer.write_block(&block, prev, dc_table, ac_table);
    proof {
        lemma_units_push(cur, (i as int, b), comps, hts);
        lemma_emit_compose(start, Seq::empty(), ub, bb);
        assert(units_bits(cur.push((i as int, b)), cur.len() + 1int, comps, hts) == ub + bb);
    }
    block[0]
}

} // verus!
