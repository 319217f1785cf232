//! Counting the Huffman symbols that the scans will code, for tables built
//! for the image.
use vstd::prelude::*;

use crate::encoder::get_num_bits;
use crate::optimal::{lemma_total_term, lemma_total_update, total};
use crate::scans::blocks_in_range;
use crate::huffman::HuffmanTable;
use crate::stream::{
    ac_scan_end, ac_scan_start, ac_symbols, block_in_range, block_views, codes_ac, codes_ac_scans, codes_all,
    dc_symbols, prev_dc,
};
use crate::writer::{coef_size, lemma_num_bits_mono, num_bits};

verus! {

/// Size categories of values of at most 2048 in magnitude are at most 12.
proof fn lemma_size_at_most_12(v: int)
    requires
        -2048 <= v <= 2048,
    ensures
        coef_size(v) <= 12,
{
    lemma_num_bits_mono(crate::writer::abs(v), 2048);
    assert(num_bits(2048) == 12) by {
        reveal_with_fuel(num_bits, 13);
    }
}

/// A symbol counted: its frequency grows by one.
proof fn lemma_count_one(f: Seq<u32>, s: int)
    requires
        f.len() == 257,
        0 <= s < 257,
        total(f, 257) < u32::MAX,
    ensures
        f[s] + 1 <= u32::MAX,
        total(f.update(s, (f[s] + 1) as u32), 257) == total(f, 257) + 1,
{
    lemma_total_term(f, s, 257);
    lemma_total_update(f, s, (f[s] + 1) as u32, 257);
}

/// Number of times `s` occurs in `syms`.
pub open spec fn occurrences(syms: Seq<u8>, s: int) -> nat
    decreases syms.len(),
{
    if syms.len() == 0 {
        0
    } else {
        occurrences(syms.drop_last(), s) + if syms.last() == s {
            1nat
        } else {
            0nat
        }
    }
}

/// The frequencies `g` are `f` with each symbol of `syms` counted once more
/// each time it occurs.
pub open spec fn counted(f: Seq<u32>, g: Seq<u32>, syms: Seq<u8>) -> bool {
    &&& g.len() == f.len()
    &&& forall|s: int| 0 <= s < f.len() ==> #[trigger] g[s] == f[s] + occurrences(syms, s)
}

/// Occurrences in two sequences one after the other add up.
pub proof fn lemma_occurrences_concat(a: Seq<u8>, b: Seq<u8>, s: int)
    ensures
        occurrences(a + b, s) == occurrences(a, s) + occurrences(b, s),
    decreases b.len(),
{
    if b.len() == 0 {
        assert(a + b =~= a);
    } else {
        assert((a + b).drop_last() =~= a + b.drop_last());
        lemma_occurrences_concat(a, b.drop_last(), s);
    }
}

/// A symbol occurs a positive number of times exactly when the sequence
/// holds it.
pub proof fn lemma_occurrences_contains(syms: Seq<u8>, x: u8)
    ensures
        occurrences(syms, x as int) > 0 <==> syms.contains(x),
    decreases syms.len(),
{
    if syms.len() > 0 {
        let p = syms.drop_last();
        lemma_occurrences_contains(p, x);
        if p.contains(x) {
            let k = choose|k: int| 0 <= k < p.len() && p[k] == x;
            assert(syms[k] == x);
        }
        if syms.contains(x) && syms.last() != x {
            let k = choose|k: int| 0 <= k < syms.len() && syms[k] == x;
            assert(k < syms.len() - 1);
            assert(p[k] == x);
        }
    }
}

/// After counting, a symbol has a positive frequency exactly when it had
/// one before or was counted.
pub proof fn lemma_counted_positive(f: Seq<u32>, g: Seq<u32>, syms: Seq<u8>)
    requires
        counted(f, g, syms),
        f.len() == 257,
    ensures
        forall|x: u8| #[trigger] g[x as int] > 0 <==> (f[x as int] > 0 || syms.contains(x)),
{
    assert forall|x: u8| #[trigger] g[x as int] > 0 <==> (f[x as int] > 0 || syms.contains(x)) by {
        lemma_occurrences_contains(syms, x);
        assert(g[x as int] == f[x as int] + occurrences(syms, x as int));
    }
}

/// Counting one more symbol.
proof fn lemma_counted_push(f: Seq<u32>, g: Seq<u32>, syms: Seq<u8>, x: u8)
    requires
        counted(f, g, syms),
        0 <= x < g.len(),
        g[x as int] + 1 <= u32::MAX,
    ensures
        counted(f, g.update(x as int, (g[x as int] + 1) as u32), syms.push(x)),
{
    assert(syms.push(x).drop_last() =~= syms);
    let g2 = g.update(x as int, (g[x as int] + 1) as u32);
    assert forall|s: int| 0 <= s < f.len() implies #[trigger] g2[s] == f[s] + occurrences(syms.push(x), s) by {
        assert(occurrences(syms.push(x), s) == occurrences(syms, s) + if x == s {
            1nat
        } else {
            0nat
        });
    }
}

/// Counting two runs of symbols one after the other.
proof fn lemma_counted_trans(f: Seq<u32>, g: Seq<u32>, h: Seq<u32>, a: Seq<u8>, b: Seq<u8>)
    requires
        counted(f, g, a),
        counted(g, h, b),
    ensures
        counted(f, h, a + b),
{
    assert forall|s: int| 0 <= s < f.len() implies #[trigger] h[s] == f[s] + occurrences(a + b, s) by {
        lemma_occurrences_concat(a, b, s);
    }
}

/// The AC symbols of coefficients `start` to `end` (exclusive) of the first
/// `n` blocks, block after block.
pub open spec fn blocks_ac_symbols(blocks: Seq<Seq<i16>>, start: int, end: int, n: int) -> Seq<u8>
    decreases n,
{
    if n <= 0 {
        Seq::empty()
    } else {
        blocks_ac_symbols(blocks, start, end, n - 1) + ac_symbols(blocks[n - 1].subrange(start, end), 0)
    }
}

/// The AC symbols of the first `m` of `scans` progressive AC scans, scan
/// after scan.
pub open spec fn scans_ac_symbols(blocks: Seq<Seq<i16>>, scans: int, m: int) -> Seq<u8>
    decreases m,
{
    if m <= 0 {
        Seq::empty()
    } else {
        scans_ac_symbols(blocks, scans, m - 1) + blocks_ac_symbols(
            blocks,
            ac_scan_start(m - 1, scans),
            ac_scan_end(m - 1, scans),
            blocks.len() as int,
        )
    }
}

/// The AC symbols that the scans of a component code: coefficients 1 to 63
/// of each block in sequential mode, each progressive AC scan in turn
/// otherwise.
pub open spec fn component_ac_symbols(blocks: Seq<Seq<i16>>, progressive_scans: int) -> Seq<u8> {
    if progressive_scans == 0 {
        blocks_ac_symbols(blocks, 1, 64, blocks.len() as int)
    } else {
        scans_ac_symbols(blocks, progressive_scans - 1, progressive_scans - 1)
    }
}

/// Every AC symbol of coefficients of at most 1023 in magnitude is one that
/// 8-bit samples give.
pub proof fn lemma_ac_symbols_8bit(coefs: Seq<i16>, run: nat)
    requires
        forall|k: int| 0 <= k < coefs.len() ==> -1023 <= #[trigger] coefs[k] <= 1023,
    ensures
        forall|j: int|
            0 <= j < ac_symbols(coefs, run).len() ==> crate::huffman::ac_symbol_of_8bit(
                #[trigger] ac_symbols(coefs, run)[j],
            ),
    decreases coefs.len(),
{
    if coefs.len() == 0 {
        if run > 0 {
            assert(ac_symbols(coefs, run) == seq![0x00u8]);
            assert(crate::huffman::ac_symbol_of_8bit(0x00u8));
        } else {
            assert(ac_symbols(coefs, run).len() == 0);
        }
    } else {
        let tail = coefs.drop_first();
        assert(forall|k: int| 0 <= k < tail.len() ==> tail[k] == coefs[k + 1]);
        if coefs[0] == 0 {
            lemma_ac_symbols_8bit(tail, run + 1);
            assert(ac_symbols(coefs, run) == ac_symbols(tail, run + 1));
        } else {
            lemma_ac_symbols_8bit(tail, 0);
            let c = coefs[0] as int;
            lemma_num_bits_mono(crate::writer::abs(c), 1023);
            assert(num_bits(1023) == 10) by {
                reveal_with_fuel(num_bits, 11);
            }
            assert(coef_size(c) >= 1) by {
                reveal_with_fuel(num_bits, 2);
            }
            let sym = ((run % 16) * 16 + coef_size(c)) as u8;
            assert(sym % 16 == coef_size(c));
            let zrl = Seq::new(run / 16, |k: int| 0xF0u8);
            let syms = ac_symbols(coefs, run);
            assert(syms == zrl + seq![sym] + ac_symbols(tail, 0));
            assert forall|j: int| 0 <= j < syms.len() implies crate::huffman::ac_symbol_of_8bit(#[trigger] syms[j]) by {
                if j < zrl.len() {
                    assert(syms[j] == 0xF0u8);
                } else if j == zrl.len() {
                    assert(syms[j] == sym);
                } else {
                    assert(syms[j] == ac_symbols(tail, 0)[j - zrl.len() - 1]);
                }
            }
        }
    }
}

/// A table that codes every AC symbol of 8-bit samples codes the AC
/// symbols of any range of coefficients of quantized blocks.
pub proof fn lemma_codes_ac_8bit(table: HuffmanTable, blocks: Seq<Seq<i16>>, start: int, end: int)
    requires
        forall|y: u8| crate::huffman::ac_symbol_of_8bit(y) ==> #[trigger] table.spec_values().contains(y),
        forall|n: int| 0 <= n < blocks.len() ==> block_in_range(#[trigger] blocks[n]),
        0 <= start <= end <= 64,
    ensures
        codes_ac(table, blocks, start, end),
{
    assert forall|n: int| 0 <= n < blocks.len() implies codes_all(
        table,
        ac_symbols(#[trigger] blocks[n].subrange(start, end), 0),
    ) by {
        let coefs = blocks[n].subrange(start, end);
        assert(block_in_range(blocks[n]));
        assert(forall|k: int| 0 <= k < coefs.len() ==> coefs[k] == blocks[n][start + k]);
        lemma_ac_symbols_8bit(coefs, 0);
        let syms = ac_symbols(coefs, 0);
        assert forall|j: int| 0 <= j < syms.len() implies table.spec_values().contains(#[trigger] syms[j]) by {
            assert(crate::huffman::ac_symbol_of_8bit(syms[j]));
        }
    }
}

/// The DC symbols of quantized blocks are size categories of at most 11.
pub proof fn lemma_dc_symbols_8bit(blocks: Seq<Seq<i16>>)
    requires
        forall|n: int| 0 <= n < blocks.len() ==> block_in_range(#[trigger] blocks[n]),
    ensures
        forall|k: int| 0 <= k < blocks.len() ==> #[trigger] dc_symbols(blocks)[k] <= 11,
{
    assert forall|k: int| 0 <= k < blocks.len() implies #[trigger] dc_symbols(blocks)[k] <= 11 by {
        assert(block_in_range(blocks[k]));
        if k > 0 {
            assert(block_in_range(blocks[k - 1]));
            assert(-1023 <= blocks[k - 1][0] <= 1023);
        }
        let diff = blocks[k][0] - prev_dc(blocks, k);
        lemma_num_bits_mono(crate::writer::abs(diff), 2047);
        assert(num_bits(2047) == 11) by {
            reveal_with_fuel(num_bits, 12);
        }
    }
}

/// Count the DC symbols of a component's blocks.
pub fn count_dc(freq: &mut [u32; 257], blocks: &Vec<[i16; 64]>)
    requires
        total(old(freq)@, 257) + blocks@.len() <= u32::MAX,
        blocks_in_range(blocks@),
    ensures
        total(final(freq)@, 257) == total(old(freq)@, 257) + blocks@.len(),
        forall|s: int| 0 <= s < 257 ==> #[trigger] final(freq)@[s] >= old(freq)@[s],
        final(freq)@[15] == old(freq)@[15],
        forall|k: int|
            0 <= k < blocks@.len() ==> final(freq)@[#[trigger] dc_symbols(block_views(blocks@))[k] as int] > 0,
        counted(old(freq)@, final(freq)@, dc_symbols(block_views(blocks@))),
{
    let ghost bv = block_views(blocks@);
    let ghost syms = dc_symbols(bv);
    proof {
        assert(syms.take(0) =~= Seq::<u8>::empty());
    }
    let mut prev: i16 = 0;
    let mut n: usize = 0;
    while n < blocks.len()
        invariant
            n <= blocks@.len(),
            bv == block_views(blocks@),
            syms == dc_symbols(bv),
            blocks_in_range(blocks@),
            total(old(freq)@, 257) + blocks@.len() <= u32::MAX,
            total(freq@, 257) == total(old(freq)@, 257) + n,
            prev as int == prev_dc(bv, n as int),
            -1024 <= prev <= 1024,
            forall|s: int| 0 <= s < 257 ==> #[trigger] freq@[s] >= old(freq)@[s],
            freq@[15] == old(freq)@[15],
            forall|k: int| 0 <= k < n ==> freq@[#[trigger] syms[k] as int] > 0,
            syms.len() == blocks@.len(),
            counted(old(freq)@, freq@, syms.take(n as int)),
        decreases blocks@.len() - n,
    {
        let value = blocks[n][0];
        assert(block_in_range(blocks@[n as int]@));
        assert(bv[n as int] == blocks@[n as int]@);
        let diff = value - prev;
        let num_bits = get_num_bits(diff);
        proof {
            lemma_size_at_most_12(diff as int);
            assert(syms[n as int] == num_bits);
            lemma_count_one(freq@, num_bits as int);
            lemma_counted_push(old(freq)@, freq@, syms.take(n as int), num_bits);
            assert(syms.take(n as int).push(num_bits) =~= syms.take(n + 1));
        }
        freq[num_bits as usize] = freq[num_bits as usize] + 1;
        prev = value;
        n = n + 1;
    }
    proof {
        assert(syms.take(n as int) =~= syms);
    }
}

/// Symbols that code AC coefficients never have a size category of 15: the
/// coefficients are at most 1024 in magnitude.
pub open spec fn coefs_in_range(coefs: Seq<i16>) -> bool {
    forall|k: int| 0 <= k < coefs.len() ==> -1024 <= #[trigger] coefs[k] <= 1024
}

/// Count the AC symbols of the coefficients `start` to `end` (exclusive) of a
/// block. At most one symbol is counted per coefficient.
pub fn count_ac(freq: &mut [u32; 257], block: &[i16; 64], start: usize, end: usize)
    requires
        start <= end <= 64,
        total(old(freq)@, 257) + (end - start) <= u32::MAX,
        coefs_in_range(block@),
    ensures
        total(old(freq)@, 257) <= total(final(freq)@, 257) <= total(old(freq)@, 257) + (end - start),
        forall|s: int| 0 <= s < 257 ==> #[trigger] final(freq)@[s] >= old(freq)@[s],
        final(freq)@[15] == old(freq)@[15],
        forall|k: int|
            0 <= k < ac_symbols(block@.subrange(start as int, end as int), 0).len() ==> final(freq)@[
                #[trigger] ac_symbols(block@.subrange(start as int, end as int), 0)[k] as int
            ] > 0,
        counted(old(freq)@, final(freq)@, ac_symbols(block@.subrange(start as int, end as int), 0)),
{
    let ghost whole = block@.subrange(start as int, end as int);
    let ghost mut syms: Seq<u8> = Seq::empty();
    let ghost t0 = total(freq@, 257);
    let mut zero_run: u8 = 0;
    let mut i: usize = start;
    proof {
        assert(block@.subrange(start as int, end as int) =~= whole);
    }
    while i < end
        invariant
            start <= i <= end <= 64,
            zero_run as int <= i - start,
            coefs_in_range(block@),
            whole == block@.subrange(start as int, end as int),
            t0 == total(old(freq)@, 257),
            t0 + (end - start) <= u32::MAX,
            total(freq@, 257) - t0 + zero_run <= i - start,
            total(freq@, 257) >= t0,
            syms + ac_symbols(block@.subrange(i as int, end as int), zero_run as nat) == ac_symbols(whole, 0),
            forall|s: int| 0 <= s < 257 ==> #[trigger] freq@[s] >= old(freq)@[s],
            freq@[15] == old(freq)@[15],
            forall|k: int| 0 <= k < syms.len() ==> freq@[#[trigger] syms[k] as int] > 0,
            counted(old(freq)@, freq@, syms),
        decreases end - i,
    {
        let value = block[i];
        let ghost rest = block@.subrange(i as int, end as int);
        assert(rest.drop_first() =~= block@.subrange(i + 1, end as int));
        assert(rest[0] == value);
        if value == 0 {
            zero_run = zero_run + 1;
        } else {
            let ghost run0 = zero_run as nat;
            let ghost mut k: nat = 0;
            let ghost before = syms;
            while zero_run > 15
                invariant
                    run0 == zero_run + 16 * k,
                    zero_run <= 64,
                    start <= i < end <= 64,
                    t0 + (end - start) <= u32::MAX,
                    total(freq@, 257) - t0 + zero_run + 15 * k <= i - start,
                    total(freq@, 257) >= t0,
                    syms == before + Seq::new(k, |j: int| 0xF0u8),
                    forall|s: int| 0 <= s < 257 ==> #[trigger] freq@[s] >= old(freq)@[s],
                    freq@[15] == old(freq)@[15],
                    forall|j: int| 0 <= j < syms.len() ==> freq@[#[trigger] syms[j] as int] > 0,
                    counted(old(freq)@, freq@, syms),
                decreases zero_run,
            {
                proof {
                    lemma_count_one(freq@, 0xF0);
                    lemma_counted_push(old(freq)@, freq@, syms, 0xF0u8);
                }
                freq[0xF0] = freq[0xF0] + 1;
                zero_run = zero_run - 16;
                proof {
                    syms = syms.push(0xF0u8);
                    k = k + 1;
                    assert(syms =~= before + Seq::new(k, |j: int| 0xF0u8));
                }
            }
            proof {
                assert(k == run0 / 16 && zero_run == run0 % 16) by {
                    vstd::arithmetic::div_mod::lemma_fundamental_div_mod_converse(
                        run0 as int,
                        16,
                        k as int,
                        zero_run as int,
                    );
                }
                assert(block_in_range_coef(value));
            }
            let size = get_num_bits(value);
            proof {
                lemma_size_at_most_12(value as int);
                assert(size <= 11) by {
                    lemma_num_bits_mono(crate::writer::abs(value as int), 1024);
                    assert(num_bits(1024) == 11) by {
                        reveal_with_fuel(num_bits, 12);
                    }
                }
                assert(size >= 1) by {
                    reveal_with_fuel(num_bits, 2);
                }
            }
            let symbol = (zero_run << 4) | size;
            proof {
                assert((zero_run << 4u8) | size == zero_run * 16 + size) by (bit_vector)
                    requires
                        zero_run < 16,
                        size < 16,
                ;
                assert(symbol != 15);
                lemma_count_one(freq@, symbol as int);
                lemma_counted_push(old(freq)@, freq@, syms, symbol);
            }
            freq[symbol as usize] = freq[symbol as usize] + 1;
            proof {
                syms = syms.push(symbol);
                assert(Seq::new(run0 / 16, |j: int| 0xF0u8) + seq![
                    ((run0 % 16) * 16 + coef_size(value as int)) as u8,
                ] =~= Seq::new(k, |j: int| 0xF0u8).push(symbol));
                assert(syms + ac_symbols(block@.subrange(i + 1, end as int), 0) =~= before + ac_symbols(
                    rest,
                    run0,
                ));
            }
            zero_run = 0;
        }
        i = i + 1;
    }
    if zero_run > 0 {
        proof {
            lemma_count_one(freq@, 0);
            lemma_counted_push(old(freq)@, freq@, syms, 0u8);
        }
        freq[0] = freq[0] + 1;
        proof {
            assert(block@.subrange(i as int, end as int).len() == 0);
            syms = syms.push(0x00u8);
        }
    } else {
        proof {
            assert(block@.subrange(i as int, end as int).len() == 0);
        }
    }
    proof {
        assert(syms =~= ac_symbols(whole, 0));
    }
}

/// A coefficient of a quantized block.
pub open spec fn block_in_range_coef(v: i16) -> bool {
    -1024 <= v <= 1024
}

/// At least one AC symbol codes a non-empty run of coefficients.
pub proof fn lemma_ac_symbols_nonempty(coefs: Seq<i16>, run: nat)
    requires
        coefs.len() + run > 0,
    ensures
        ac_symbols(coefs, run).len() >= 1,
    decreases coefs.len(),
{
    if coefs.len() > 0 && coefs[0] == 0 {
        lemma_ac_symbols_nonempty(coefs.drop_first(), run + 1);
    }
}


/// Every symbol of a sequence has a non-zero frequency.
pub open spec fn freq_codes(f: Seq<u32>, syms: Seq<u8>) -> bool {
    forall|k: int| 0 <= k < syms.len() ==> f[#[trigger] syms[k] as int] > 0
}

/// Every AC symbol of the coefficients `start` to `end` (exclusive) of
/// every block has a non-zero frequency.
pub open spec fn freq_codes_ac(f: Seq<u32>, blocks: Seq<Seq<i16>>, start: int, end: int) -> bool {
    forall|n: int| 0 <= n < blocks.len() ==> freq_codes(f, ac_symbols(#[trigger] blocks[n].subrange(start, end), 0))
}

/// Frequencies that only grow keep every symbol counted.
pub proof fn lemma_freq_grow(f: Seq<u32>, g: Seq<u32>, blocks: Seq<Seq<i16>>, start: int, end: int)
    requires
        f.len() == 257,
        g.len() == 257,
        forall|s: int| 0 <= s < 257 ==> #[trigger] g[s] >= f[s],
        freq_codes_ac(f, blocks, start, end),
    ensures
        freq_codes_ac(g, blocks, start, end),
{
    assert forall|n: int| 0 <= n < blocks.len() implies freq_codes(
        g,
        ac_symbols(#[trigger] blocks[n].subrange(start, end), 0),
    ) by {
        let syms = ac_symbols(blocks[n].subrange(start, end), 0);
        assert forall|k: int| 0 <= k < syms.len() implies g[#[trigger] syms[k] as int] > 0 by {
            assert(f[syms[k] as int] > 0);
            assert(0 <= syms[k] < 257);
        }
    }
}

/// Law: the AC scans of a component in progressive mode, `scans` of them,
/// cover the coefficients 1 to 63 once each and none of them is empty:
/// scan `s` ends where scan `s + 1` starts, the first starts at 1 and the
/// last ends at 64.
pub proof fn lemma_scan_ranges(s: int, scans: int)
    requires
        1 <= scans <= 63,
        0 <= s < scans,
    ensures
        1 <= ac_scan_start(s, scans) < ac_scan_end(s, scans) <= 64,
        s == 0 ==> ac_scan_start(s, scans) == 1,
        s == scans - 1 ==> ac_scan_end(s, scans) == 64,
        s + 1 < scans ==> ac_scan_start(s + 1, scans) == ac_scan_end(s, scans),
        ac_scan_start(s, scans) <= 63,
{
    let v = 64int / scans;
    assert(scans * v <= 64 && v >= 1) by (nonlinear_arith)
        requires
            1 <= scans <= 63,
            v == 64int / scans,
    ;
    assert((s + 1) * v <= scans * v) by (nonlinear_arith)
        requires
            s < scans,
            v >= 1,
    ;
    assert(s * v + v == (s + 1) * v) by (nonlinear_arith);
    assert(0 <= s * v) by (nonlinear_arith)
        requires
            0 <= s,
            v >= 1,
    ;
    if s == scans - 1 {
        assert(s * v <= 63);
    }
}

/// The coefficients `start` to `end` (exclusive) of AC scan `scan` of
/// `scans` in progressive mode.
pub fn ac_band(scan: usize, scans: usize) -> (r: (usize, usize))
    requires
        1 <= scans <= 63,
        scan < scans,
    ensures
        r.0 == ac_scan_start(scan as int, scans as int),
        r.1 == ac_scan_end(scan as int, scans as int),
        1 <= r.0 < r.1 <= 64,
{
    proof {
        lemma_scan_ranges(scan as int, scans as int);
    }
    let values_per_scan = 64 / scans;
    proof {
        assert(scans * values_per_scan <= 64 && values_per_scan >= 1) by (nonlinear_arith)
            requires
                1 <= scans <= 63,
                values_per_scan == 64int / (scans as int),
        ;
        assert((scan + 1) * values_per_scan <= scans * values_per_scan) by (nonlinear_arith)
            requires
                scan < scans,
                values_per_scan >= 1,
        ;
        assert(scan * values_per_scan <= (scan + 1) * values_per_scan) by (nonlinear_arith)
            requires
                values_per_scan >= 1,
        ;
    }
    let start = if scan * values_per_scan < scan + 1 {
        scan + 1
    } else {
        scan * values_per_scan
    };
    let end = if scan == scans - 1 {
        // The last scan takes the coefficients left over by rounding.
        64
    } else {
        let next = scan + 1;
        if next * values_per_scan < next + 1 {
            next + 1
        } else {
            next * values_per_scan
        }
    };
    (start, end)
}

/// Count the AC symbols of every block of a component: over coefficients 1
/// to 63 in sequential mode, per scan in progressive mode. At most 63
/// symbols are counted per block.
pub fn count_component_ac(freq: &mut [u32; 257], blocks: &Vec<[i16; 64]>, progressive_scans: u8)
    requires
        total(old(freq)@, 257) + 63 * blocks@.len() <= u32::MAX,
        blocks_in_range(blocks@),
        progressive_scans == 0 || 2 <= progressive_scans <= 64,
    ensures
        total(old(freq)@, 257) <= total(final(freq)@, 257) <= total(old(freq)@, 257) + 63 * blocks@.len(),
        forall|s: int| 0 <= s < 257 ==> #[trigger] final(freq)@[s] >= old(freq)@[s],
        final(freq)@[15] == old(freq)@[15],
        progressive_scans == 0 ==> freq_codes_ac(final(freq)@, block_views(blocks@), 1, 64),
        progressive_scans != 0 ==> forall|s: int|
            0 <= s < progressive_scans - 1 ==> freq_codes_ac(
                final(freq)@,
                block_views(blocks@),
                ac_scan_start(s, progressive_scans - 1),
                #[trigger] ac_scan_end(s, progressive_scans - 1),
            ),
        freq_codes_ac_scans(final(freq)@, block_views(blocks@), progressive_scans as int),
        counted(old(freq)@, final(freq)@, component_ac_symbols(block_views(blocks@), progressive_scans as int)),
{
    let ghost bv = block_views(blocks@);
    let ghost t0 = total(freq@, 257);
    let ghost len = blocks@.len() as int;
    if progressive_scans > 0 {
        let scans = progressive_scans as usize - 1;
        let mut scan: usize = 0;
        while scan < scans
            invariant
                scan <= scans,
                1 <= scans <= 63,
                scans == progressive_scans - 1,
                bv == block_views(blocks@),
                len == blocks@.len(),
                blocks_in_range(blocks@),
                t0 == total(old(freq)@, 257),
                t0 + 63 * len <= u32::MAX,
                t0 <= total(freq@, 257),
                total(freq@, 257) <= t0 + len * (if scan == 0 {
                    0
                } else {
                    ac_scan_end((scan - 1) as int, scans as int) - 1
                }),
                forall|s: int| 0 <= s < 257 ==> #[trigger] freq@[s] >= old(freq)@[s],
                freq@[15] == old(freq)@[15],
                forall|s: int|
                    0 <= s < scan ==> freq_codes_ac(
                        freq@,
                        bv,
                        ac_scan_start(s, scans as int),
                        #[trigger] ac_scan_end(s, scans as int),
                    ),
                counted(old(freq)@, freq@, scans_ac_symbols(bv, scans as int, scan as int)),
            decreases scans - scan,
        {
            proof {
                lemma_scan_ranges(scan as int, scans as int);
                if scan > 0 {
                    lemma_scan_ranges((scan - 1) as int, scans as int);
                }
            }
            let (start, end) = ac_band(scan, scans);
            let ghost t1 = total(freq@, 257);
            let ghost f1 = freq@;
            proof {
                assert(t1 <= t0 + len * (start - 1)) by (nonlinear_arith)
                    requires
                        t1 <= t0 + len * (if scan == 0 {
                            0
                        } else {
                            ac_scan_end((scan - 1) as int, scans as int) - 1
                        }),
                        scan == 0 ==> start == 1,
                        scan > 0 ==> start == ac_scan_end((scan - 1) as int, scans as int),
                        len >= 0,
                ;
            }
            let mut n: usize = 0;
            while n < blocks.len()
                invariant
                    n <= blocks@.len(),
                    1 <= start <= end <= 64,
                    bv == block_views(blocks@),
                    len == blocks@.len(),
                    blocks_in_range(blocks@),
                    t0 == total(old(freq)@, 257),
                    t0 + 63 * len <= u32::MAX,
                    t1 <= t0 + len * (start - 1),
                    t1 <= total(freq@, 257) <= t1 + n * (end - start),
                    t0 <= t1,
                    forall|s: int| 0 <= s < 257 ==> #[trigger] freq@[s] >= f1[s],
                    forall|s: int| 0 <= s < 257 ==> #[trigger] f1[s] >= old(freq)@[s],
                    freq@[15] == old(freq)@[15],
                    forall|m: int|
                        0 <= m < n ==> freq_codes(freq@, ac_symbols(#[trigger] bv[m].subrange(start as int, end as int), 0)),
                    counted(f1, freq@, blocks_ac_symbols(bv, start as int, end as int, n as int)),
                decreases blocks@.len() - n,
            {
                proof {
                    assert(t0 + len * (start - 1) + (n + 1) * (end - start) <= t0 + 63 * len) by (nonlinear_arith)
                        requires
                            n < len,
                            1 <= start <= end <= 64,
                    ;
                    assert(n * (end - start) + (end - start) == (n + 1) * (end - start)) by (nonlinear_arith);
                    assert(block_in_range(blocks@[n as int]@));
                    assert(bv[n as int] == blocks@[n as int]@);
                }
                let ghost before = freq@;
                count_ac(freq, &blocks[n], start, end);
                proof {
                    lemma_counted_trans(
                        f1,
                        before,
                        freq@,
                        blocks_ac_symbols(bv, start as int, end as int, n as int),
                        ac_symbols(bv[n as int].subrange(start as int, end as int), 0),
                    );
                    assert forall|m: int|
                        0 <= m < n + 1 implies freq_codes(
                        freq@,
                        ac_symbols(#[trigger] bv[m].subrange(start as int, end as int), 0),
                    ) by {
                        if m < n {
                            let syms = ac_symbols(bv[m].subrange(start as int, end as int), 0);
                            assert forall|k: int| 0 <= k < syms.len() implies freq@[#[trigger] syms[k] as int] > 0 by {
                                assert(before[syms[k] as int] > 0);
                            }
                        }
                    }
                }
                n = n + 1;
            }
            proof {
                assert(total(freq@, 257) <= t0 + len * (end - 1)) by (nonlinear_arith)
                    requires
                        total(freq@, 257) <= t1 + len * (end - start),
                        t1 <= t0 + len * (start - 1),
                        n == len,
                ;
                lemma_counted_trans(
                    old(freq)@,
                    f1,
                    freq@,
                    scans_ac_symbols(bv, scans as int, scan as int),
                    blocks_ac_symbols(bv, start as int, end as int, n as int),
                );
                assert(scans_ac_symbols(bv, scans as int, scan + 1) == scans_ac_symbols(bv, scans as int, scan as int)
                    + blocks_ac_symbols(bv, start as int, end as int, n as int));
                assert forall|s: int|
                    0 <= s < scan + 1 implies freq_codes_ac(
                    freq@,
                    bv,
                    ac_scan_start(s, scans as int),
                    #[trigger] ac_scan_end(s, scans as int),
                ) by {
                    if s < scan {
                        lemma_freq_grow(f1, freq@, bv, ac_scan_start(s, scans as int), ac_scan_end(s, scans as int));
                    }
                }
            }
            scan = scan + 1;
        }
        proof {
            lemma_scan_ranges((scans - 1) as int, scans as int);
            assert(len * (ac_scan_end((scans - 1) as int, scans as int) - 1) == 63 * len) by (nonlinear_arith)
                requires
                    ac_scan_end((scans - 1) as int, scans as int) == 64,
            ;
        }
    } else {
        let mut n: usize = 0;
        while n < blocks.len()
            invariant
                n <= blocks@.len(),
                bv == block_views(blocks@),
                len == blocks@.len(),
                blocks_in_range(blocks@),
                t0 == total(old(freq)@, 257),
                t0 + 63 * len <= u32::MAX,
                t0 <= total(freq@, 257) <= t0 + 63 * n,
                forall|s: int| 0 <= s < 257 ==> #[trigger] freq@[s] >= old(freq)@[s],
                freq@[15] == old(freq)@[15],
                forall|m: int| 0 <= m < n ==> freq_codes(freq@, ac_symbols(#[trigger] bv[m].subrange(1, 64), 0)),
                counted(old(freq)@, freq@, blocks_ac_symbols(bv, 1, 64, n as int)),
            decreases blocks@.len() - n,
        {
            proof {
                assert(block_in_range(blocks@[n as int]@));
                assert(bv[n as int] == blocks@[n as int]@);
            }
            let ghost before = freq@;
            count_ac(freq, &blocks[n], 1, 64);
            proof {
                lemma_counted_trans(
                    old(freq)@,
                    before,
                    freq@,
                    blocks_ac_symbols(bv, 1, 64, n as int),
                    ac_symbols(bv[n as int].subrange(1, 64), 0),
                );
                assert forall|m: int| 0 <= m < n + 1 implies freq_codes(
                    freq@,
                    ac_symbols(#[trigger] bv[m].subrange(1, 64), 0),
                ) by {
                    if m < n {
                        let syms = ac_symbols(bv[m].subrange(1, 64), 0);
                        assert forall|k: int| 0 <= k < syms.len() implies freq@[#[trigger] syms[k] as int] > 0 by {
                            assert(before[syms[k] as int] > 0);
                        }
                    }
                }
            }
            n = n + 1;
        }
    }
}


/// Every AC symbol of the blocks' scans has a non-zero frequency.
pub open spec fn freq_codes_ac_scans(f: Seq<u32>, blocks: Seq<Seq<i16>>, progressive_scans: int) -> bool {
    if progressive_scans == 0 {
        freq_codes_ac(f, blocks, 1, 64)
    } else {
        forall|s: int|
            0 <= s < progressive_scans - 1 ==> freq_codes_ac(
                f,
                blocks,
                ac_scan_start(s, progressive_scans - 1),
                #[trigger] ac_scan_end(s, progressive_scans - 1),
            )
    }
}

/// Frequencies that only grow keep every symbol counted.
pub proof fn lemma_freq_grow_all(f: Seq<u32>, g: Seq<u32>, blocks: Seq<Seq<i16>>, ps: int, dc: Seq<u8>)
    requires
        f.len() == 257,
        g.len() == 257,
        forall|s: int| 0 <= s < 257 ==> #[trigger] g[s] >= f[s],
    ensures
        freq_codes_ac_scans(f, blocks, ps) ==> freq_codes_ac_scans(g, blocks, ps),
        freq_codes(f, dc) ==> freq_codes(g, dc),
{
    if freq_codes_ac_scans(f, blocks, ps) {
        if ps == 0 {
            lemma_freq_grow(f, g, blocks, 1, 64);
        } else {
            assert forall|s: int| 0 <= s < ps - 1 implies freq_codes_ac(
                g,
                blocks,
                ac_scan_start(s, ps - 1),
                #[trigger] ac_scan_end(s, ps - 1),
            ) by {
                lemma_freq_grow(f, g, blocks, ac_scan_start(s, ps - 1), ac_scan_end(s, ps - 1));
            }
        }
    }
    if freq_codes(f, dc) {
        assert forall|k: int| 0 <= k < dc.len() implies g[#[trigger] dc[k] as int] > 0 by {
            assert(f[dc[k] as int] > 0);
        }
    }
}

/// A table that codes every symbol of non-zero frequency codes every
/// symbol counted.
pub proof fn lemma_table_codes(
    table: HuffmanTable,
    f: Seq<u32>,
    blocks: Seq<Seq<i16>>,
    ps: int,
    dc: Seq<u8>,
)
    requires
        f.len() == 257,
        forall|s: u8| #[trigger] table.spec_values().contains(s) <==> f[s as int] > 0,
    ensures
        freq_codes_ac_scans(f, blocks, ps) ==> codes_ac_scans(table, blocks, ps),
        freq_codes(f, dc) ==> codes_all(table, dc),
{
    assert forall|syms: Seq<u8>| freq_codes(f, syms) implies codes_all(table, syms) by {
        assert forall|k: int| 0 <= k < syms.len() implies table.spec_values().contains(#[trigger] syms[k]) by {
            assert(f[syms[k] as int] > 0);
        }
    }
    assert forall|start: int, end: int| freq_codes_ac(f, blocks, start, end) implies codes_ac(
        table,
        blocks,
        start,
        end,
    ) by {
        assert forall|n: int| 0 <= n < blocks.len() implies codes_all(
            table,
            ac_symbols(#[trigger] blocks[n].subrange(start, end), 0),
        ) by {
            assert(freq_codes(f, ac_symbols(blocks[n].subrange(start, end), 0)));
        }
    }
}

/// The AC scans of a component with at least one block count a symbol.
pub proof fn lemma_some_ac_symbol(f: Seq<u32>, blocks: Seq<Seq<i16>>, ps: int)
    requires
        f.len() == 257,
        blocks.len() >= 1,
        blocks[0].len() == 64,
        ps == 0 || 2 <= ps <= 64,
        freq_codes_ac_scans(f, blocks, ps),
    ensures
        exists|s: int| 0 <= s < 256 && f[s] > 0,
{
    let (start, end) = if ps == 0 {
        (1int, 64int)
    } else {
        lemma_scan_ranges(ps - 2, ps - 1);
        (ac_scan_start(ps - 2, ps - 1), ac_scan_end(ps - 2, ps - 1))
    };
    assert(freq_codes_ac(f, blocks, start, end));
    let syms = ac_symbols(blocks[0].subrange(start, end), 0);
    lemma_ac_symbols_nonempty(blocks[0].subrange(start, end), 0);
    assert(freq_codes(f, syms));
    assert(f[syms[0] as int] > 0);
}

} // verus!
