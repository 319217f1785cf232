//! Reading the entropy-coded data back (ITU T.81 F.2.2): what a decoder
//! finds in the bits and the stuffed bytes that the encoder writes for a
//! block, a scan of one component and an interleaved scan. This module
//! holds no executable code: it states how the coded data is read and
//! proves that it gives back the coefficients that were coded.
use vstd::arithmetic::div_mod::*;
use vstd::arithmetic::mul::*;
use vstd::arithmetic::power2::*;
use vstd::prelude::*;

use crate::bitstream::{
    bits_of, bits_value, bytes_of, lemma_bits_of_len, lemma_bits_of_split, lemma_bits_value_bound, lemma_bits_value_of,
    ones, padded_bytes, stuff,
};
use crate::huffman::HuffmanTable;
use crate::encoder::Component;
use crate::stream::{ac_symbols, codes_ac, codes_all, dc_symbols, last_dc, prev_dc, sequential_bits, units_bits};
use crate::writer::{
    ac_bits, block_bits, coef_bits, coef_size, dc_bits, extend, lemma_coef_fits, lemma_extend_coef,
    lemma_num_bits_mono, num_bits, value_bits, zrl_bits,
};

verus! {

/// `p` is the beginning of `s`.
pub open spec fn starts(p: Seq<bool>, s: Seq<bool>) -> bool {
    p.len() <= s.len() && s.take(p.len() as int) == p
}

/// The table has a code for `x`, and that code begins `bits`.
pub open spec fn reads_symbol(table: HuffmanTable, bits: Seq<bool>, x: u8) -> bool {
    table.spec_values().contains(x) && starts(table.sym_bits(x), bits)
}

/// The symbol whose code begins `bits`, and the bits after that code;
/// `None` where no code of the table begins them.
pub open spec fn read_symbol(table: HuffmanTable, bits: Seq<bool>) -> Option<(u8, Seq<bool>)> {
    if exists|x: u8| #[trigger] reads_symbol(table, bits, x) {
        let x = choose|x: u8| #[trigger] reads_symbol(table, bits, x);
        Some((x, bits.skip(table.sym_bits(x).len() as int)))
    } else {
        None
    }
}

/// The first `m` of the `n` bits of `v` are the bits of `v` without its
/// `n - m` low bits.
pub proof fn lemma_bits_take(v: nat, n: nat, m: nat)
    requires
        m <= n,
    ensures
        bits_of(v, n).take(m as int) == bits_of(v / pow2((n - m) as nat), m),
{
    let d = (n - m) as nat;
    lemma_pow2_pos(d);
    let q = v / pow2(d);
    let r = v % pow2(d);
    lemma_fundamental_div_mod(v as int, pow2(d) as int);
    lemma_mul_is_commutative(pow2(d) as int, q as int);
    assert(v == q * pow2(d) + r);
    lemma_bits_of_split(q, r, m, d);
    assert(m + d == n);
    lemma_bits_of_len(q, m);
    assert((bits_of(q, m) + bits_of(r, d)).take(m as int) =~= bits_of(q, m));
}

/// Bits of numbers that fit in `n` bits tell the numbers apart.
pub proof fn lemma_bits_of_injective(a: nat, b: nat, n: nat)
    requires
        a < pow2(n),
        b < pow2(n),
        bits_of(a, n) == bits_of(b, n),
    ensures
        a == b,
{
    lemma_bits_value_of(a, n);
    lemma_bits_value_of(b, n);
}

/// At most one code of a table begins a bit sequence: the codes are
/// prefix-free.
pub proof fn lemma_one_symbol(table: HuffmanTable, bits: Seq<bool>, x: u8, y: u8)
    requires
        table.wf(),
        reads_symbol(table, bits, x),
        reads_symbol(table, bits, y),
    ensures
        x == y,
{
    if x != y {
        table.lemma_wf();
        let (sx, cx) = table.code_for(x);
        let (sy, cy) = table.code_for(y);
        lemma_bits_of_len(cx as nat, sx as nat);
        lemma_bits_of_len(cy as nat, sy as nat);
        assert(sx > 0 && sy > 0);
        if sx <= sy {
            let d = (sy - sx) as nat;
            assert(table.sym_bits(y).take(sx as int) =~= bits.take(sx as int));
            lemma_bits_take(cy as nat, sy as nat, sx as nat);
            lemma_pow2_adds(sx as nat, d);
            assert(sy as nat == sx as nat + d);
            lemma_pow2_pos(d);
            lemma_multiply_divide_lt(cy as int, pow2(d) as int, pow2(sx as nat) as int);
            lemma_mul_is_commutative(pow2(sx as nat) as int, pow2(d) as int);
            lemma_bits_of_injective((cy as nat) / pow2(d), cx as nat, sx as nat);
            table.lemma_prefix_free(x, y);
        } else {
            let d = (sx - sy) as nat;
            assert(table.sym_bits(x).take(sy as int) =~= bits.take(sy as int));
            lemma_bits_take(cx as nat, sx as nat, sy as nat);
            lemma_pow2_adds(sy as nat, d);
            assert(sx as nat == sy as nat + d);
            lemma_pow2_pos(d);
            lemma_multiply_divide_lt(cx as int, pow2(d) as int, pow2(sy as nat) as int);
            lemma_mul_is_commutative(pow2(sy as nat) as int, pow2(d) as int);
            lemma_bits_of_injective((cx as nat) / pow2(d), cy as nat, sy as nat);
            table.lemma_prefix_free(y, x);
        }
    }
}

/// The code of a symbol, followed by anything, reads as that symbol.
pub proof fn lemma_read_symbol(table: HuffmanTable, x: u8, rest: Seq<bool>)
    requires
        table.wf(),
        table.spec_values().contains(x),
    ensures
        read_symbol(table, table.sym_bits(x) + rest) == Some((x, rest)),
{
    let bits = table.sym_bits(x) + rest;
    assert(bits.take(table.sym_bits(x).len() as int) =~= table.sym_bits(x));
    assert(reads_symbol(table, bits, x));
    let y = choose|y: u8| #[trigger] reads_symbol(table, bits, y);
    lemma_one_symbol(table, bits, x, y);
    assert(bits.skip(table.sym_bits(x).len() as int) =~= rest);
}

/// `n` zero coefficients.
pub open spec fn zeros(n: nat) -> Seq<i16> {
    Seq::new(n, |i: int| 0i16)
}

/// A coefficient from `size` additional bits at the start of `bits`
/// (procedure EXTEND), and the bits after them.
pub open spec fn read_value(bits: Seq<bool>, size: nat) -> Option<(int, Seq<bool>)> {
    if size <= bits.len() {
        Some((extend(size, bits_value(bits.take(size as int))), bits.skip(size as int)))
    } else {
        None
    }
}

/// `z` put before the coefficients of a successful read.
pub open spec fn prepend(z: Seq<i16>, r: Option<(Seq<i16>, Seq<bool>)>) -> Option<(Seq<i16>, Seq<bool>)> {
    match r {
        Some((c, rest)) => Some((z + c, rest)),
        None => None,
    }
}

/// `n` AC coefficients read from `bits` with the table `table` (Figure
/// F.13), and the bits after them. A symbol of size 0 and run 0 ends the
/// block with zeros, one of size 0 and run 15 stands for sixteen zeros, any
/// other for its run of zeros and a coefficient of its size.
pub open spec fn read_ac(table: HuffmanTable, bits: Seq<bool>, n: nat) -> Option<(Seq<i16>, Seq<bool>)>
    decreases n,
{
    if n == 0 {
        Some((Seq::empty(), bits))
    } else {
        match read_symbol(table, bits) {
            None => None,
            Some((sym, after)) => {
                let run = (sym / 16) as nat;
                let size = (sym % 16) as nat;
                if size == 0 && run == 0 {
                    Some((zeros(n), after))
                } else if size == 0 && run == 15 && n >= 16 {
                    prepend(zeros(16), read_ac(table, after, (n - 16) as nat))
                } else if size > 0 && run + 1 <= n {
                    match read_value(after, size) {
                        Some((v, after2)) => prepend(
                            zeros(run) + seq![v as i16],
                            read_ac(table, after2, (n - run - 1) as nat),
                        ),
                        None => None,
                    }
                } else {
                    None
                }
            },
        }
    }
}

/// A block read from `bits` (Figure F.12): its DC coefficient as a
/// difference to `prev_dc`, read with `dc_table`, then its 63 AC
/// coefficients read with `ac_table`; and the bits after it.
pub open spec fn read_block(
    dc_table: HuffmanTable,
    ac_table: HuffmanTable,
    bits: Seq<bool>,
    prev_dc: int,
) -> Option<(Seq<i16>, Seq<bool>)> {
    match read_symbol(dc_table, bits) {
        None => None,
        Some((size, after)) => match read_value(after, size as nat) {
            None => None,
            Some((diff, after2)) => prepend(seq![(prev_dc + diff) as i16], read_ac(ac_table, after2, 63)),
        },
    }
}

/// The additional bits of a coefficient read back as the coefficient.
pub proof fn lemma_read_value(v: int, rest: Seq<bool>)
    requires
        -32767 <= v <= 32767,
    ensures
        read_value(value_bits(v) + rest, coef_size(v)) == Some((v, rest)),
{
    lemma_coef_fits(v);
    lemma_bits_of_len(coef_bits(v), coef_size(v));
    let bits = value_bits(v) + rest;
    assert(bits.take(coef_size(v) as int) =~= value_bits(v));
    assert(bits.skip(coef_size(v) as int) =~= rest);
    lemma_bits_value_of(coef_bits(v), coef_size(v));
    lemma_extend_coef(v);
}

/// Zero run codes one after the other, seen from the front.
proof fn lemma_zrl_front(table: HuffmanTable, k: nat)
    requires
        k >= 1,
    ensures
        zrl_bits(table, k) == table.sym_bits(0xF0) + zrl_bits(table, (k - 1) as nat),
    decreases k,
{
    let f = table.sym_bits(0xF0);
    if k == 1 {
        assert(zrl_bits(table, 0) =~= Seq::<bool>::empty());
        assert(zrl_bits(table, 1) =~= f + zrl_bits(table, 0));
    } else {
        lemma_zrl_front(table, (k - 1) as nat);
        assert(zrl_bits(table, k) =~= f + zrl_bits(table, (k - 1) as nat));
    }
}

/// Reading `k` zero run codes gives sixteen zeros each.
proof fn lemma_read_zrl(table: HuffmanTable, k: nat, tail: Seq<bool>, n: nat)
    requires
        table.wf(),
        k > 0 ==> table.spec_values().contains(0xF0),
        n >= 16 * k,
    ensures
        read_ac(table, zrl_bits(table, k) + tail, n) == prepend(
            zeros(16 * k),
            read_ac(table, tail, (n - 16 * k) as nat),
        ),
    decreases k,
{
    if k == 0 {
        assert(zrl_bits(table, 0) + tail =~= tail);
        match read_ac(table, tail, n) {
            Some((c, r)) => {
                assert(zeros(0) + c =~= c);
            },
            None => {},
        }
    } else {
        lemma_zrl_front(table, k);
        let after = zrl_bits(table, (k - 1) as nat) + tail;
        assert(zrl_bits(table, k) + tail =~= table.sym_bits(0xF0) + after);
        lemma_read_symbol(table, 0xF0, after);
        lemma_read_zrl(table, (k - 1) as nat, tail, (n - 16) as nat);
        assert((n - 16) as nat - 16 * (k - 1) == n - 16 * k);
        match read_ac(table, tail, (n - 16 * k) as nat) {
            Some((c, r)) => {
                assert(zeros(16) + (zeros((16 * (k - 1)) as nat) + c) =~= zeros(16 * k) + c);
            },
            None => {},
        }
    }
}

/// Coefficients of at most 1024 in magnitude have a size of 1 to 11 when
/// they are not zero.
proof fn lemma_small_size(v: int)
    requires
        -1024 <= v <= 1024,
        v != 0,
    ensures
        1 <= coef_size(v) <= 11,
{
    lemma_num_bits_mono(crate::writer::abs(v), 1024);
    assert(num_bits(1024) == 11) by {
        reveal_with_fuel(num_bits, 12);
    }
    assert(coef_size(v) >= 1) by {
        reveal_with_fuel(num_bits, 2);
    }
}

/// The bits that code AC coefficients after `run` uncoded zeros read back
/// as those zeros and the coefficients.
#[verifier::spinoff_prover]
#[verifier::rlimit(30)]
pub proof fn lemma_read_ac(table: HuffmanTable, coefs: Seq<i16>, run: nat, rest: Seq<bool>)
    requires
        table.wf(),
        codes_all(table, ac_symbols(coefs, run)),
        forall|k: int| 0 <= k < coefs.len() ==> -1024 <= #[trigger] coefs[k] <= 1024,
    ensures
        read_ac(table, ac_bits(table, coefs, run) + rest, run + coefs.len()) == Some((zeros(run) + coefs, rest)),
    decreases coefs.len(),
{
    let n = run + coefs.len();
    if coefs.len() == 0 {
        if run > 0 {
            let syms = ac_symbols(coefs, run);
            assert(syms[0] == 0x00u8);
            assert(table.spec_values().contains(0x00u8));
            lemma_read_symbol(table, 0x00, rest);
            assert(zeros(run) + coefs =~= zeros(run));
        } else {
            assert(ac_bits(table, coefs, run) + rest =~= rest);
            assert(zeros(run) + coefs =~= Seq::<i16>::empty());
        }
    } else if coefs[0] == 0 {
        let tail = coefs.drop_first();
        assert(forall|k: int| 0 <= k < tail.len() ==> tail[k] == coefs[k + 1]);
        lemma_read_ac(table, tail, run + 1, rest);
        assert(zeros(run + 1) + tail =~= zeros(run) + coefs);
    } else {
        let c = coefs[0] as int;
        let tail = coefs.drop_first();
        assert(forall|k: int| 0 <= k < tail.len() ==> tail[k] == coefs[k + 1]);
        lemma_small_size(c);
        let size = coef_size(c);
        let k = run / 16;
        let r = run % 16;
        let sym = (r * 16 + size) as u8;
        assert(r * 16 + size < 256);
        assert(sym / 16 == r && sym % 16 == size);
        let zrl_syms = Seq::new(k, |j: int| 0xF0u8);
        let syms = ac_symbols(coefs, run);
        assert(syms == zrl_syms + seq![sym] + ac_symbols(tail, 0));
        if k > 0 {
            assert(syms[0] == 0xF0u8);
        }
        assert(syms[k as int] == sym);
        assert forall|j: int| 0 <= j < ac_symbols(tail, 0).len() implies table.spec_values().contains(
            #[trigger] ac_symbols(tail, 0)[j],
        ) by {
            assert(syms[k + 1 + j] == ac_symbols(tail, 0)[j]);
        }
        lemma_read_ac(table, tail, 0, rest);
        let after2 = ac_bits(table, tail, 0) + rest;
        let after = value_bits(c) + after2;
        let t = table.sym_bits(sym) + after;
        assert(ac_bits(table, coefs, run) + rest =~= zrl_bits(table, k) + t);
        lemma_read_zrl(table, k, t, n);
        assert(n - 16 * k == r + coefs.len());
        lemma_read_symbol(table, sym, after);
        lemma_read_value(c, after2);
        assert(tail.len() == coefs.len() - 1);
        assert((r + coefs.len() - r - 1) as nat == tail.len());
        assert(zeros(0) + tail =~= tail);
        assert((c as i16) == coefs[0]);
        assert(zeros((16 * k) as nat) + (zeros(r) + seq![c as i16] + tail) =~= zeros(run) + coefs);
    }
}

/// Law: the bits that code a block read back as the block: its DC
/// coefficient, coded as a difference to `prev_dc`, and its 63 AC
/// coefficients; reading stops where the block's bits end.
pub proof fn lemma_read_block(
    dc_table: HuffmanTable,
    ac_table: HuffmanTable,
    block: Seq<i16>,
    prev_dc: int,
    rest: Seq<bool>,
)
    requires
        dc_table.wf(),
        ac_table.wf(),
        crate::stream::block_in_range(block),
        -1024 <= prev_dc <= 1024,
        dc_table.spec_values().contains(coef_size(block[0] - prev_dc) as u8),
        codes_all(ac_table, ac_symbols(block.subrange(1, 64), 0)),
    ensures
        read_block(dc_table, ac_table, block_bits(block, prev_dc, dc_table, ac_table) + rest, prev_dc) == Some(
            (block, rest),
        ),
{
    let diff = block[0] - prev_dc;
    let size = coef_size(diff);
    lemma_coef_fits(diff);
    let ac = block.subrange(1, 64);
    assert(forall|k: int| 0 <= k < ac.len() ==> ac[k] == block[k + 1]);
    lemma_read_ac(ac_table, ac, 0, rest);
    let after2 = ac_bits(ac_table, ac, 0) + rest;
    let after = value_bits(diff) + after2;
    assert(block_bits(block, prev_dc, dc_table, ac_table) + rest =~= dc_table.sym_bits(size as u8) + after);
    lemma_read_symbol(dc_table, size as u8, after);
    lemma_read_value(diff, after2);
    assert(zeros(0) + ac =~= ac);
    assert(seq![(prev_dc + diff) as i16] + ac =~= block);
}

/// `count` blocks read one after the other from `bits`, the DC coefficient
/// of each a difference to that of the block before (to `prev_dc` for the
/// first), and the bits after them.
pub open spec fn read_blocks(
    dc_table: HuffmanTable,
    ac_table: HuffmanTable,
    bits: Seq<bool>,
    count: nat,
    prev_dc: int,
) -> Option<(Seq<Seq<i16>>, Seq<bool>)>
    decreases count,
{
    if count == 0 {
        Some((Seq::empty(), bits))
    } else {
        match read_block(dc_table, ac_table, bits, prev_dc) {
            None => None,
            Some((b, after)) => match read_blocks(dc_table, ac_table, after, (count - 1) as nat, b[0] as int) {
                None => None,
                Some((bs, rest)) => Some((seq![b] + bs, rest)),
            },
        }
    }
}

/// Bits of the blocks `k` to `n - 1` of a sequential scan, in order.
pub open spec fn blocks_bits_from(
    blocks: Seq<Seq<i16>>,
    k: int,
    n: int,
    dc: HuffmanTable,
    ac: HuffmanTable,
) -> Seq<bool>
    decreases n - k,
{
    if k >= n {
        Seq::empty()
    } else {
        block_bits(blocks[k], prev_dc(blocks, k), dc, ac) + blocks_bits_from(blocks, k + 1, n, dc, ac)
    }
}

proof fn lemma_bits_from_last(blocks: Seq<Seq<i16>>, k: int, n: int, dc: HuffmanTable, ac: HuffmanTable)
    requires
        k < n,
    ensures
        blocks_bits_from(blocks, k, n, dc, ac) == blocks_bits_from(blocks, k, n - 1, dc, ac) + block_bits(
            blocks[n - 1],
            prev_dc(blocks, n - 1),
            dc,
            ac,
        ),
    decreases n - k,
{
    if k + 1 < n {
        lemma_bits_from_last(blocks, k + 1, n, dc, ac);
        assert(blocks_bits_from(blocks, k, n, dc, ac) =~= blocks_bits_from(blocks, k, n - 1, dc, ac) + block_bits(
            blocks[n - 1],
            prev_dc(blocks, n - 1),
            dc,
            ac,
        ));
    } else {
        assert(blocks_bits_from(blocks, k + 1, n, dc, ac) =~= Seq::<bool>::empty());
        assert(blocks_bits_from(blocks, k, n - 1, dc, ac) =~= Seq::<bool>::empty());
        assert(blocks_bits_from(blocks, k, n, dc, ac) =~= blocks_bits_from(blocks, k, n - 1, dc, ac) + block_bits(
            blocks[n - 1],
            prev_dc(blocks, n - 1),
            dc,
            ac,
        ));
    }
}

/// The bits of a sequential scan are those of its blocks from the first.
proof fn lemma_sequential_from_front(blocks: Seq<Seq<i16>>, n: int, dc: HuffmanTable, ac: HuffmanTable)
    requires
        n >= 0,
    ensures
        sequential_bits(blocks, n, dc, ac) == blocks_bits_from(blocks, 0, n, dc, ac),
    decreases n,
{
    if n > 0 {
        lemma_sequential_from_front(blocks, n - 1, dc, ac);
        lemma_bits_from_last(blocks, 0, n, dc, ac);
    }
}

/// Reading the bits of the blocks `k` to `n - 1` gives those blocks.
proof fn lemma_read_blocks_from(
    dc: HuffmanTable,
    ac: HuffmanTable,
    blocks: Seq<Seq<i16>>,
    k: int,
    rest: Seq<bool>,
)
    requires
        dc.wf(),
        ac.wf(),
        0 <= k <= blocks.len(),
        forall|i: int| 0 <= i < blocks.len() ==> crate::stream::block_in_range(#[trigger] blocks[i]),
        codes_all(dc, dc_symbols(blocks)),
        codes_ac(ac, blocks, 1, 64),
    ensures
        read_blocks(
            dc,
            ac,
            blocks_bits_from(blocks, k, blocks.len() as int, dc, ac) + rest,
            (blocks.len() - k) as nat,
            prev_dc(blocks, k),
        ) == Some((blocks.subrange(k, blocks.len() as int), rest)),
    decreases blocks.len() - k,
{
    let n = blocks.len() as int;
    if k == n {
        assert(blocks_bits_from(blocks, k, n, dc, ac) + rest =~= rest);
        assert(blocks.subrange(k, n) =~= Seq::<Seq<i16>>::empty());
    } else {
        lemma_read_blocks_from(dc, ac, blocks, k + 1, rest);
        let after = blocks_bits_from(blocks, k + 1, n, dc, ac) + rest;
        assert(blocks_bits_from(blocks, k, n, dc, ac) + rest =~= block_bits(blocks[k], prev_dc(blocks, k), dc, ac)
            + after);
        assert(crate::stream::block_in_range(blocks[k]));
        if k > 0 {
            assert(crate::stream::block_in_range(blocks[k - 1]));
            assert(-1024 <= blocks[k - 1][0] <= 1024);
        }
        assert(dc_symbols(blocks)[k] == coef_size(blocks[k][0] - prev_dc(blocks, k)) as u8);
        assert(codes_all(ac, ac_symbols(blocks[k].subrange(1, 64), 0)));
        lemma_read_block(dc, ac, blocks[k], prev_dc(blocks, k), after);
        assert(prev_dc(blocks, k + 1) == blocks[k][0] as int);
        assert(seq![blocks[k]] + blocks.subrange(k + 1, n) =~= blocks.subrange(k, n));
    }
}

/// Law: the bits of a sequential scan read back as its blocks, one after
/// the other, each DC coefficient coded as a difference to the one before;
/// reading stops where the scan's bits end.
pub proof fn lemma_read_sequential(dc: HuffmanTable, ac: HuffmanTable, blocks: Seq<Seq<i16>>, rest: Seq<bool>)
    requires
        dc.wf(),
        ac.wf(),
        forall|i: int| 0 <= i < blocks.len() ==> crate::stream::block_in_range(#[trigger] blocks[i]),
        codes_all(dc, dc_symbols(blocks)),
        codes_ac(ac, blocks, 1, 64),
    ensures
        read_blocks(dc, ac, sequential_bits(blocks, blocks.len() as int, dc, ac) + rest, blocks.len(), 0) == Some(
            (blocks, rest),
        ),
{
    lemma_sequential_from_front(blocks, blocks.len() as int, dc, ac);
    lemma_read_blocks_from(dc, ac, blocks, 0, rest);
    assert(blocks.subrange(0, blocks.len() as int) =~= blocks);
}

/// Stuffed bytes read back: each `0xFF 0x00` pair is the one byte `0xFF`.
pub open spec fn unstuff(b: Seq<u8>) -> Seq<u8>
    decreases b.len(),
{
    if b.len() == 0 {
        Seq::empty()
    } else if b[0] == 0xFF && b.len() >= 2 && b[1] == 0x00 {
        seq![0xFFu8] + unstuff(b.skip(2))
    } else {
        seq![b[0]] + unstuff(b.skip(1))
    }
}

/// The bits of bytes, eight per byte, most significant first.
pub open spec fn byte_bits(bytes: Seq<u8>) -> Seq<bool>
    decreases bytes.len(),
{
    if bytes.len() == 0 {
        Seq::empty()
    } else {
        bits_of(bytes[0] as nat, 8) + byte_bits(bytes.skip(1))
    }
}

/// Number of padding bits that complete `n` bits to whole bytes.
pub open spec fn padding(n: nat) -> nat {
    ((8 - n % 8) % 8) as nat
}

/// Law: removing the stuffing gives back the bytes that were stuffed.
pub proof fn lemma_unstuff_stuff(b: Seq<u8>)
    ensures
        unstuff(stuff(b)) == b,
    decreases b.len(),
{
    if b.len() > 0 {
        lemma_unstuff_stuff(b.skip(1));
        let t = stuff(b.skip(1));
        if b[0] == 0xFF {
            assert(stuff(b) == seq![0xFFu8, 0x00u8] + t);
            assert(stuff(b).skip(2) =~= t);
        } else {
            assert(stuff(b) == seq![b[0]] + t);
            assert(stuff(b).skip(1) =~= t);
        }
        assert(seq![b[0]] + b.skip(1) =~= b);
    } else {
        assert(stuff(b) =~= Seq::<u8>::empty());
    }
}

/// The bits of the value of a bit sequence are the sequence.
pub proof fn lemma_bits_of_value(t: Seq<bool>)
    ensures
        bits_of(bits_value(t), t.len()) == t,
    decreases t.len(),
{
    if t.len() > 0 {
        let p = t.drop_last();
        lemma_bits_of_value(p);
        let v = bits_value(t);
        assert(v == 2 * bits_value(p) + if t.last() {
            1nat
        } else {
            0nat
        });
        assert(v / 2 == bits_value(p) && (v % 2 == 1) == t.last());
        assert(bits_of(v, t.len()) =~= bits_of(v / 2, p.len()).push(v % 2 == 1));
        assert(p.push(t.last()) =~= t);
    } else {
        assert(bits_of(bits_value(t), 0) =~= t);
    }
}

/// Unpacking the whole bytes of a bit sequence gives its whole bytes' bits.
pub proof fn lemma_byte_bits_of(s: Seq<bool>)
    ensures
        byte_bits(bytes_of(s)) == s.take((8 * (s.len() / 8)) as int),
    decreases s.len(),
{
    if s.len() < 8 {
        assert(s.take(0) =~= Seq::<bool>::empty());
    } else {
        let h = s.take(8);
        let t = s.skip(8);
        lemma_byte_bits_of(t);
        lemma_bits_value_bound(h);
        lemma2_to64();
        let x = bits_value(h) as u8;
        assert(x as nat == bits_value(h));
        lemma_bits_of_value(h);
        let bs = bytes_of(s);
        assert(bs == seq![x] + bytes_of(t));
        assert(bs[0] == x);
        assert(bs.skip(1) =~= bytes_of(t));
        assert(8 * (s.len() / 8) == 8 + 8 * (t.len() / 8));
        assert(h + t.take((8 * (t.len() / 8)) as int) =~= s.take((8 * (s.len() / 8)) as int));
    }
}

/// Law: the bytes that a bit sequence is written as, padded with ones to a
/// whole byte and stuffed, unstuffed and unpacked give back the bits,
/// followed by fewer than eight padding ones.
pub proof fn lemma_unpack_padded(bits: Seq<bool>)
    ensures
        padding(bits.len()) < 8,
        byte_bits(unstuff(padded_bytes(bits))) == bits + ones(padding(bits.len())),
{
    let n = bits.len();
    let all = bits + ones(7);
    lemma_unstuff_stuff(bytes_of(all));
    lemma_byte_bits_of(all);
    assert(8 * (all.len() / 8) == n + padding(n)) by (nonlinear_arith)
        requires
            all.len() == n + 7,
    ;
    assert(all.take((8 * (all.len() / 8)) as int) =~= bits + ones(padding(n)));
}

/// Law: the entropy-coded bytes of a sequential scan, with the stuffing
/// removed and unpacked into bits, read back as the scan's blocks, followed
/// only by the ones (fewer than eight) that pad the last byte.
pub proof fn lemma_read_sequential_scan(dc: HuffmanTable, ac: HuffmanTable, blocks: Seq<Seq<i16>>)
    requires
        dc.wf(),
        ac.wf(),
        forall|i: int| 0 <= i < blocks.len() ==> crate::stream::block_in_range(#[trigger] blocks[i]),
        codes_all(dc, dc_symbols(blocks)),
        codes_ac(ac, blocks, 1, 64),
    ensures
        ({
            let bits = sequential_bits(blocks, blocks.len() as int, dc, ac);
            &&& padding(bits.len()) < 8
            &&& read_blocks(dc, ac, byte_bits(unstuff(padded_bytes(bits))), blocks.len(), 0) == Some(
                (blocks, ones(padding(bits.len()))),
            )
        }),
{
    let bits = sequential_bits(blocks, blocks.len() as int, dc, ac);
    lemma_unpack_padded(bits);
    lemma_read_sequential(dc, ac, blocks, ones(padding(bits.len())));
}

/// `count` DC coefficients read one after the other from `bits`, each a
/// difference to the one before (to `prev_dc` for the first), and the bits
/// after them.
pub open spec fn read_dcs(dc_table: HuffmanTable, bits: Seq<bool>, count: nat, prev_dc: int) -> Option<
    (Seq<i16>, Seq<bool>),
>
    decreases count,
{
    if count == 0 {
        Some((Seq::empty(), bits))
    } else {
        match read_symbol(dc_table, bits) {
            None => None,
            Some((size, after)) => match read_value(after, size as nat) {
                None => None,
                Some((diff, after2)) => {
                    let v = (prev_dc + diff) as i16;
                    prepend(seq![v], read_dcs(dc_table, after2, (count - 1) as nat, v as int))
                },
            },
        }
    }
}

/// Bits of the DC coefficients of blocks `k` to `n - 1` of a DC scan.
pub open spec fn dc_bits_from(blocks: Seq<Seq<i16>>, k: int, n: int, dc: HuffmanTable) -> Seq<bool>
    decreases n - k,
{
    if k >= n {
        Seq::empty()
    } else {
        dc_bits(dc, blocks[k][0] - prev_dc(blocks, k)) + dc_bits_from(blocks, k + 1, n, dc)
    }
}

proof fn lemma_dc_from_last(blocks: Seq<Seq<i16>>, k: int, n: int, dc: HuffmanTable)
    requires
        k < n,
    ensures
        dc_bits_from(blocks, k, n, dc) == dc_bits_from(blocks, k, n - 1, dc) + dc_bits(
            dc,
            blocks[n - 1][0] - prev_dc(blocks, n - 1),
        ),
    decreases n - k,
{
    let last = dc_bits(dc, blocks[n - 1][0] - prev_dc(blocks, n - 1));
    if k + 1 < n {
        lemma_dc_from_last(blocks, k + 1, n, dc);
        assert(dc_bits_from(blocks, k, n, dc) =~= dc_bits_from(blocks, k, n - 1, dc) + last);
    } else {
        assert(dc_bits_from(blocks, k + 1, n, dc) =~= Seq::<bool>::empty());
        assert(dc_bits_from(blocks, k, n - 1, dc) =~= Seq::<bool>::empty());
        assert(dc_bits_from(blocks, k, n, dc) =~= dc_bits_from(blocks, k, n - 1, dc) + last);
    }
}

proof fn lemma_dc_scan_from_front(blocks: Seq<Seq<i16>>, n: int, dc: HuffmanTable)
    requires
        n >= 0,
    ensures
        crate::stream::dc_scan_bits(blocks, n, dc) == dc_bits_from(blocks, 0, n, dc),
    decreases n,
{
    if n > 0 {
        lemma_dc_scan_from_front(blocks, n - 1, dc);
        lemma_dc_from_last(blocks, 0, n, dc);
    }
}

/// The DC coefficients of the blocks.
pub open spec fn dc_values(blocks: Seq<Seq<i16>>) -> Seq<i16> {
    Seq::new(blocks.len(), |i: int| blocks[i][0])
}

proof fn lemma_read_dcs_from(dc: HuffmanTable, blocks: Seq<Seq<i16>>, k: int, rest: Seq<bool>)
    requires
        dc.wf(),
        0 <= k <= blocks.len(),
        forall|i: int| 0 <= i < blocks.len() ==> crate::stream::block_in_range(#[trigger] blocks[i]),
        codes_all(dc, dc_symbols(blocks)),
    ensures
        read_dcs(dc, dc_bits_from(blocks, k, blocks.len() as int, dc) + rest, (blocks.len() - k) as nat, prev_dc(blocks, k))
            == Some((dc_values(blocks).subrange(k, blocks.len() as int), rest)),
    decreases blocks.len() - k,
{
    let n = blocks.len() as int;
    if k == n {
        assert(dc_bits_from(blocks, k, n, dc) + rest =~= rest);
        assert(dc_values(blocks).subrange(k, n) =~= Seq::<i16>::empty());
    } else {
        lemma_read_dcs_from(dc, blocks, k + 1, rest);
        assert(crate::stream::block_in_range(blocks[k]));
        if k > 0 {
            assert(crate::stream::block_in_range(blocks[k - 1]));
            assert(-1024 <= blocks[k - 1][0] <= 1024);
        }
        let diff = blocks[k][0] - prev_dc(blocks, k);
        lemma_coef_fits(diff);
        let after2 = dc_bits_from(blocks, k + 1, n, dc) + rest;
        let after = value_bits(diff) + after2;
        assert(dc_bits_from(blocks, k, n, dc) + rest =~= dc.sym_bits(coef_size(diff) as u8) + after);
        assert(dc_symbols(blocks)[k] == coef_size(diff) as u8);
        lemma_read_symbol(dc, coef_size(diff) as u8, after);
        lemma_read_value(diff, after2);
        assert(prev_dc(blocks, k + 1) == blocks[k][0] as int);
        assert(seq![blocks[k][0]] + dc_values(blocks).subrange(k + 1, n) =~= dc_values(blocks).subrange(k, n));
    }
}

/// Law: the bits of a progressive DC scan read back as the DC coefficients
/// of its blocks, each coded as a difference to the one before; reading
/// stops where the scan's bits end.
pub proof fn lemma_read_dc_scan(dc: HuffmanTable, blocks: Seq<Seq<i16>>, rest: Seq<bool>)
    requires
        dc.wf(),
        forall|i: int| 0 <= i < blocks.len() ==> crate::stream::block_in_range(#[trigger] blocks[i]),
        codes_all(dc, dc_symbols(blocks)),
    ensures
        read_dcs(dc, crate::stream::dc_scan_bits(blocks, blocks.len() as int, dc) + rest, blocks.len(), 0) == Some(
            (dc_values(blocks), rest),
        ),
{
    lemma_dc_scan_from_front(blocks, blocks.len() as int, dc);
    lemma_read_dcs_from(dc, blocks, 0, rest);
    assert(dc_values(blocks).subrange(0, blocks.len() as int) =~= dc_values(blocks));
}

/// `count` runs of `width` AC coefficients read one after the other from
/// `bits`, and the bits after them.
pub open spec fn read_ac_runs(ac_table: HuffmanTable, bits: Seq<bool>, count: nat, width: nat) -> Option<
    (Seq<Seq<i16>>, Seq<bool>),
>
    decreases count,
{
    if count == 0 {
        Some((Seq::empty(), bits))
    } else {
        match read_ac(ac_table, bits, width) {
            None => None,
            Some((c, after)) => match read_ac_runs(ac_table, after, (count - 1) as nat, width) {
                None => None,
                Some((cs, rest)) => Some((seq![c] + cs, rest)),
            },
        }
    }
}

/// Bits of the coefficients `start` to `end` (exclusive) of blocks `k` to
/// `n - 1` of an AC scan.
pub open spec fn ac_bits_from(blocks: Seq<Seq<i16>>, k: int, n: int, start: int, end: int, ac: HuffmanTable) -> Seq<
    bool,
>
    decreases n - k,
{
    if k >= n {
        Seq::empty()
    } else {
        ac_bits(ac, blocks[k].subrange(start, end), 0) + ac_bits_from(blocks, k + 1, n, start, end, ac)
    }
}

proof fn lemma_ac_from_last(blocks: Seq<Seq<i16>>, k: int, n: int, start: int, end: int, ac: HuffmanTable)
    requires
        k < n,
    ensures
        ac_bits_from(blocks, k, n, start, end, ac) == ac_bits_from(blocks, k, n - 1, start, end, ac) + ac_bits(
            ac,
            blocks[n - 1].subrange(start, end),
            0,
        ),
    decreases n - k,
{
    let last = ac_bits(ac, blocks[n - 1].subrange(start, end), 0);
    if k + 1 < n {
        lemma_ac_from_last(blocks, k + 1, n, start, end, ac);
        assert(ac_bits_from(blocks, k, n, start, end, ac) =~= ac_bits_from(blocks, k, n - 1, start, end, ac) + last);
    } else {
        assert(ac_bits_from(blocks, k + 1, n, start, end, ac) =~= Seq::<bool>::empty());
        assert(ac_bits_from(blocks, k, n - 1, start, end, ac) =~= Seq::<bool>::empty());
        assert(ac_bits_from(blocks, k, n, start, end, ac) =~= ac_bits_from(blocks, k, n - 1, start, end, ac) + last);
    }
}

proof fn lemma_ac_scan_from_front(blocks: Seq<Seq<i16>>, n: int, start: int, end: int, ac: HuffmanTable)
    requires
        n >= 0,
    ensures
        crate::stream::ac_scan_bits(blocks, n, start, end, ac) == ac_bits_from(blocks, 0, n, start, end, ac),
    decreases n,
{
    if n > 0 {
        lemma_ac_scan_from_front(blocks, n - 1, start, end, ac);
        lemma_ac_from_last(blocks, 0, n, start, end, ac);
    }
}

/// The coefficients `start` to `end` (exclusive) of each block.
pub open spec fn coef_runs(blocks: Seq<Seq<i16>>, start: int, end: int) -> Seq<Seq<i16>> {
    Seq::new(blocks.len(), |i: int| blocks[i].subrange(start, end))
}

proof fn lemma_read_ac_runs_from(
    ac: HuffmanTable,
    blocks: Seq<Seq<i16>>,
    k: int,
    start: int,
    end: int,
    rest: Seq<bool>,
)
    requires
        ac.wf(),
        0 <= k <= blocks.len(),
        1 <= start <= end <= 64,
        forall|i: int| 0 <= i < blocks.len() ==> crate::stream::block_in_range(#[trigger] blocks[i]),
        codes_ac(ac, blocks, start, end),
    ensures
        read_ac_runs(ac, ac_bits_from(blocks, k, blocks.len() as int, start, end, ac) + rest, (blocks.len() - k) as nat, (
        end - start) as nat) == Some((coef_runs(blocks, start, end).subrange(k, blocks.len() as int), rest)),
    decreases blocks.len() - k,
{
    let n = blocks.len() as int;
    if k == n {
        assert(ac_bits_from(blocks, k, n, start, end, ac) + rest =~= rest);
        assert(coef_runs(blocks, start, end).subrange(k, n) =~= Seq::<Seq<i16>>::empty());
    } else {
        lemma_read_ac_runs_from(ac, blocks, k + 1, start, end, rest);
        assert(crate::stream::block_in_range(blocks[k]));
        let coefs = blocks[k].subrange(start, end);
        assert(forall|j: int| 0 <= j < coefs.len() ==> coefs[j] == blocks[k][start + j]);
        let after = ac_bits_from(blocks, k + 1, n, start, end, ac) + rest;
        assert(ac_bits_from(blocks, k, n, start, end, ac) + rest =~= ac_bits(ac, coefs, 0) + after);
        assert(codes_all(ac, ac_symbols(coefs, 0)));
        lemma_read_ac(ac, coefs, 0, after);
        assert(zeros(0) + coefs =~= coefs);
        assert(seq![coefs] + coef_runs(blocks, start, end).subrange(k + 1, n) =~= coef_runs(blocks, start, end).subrange(
            k,
            n,
        ));
    }
}

/// Law: the bits of a progressive AC scan over the coefficients `start` to
/// `end` (exclusive) read back as those coefficients of each block; reading
/// stops where the scan's bits end.
pub proof fn lemma_read_ac_scan(ac: HuffmanTable, blocks: Seq<Seq<i16>>, start: int, end: int, rest: Seq<bool>)
    requires
        ac.wf(),
        1 <= start <= end <= 64,
        forall|i: int| 0 <= i < blocks.len() ==> crate::stream::block_in_range(#[trigger] blocks[i]),
        codes_ac(ac, blocks, start, end),
    ensures
        read_ac_runs(
            ac,
            crate::stream::ac_scan_bits(blocks, blocks.len() as int, start, end, ac) + rest,
            blocks.len(),
            (end - start) as nat,
        ) == Some((coef_runs(blocks, start, end), rest)),
{
    lemma_ac_scan_from_front(blocks, blocks.len() as int, start, end, ac);
    lemma_read_ac_runs_from(ac, blocks, 0, start, end, rest);
    assert(coef_runs(blocks, start, end).subrange(0, blocks.len() as int) =~= coef_runs(blocks, start, end));
}

/// The labeled blocks of an interleaved scan read one after the other from
/// `bits`, after the blocks `done` already read: the next block belongs to
/// component `labels[done.len()]`, is read with that component's tables,
/// and its DC coefficient is a difference to that of the last block read of
/// the same component (to 0 for its first). Returns all blocks read and the
/// bits after them.
pub open spec fn read_units(
    comps: Seq<Component>,
    tables: Seq<(HuffmanTable, HuffmanTable)>,
    labels: Seq<int>,
    bits: Seq<bool>,
    done: Seq<(int, Seq<i16>)>,
) -> Option<(Seq<(int, Seq<i16>)>, Seq<bool>)>
    decreases labels.len() - done.len(),
{
    if done.len() >= labels.len() {
        Some((done, bits))
    } else {
        let i = labels[done.len() as int];
        match read_block(
            tables[comps[i].dc_huffman_table as int].0,
            tables[comps[i].ac_huffman_table as int].1,
            bits,
            last_dc(done, done.len() as int, i),
        ) {
            None => None,
            Some((b, after)) => read_units(comps, tables, labels, after, done.push((i, b))),
        }
    }
}

/// The component of each labeled block.
pub open spec fn unit_labels(units: Seq<(int, Seq<i16>)>) -> Seq<int> {
    Seq::new(units.len(), |k: int| units[k].0)
}

/// Bits of the labeled blocks `k` to `n - 1` of an interleaved scan.
pub open spec fn units_bits_from(
    units: Seq<(int, Seq<i16>)>,
    k: int,
    n: int,
    comps: Seq<Component>,
    tables: Seq<(HuffmanTable, HuffmanTable)>,
) -> Seq<bool>
    decreases n - k,
{
    if k >= n {
        Seq::empty()
    } else {
        block_bits(
            units[k].1,
            last_dc(units, k, units[k].0),
            tables[comps[units[k].0].dc_huffman_table as int].0,
            tables[comps[units[k].0].ac_huffman_table as int].1,
        ) + units_bits_from(units, k + 1, n, comps, tables)
    }
}

proof fn lemma_units_from_last(
    units: Seq<(int, Seq<i16>)>,
    k: int,
    n: int,
    comps: Seq<Component>,
    tables: Seq<(HuffmanTable, HuffmanTable)>,
)
    requires
        k < n,
    ensures
        units_bits_from(units, k, n, comps, tables) == units_bits_from(units, k, n - 1, comps, tables) + block_bits(
            units[n - 1].1,
            last_dc(units, n - 1, units[n - 1].0),
            tables[comps[units[n - 1].0].dc_huffman_table as int].0,
            tables[comps[units[n - 1].0].ac_huffman_table as int].1,
        ),
    decreases n - k,
{
    let last = block_bits(
        units[n - 1].1,
        last_dc(units, n - 1, units[n - 1].0),
        tables[comps[units[n - 1].0].dc_huffman_table as int].0,
        tables[comps[units[n - 1].0].ac_huffman_table as int].1,
    );
    if k + 1 < n {
        lemma_units_from_last(units, k + 1, n, comps, tables);
        assert(units_bits_from(units, k, n, comps, tables) =~= units_bits_from(units, k, n - 1, comps, tables)
            + last);
    } else {
        assert(units_bits_from(units, k + 1, n, comps, tables) =~= Seq::<bool>::empty());
        assert(units_bits_from(units, k, n - 1, comps, tables) =~= Seq::<bool>::empty());
        assert(units_bits_from(units, k, n, comps, tables) =~= units_bits_from(units, k, n - 1, comps, tables)
            + last);
    }
}

proof fn lemma_units_from_front(
    units: Seq<(int, Seq<i16>)>,
    n: int,
    comps: Seq<Component>,
    tables: Seq<(HuffmanTable, HuffmanTable)>,
)
    requires
        n >= 0,
    ensures
        units_bits(units, n, comps, tables) == units_bits_from(units, 0, n, comps, tables),
    decreases n,
{
    if n > 0 {
        lemma_units_from_front(units, n - 1, comps, tables);
        lemma_units_from_last(units, 0, n, comps, tables);
    }
}

/// The labeled blocks can be coded: each belongs to a component whose
/// tables are valid and code its symbols, and holds coefficients of a
/// quantized block.
pub open spec fn units_codable(
    units: Seq<(int, Seq<i16>)>,
    comps: Seq<Component>,
    tables: Seq<(HuffmanTable, HuffmanTable)>,
) -> bool {
    forall|k: int|
        0 <= k < units.len() ==> {
            let (i, b) = #[trigger] units[k];
            let dc = tables[comps[i].dc_huffman_table as int].0;
            let ac = tables[comps[i].ac_huffman_table as int].1;
            &&& 0 <= i < comps.len()
            &&& dc.wf()
            &&& ac.wf()
            &&& crate::stream::block_in_range(b)
            &&& dc.spec_values().contains(coef_size(b[0] - last_dc(units, k, i)) as u8)
            &&& codes_all(ac, ac_symbols(b.subrange(1, 64), 0))
        }
}

/// The last DC coefficient of a component among blocks in range is in
/// range.
pub proof fn lemma_last_dc_range(units: Seq<(int, Seq<i16>)>, n: int, i: int)
    requires
        0 <= n <= units.len(),
        forall|k: int| 0 <= k < n ==> crate::stream::block_in_range(#[trigger] units[k].1),
    ensures
        -1023 <= last_dc(units, n, i) <= 1023,
    decreases n,
{
    if n > 0 {
        assert(crate::stream::block_in_range(units[n - 1].1));
        lemma_last_dc_range(units, n - 1, i);
    }
}

proof fn lemma_read_units_from(
    comps: Seq<Component>,
    tables: Seq<(HuffmanTable, HuffmanTable)>,
    units: Seq<(int, Seq<i16>)>,
    k: int,
    rest: Seq<bool>,
)
    requires
        0 <= k <= units.len(),
        units_codable(units, comps, tables),
    ensures
        read_units(
            comps,
            tables,
            unit_labels(units),
            units_bits_from(units, k, units.len() as int, comps, tables) + rest,
            units.take(k),
        ) == Some((units, rest)),
    decreases units.len() - k,
{
    let n = units.len() as int;
    if k == n {
        assert(units_bits_from(units, k, n, comps, tables) + rest =~= rest);
        assert(units.take(k) =~= units);
    } else {
        let (i, b) = units[k];
        let dc = tables[comps[i].dc_huffman_table as int].0;
        let ac = tables[comps[i].ac_huffman_table as int].1;
        assert(units.take(k).len() == k);
        assert(unit_labels(units)[k] == i);
        crate::stream::lemma_units_prefix(units.take(k), units.skip(k), k, comps, tables);
        assert(units.take(k) + units.skip(k) =~= units);
        assert(last_dc(units.take(k), k, i) == last_dc(units, k, i));
        assert forall|j: int| 0 <= j < k implies crate::stream::block_in_range(#[trigger] units[j].1) by {
            let (a, bb) = units[j];
        }
        lemma_last_dc_range(units, k, i);
        let after = units_bits_from(units, k + 1, n, comps, tables) + rest;
        assert(units_bits_from(units, k, n, comps, tables) + rest =~= block_bits(b, last_dc(units, k, i), dc, ac)
            + after);
        lemma_read_block(dc, ac, b, last_dc(units, k, i), after);
        assert(units.take(k).push((i, b)) =~= units.take(k + 1));
        lemma_read_units_from(comps, tables, units, k + 1, rest);
    }
}

/// Law: the bits of an interleaved scan read back as its labeled blocks,
/// each read with the tables of its component and its DC coefficient a
/// difference to that of the last block of the same component; reading
/// stops where the scan's bits end.
pub proof fn lemma_read_interleaved(
    comps: Seq<Component>,
    tables: Seq<(HuffmanTable, HuffmanTable)>,
    units: Seq<(int, Seq<i16>)>,
    rest: Seq<bool>,
)
    requires
        units_codable(units, comps, tables),
    ensures
        read_units(
            comps,
            tables,
            unit_labels(units),
            units_bits(units, units.len() as int, comps, tables) + rest,
            Seq::empty(),
        ) == Some((units, rest)),
{
    lemma_units_from_front(units, units.len() as int, comps, tables);
    assert(units.take(0) =~= Seq::<(int, Seq<i16>)>::empty());
    lemma_read_units_from(comps, tables, units, 0, rest);
}

} // verus!
