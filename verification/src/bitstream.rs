//! Mathematical model of the entropy-coded part of a JPEG stream: bit
//! sequences (most significant bit first), their packing into bytes and the
//! byte stuffing that follows every `0xFF` byte with a `0x00` byte.
use vstd::arithmetic::div_mod::*;
use vstd::arithmetic::mul::*;
use vstd::arithmetic::power2::*;
use vstd::prelude::*;

verus! {

/// The `n` low bits of `v`, most significant first.
pub open spec fn bits_of(v: nat, n: nat) -> Seq<bool>
    decreases n,
{
    if n == 0 {
        Seq::empty()
    } else {
        bits_of(v / 2, (n - 1) as nat).push(v % 2 == 1)
    }
}

/// The number whose binary digits (most significant first) are `s`.
pub open spec fn bits_value(s: Seq<bool>) -> nat
    decreases s.len(),
{
    if s.len() == 0 {
        0
    } else {
        2 * bits_value(s.drop_last()) + (if s.last() { 1nat } else { 0nat })
    }
}

/// Whole bytes of a bit sequence, eight bits per byte; a trailing group of
/// fewer than eight bits is not part of the result.
pub open spec fn bytes_of(s: Seq<bool>) -> Seq<u8>
    decreases s.len(),
{
    if s.len() < 8 {
        Seq::empty()
    } else {
        seq![bits_value(s.take(8)) as u8] + bytes_of(s.skip(8))
    }
}

/// Byte stuffing: every `0xFF` byte is followed by a `0x00` byte.
pub open spec fn stuff(b: Seq<u8>) -> Seq<u8>
    decreases b.len(),
{
    if b.len() == 0 {
        Seq::empty()
    } else {
        (if b[0] == 0xFF {
            seq![0xFFu8, 0x00u8]
        } else {
            seq![b[0]]
        }) + stuff(b.skip(1))
    }
}

/// `k` copies of the bit `1`.
pub open spec fn ones(k: nat) -> Seq<bool> {
    Seq::new(k, |i: int| true)
}

/// The bits that stay pending after all whole bytes of `s` were taken.
pub open spec fn tail_bits(s: Seq<bool>) -> Seq<bool> {
    s.skip(8 * (s.len() / 8) as int)
}

pub proof fn lemma_bits_of_len(v: nat, n: nat)
    ensures
        bits_of(v, n).len() == n,
    decreases n,
{
    if n > 0 {
        lemma_bits_of_len(v / 2, (n - 1) as nat);
    }
}

/// Splitting a number into a high and a low part splits its bits.
pub proof fn lemma_bits_of_split(a: nat, b: nat, n: nat, s: nat)
    requires
        b < pow2(s),
    ensures
        bits_of(a * pow2(s) + b, n + s) == bits_of(a, n) + bits_of(b, s),
    decreases s,
{
    reveal(pow2);
    if s == 0 {
        lemma2_to64();
        assert(b == 0);
        assert(a * pow2(0) + b == a) by {
            lemma_mul_basics(a as int);
        }
        assert(bits_of(b, 0) =~= Seq::<bool>::empty());
        assert(bits_of(a, n) + bits_of(b, s) =~= bits_of(a, n));
    } else {
        let s1 = (s - 1) as nat;
        lemma_pow2_unfold(s);
        lemma_pow2_pos(s1);
        let v = a * pow2(s) + b;
        assert(a * pow2(s) == (a * pow2(s1)) * 2) by {
            lemma_mul_is_associative(a as int, pow2(s1) as int, 2);
            lemma_mul_is_commutative(pow2(s1) as int, 2);
        }
        assert(v / 2 == a * pow2(s1) + b / 2 && v % 2 == b % 2) by {
            lemma_fundamental_div_mod(b as int, 2);
            lemma_fundamental_div_mod_converse(v as int, 2, (a * pow2(s1) + b / 2) as int, (b % 2) as int);
        }
        assert(b / 2 < pow2(s1)) by {
            lemma_fundamental_div_mod(b as int, 2);
        }
        lemma_bits_of_split(a, b / 2, n, s1);
        assert((n + s - 1) as nat == n + s1);
        assert(bits_of(v, n + s) == bits_of(v / 2, n + s1).push(v % 2 == 1));
        assert(bits_of(b, s) == bits_of(b / 2, s1).push(b % 2 == 1));
        assert(bits_of(v, n + s) =~= bits_of(a, n) + bits_of(b, s));
    }
}

/// The value of the bits of `v` is `v` itself when `v` fits.
pub proof fn lemma_bits_value_of(v: nat, n: nat)
    requires
        v < pow2(n),
    ensures
        bits_value(bits_of(v, n)) == v,
    decreases n,
{
    lemma2_to64();
    if n == 0 {
    } else {
        let n1 = (n - 1) as nat;
        lemma_pow2_unfold(n);
        lemma_fundamental_div_mod(v as int, 2);
        assert(v / 2 < pow2(n1));
        lemma_bits_value_of(v / 2, n1);
        let s = bits_of(v, n);
        assert(s.drop_last() =~= bits_of(v / 2, n1));
        assert(s.last() == (v % 2 == 1));
        assert(v % 2 == 0 || v % 2 == 1);
    }
}

/// Bits of a number below `2^n` never exceed it.
pub proof fn lemma_bits_value_bound(s: Seq<bool>)
    ensures
        bits_value(s) < pow2(s.len()),
    decreases s.len(),
{
    lemma2_to64();
    if s.len() > 0 {
        lemma_bits_value_bound(s.drop_last());
        lemma_pow2_unfold(s.len());
    }
}

/// Whole bytes distribute over concatenation after a whole number of bytes.
pub proof fn lemma_bytes_of_append(x: Seq<bool>, y: Seq<bool>)
    requires
        x.len() % 8 == 0,
    ensures
        bytes_of(x + y) == bytes_of(x) + bytes_of(y),
    decreases x.len(),
{
    if x.len() == 0 {
        assert(x + y =~= y);
        assert(bytes_of(x) =~= Seq::<u8>::empty());
        assert(bytes_of(x) + bytes_of(y) =~= bytes_of(y));
    } else {
        assert((x + y).take(8) =~= x.take(8));
        assert((x + y).skip(8) =~= x.skip(8) + y);
        lemma_bytes_of_append(x.skip(8), y);
        assert(bytes_of(x + y) =~= bytes_of(x) + bytes_of(y));
    }
}

/// Fewer than eight bits make no whole byte.
pub proof fn lemma_bytes_of_short(x: Seq<bool>)
    requires
        x.len() < 8,
    ensures
        bytes_of(x) == Seq::<u8>::empty(),
{
}

/// Eight bits of a byte make that byte.
pub proof fn lemma_bytes_of_byte(b: u8)
    ensures
        bytes_of(bits_of(b as nat, 8)) == seq![b],
{
    let s = bits_of(b as nat, 8);
    lemma_bits_of_len(b as nat, 8);
    assert(pow2(8) == 256) by {
        lemma2_to64();
    }
    lemma_bits_value_of(b as nat, 8);
    assert(s.take(8) =~= s);
    assert(s.skip(8) =~= Seq::<bool>::empty());
    assert(bytes_of(s.skip(8)) =~= Seq::<u8>::empty());
    assert(bytes_of(s) =~= seq![b]);
}

/// Stuffing distributes over concatenation.
pub proof fn lemma_stuff_append(a: Seq<u8>, b: Seq<u8>)
    ensures
        stuff(a + b) == stuff(a) + stuff(b),
    decreases a.len(),
{
    if a.len() == 0 {
        assert(a + b =~= b);
        assert(stuff(a) + stuff(b) =~= stuff(b));
    } else {
        assert((a + b)[0] == a[0]);
        assert((a + b).skip(1) =~= a.skip(1) + b);
        lemma_stuff_append(a.skip(1), b);
        let h = if a[0] == 0xFF {
            seq![0xFFu8, 0x00u8]
        } else {
            seq![a[0]]
        };
        assert(stuff(a + b) =~= h + stuff(a.skip(1) + b));
        assert(stuff(a + b) =~= stuff(a) + stuff(b));
    }
}

/// Stuffing of a single byte.
pub proof fn lemma_stuff_byte(b: u8)
    ensures
        stuff(seq![b]) == (if b == 0xFF {
            seq![0xFFu8, 0x00u8]
        } else {
            seq![b]
        }),
{
    assert(seq![b].skip(1) =~= Seq::<u8>::empty());
    assert(stuff(seq![b].skip(1)) =~= Seq::<u8>::empty());
    if b == 0xFF {
        assert(stuff(seq![b]) =~= seq![0xFFu8, 0x00u8]);
    } else {
        assert(stuff(seq![b]) =~= seq![b]);
    }
}

/// Writer state after appending `bits` to the pending bits `pending` of a
/// stream whose bytes are `out`: the whole bytes go out stuffed, the rest
/// stays pending.
pub open spec fn emit(out: Seq<u8>, pending: Seq<bool>, bits: Seq<bool>) -> (Seq<u8>, Seq<bool>) {
    let all = pending + bits;
    (out + stuff(bytes_of(all)), tail_bits(all))
}

/// Dropping a whole number of bytes from the front keeps the tail.
pub proof fn lemma_tail_bits_append(h: Seq<bool>, x: Seq<bool>)
    requires
        h.len() % 8 == 0,
    ensures
        tail_bits(h + x) == tail_bits(x),
{
    let q = h.len() / 8;
    assert(h.len() == 8 * q) by {
        lemma_fundamental_div_mod(h.len() as int, 8);
    }
    assert((h + x).len() / 8 == q + x.len() / 8) by {
        lemma_fundamental_div_mod(x.len() as int, 8);
        lemma_fundamental_div_mod_converse(
            (h + x).len() as int,
            8,
            (q + x.len() / 8) as int,
            x.len() as int % 8,
        );
    }
    assert(tail_bits(h + x) =~= tail_bits(x));
}

/// A sequence is its whole bytes followed by its tail.
pub proof fn lemma_split_tail(s: Seq<bool>)
    ensures
        s == s.take(8 * (s.len() / 8) as int) + tail_bits(s),
        s.take(8 * (s.len() / 8) as int).len() % 8 == 0,
        tail_bits(s).len() < 8,
        bytes_of(s) == bytes_of(s.take(8 * (s.len() / 8) as int)),
{
    let h = s.take(8 * (s.len() / 8) as int);
    lemma_fundamental_div_mod(s.len() as int, 8);
    assert(s =~= h + tail_bits(s));
    lemma_bytes_of_append(h, tail_bits(s));
    lemma_bytes_of_short(tail_bits(s));
    assert(bytes_of(h) + bytes_of(tail_bits(s)) =~= bytes_of(h));
}

/// Emitting two runs of bits one after the other is emitting their
/// concatenation.
pub proof fn lemma_emit_compose(out: Seq<u8>, pending: Seq<bool>, b1: Seq<bool>, b2: Seq<bool>)
    ensures
        emit(emit(out, pending, b1).0, emit(out, pending, b1).1, b2) == emit(out, pending, b1 + b2),
{
    let all1 = pending + b1;
    let h = all1.take(8 * (all1.len() / 8) as int);
    let t = tail_bits(all1);
    lemma_split_tail(all1);
    assert(pending + (b1 + b2) =~= h + (t + b2));
    lemma_bytes_of_append(h, t + b2);
    lemma_stuff_append(bytes_of(h), bytes_of(t + b2));
    lemma_tail_bits_append(h, t + b2);
    assert(out + stuff(bytes_of(all1)) + stuff(bytes_of(t + b2)) =~= out + stuff(
        bytes_of(pending + (b1 + b2)),
    ));
}

/// Emitting nothing changes nothing while fewer than eight bits wait.
pub proof fn lemma_emit_empty(out: Seq<u8>, pending: Seq<bool>)
    requires
        pending.len() < 8,
    ensures
        emit(out, pending, Seq::empty()) == (out, pending),
{
    assert(pending + Seq::<bool>::empty() =~= pending);
    lemma_bytes_of_short(pending);
    assert(stuff(Seq::<u8>::empty()) =~= Seq::<u8>::empty());
    assert(out + stuff(bytes_of(pending)) =~= out);
    assert(tail_bits(pending) =~= pending);
}

/// Emitting bits and then padding them is padding all of them.
pub proof fn lemma_emit_then_pad(out: Seq<u8>, b: Seq<bool>)
    ensures
        ({
            let e = emit(out, Seq::empty(), b);
            e.0 + stuff(bytes_of(e.1 + ones(7))) == out + padded_bytes(b)
        }),
{
    let e = emit(out, Seq::empty(), b);
    assert(Seq::<bool>::empty() + b =~= b);
    let h = b.take(8 * (b.len() / 8) as int);
    lemma_split_tail(b);
    assert(b + ones(7) =~= h + (tail_bits(b) + ones(7)));
    lemma_bytes_of_append(h, tail_bits(b) + ones(7));
    lemma_stuff_append(bytes_of(h), bytes_of(tail_bits(b) + ones(7)));
    assert(e.0 + stuff(bytes_of(e.1 + ones(7))) =~= out + padded_bytes(b));
}

/// The stream that a sequence of bits becomes once it is padded with ones to
/// a whole number of bytes and stuffed.
pub open spec fn padded_bytes(s: Seq<bool>) -> Seq<u8> {
    stuff(bytes_of(s + ones(7)))
}

/// In a stuffed sequence every `0xFF` byte is followed by a `0x00` byte, so
/// no marker can appear inside entropy-coded data.
pub open spec fn no_marker(b: Seq<u8>) -> bool {
    forall|i: int| 0 <= i < b.len() && #[trigger] b[i] == 0xFF ==> i + 1 < b.len() && b[i + 1] == 0x00
}

/// Law: stuffed data never holds a marker.
pub proof fn lemma_stuff_no_marker(b: Seq<u8>)
    ensures
        no_marker(stuff(b)),
    decreases b.len(),
{
    if b.len() > 0 {
        lemma_stuff_no_marker(b.skip(1));
        let h = if b[0] == 0xFF {
            seq![0xFFu8, 0x00u8]
        } else {
            seq![b[0]]
        };
        let t = stuff(b.skip(1));
        assert(stuff(b) == h + t);
        assert forall|i: int| 0 <= i < stuff(b).len() && #[trigger] stuff(b)[i] == 0xFF implies i + 1
            < stuff(b).len() && stuff(b)[i + 1] == 0x00 by {
            if i >= h.len() {
                assert(stuff(b)[i] == t[i - h.len()]);
                assert(stuff(b)[i + 1] == t[i + 1 - h.len()]);
            }
        }
    }
}

} // verus!
