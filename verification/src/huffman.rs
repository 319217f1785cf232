//! Huffman tables: canonical codes built from code lengths (ITU T.81
//! Annex C), the default tables of Annex K.3 and tables optimized for given
//! symbol frequencies (Annex K.2).
use vstd::arithmetic::div_mod::*;
use vstd::arithmetic::mul::*;
use vstd::arithmetic::power2::*;
use vstd::prelude::*;

verus! {

/// Class of coefficients that a Huffman table codes
#[derive(Clone, Copy, Debug, PartialEq, Eq, Structural)]
pub enum CodingClass {
    Dc,
    Ac,
}

impl CodingClass {
    /// The number of the class in a DHT segment.
    pub open spec fn spec_number(self) -> u8 {
        match self {
            CodingClass::Dc => 0,
            CodingClass::Ac => 1,
        }
    }

    /// The number of the class in a DHT segment.
    pub fn number(self) -> (r: u8)
        ensures
            r == self.spec_number(),
    {
        match self {
            CodingClass::Dc => 0,
            CodingClass::Ac => 1,
        }
    }
}

/// Number of codes with lengths 1 to `i`.
pub open spec fn length_sum(lengths: Seq<u8>, i: int) -> nat
    decreases i,
{
    if i <= 0 {
        0
    } else {
        length_sum(lengths, i - 1) + lengths[i - 1] as nat
    }
}

/// Kraft sum of the codes with lengths 1 to `i`, in units of 2^-16.
pub open spec fn kraft_sum(lengths: Seq<u8>, i: int) -> nat
    decreases i,
{
    if i <= 0 {
        0
    } else {
        kraft_sum(lengths, i - 1) + (lengths[i - 1] as nat) * pow2((16 - i) as nat)
    }
}

/// Code lengths that a table may have: at most 256 codes, none of length 16
/// made only of ones, so the Kraft sum stays below one.
pub open spec fn valid_lengths(lengths: Seq<u8>) -> bool {
    &&& lengths.len() == 16
    &&& length_sum(lengths, 16) <= 256
    &&& kraft_sum(lengths, 16) < pow2(16)
}

/// Sizes of the codes in order, as in Figure C.1: `lengths[i]` codes of size
/// `i + 1` for each `i` below `n`.
pub open spec fn sizes_upto(lengths: Seq<u8>, n: int) -> Seq<u8>
    decreases n,
{
    if n <= 0 {
        Seq::empty()
    } else {
        sizes_upto(lengths, n - 1) + Seq::new(lengths[n - 1] as nat, |j: int| n as u8)
    }
}

/// Sizes of all codes of a table, in order.
pub open spec fn code_sizes(lengths: Seq<u8>) -> Seq<u8> {
    sizes_upto(lengths, 16)
}

/// Kraft sum of the first `k` codes, in units of 2^-16.
pub open spec fn prefix_weight(sizes: Seq<u8>, k: int) -> nat
    decreases k,
{
    if k <= 0 {
        0
    } else {
        prefix_weight(sizes, k - 1) + pow2((16 - sizes[k - 1]) as nat)
    }
}

/// The canonical code of the `k`-th code (Figure C.2): the first `sizes[k]`
/// bits of the Kraft sum of the codes before it.
pub open spec fn canonical_code(sizes: Seq<u8>, k: int) -> nat {
    prefix_weight(sizes, k) / pow2((16 - sizes[k]) as nat)
}

/// Size and code of symbol `sym` among the first `k` values: those of the
/// last position that holds it, or `(0, 0)` where none does.
pub open spec fn entry_for(lengths: Seq<u8>, values: Seq<u8>, k: int, sym: u8) -> (u8, u16)
    decreases k,
{
    if k <= 0 {
        (0, 0)
    } else if values[k - 1] == sym {
        (code_sizes(lengths)[k - 1], canonical_code(code_sizes(lengths), k - 1) as u16)
    } else {
        entry_for(lengths, values, k - 1, sym)
    }
}

proof fn lemma_length_sum_mono(lengths: Seq<u8>, i: int, j: int)
    requires
        0 <= i <= j,
    ensures
        length_sum(lengths, i) <= length_sum(lengths, j),
    decreases j - i,
{
    if i < j {
        lemma_length_sum_mono(lengths, i, j - 1);
    }
}

proof fn lemma_kraft_sum_mono(lengths: Seq<u8>, i: int, j: int)
    requires
        0 <= i <= j,
    ensures
        kraft_sum(lengths, i) <= kraft_sum(lengths, j),
    decreases j - i,
{
    if i < j {
        lemma_kraft_sum_mono(lengths, i, j - 1);
    }
}

proof fn lemma_sizes_upto(lengths: Seq<u8>, n: int)
    requires
        0 <= n <= 16,
    ensures
        sizes_upto(lengths, n).len() == length_sum(lengths, n),
        forall|a: int| 0 <= a < sizes_upto(lengths, n).len() ==> 1 <= #[trigger] sizes_upto(lengths, n)[a] <= n,
        forall|a: int, b: int|
            0 <= a <= b < sizes_upto(lengths, n).len() ==> #[trigger] sizes_upto(lengths, n)[a]
                <= #[trigger] sizes_upto(lengths, n)[b],
    decreases n,
{
    if n > 0 {
        lemma_sizes_upto(lengths, n - 1);
        let p = sizes_upto(lengths, n - 1);
        let q = Seq::new(lengths[n - 1] as nat, |j: int| n as u8);
        let s = sizes_upto(lengths, n);
        assert(s == p + q);
        assert forall|a: int| 0 <= a < s.len() implies 1 <= #[trigger] s[a] <= n by {
            if a < p.len() {
                assert(s[a] == p[a]);
            } else {
                assert(s[a] == q[a - p.len()]);
            }
        }
        assert forall|a: int, b: int| 0 <= a <= b < s.len() implies #[trigger] s[a] <= #[trigger] s[b] by {
            if b < p.len() {
                assert(s[a] == p[a]);
                assert(s[b] == p[b]);
            } else if a < p.len() {
                assert(s[a] == p[a]);
                assert(s[b] == q[b - p.len()]);
            } else {
                assert(s[a] == q[a - p.len()]);
                assert(s[b] == q[b - p.len()]);
            }
        }
    }
}

proof fn lemma_prefix_weight_take(s: Seq<u8>, t: Seq<u8>, k: int)
    requires
        0 <= k <= s.len(),
        k <= t.len(),
        s.take(k) == t.take(k),
    ensures
        prefix_weight(s, k) == prefix_weight(t, k),
    decreases k,
{
    if k > 0 {
        assert(s[k - 1] == s.take(k)[k - 1]);
        assert(t[k - 1] == t.take(k)[k - 1]);
        assert(s.take(k - 1) =~= s.take(k).take(k - 1));
        assert(t.take(k - 1) =~= t.take(k).take(k - 1));
        lemma_prefix_weight_take(s, t, k - 1);
    }
}

proof fn lemma_prefix_weight_const(p: Seq<u8>, m: nat, c: u8, j: int)
    requires
        0 <= j <= m,
    ensures
        prefix_weight(p + Seq::new(m, |i: int| c), p.len() + j) == prefix_weight(p, p.len() as int) + j
            * pow2((16 - c) as nat),
    decreases j,
{
    let q = Seq::new(m, |i: int| c);
    if j == 0 {
        assert((p + q).take(p.len() as int) =~= p.take(p.len() as int));
        lemma_prefix_weight_take(p + q, p, p.len() as int);
    } else {
        lemma_prefix_weight_const(p, m, c, j - 1);
        assert((p + q)[p.len() + j - 1] == c);
        lemma_mul_is_distributive_add_other_way(pow2((16 - c) as nat) as int, j - 1, 1);
    }
}

proof fn lemma_kraft_of_sizes(lengths: Seq<u8>, n: int)
    requires
        0 <= n <= 16,
    ensures
        prefix_weight(sizes_upto(lengths, n), length_sum(lengths, n) as int) == kraft_sum(lengths, n),
    decreases n,
{
    lemma_sizes_upto(lengths, n);
    if n > 0 {
        lemma_kraft_of_sizes(lengths, n - 1);
        lemma_sizes_upto(lengths, n - 1);
        lemma_prefix_weight_const(
            sizes_upto(lengths, n - 1),
            lengths[n - 1] as nat,
            n as u8,
            lengths[n - 1] as int,
        );
        lemma_mul_is_commutative(lengths[n - 1] as int, pow2((16 - n) as nat) as int);
    }
}

proof fn lemma_prefix_weight_mono(s: Seq<u8>, i: int, j: int)
    requires
        0 <= i <= j,
    ensures
        prefix_weight(s, i) + (if i < j {
            pow2((16 - s[i]) as nat)
        } else {
            0
        }) <= prefix_weight(s, j),
    decreases j - i,
{
    if i < j {
        if i + 1 < j {
            lemma_prefix_weight_mono(s, i + 1, j);
        }
        lemma_pow2_pos((16 - s[j - 1]) as nat);
    }
}

/// The canonical code of every code fits in its size.
proof fn lemma_canonical_code_fits(lengths: Seq<u8>, k: int)
    requires
        valid_lengths(lengths),
        0 <= k < length_sum(lengths, 16),
    ensures
        1 <= code_sizes(lengths)[k] <= 16,
        canonical_code(code_sizes(lengths), k) < pow2(code_sizes(lengths)[k] as nat),
{
    let s = code_sizes(lengths);
    lemma_sizes_upto(lengths, 16);
    lemma_kraft_of_sizes(lengths, 16);
    lemma_prefix_weight_mono(s, k, s.len() as int);
    let e = (16 - s[k]) as nat;
    lemma_pow2_adds(e, s[k] as nat);
    lemma_pow2_pos(e);
    assert(prefix_weight(s, k) < pow2(s[k] as nat) * pow2(e)) by {
        lemma_mul_is_commutative(pow2(s[k] as nat) as int, pow2(e) as int);
    }
    lemma_multiply_divide_lt(prefix_weight(s, k) as int, pow2(e) as int, pow2(s[k] as nat) as int);
}

/// Every entry of a table fits: a size of at most 16 and a code below
/// `2^size`.
proof fn lemma_entry_fits(lengths: Seq<u8>, values: Seq<u8>, k: int, sym: u8)
    requires
        valid_lengths(lengths),
        0 <= k <= length_sum(lengths, 16),
        k <= values.len(),
    ensures
        entry_for(lengths, values, k, sym).0 <= 16,
        entry_for(lengths, values, k, sym).1 < pow2(entry_for(lengths, values, k, sym).0 as nat),
        entry_for(lengths, values, k, sym).0 == 0 <==> !values.take(k).contains(sym),
    decreases k,
{
    if k <= 0 {
        lemma2_to64();
        assert(values.take(k) =~= Seq::<u8>::empty());
    } else {
        lemma_entry_fits(lengths, values, k - 1, sym);
        assert(values.take(k - 1) =~= values.take(k).drop_last());
        assert(values.take(k)[k - 1] == values[k - 1]);
        if values[k - 1] == sym {
            lemma_canonical_code_fits(lengths, k - 1);
            if code_sizes(lengths)[k - 1] < 16 {
                lemma_pow2_strictly_increases(code_sizes(lengths)[k - 1] as nat, 16);
            }
            lemma2_to64();
        } else {
            assert forall|i: int| 0 <= i < k - 1 implies values.take(k)[i] == values.take(k - 1)[i] by {}
            if values.take(k).contains(sym) {
                let i = choose|i: int| 0 <= i < values.take(k).len() && values.take(k)[i] == sym;
                assert(values.take(k - 1)[i] == sym);
            }
        }
    }
}

/// The Kraft sum of the first `k` codes is a multiple of `2^e` when none of
/// them is longer than `16 - e`; the result is the quotient.
proof fn lemma_prefix_weight_multiple(s: Seq<u8>, k: int, e: nat) -> (q: nat)
    requires
        0 <= k <= s.len(),
        forall|j: int| 0 <= j < k ==> #[trigger] s[j] + e <= 16,
    ensures
        prefix_weight(s, k) == pow2(e) * q,
    decreases k,
{
    if k <= 0 {
        lemma_mul_basics(pow2(e) as int);
        0
    } else {
        let q0 = lemma_prefix_weight_multiple(s, k - 1, e);
        let d = (16 - s[k - 1] - e) as nat;
        assert(s[k - 1] + e <= 16);
        assert((16 - s[k - 1]) as nat == e + d);
        lemma_pow2_adds(e, d);
        lemma_mul_is_distributive_add(pow2(e) as int, q0 as int, pow2(d) as int);
        q0 + pow2(d)
    }
}

/// The canonical code of a code, followed by as many zeros as it is
/// shorter than 16 bits, is the Kraft sum of the codes before it.
proof fn lemma_canonical_exact(lengths: Seq<u8>, k: int)
    requires
        valid_lengths(lengths),
        0 <= k < length_sum(lengths, 16),
    ensures
        canonical_code(code_sizes(lengths), k) * pow2((16 - code_sizes(lengths)[k]) as nat) == prefix_weight(
            code_sizes(lengths),
            k,
        ),
{
    let s = code_sizes(lengths);
    lemma_sizes_upto(lengths, 16);
    let e = (16 - s[k]) as nat;
    assert forall|j: int| 0 <= j < k implies #[trigger] s[j] + e <= 16 by {
        assert(s[j] <= s[k]);
    }
    let q = lemma_prefix_weight_multiple(s, k, e);
    lemma_pow2_pos(e);
    lemma_div_multiples_vanish(q as int, pow2(e) as int);
    lemma_mul_is_commutative(q as int, pow2(e) as int);
}

/// The canonical code of a later code, cut to the size of an earlier one,
/// is past the earlier code.
proof fn lemma_code_after(lengths: Seq<u8>, a: int, b: int)
    requires
        valid_lengths(lengths),
        0 <= a < b < length_sum(lengths, 16),
    ensures
        code_sizes(lengths)[a] <= code_sizes(lengths)[b],
        canonical_code(code_sizes(lengths), b) / pow2((code_sizes(lengths)[b] - code_sizes(lengths)[a]) as nat)
            >= canonical_code(code_sizes(lengths), a) + 1,
{
    let s = code_sizes(lengths);
    lemma_sizes_upto(lengths, 16);
    assert(s[a] <= s[b]);
    let ea = (16 - s[a]) as nat;
    let eb = (16 - s[b]) as nat;
    let d = (s[b] - s[a]) as nat;
    let ca = canonical_code(s, a) as int;
    let cb = canonical_code(s, b) as int;
    let pa = prefix_weight(s, a) as int;
    let pb = prefix_weight(s, b) as int;
    let ma = pow2(ea) as int;
    let mb = pow2(eb) as int;
    lemma_canonical_exact(lengths, a);
    lemma_canonical_exact(lengths, b);
    lemma_prefix_weight_mono(s, a, b);
    assert(ea == eb + d);
    lemma_pow2_adds(eb, d);
    lemma_pow2_pos(eb);
    lemma_pow2_pos(d);
    lemma_pow2_pos(ea);
    assert(pb / mb == cb) by {
        lemma_mul_is_commutative(cb, mb);
        lemma_div_multiples_vanish(cb, mb);
    }
    lemma_div_denominator(pb, mb, pow2(d) as int);
    assert(cb / (pow2(d) as int) == pb / ma);
    assert((ca + 1) * ma == pa + ma) by {
        lemma_mul_is_distributive_add_other_way(ma, ca, 1);
    }
    lemma_div_is_ordered((ca + 1) * ma, pb, ma);
    lemma_div_by_multiple(ca + 1, ma);
}

/// The position in `values` that gives a symbol its code.
proof fn lemma_entry_position(lengths: Seq<u8>, values: Seq<u8>, k: int, sym: u8) -> (a: int)
    requires
        0 <= k <= values.len(),
        entry_for(lengths, values, k, sym).0 != 0,
    ensures
        0 <= a < k,
        values[a] == sym,
        entry_for(lengths, values, k, sym) == (
            code_sizes(lengths)[a],
            canonical_code(code_sizes(lengths), a) as u16,
        ),
    decreases k,
{
    if values[k - 1] == sym {
        k - 1
    } else {
        lemma_entry_position(lengths, values, k - 1, sym)
    }
}

/// A Huffman table: number of codes of each length, the coded values in
/// order, and the size and code of each value.
pub struct HuffmanTable {
    lookup_table: [(u8, u16); 256],
    length: [u8; 16],
    values: Vec<u8>,
}

impl HuffmanTable {
    /// Number of codes of length 1 to 16.
    pub closed spec fn lengths(&self) -> Seq<u8> {
        self.length@
    }

    /// The coded values, in the order of their codes.
    pub closed spec fn spec_values(&self) -> Seq<u8> {
        self.values@
    }

    /// Size and code of a symbol, `(0, 0)` for a symbol without code.
    pub open spec fn code_for(&self, sym: u8) -> (u8, u16) {
        entry_for(self.lengths(), self.spec_values(), self.spec_values().len() as int, sym)
    }

    /// Bits that code the symbol.
    pub open spec fn sym_bits(&self, sym: u8) -> Seq<bool> {
        crate::bitstream::bits_of(self.code_for(sym).1 as nat, self.code_for(sym).0 as nat)
    }

    /// A table of valid code lengths with one value per code and a lookup
    /// table that agrees with them.
    pub closed spec fn wf(&self) -> bool {
        &&& valid_lengths(self.length@)
        &&& self.values@.len() == length_sum(self.length@, 16)
        &&& forall|v: int|
            0 <= v < 256 ==> #[trigger] self.lookup_table@[v] == entry_for(
                self.length@,
                self.values@,
                self.values@.len() as int,
                v as u8,
            )
    }

    /// Facts about a valid table that its users need.
    pub proof fn lemma_wf(&self)
        requires
            self.wf(),
        ensures
            valid_lengths(self.lengths()),
            self.spec_values().len() == length_sum(self.lengths(), 16),
            self.spec_values().len() <= 256,
            forall|sym: u8|
                (#[trigger] self.code_for(sym)).0 <= 16 && self.code_for(sym).1 < pow2(
                    self.code_for(sym).0 as nat,
                ),
            forall|sym: u8| (#[trigger] self.code_for(sym)).0 == 0 <==> !self.spec_values().contains(sym),
    {
        assert forall|sym: u8|
            (#[trigger] self.code_for(sym)).0 <= 16 && self.code_for(sym).1 < pow2(
                self.code_for(sym).0 as nat,
            ) && (self.code_for(sym).0 == 0 <==> !self.spec_values().contains(sym)) by {
            lemma_entry_fits(self.length@, self.values@, self.values@.len() as int, sym);
            assert(self.values@.take(self.values@.len() as int) =~= self.values@);
        }
    }

    /// Law: the codes of a table are prefix-free. Of two different symbols
    /// that have codes, the shorter code (or either, where they are equally
    /// long) is never the beginning of the other: the longer code without
    /// its last bits, as many as it is longer, differs from the shorter.
    pub proof fn lemma_prefix_free(&self, x: u8, y: u8)
        requires
            self.wf(),
            x != y,
            0 < self.code_for(x).0 <= self.code_for(y).0,
        ensures
            (self.code_for(y).1 as nat) / pow2((self.code_for(y).0 - self.code_for(x).0) as nat)
                != self.code_for(x).1 as nat,
    {
        let l = self.length@;
        let v = self.values@;
        let n = v.len() as int;
        let s = code_sizes(l);
        let a = lemma_entry_position(l, v, n, x);
        let b = lemma_entry_position(l, v, n, y);
        lemma_canonical_code_fits(l, a);
        lemma_canonical_code_fits(l, b);
        lemma2_to64();
        if s[a] < 16 {
            lemma_pow2_strictly_increases(s[a] as nat, 16);
        }
        if s[b] < 16 {
            lemma_pow2_strictly_increases(s[b] as nat, 16);
        }
        assert(self.code_for(x).1 as nat == canonical_code(s, a));
        assert(self.code_for(y).1 as nat == canonical_code(s, b));
        if a < b {
            lemma_code_after(l, a, b);
        } else {
            lemma_code_after(l, b, a);
            assert(s[a] == s[b]);
            assert(pow2(0) == 1) by {
                lemma2_to64();
            }
        }
    }

    /// A table with the given code lengths and values.
    pub fn new(length: &[u8; 16], values: &[u8]) -> (r: HuffmanTable)
        requires
            valid_lengths(length@),
            values@.len() == length_sum(length@, 16),
        ensures
            r.wf(),
            r.lengths() == length@,
            r.spec_values() == values@,
    {
        HuffmanTable {
            lookup_table: create_lookup_table(length, values),
            length: *length,
            values: slice_to_vec(values),
        }
    }

    /// Size and code of a symbol.
    pub fn get_for_value(&self, value: u8) -> (r: (u8, u16))
        requires
            self.wf(),
        ensures
            r == self.code_for(value),
            r.0 <= 16,
            r.1 < pow2(r.0 as nat),
    {
        proof {
            self.lemma_wf();
            assert(self.code_for(value).0 <= 16);
        }
        self.lookup_table[value as usize]
    }

    /// Number of codes of each length.
    pub fn length(&self) -> (r: &[u8; 16])
        ensures
            r@ == self.lengths(),
    {
        &self.length
    }

    /// The coded values.
    pub fn values(&self) -> (r: &[u8])
        ensures
            r@ == self.spec_values(),
    {
        self.values.as_slice()
    }
}

/// A copy of a slice.
fn slice_to_vec(s: &[u8]) -> (r: Vec<u8>)
    ensures
        r@ == s@,
{
    let mut v: Vec<u8> = Vec::new();
    let mut i: usize = 0;
    while i < s.len()
        invariant
            i <= s.len(),
            v@ == s@.take(i as int),
        decreases s.len() - i,
    {
        v.push(s[i]);
        i = i + 1;
        assert(v@ =~= s@.take(i as int));
    }
    assert(s@.take(i as int) =~= s@);
    v
}

/// Code sizes in order (Figure C.1), followed by zeros.
fn create_sizes(code_lengths: &[u8; 16]) -> (r: [u8; 256])
    requires
        valid_lengths(code_lengths@),
    ensures
        r@.take(length_sum(code_lengths@, 16) as int) == code_sizes(code_lengths@),
        forall|j: int| length_sum(code_lengths@, 16) <= j < 256 ==> r@[j] == 0,
{
    let ghost l = code_lengths@;
    let mut sizes = [0u8; 256];
    let mut k: usize = 0;
    let mut i: usize = 0;
    proof {
        lemma_sizes_upto(l, 0);
        assert(sizes@.take(0) =~= sizes_upto(l, 0));
    }
    while i < 16
        invariant
            i <= 16,
            l == code_lengths@,
            valid_lengths(l),
            k == length_sum(l, i as int),
            sizes@.len() == 256,
            sizes@.take(k as int) == sizes_upto(l, i as int),
            forall|j: int| k <= j < 256 ==> sizes@[j] == 0,
        decreases 16 - i,
    {
        proof {
            lemma_length_sum_mono(l, (i + 1) as int, 16);
        }
        let mut n: u8 = 0;
        while n < code_lengths[i]
            invariant
                i < 16,
                l == code_lengths@,
                valid_lengths(l),
                n <= l[i as int],
                k == length_sum(l, i as int) + n,
                length_sum(l, (i + 1) as int) <= 256,
                sizes@.len() == 256,
                sizes@.take(k as int) == sizes_upto(l, i as int) + Seq::new(
                    n as nat,
                    |j: int| (i + 1) as u8,
                ),
                forall|j: int| k <= j < 256 ==> sizes@[j] == 0,
            decreases l[i as int] - n,
        {
            proof {
                lemma_length_sum_mono(l, (i + 1) as int, 16);
            }
            let ghost before = sizes@;
            sizes[k] = (i + 1) as u8;
            proof {
                assert(sizes@.take(k + 1) =~= before.take(k as int).push((i + 1) as u8));
                assert(Seq::new((n + 1) as nat, |j: int| (i + 1) as u8) =~= Seq::new(
                    n as nat,
                    |j: int| (i + 1) as u8,
                ).push((i + 1) as u8));
                assert(sizes@.take(k + 1) =~= sizes_upto(l, i as int) + Seq::new(
                    (n + 1) as nat,
                    |j: int| (i + 1) as u8,
                ));
            }
            k = k + 1;
            n = n + 1;
        }
        proof {
            assert(Seq::new(l[i as int] as nat, |j: int| (i + 1) as u8) =~= Seq::new(
                l[i as int] as nat,
                |j: int| ((i + 1) as int) as u8,
            ));
        }
        i = i + 1;
    }
    sizes
}

/// Canonical codes of the sizes (Figure C.2), followed by zeros.
fn create_codes(sizes: &[u8; 256], Ghost(lengths): Ghost<Seq<u8>>) -> (r: [u16; 256])
    requires
        valid_lengths(lengths),
        sizes@.take(length_sum(lengths, 16) as int) == code_sizes(lengths),
        forall|j: int| length_sum(lengths, 16) <= j < 256 ==> sizes@[j] == 0,
    ensures
        forall|k: int|
            0 <= k < length_sum(lengths, 16) ==> r@[k] as nat == canonical_code(code_sizes(lengths), k),
{
    let ghost s = code_sizes(lengths);
    let ghost total = length_sum(lengths, 16);
    proof {
        lemma_sizes_upto(lengths, 16);
        lemma_kraft_of_sizes(lengths, 16);
        lemma2_to64();
        assert forall|k: int| 0 <= k < total implies sizes@[k] == s[k] by {
            assert(sizes@.take(total as int)[k] == sizes@[k]);
        }
    }
    let mut codes = [0u16; 256];
    let mut current_code: u16 = 0;
    let mut current_size: u8 = sizes[0];
    let mut k: usize = 0;
    proof {
        if total > 0 {
            assert(sizes@[0] == s[0]);
            assert(1 <= s[0] <= 16);
        } else {
            assert(sizes@[0] == 0);
        }
    }
    while k < 256 && sizes[k] != 0
        invariant
            k <= total,
            total <= 256,
            s == code_sizes(lengths),
            total == length_sum(lengths, 16),
            s.len() == total,
            prefix_weight(s, total as int) == kraft_sum(lengths, 16),
            kraft_sum(lengths, 16) < pow2(16),
            forall|a: int| 0 <= a < total ==> sizes@[a] == s[a],
            forall|a: int| 0 <= a < s.len() ==> 1 <= #[trigger] s[a] <= 16,
            forall|a: int, b: int| 0 <= a <= b < s.len() ==> #[trigger] s[a] <= #[trigger] s[b],
            total < 256 ==> sizes@[total as int] == 0,
            k < total ==> current_size <= s[k as int],
            1 <= current_size <= 16 || k == total,
            current_size <= 16,
            current_code as nat * pow2((16 - current_size) as nat) == prefix_weight(s, k as int),
            forall|j: int| 0 <= j < k ==> codes@[j] as nat == canonical_code(s, j),
        decreases 256 - k,
    {
        let size = sizes[k];
        proof {
            lemma_prefix_weight_mono(s, k as int, total as int);
        }
        while current_size < size
            invariant
                k < total,
                size == s[k as int],
                1 <= current_size <= size <= 16,
                current_code as nat * pow2((16 - current_size) as nat) == prefix_weight(s, k as int),
                prefix_weight(s, k as int) < pow2(16),
            decreases size - current_size,
        {
            proof {
                lemma_pow2_unfold((16 - current_size) as nat);
                lemma_mul_is_associative(
                    current_code as int,
                    2,
                    pow2((16 - current_size - 1) as nat) as int,
                );
                lemma_pow2_pos((16 - current_size - 1) as nat);
                assert(current_code as nat * 2 < 65536) by {
                    lemma2_to64();
                    let p = pow2((16 - current_size - 1) as nat) as int;
                    if current_code as nat * 2 >= 65536 {
                        lemma_mul_inequality(65536, current_code as int * 2, p);
                        lemma_mul_inequality(1, p, 65536);
                        lemma_mul_is_commutative(65536, p);
                    }
                }
            }
            current_code = current_code * 2;
            current_size = current_size + 1;
        }
        proof {
            let e = (16 - size) as nat;
            lemma_pow2_pos(e);
            lemma_div_multiples_vanish(current_code as int, pow2(e) as int);
            lemma_mul_is_commutative(current_code as int, pow2(e) as int);
            assert(canonical_code(s, k as int) == current_code);
            lemma_mul_is_distributive_add_other_way(pow2(e) as int, current_code as int, 1);
            assert((current_code + 1) as nat * pow2(e) == prefix_weight(s, k + 1));
            lemma_prefix_weight_mono(s, (k + 1) as int, total as int);
            assert((current_code + 1) as nat * pow2(e) < pow2(16));
            if current_code as nat + 1 >= 65536 {
                lemma2_to64();
                lemma_mul_inequality(65536, (current_code + 1) as int, pow2(e) as int);
                lemma_mul_inequality(1, pow2(e) as int, 65536);
                lemma_mul_is_commutative(65536, pow2(e) as int);
                assert(false);
            }
        }
        codes[k] = current_code;
        current_code = current_code + 1;
        k = k + 1;
        proof {
            if k < total {
                assert(s[k - 1] <= s[k as int]);
            }
        }
    }
    proof {
        if k < total {
            assert(sizes@[k as int] == s[k as int]);
        }
    }
    codes
}

/// Lookup table from symbol to size and code.
fn create_lookup_table(code_lengths: &[u8; 16], values: &[u8]) -> (r: [(u8, u16); 256])
    requires
        valid_lengths(code_lengths@),
        values@.len() == length_sum(code_lengths@, 16),
    ensures
        forall|v: int|
            0 <= v < 256 ==> #[trigger] r@[v] == entry_for(
                code_lengths@,
                values@,
                values@.len() as int,
                v as u8,
            ),
{
    let sizes = create_sizes(code_lengths);
    let codes = create_codes(&sizes, Ghost(code_lengths@));
    let ghost l = code_lengths@;
    let ghost total = length_sum(l, 16);
    proof {
        lemma_sizes_upto(l, 16);
        assert forall|k: int| 0 <= k < total implies sizes@[k] == code_sizes(l)[k] by {
            assert(sizes@.take(total as int)[k] == sizes@[k]);
        }
    }
    let mut lookup_table = [(0u8, 0u16); 256];
    let mut i: usize = 0;
    while i < values.len()
        invariant
            i <= values@.len(),
            values@.len() == total,
            total <= 256,
            l == code_lengths@,
            lookup_table@.len() == 256,
            forall|k: int| 0 <= k < total ==> sizes@[k] == code_sizes(l)[k],
            forall|k: int| 0 <= k < total ==> codes@[k] as nat == canonical_code(code_sizes(l), k),
            forall|v: int|
                0 <= v < 256 ==> #[trigger] lookup_table@[v] == entry_for(l, values@, i as int, v as u8),
        decreases values@.len() - i,
    {
        let value = values[i];
        lookup_table[value as usize] = (sizes[i], codes[i]);
        i = i + 1;
        proof {
            assert forall|v: int| 0 <= v < 256 implies #[trigger] lookup_table@[v] == entry_for(
                l,
                values@,
                i as int,
                v as u8,
            ) by {
                if v == value as int {
                    assert(codes@[i - 1] as nat == canonical_code(code_sizes(l), i - 1));
                }
            }
        }
    }
    lookup_table
}

/// An AC symbol that coefficients of at most 1023 in magnitude give: end of
/// block, a run of sixteen zeros, or a run of zeros and a size of 1 to 10.
pub open spec fn ac_symbol_of_8bit(x: u8) -> bool {
    x == 0x00 || x == 0xF0 || (1 <= x % 16 <= 10)
}

/// The default luminance AC table codes every AC symbol that 8-bit samples
/// give.
proof fn lemma_luma_ac_covers(y: u8)
    requires
        ac_symbol_of_8bit(y),
    ensures
        default_luma_ac_values().contains(y),
{
    let v = default_luma_ac_values();
    assert(y == 0x00 || y == 0xF0 || (1 <= y % 16 && y % 16 <= 10));
    assert(y == 0x01u8 || y == 0x02u8 || y == 0x03u8 || y == 0x00u8 || y == 0x04u8 || y == 0x11u8
            || y == 0x05u8 || y == 0x12u8 || y == 0x21u8 || y == 0x31u8 || y == 0x41u8 || y == 0x06u8
            || y == 0x13u8 || y == 0x51u8 || y == 0x61u8 || y == 0x07u8 || y == 0x22u8 || y == 0x71u8
            || y == 0x14u8 || y == 0x32u8 || y == 0x81u8 || y == 0x91u8 || y == 0xA1u8 || y == 0x08u8
            || y == 0x23u8 || y == 0x42u8 || y == 0xB1u8 || y == 0xC1u8 || y == 0x15u8 || y == 0x52u8
            || y == 0xD1u8 || y == 0xF0u8 || y == 0x24u8 || y == 0x33u8 || y == 0x62u8 || y == 0x72u8
            || y == 0x82u8 || y == 0x09u8 || y == 0x0Au8 || y == 0x16u8 || y == 0x17u8 || y == 0x18u8
            || y == 0x19u8 || y == 0x1Au8 || y == 0x25u8 || y == 0x26u8 || y == 0x27u8 || y == 0x28u8
            || y == 0x29u8 || y == 0x2Au8 || y == 0x34u8 || y == 0x35u8 || y == 0x36u8 || y == 0x37u8
            || y == 0x38u8 || y == 0x39u8 || y == 0x3Au8 || y == 0x43u8 || y == 0x44u8 || y == 0x45u8
            || y == 0x46u8 || y == 0x47u8 || y == 0x48u8 || y == 0x49u8 || y == 0x4Au8 || y == 0x53u8
            || y == 0x54u8 || y == 0x55u8 || y == 0x56u8 || y == 0x57u8 || y == 0x58u8 || y == 0x59u8
            || y == 0x5Au8 || y == 0x63u8 || y == 0x64u8 || y == 0x65u8 || y == 0x66u8 || y == 0x67u8
            || y == 0x68u8 || y == 0x69u8 || y == 0x6Au8 || y == 0x73u8 || y == 0x74u8 || y == 0x75u8
            || y == 0x76u8 || y == 0x77u8 || y == 0x78u8 || y == 0x79u8 || y == 0x7Au8 || y == 0x83u8
            || y == 0x84u8 || y == 0x85u8 || y == 0x86u8 || y == 0x87u8 || y == 0x88u8 || y == 0x89u8
            || y == 0x8Au8 || y == 0x92u8 || y == 0x93u8 || y == 0x94u8 || y == 0x95u8 || y == 0x96u8
            || y == 0x97u8 || y == 0x98u8 || y == 0x99u8 || y == 0x9Au8 || y == 0xA2u8 || y == 0xA3u8
            || y == 0xA4u8 || y == 0xA5u8 || y == 0xA6u8 || y == 0xA7u8 || y == 0xA8u8 || y == 0xA9u8
            || y == 0xAAu8 || y == 0xB2u8 || y == 0xB3u8 || y == 0xB4u8 || y == 0xB5u8 || y == 0xB6u8
            || y == 0xB7u8 || y == 0xB8u8 || y == 0xB9u8 || y == 0xBAu8 || y == 0xC2u8 || y == 0xC3u8
            || y == 0xC4u8 || y == 0xC5u8 || y == 0xC6u8 || y == 0xC7u8 || y == 0xC8u8 || y == 0xC9u8
            || y == 0xCAu8 || y == 0xD2u8 || y == 0xD3u8 || y == 0xD4u8 || y == 0xD5u8 || y == 0xD6u8
            || y == 0xD7u8 || y == 0xD8u8 || y == 0xD9u8 || y == 0xDAu8 || y == 0xE1u8 || y == 0xE2u8
            || y == 0xE3u8 || y == 0xE4u8 || y == 0xE5u8 || y == 0xE6u8 || y == 0xE7u8 || y == 0xE8u8
            || y == 0xE9u8 || y == 0xEAu8 || y == 0xF1u8 || y == 0xF2u8 || y == 0xF3u8 || y == 0xF4u8
            || y == 0xF5u8 || y == 0xF6u8 || y == 0xF7u8 || y == 0xF8u8 || y == 0xF9u8 || y == 0xFAu8) by (bit_vector)
        requires
            y == 0x00 || y == 0xF0 || (1 <= y % 16 && y % 16 <= 10),
    ;
    assert(v[0] == 0x01 && v[1] == 0x02 && v[2] == 0x03 && v[3] == 0x00 && v[4] == 0x04 && v[5] == 0x11);
    assert(v[6] == 0x05 && v[7] == 0x12 && v[8] == 0x21 && v[9] == 0x31 && v[10] == 0x41 && v[11] == 0x06);
    assert(v[12] == 0x13 && v[13] == 0x51 && v[14] == 0x61 && v[15] == 0x07 && v[16] == 0x22 && v[17] == 0x71);
    assert(v[18] == 0x14 && v[19] == 0x32 && v[20] == 0x81 && v[21] == 0x91 && v[22] == 0xA1 && v[23] == 0x08);
    assert(v[24] == 0x23 && v[25] == 0x42 && v[26] == 0xB1 && v[27] == 0xC1 && v[28] == 0x15 && v[29] == 0x52);
    assert(v[30] == 0xD1 && v[31] == 0xF0 && v[32] == 0x24 && v[33] == 0x33 && v[34] == 0x62 && v[35] == 0x72);
    assert(v[36] == 0x82 && v[37] == 0x09 && v[38] == 0x0A && v[39] == 0x16 && v[40] == 0x17 && v[41] == 0x18);
    assert(v[42] == 0x19 && v[43] == 0x1A && v[44] == 0x25 && v[45] == 0x26 && v[46] == 0x27 && v[47] == 0x28);
    assert(v[48] == 0x29 && v[49] == 0x2A && v[50] == 0x34 && v[51] == 0x35 && v[52] == 0x36 && v[53] == 0x37);
    assert(v[54] == 0x38 && v[55] == 0x39 && v[56] == 0x3A && v[57] == 0x43 && v[58] == 0x44 && v[59] == 0x45);
    assert(v[60] == 0x46 && v[61] == 0x47 && v[62] == 0x48 && v[63] == 0x49 && v[64] == 0x4A && v[65] == 0x53);
    assert(v[66] == 0x54 && v[67] == 0x55 && v[68] == 0x56 && v[69] == 0x57 && v[70] == 0x58 && v[71] == 0x59);
    assert(v[72] == 0x5A && v[73] == 0x63 && v[74] == 0x64 && v[75] == 0x65 && v[76] == 0x66 && v[77] == 0x67);
    assert(v[78] == 0x68 && v[79] == 0x69 && v[80] == 0x6A && v[81] == 0x73 && v[82] == 0x74 && v[83] == 0x75);
    assert(v[84] == 0x76 && v[85] == 0x77 && v[86] == 0x78 && v[87] == 0x79 && v[88] == 0x7A && v[89] == 0x83);
    assert(v[90] == 0x84 && v[91] == 0x85 && v[92] == 0x86 && v[93] == 0x87 && v[94] == 0x88 && v[95] == 0x89);
    assert(v[96] == 0x8A && v[97] == 0x92 && v[98] == 0x93 && v[99] == 0x94 && v[100] == 0x95 && v[101] == 0x96);
    assert(v[102] == 0x97 && v[103] == 0x98 && v[104] == 0x99 && v[105] == 0x9A && v[106] == 0xA2 && v[107] == 0xA3);
    assert(v[108] == 0xA4 && v[109] == 0xA5 && v[110] == 0xA6 && v[111] == 0xA7 && v[112] == 0xA8 && v[113] == 0xA9);
    assert(v[114] == 0xAA && v[115] == 0xB2 && v[116] == 0xB3 && v[117] == 0xB4 && v[118] == 0xB5 && v[119] == 0xB6);
    assert(v[120] == 0xB7 && v[121] == 0xB8 && v[122] == 0xB9 && v[123] == 0xBA && v[124] == 0xC2 && v[125] == 0xC3);
    assert(v[126] == 0xC4 && v[127] == 0xC5 && v[128] == 0xC6 && v[129] == 0xC7 && v[130] == 0xC8 && v[131] == 0xC9);
    assert(v[132] == 0xCA && v[133] == 0xD2 && v[134] == 0xD3 && v[135] == 0xD4 && v[136] == 0xD5 && v[137] == 0xD6);
    assert(v[138] == 0xD7 && v[139] == 0xD8 && v[140] == 0xD9 && v[141] == 0xDA && v[142] == 0xE1 && v[143] == 0xE2);
    assert(v[144] == 0xE3 && v[145] == 0xE4 && v[146] == 0xE5 && v[147] == 0xE6 && v[148] == 0xE7 && v[149] == 0xE8);
    assert(v[150] == 0xE9 && v[151] == 0xEA && v[152] == 0xF1 && v[153] == 0xF2 && v[154] == 0xF3 && v[155] == 0xF4);
    assert(v[156] == 0xF5 && v[157] == 0xF6 && v[158] == 0xF7 && v[159] == 0xF8 && v[160] == 0xF9 && v[161] == 0xFA);
}

/// The default chrominance AC table codes every AC symbol that 8-bit samples
/// give.
proof fn lemma_chroma_ac_covers(y: u8)
    requires
        ac_symbol_of_8bit(y),
    ensures
        default_chroma_ac_values().contains(y),
{
    let v = default_chroma_ac_values();
    assert(y == 0x00 || y == 0xF0 || (1 <= y % 16 && y % 16 <= 10));
    assert(y == 0x00u8 || y == 0x01u8 || y == 0x02u8 || y == 0x03u8 || y == 0x11u8 || y == 0x04u8
            || y == 0x05u8 || y == 0x21u8 || y == 0x31u8 || y == 0x06u8 || y == 0x12u8 || y == 0x41u8
            || y == 0x51u8 || y == 0x07u8 || y == 0x61u8 || y == 0x71u8 || y == 0x13u8 || y == 0x22u8
            || y == 0x32u8 || y == 0x81u8 || y == 0x08u8 || y == 0x14u8 || y == 0x42u8 || y == 0x91u8
            || y == 0xA1u8 || y == 0xB1u8 || y == 0xC1u8 || y == 0x09u8 || y == 0x23u8 || y == 0x33u8
            || y == 0x52u8 || y == 0xF0u8 || y == 0x15u8 || y == 0x62u8 || y == 0x72u8 || y == 0xD1u8
            || y == 0x0Au8 || y == 0x16u8 || y == 0x24u8 || y == 0x34u8 || y == 0xE1u8 || y == 0x25u8
            || y == 0xF1u8 || y == 0x17u8 || y == 0x18u8 || y == 0x19u8 || y == 0x1Au8 || y == 0x26u8
            || y == 0x27u8 || y == 0x28u8 || y == 0x29u8 || y == 0x2Au8 || y == 0x35u8 || y == 0x36u8
            || y == 0x37u8 || y == 0x38u8 || y == 0x39u8 || y == 0x3Au8 || y == 0x43u8 || y == 0x44u8
            || y == 0x45u8 || y == 0x46u8 || y == 0x47u8 || y == 0x48u8 || y == 0x49u8 || y == 0x4Au8
            || y == 0x53u8 || y == 0x54u8 || y == 0x55u8 || y == 0x56u8 || y == 0x57u8 || y == 0x58u8
            || y == 0x59u8 || y == 0x5Au8 || y == 0x63u8 || y == 0x64u8 || y == 0x65u8 || y == 0x66u8
            || y == 0x67u8 || y == 0x68u8 || y == 0x69u8 || y == 0x6Au8 || y == 0x73u8 || y == 0x74u8
            || y == 0x75u8 || y == 0x76u8 || y == 0x77u8 || y == 0x78u8 || y == 0x79u8 || y == 0x7Au8
            || y == 0x82u8 || y == 0x83u8 || y == 0x84u8 || y == 0x85u8 || y == 0x86u8 || y == 0x87u8
            || y == 0x88u8 || y == 0x89u8 || y == 0x8Au8 || y == 0x92u8 || y == 0x93u8 || y == 0x94u8
            || y == 0x95u8 || y == 0x96u8 || y == 0x97u8 || y == 0x98u8 || y == 0x99u8 || y == 0x9Au8
            || y == 0xA2u8 || y == 0xA3u8 || y == 0xA4u8 || y == 0xA5u8 || y == 0xA6u8 || y == 0xA7u8
            || y == 0xA8u8 || y == 0xA9u8 || y == 0xAAu8 || y == 0xB2u8 || y == 0xB3u8 || y == 0xB4u8
            || y == 0xB5u8 || y == 0xB6u8 || y == 0xB7u8 || y == 0xB8u8 || y == 0xB9u8 || y == 0xBAu8
            || y == 0xC2u8 || y == 0xC3u8 || y == 0xC4u8 || y == 0xC5u8 || y == 0xC6u8 || y == 0xC7u8
            || y == 0xC8u8 || y == 0xC9u8 || y == 0xCAu8 || y == 0xD2u8 || y == 0xD3u8 || y == 0xD4u8
            || y == 0xD5u8 || y == 0xD6u8 || y == 0xD7u8 || y == 0xD8u8 || y == 0xD9u8 || y == 0xDAu8
            || y == 0xE2u8 || y == 0xE3u8 || y == 0xE4u8 || y == 0xE5u8 || y == 0xE6u8 || y == 0xE7u8
            || y == 0xE8u8 || y == 0xE9u8 || y == 0xEAu8 || y == 0xF2u8 || y == 0xF3u8 || y == 0xF4u8
            || y == 0xF5u8 || y == 0xF6u8 || y == 0xF7u8 || y == 0xF8u8 || y == 0xF9u8 || y == 0xFAu8) by (bit_vector)
        requires
            y == 0x00 || y == 0xF0 || (1 <= y % 16 && y % 16 <= 10),
    ;
    assert(v[0] == 0x00 && v[1] == 0x01 && v[2] == 0x02 && v[3] == 0x03 && v[4] == 0x11 && v[5] == 0x04);
    assert(v[6] == 0x05 && v[7] == 0x21 && v[8] == 0x31 && v[9] == 0x06 && v[10] == 0x12 && v[11] == 0x41);
    assert(v[12] == 0x51 && v[13] == 0x07 && v[14] == 0x61 && v[15] == 0x71 && v[16] == 0x13 && v[17] == 0x22);
    assert(v[18] == 0x32 && v[19] == 0x81 && v[20] == 0x08 && v[21] == 0x14 && v[22] == 0x42 && v[23] == 0x91);
    assert(v[24] == 0xA1 && v[25] == 0xB1 && v[26] == 0xC1 && v[27] == 0x09 && v[28] == 0x23 && v[29] == 0x33);
    assert(v[30] == 0x52 && v[31] == 0xF0 && v[32] == 0x15 && v[33] == 0x62 && v[34] == 0x72 && v[35] == 0xD1);
    assert(v[36] == 0x0A && v[37] == 0x16 && v[38] == 0x24 && v[39] == 0x34 && v[40] == 0xE1 && v[41] == 0x25);
    assert(v[42] == 0xF1 && v[43] == 0x17 && v[44] == 0x18 && v[45] == 0x19 && v[46] == 0x1A && v[47] == 0x26);
    assert(v[48] == 0x27 && v[49] == 0x28 && v[50] == 0x29 && v[51] == 0x2A && v[52] == 0x35 && v[53] == 0x36);
    assert(v[54] == 0x37 && v[55] == 0x38 && v[56] == 0x39 && v[57] == 0x3A && v[58] == 0x43 && v[59] == 0x44);
    assert(v[60] == 0x45 && v[61] == 0x46 && v[62] == 0x47 && v[63] == 0x48 && v[64] == 0x49 && v[65] == 0x4A);
    assert(v[66] == 0x53 && v[67] == 0x54 && v[68] == 0x55 && v[69] == 0x56 && v[70] == 0x57 && v[71] == 0x58);
    assert(v[72] == 0x59 && v[73] == 0x5A && v[74] == 0x63 && v[75] == 0x64 && v[76] == 0x65 && v[77] == 0x66);
    assert(v[78] == 0x67 && v[79] == 0x68 && v[80] == 0x69 && v[81] == 0x6A && v[82] == 0x73 && v[83] == 0x74);
    assert(v[84] == 0x75 && v[85] == 0x76 && v[86] == 0x77 && v[87] == 0x78 && v[88] == 0x79 && v[89] == 0x7A);
    assert(v[90] == 0x82 && v[91] == 0x83 && v[92] == 0x84 && v[93] == 0x85 && v[94] == 0x86 && v[95] == 0x87);
    assert(v[96] == 0x88 && v[97] == 0x89 && v[98] == 0x8A && v[99] == 0x92 && v[100] == 0x93 && v[101] == 0x94);
    assert(v[102] == 0x95 && v[103] == 0x96 && v[104] == 0x97 && v[105] == 0x98 && v[106] == 0x99 && v[107] == 0x9A);
    assert(v[108] == 0xA2 && v[109] == 0xA3 && v[110] == 0xA4 && v[111] == 0xA5 && v[112] == 0xA6 && v[113] == 0xA7);
    assert(v[114] == 0xA8 && v[115] == 0xA9 && v[116] == 0xAA && v[117] == 0xB2 && v[118] == 0xB3 && v[119] == 0xB4);
    assert(v[120] == 0xB5 && v[121] == 0xB6 && v[122] == 0xB7 && v[123] == 0xB8 && v[124] == 0xB9 && v[125] == 0xBA);
    assert(v[126] == 0xC2 && v[127] == 0xC3 && v[128] == 0xC4 && v[129] == 0xC5 && v[130] == 0xC6 && v[131] == 0xC7);
    assert(v[132] == 0xC8 && v[133] == 0xC9 && v[134] == 0xCA && v[135] == 0xD2 && v[136] == 0xD3 && v[137] == 0xD4);
    assert(v[138] == 0xD5 && v[139] == 0xD6 && v[140] == 0xD7 && v[141] == 0xD8 && v[142] == 0xD9 && v[143] == 0xDA);
    assert(v[144] == 0xE2 && v[145] == 0xE3 && v[146] == 0xE4 && v[147] == 0xE5 && v[148] == 0xE6 && v[149] == 0xE7);
    assert(v[150] == 0xE8 && v[151] == 0xE9 && v[152] == 0xEA && v[153] == 0xF2 && v[154] == 0xF3 && v[155] == 0xF4);
    assert(v[156] == 0xF5 && v[157] == 0xF6 && v[158] == 0xF7 && v[159] == 0xF8 && v[160] == 0xF9 && v[161] == 0xFA);
}

/// The default AC tables code every AC symbol that 8-bit samples give.
pub proof fn lemma_default_ac_symbols()
    ensures
        forall|y: u8| ac_symbol_of_8bit(y) ==> #[trigger] default_luma_ac_values().contains(y),
        forall|y: u8| ac_symbol_of_8bit(y) ==> #[trigger] default_chroma_ac_values().contains(y),
{
    assert forall|y: u8| ac_symbol_of_8bit(y) implies #[trigger] default_luma_ac_values().contains(y) by {
        lemma_luma_ac_covers(y);
    }
    assert forall|y: u8| ac_symbol_of_8bit(y) implies #[trigger] default_chroma_ac_values().contains(y) by {
        lemma_chroma_ac_covers(y);
    }
}

/// The default DC tables code every size category up to 11.
pub proof fn lemma_default_dc_symbols()
    ensures
        forall|y: u8| y <= 11 ==> #[trigger] default_luma_dc_values().contains(y),
        forall|y: u8| y <= 11 ==> #[trigger] default_chroma_dc_values().contains(y),
{
    assert forall|y: u8| y <= 11 implies #[trigger] default_luma_dc_values().contains(y) by {
        assert(default_luma_dc_values()[y as int] == y);
    }
    assert forall|y: u8| y <= 11 implies #[trigger] default_chroma_dc_values().contains(y) by {
        assert(default_chroma_dc_values()[y as int] == y);
    }
}

/// Code lengths of the default luminance DC table (Table K.3).
pub open spec fn default_luma_dc_lengths() -> Seq<u8> {
    seq![0u8, 1, 5, 1, 1, 1, 1, 1, 1, 0, 0, 0, 0, 0, 0, 0]
}

/// Values of the default luminance DC table (Table K.3).
pub open spec fn default_luma_dc_values() -> Seq<u8> {
    seq![0u8, 1, 2, 3, 4, 5, 6, 7, 8, 9, 10, 11]
}

/// Code lengths of the default chrominance DC table (Table K.4).
pub open spec fn default_chroma_dc_lengths() -> Seq<u8> {
    seq![0u8, 3, 1, 1, 1, 1, 1, 1, 1, 1, 1, 0, 0, 0, 0, 0]
}

/// Values of the default chrominance DC table (Table K.4).
pub open spec fn default_chroma_dc_values() -> Seq<u8> {
    seq![0u8, 1, 2, 3, 4, 5, 6, 7, 8, 9, 10, 11]
}

/// Code lengths of the default luminance AC table (Table K.5).
pub open spec fn default_luma_ac_lengths() -> Seq<u8> {
    seq![0u8, 2, 1, 3, 3, 2, 4, 3, 5, 5, 4, 4, 0, 0, 1, 0x7D]
}

/// Values of the default luminance AC table (Table K.5).
pub open spec fn default_luma_ac_values() -> Seq<u8> {
    seq![
        0x01u8, 0x02, 0x03, 0x00, 0x04, 0x11, 0x05, 0x12, 0x21, 0x31,
        0x41, 0x06, 0x13, 0x51, 0x61, 0x07, 0x22, 0x71, 0x14, 0x32,
        0x81, 0x91, 0xA1, 0x08, 0x23, 0x42, 0xB1, 0xC1, 0x15, 0x52,
        0xD1, 0xF0, 0x24, 0x33, 0x62, 0x72, 0x82, 0x09, 0x0A, 0x16,
        0x17, 0x18, 0x19, 0x1A, 0x25, 0x26, 0x27, 0x28, 0x29, 0x2A,
        0x34, 0x35, 0x36, 0x37, 0x38, 0x39, 0x3A, 0x43, 0x44, 0x45,
        0x46, 0x47, 0x48, 0x49, 0x4A, 0x53, 0x54, 0x55, 0x56, 0x57,
        0x58, 0x59, 0x5A, 0x63, 0x64, 0x65, 0x66, 0x67, 0x68, 0x69,
        0x6A, 0x73, 0x74, 0x75, 0x76, 0x77, 0x78, 0x79, 0x7A, 0x83,
        0x84, 0x85, 0x86, 0x87, 0x88, 0x89, 0x8A, 0x92, 0x93, 0x94,
        0x95, 0x96, 0x97, 0x98, 0x99, 0x9A, 0xA2, 0xA3, 0xA4, 0xA5,
        0xA6, 0xA7, 0xA8, 0xA9, 0xAA, 0xB2, 0xB3, 0xB4, 0xB5, 0xB6,
        0xB7, 0xB8, 0xB9, 0xBA, 0xC2, 0xC3, 0xC4, 0xC5, 0xC6, 0xC7,
        0xC8, 0xC9, 0xCA, 0xD2, 0xD3, 0xD4, 0xD5, 0xD6, 0xD7, 0xD8,
        0xD9, 0xDA, 0xE1, 0xE2, 0xE3, 0xE4, 0xE5, 0xE6, 0xE7, 0xE8,
        0xE9, 0xEA, 0xF1, 0xF2, 0xF3, 0xF4, 0xF5, 0xF6, 0xF7, 0xF8,
        0xF9, 0xFA,
    ]
}

/// Code lengths of the default chrominance AC table (Table K.6).
pub open spec fn default_chroma_ac_lengths() -> Seq<u8> {
    seq![0u8, 2, 1, 2, 4, 4, 3, 4, 7, 5, 4, 4, 0, 1, 2, 0x77]
}

/// Values of the default chrominance AC table (Table K.6).
pub open spec fn default_chroma_ac_values() -> Seq<u8> {
    seq![
        0x00u8, 0x01, 0x02, 0x03, 0x11, 0x04, 0x05, 0x21, 0x31, 0x06,
        0x12, 0x41, 0x51, 0x07, 0x61, 0x71, 0x13, 0x22, 0x32, 0x81,
        0x08, 0x14, 0x42, 0x91, 0xA1, 0xB1, 0xC1, 0x09, 0x23, 0x33,
        0x52, 0xF0, 0x15, 0x62, 0x72, 0xD1, 0x0A, 0x16, 0x24, 0x34,
        0xE1, 0x25, 0xF1, 0x17, 0x18, 0x19, 0x1A, 0x26, 0x27, 0x28,
        0x29, 0x2A, 0x35, 0x36, 0x37, 0x38, 0x39, 0x3A, 0x43, 0x44,
        0x45, 0x46, 0x47, 0x48, 0x49, 0x4A, 0x53, 0x54, 0x55, 0x56,
        0x57, 0x58, 0x59, 0x5A, 0x63, 0x64, 0x65, 0x66, 0x67, 0x68,
        0x69, 0x6A, 0x73, 0x74, 0x75, 0x76, 0x77, 0x78, 0x79, 0x7A,
        0x82, 0x83, 0x84, 0x85, 0x86, 0x87, 0x88, 0x89, 0x8A, 0x92,
        0x93, 0x94, 0x95, 0x96, 0x97, 0x98, 0x99, 0x9A, 0xA2, 0xA3,
        0xA4, 0xA5, 0xA6, 0xA7, 0xA8, 0xA9, 0xAA, 0xB2, 0xB3, 0xB4,
        0xB5, 0xB6, 0xB7, 0xB8, 0xB9, 0xBA, 0xC2, 0xC3, 0xC4, 0xC5,
        0xC6, 0xC7, 0xC8, 0xC9, 0xCA, 0xD2, 0xD3, 0xD4, 0xD5, 0xD6,
        0xD7, 0xD8, 0xD9, 0xDA, 0xE2, 0xE3, 0xE4, 0xE5, 0xE6, 0xE7,
        0xE8, 0xE9, 0xEA, 0xF2, 0xF3, 0xF4, 0xF5, 0xF6, 0xF7, 0xF8,
        0xF9, 0xFA,
    ]
}

impl HuffmanTable {
    /// The default luminance DC table.
    pub fn default_luma_dc() -> (r: HuffmanTable)
        ensures
            r.wf(),
            r.lengths() == default_luma_dc_lengths(),
            r.spec_values() == default_luma_dc_values(),
    {
        let length: [u8; 16] = [0, 1, 5, 1, 1, 1, 1, 1, 1, 0, 0, 0, 0, 0, 0, 0];
        let values: [u8; 12] = [0, 1, 2, 3, 4, 5, 6, 7, 8, 9, 10, 11];
        proof {
            assert(length@ =~= default_luma_dc_lengths());
            assert(values@ =~= default_luma_dc_values());
            lemma2_to64();
            assert(length_sum(length@, 0) == 0 && kraft_sum(length@, 0) == 0);
            assert(length@[0] == 0 && (0 as nat) * pow2(15) == 0);
            assert(length_sum(length@, 1) == 0 && kraft_sum(length@, 1) == 0);
            assert(length@[1] == 1 && (1 as nat) * pow2(14) == 16384);
            assert(length_sum(length@, 2) == 1 && kraft_sum(length@, 2) == 16384);
            assert(length@[2] == 5 && (5 as nat) * pow2(13) == 40960);
            assert(length_sum(length@, 3) == 6 && kraft_sum(length@, 3) == 57344);
            assert(length@[3] == 1 && (1 as nat) * pow2(12) == 4096);
            assert(length_sum(length@, 4) == 7 && kraft_sum(length@, 4) == 61440);
            assert(length@[4] == 1 && (1 as nat) * pow2(11) == 2048);
            assert(length_sum(length@, 5) == 8 && kraft_sum(length@, 5) == 63488);
            assert(length@[5] == 1 && (1 as nat) * pow2(10) == 1024);
            assert(length_sum(length@, 6) == 9 && kraft_sum(length@, 6) == 64512);
            assert(length@[6] == 1 && (1 as nat) * pow2(9) == 512);
            assert(length_sum(length@, 7) == 10 && kraft_sum(length@, 7) == 65024);
            assert(length@[7] == 1 && (1 as nat) * pow2(8) == 256);
            assert(length_sum(length@, 8) == 11 && kraft_sum(length@, 8) == 65280);
            assert(length@[8] == 1 && (1 as nat) * pow2(7) == 128);
            assert(length_sum(length@, 9) == 12 && kraft_sum(length@, 9) == 65408);
            assert(length@[9] == 0 && (0 as nat) * pow2(6) == 0);
            assert(length_sum(length@, 10) == 12 && kraft_sum(length@, 10) == 65408);
            assert(length@[10] == 0 && (0 as nat) * pow2(5) == 0);
            assert(length_sum(length@, 11) == 12 && kraft_sum(length@, 11) == 65408);
            assert(length@[11] == 0 && (0 as nat) * pow2(4) == 0);
            assert(length_sum(length@, 12) == 12 && kraft_sum(length@, 12) == 65408);
            assert(length@[12] == 0 && (0 as nat) * pow2(3) == 0);
            assert(length_sum(length@, 13) == 12 && kraft_sum(length@, 13) == 65408);
            assert(length@[13] == 0 && (0 as nat) * pow2(2) == 0);
            assert(length_sum(length@, 14) == 12 && kraft_sum(length@, 14) == 65408);
            assert(length@[14] == 0 && (0 as nat) * pow2(1) == 0);
            assert(length_sum(length@, 15) == 12 && kraft_sum(length@, 15) == 65408);
            assert(length@[15] == 0 && (0 as nat) * pow2(0) == 0);
            assert(length_sum(length@, 16) == 12 && kraft_sum(length@, 16) == 65408);
        }
        HuffmanTable::new(&length, values.as_slice())
    }

    /// The default luminance AC table.
    pub fn default_luma_ac() -> (r: HuffmanTable)
        ensures
            r.wf(),
            r.lengths() == default_luma_ac_lengths(),
            r.spec_values() == default_luma_ac_values(),
    {
        let length: [u8; 16] = [0, 2, 1, 3, 3, 2, 4, 3, 5, 5, 4, 4, 0, 0, 1, 0x7D];
        let values: [u8; 162] = [
            0x01, 0x02, 0x03, 0x00, 0x04, 0x11, 0x05, 0x12, 0x21, 0x31,
            0x41, 0x06, 0x13, 0x51, 0x61, 0x07, 0x22, 0x71, 0x14, 0x32,
            0x81, 0x91, 0xA1, 0x08, 0x23, 0x42, 0xB1, 0xC1, 0x15, 0x52,
            0xD1, 0xF0, 0x24, 0x33, 0x62, 0x72, 0x82, 0x09, 0x0A, 0x16,
            0x17, 0x18, 0x19, 0x1A, 0x25, 0x26, 0x27, 0x28, 0x29, 0x2A,
            0x34, 0x35, 0x36, 0x37, 0x38, 0x39, 0x3A, 0x43, 0x44, 0x45,
            0x46, 0x47, 0x48, 0x49, 0x4A, 0x53, 0x54, 0x55, 0x56, 0x57,
            0x58, 0x59, 0x5A, 0x63, 0x64, 0x65, 0x66, 0x67, 0x68, 0x69,
            0x6A, 0x73, 0x74, 0x75, 0x76, 0x77, 0x78, 0x79, 0x7A, 0x83,
            0x84, 0x85, 0x86, 0x87, 0x88, 0x89, 0x8A, 0x92, 0x93, 0x94,
            0x95, 0x96, 0x97, 0x98, 0x99, 0x9A, 0xA2, 0xA3, 0xA4, 0xA5,
            0xA6, 0xA7, 0xA8, 0xA9, 0xAA, 0xB2, 0xB3, 0xB4, 0xB5, 0xB6,
            0xB7, 0xB8, 0xB9, 0xBA, 0xC2, 0xC3, 0xC4, 0xC5, 0xC6, 0xC7,
            0xC8, 0xC9, 0xCA, 0xD2, 0xD3, 0xD4, 0xD5, 0xD6, 0xD7, 0xD8,
            0xD9, 0xDA, 0xE1, 0xE2, 0xE3, 0xE4, 0xE5, 0xE6, 0xE7, 0xE8,
            0xE9, 0xEA, 0xF1, 0xF2, 0xF3, 0xF4, 0xF5, 0xF6, 0xF7, 0xF8,
            0xF9, 0xFA,
        ];
        proof {
            assert(length@ =~= default_luma_ac_lengths());
            assert(values@ =~= default_luma_ac_values());
            lemma2_to64();
            assert(length_sum(length@, 0) == 0 && kraft_sum(length@, 0) == 0);
            assert(length@[0] == 0 && (0 as nat) * pow2(15) == 0);
            assert(length_sum(length@, 1) == 0 && kraft_sum(length@, 1) == 0);
            assert(length@[1] == 2 && (2 as nat) * pow2(14) == 32768);
            assert(length_sum(length@, 2) == 2 && kraft_sum(length@, 2) == 32768);
            assert(length@[2] == 1 && (1 as nat) * pow2(13) == 8192);
            assert(length_sum(length@, 3) == 3 && kraft_sum(length@, 3) == 40960);
            assert(length@[3] == 3 && (3 as nat) * pow2(12) == 12288);
            assert(length_sum(length@, 4) == 6 && kraft_sum(length@, 4) == 53248);
            assert(length@[4] == 3 && (3 as nat) * pow2(11) == 6144);
            assert(length_sum(length@, 5) == 9 && kraft_sum(length@, 5) == 59392);
            assert(length@[5] == 2 && (2 as nat) * pow2(10) == 2048);
            assert(length_sum(length@, 6) == 11 && kraft_sum(length@, 6) == 61440);
            assert(length@[6] == 4 && (4 as nat) * pow2(9) == 2048);
            assert(length_sum(length@, 7) == 15 && kraft_sum(length@, 7) == 63488);
            assert(length@[7] == 3 && (3 as nat) * pow2(8) == 768);
            assert(length_sum(length@, 8) == 18 && kraft_sum(length@, 8) == 64256);
            assert(length@[8] == 5 && (5 as nat) * pow2(7) == 640);
            assert(length_sum(length@, 9) == 23 && kraft_sum(length@, 9) == 64896);
            assert(length@[9] == 5 && (5 as nat) * pow2(6) == 320);
            assert(length_sum(length@, 10) == 28 && kraft_sum(length@, 10) == 65216);
            assert(length@[10] == 4 && (4 as nat) * pow2(5) == 128);
            assert(length_sum(length@, 11) == 32 && kraft_sum(length@, 11) == 65344);
            assert(length@[11] == 4 && (4 as nat) * pow2(4) == 64);
            assert(length_sum(length@, 12) == 36 && kraft_sum(length@, 12) == 65408);
            assert(length@[12] == 0 && (0 as nat) * pow2(3) == 0);
            assert(length_sum(length@, 13) == 36 && kraft_sum(length@, 13) == 65408);
            assert(length@[13] == 0 && (0 as nat) * pow2(2) == 0);
            assert(length_sum(length@, 14) == 36 && kraft_sum(length@, 14) == 65408);
            assert(length@[14] == 1 && (1 as nat) * pow2(1) == 2);
            assert(length_sum(length@, 15) == 37 && kraft_sum(length@, 15) == 65410);
            assert(length@[15] == 125 && (125 as nat) * pow2(0) == 125);
            assert(length_sum(length@, 16) == 162 && kraft_sum(length@, 16) == 65535);
        }
        HuffmanTable::new(&length, values.as_slice())
    }

    /// The default chrominance DC table.
    pub fn default_chroma_dc() -> (r: HuffmanTable)
        ensures
            r.wf(),
            r.lengths() == default_chroma_dc_lengths(),
            r.spec_values() == default_chroma_dc_values(),
    {
        let length: [u8; 16] = [0, 3, 1, 1, 1, 1, 1, 1, 1, 1, 1, 0, 0, 0, 0, 0];
        let values: [u8; 12] = [0, 1, 2, 3, 4, 5, 6, 7, 8, 9, 10, 11];
        proof {
            assert(length@ =~= default_chroma_dc_lengths());
            assert(values@ =~= default_chroma_dc_values());
            lemma2_to64();
            assert(length_sum(length@, 0) == 0 && kraft_sum(length@, 0) == 0);
            assert(length@[0] == 0 && (0 as nat) * pow2(15) == 0);
            assert(length_sum(length@, 1) == 0 && kraft_sum(length@, 1) == 0);
            assert(length@[1] == 3 && (3 as nat) * pow2(14) == 49152);
            assert(length_sum(length@, 2) == 3 && kraft_sum(length@, 2) == 49152);
            assert(length@[2] == 1 && (1 as nat) * pow2(13) == 8192);
            assert(length_sum(length@, 3) == 4 && kraft_sum(length@, 3) == 57344);
            assert(length@[3] == 1 && (1 as nat) * pow2(12) == 4096);
            assert(length_sum(length@, 4) == 5 && kraft_sum(length@, 4) == 61440);
            assert(length@[4] == 1 && (1 as nat) * pow2(11) == 2048);
            assert(length_sum(length@, 5) == 6 && kraft_sum(length@, 5) == 63488);
            assert(length@[5] == 1 && (1 as nat) * pow2(10) == 1024);
            assert(length_sum(length@, 6) == 7 && kraft_sum(length@, 6) == 64512);
            assert(length@[6] == 1 && (1 as nat) * pow2(9) == 512);
            assert(length_sum(length@, 7) == 8 && kraft_sum(length@, 7) == 65024);
            assert(length@[7] == 1 && (1 as nat) * pow2(8) == 256);
            assert(length_sum(length@, 8) == 9 && kraft_sum(length@, 8) == 65280);
            assert(length@[8] == 1 && (1 as nat) * pow2(7) == 128);
            assert(length_sum(length@, 9) == 10 && kraft_sum(length@, 9) == 65408);
            assert(length@[9] == 1 && (1 as nat) * pow2(6) == 64);
            assert(length_sum(length@, 10) == 11 && kraft_sum(length@, 10) == 65472);
            assert(length@[10] == 1 && (1 as nat) * pow2(5) == 32);
            assert(length_sum(length@, 11) == 12 && kraft_sum(length@, 11) == 65504);
            assert(length@[11] == 0 && (0 as nat) * pow2(4) == 0);
            assert(length_sum(length@, 12) == 12 && kraft_sum(length@, 12) == 65504);
            assert(length@[12] == 0 && (0 as nat) * pow2(3) == 0);
            assert(length_sum(length@, 13) == 12 && kraft_sum(length@, 13) == 65504);
            assert(length@[13] == 0 && (0 as nat) * pow2(2) == 0);
            assert(length_sum(length@, 14) == 12 && kraft_sum(length@, 14) == 65504);
            assert(length@[14] == 0 && (0 as nat) * pow2(1) == 0);
            assert(length_sum(length@, 15) == 12 && kraft_sum(length@, 15) == 65504);
            assert(length@[15] == 0 && (0 as nat) * pow2(0) == 0);
            assert(length_sum(length@, 16) == 12 && kraft_sum(length@, 16) == 65504);
        }
        HuffmanTable::new(&length, values.as_slice())
    }

    /// The default chrominance AC table.
    pub fn default_chroma_ac() -> (r: HuffmanTable)
        ensures
            r.wf(),
            r.lengths() == default_chroma_ac_lengths(),
            r.spec_values() == default_chroma_ac_values(),
    {
        let length: [u8; 16] = [0, 2, 1, 2, 4, 4, 3, 4, 7, 5, 4, 4, 0, 1, 2, 0x77];
        let values: [u8; 162] = [
            0x00, 0x01, 0x02, 0x03, 0x11, 0x04, 0x05, 0x21, 0x31, 0x06,
            0x12, 0x41, 0x51, 0x07, 0x61, 0x71, 0x13, 0x22, 0x32, 0x81,
            0x08, 0x14, 0x42, 0x91, 0xA1, 0xB1, 0xC1, 0x09, 0x23, 0x33,
            0x52, 0xF0, 0x15, 0x62, 0x72, 0xD1, 0x0A, 0x16, 0x24, 0x34,
            0xE1, 0x25, 0xF1, 0x17, 0x18, 0x19, 0x1A, 0x26, 0x27, 0x28,
            0x29, 0x2A, 0x35, 0x36, 0x37, 0x38, 0x39, 0x3A, 0x43, 0x44,
            0x45, 0x46, 0x47, 0x48, 0x49, 0x4A, 0x53, 0x54, 0x55, 0x56,
            0x57, 0x58, 0x59, 0x5A, 0x63, 0x64, 0x65, 0x66, 0x67, 0x68,
            0x69, 0x6A, 0x73, 0x74, 0x75, 0x76, 0x77, 0x78, 0x79, 0x7A,
            0x82, 0x83, 0x84, 0x85, 0x86, 0x87, 0x88, 0x89, 0x8A, 0x92,
            0x93, 0x94, 0x95, 0x96, 0x97, 0x98, 0x99, 0x9A, 0xA2, 0xA3,
            0xA4, 0xA5, 0xA6, 0xA7, 0xA8, 0xA9, 0xAA, 0xB2, 0xB3, 0xB4,
            0xB5, 0xB6, 0xB7, 0xB8, 0xB9, 0xBA, 0xC2, 0xC3, 0xC4, 0xC5,
            0xC6, 0xC7, 0xC8, 0xC9, 0xCA, 0xD2, 0xD3, 0xD4, 0xD5, 0xD6,
            0xD7, 0xD8, 0xD9, 0xDA, 0xE2, 0xE3, 0xE4, 0xE5, 0xE6, 0xE7,
            0xE8, 0xE9, 0xEA, 0xF2, 0xF3, 0xF4, 0xF5, 0xF6, 0xF7, 0xF8,
            0xF9, 0xFA,
        ];
        proof {
            assert(length@ =~= default_chroma_ac_lengths());
            assert(values@ =~= default_chroma_ac_values());
            lemma2_to64();
            assert(length_sum(length@, 0) == 0 && kraft_sum(length@, 0) == 0);
            assert(length@[0] == 0 && (0 as nat) * pow2(15) == 0);
            assert(length_sum(length@, 1) == 0 && kraft_sum(length@, 1) == 0);
            assert(length@[1] == 2 && (2 as nat) * pow2(14) == 32768);
            assert(length_sum(length@, 2) == 2 && kraft_sum(length@, 2) == 32768);
            assert(length@[2] == 1 && (1 as nat) * pow2(13) == 8192);
            assert(length_sum(length@, 3) == 3 && kraft_sum(length@, 3) == 40960);
            assert(length@[3] == 2 && (2 as nat) * pow2(12) == 8192);
            assert(length_sum(length@, 4) == 5 && kraft_sum(length@, 4) == 49152);
            assert(length@[4] == 4 && (4 as nat) * pow2(11) == 8192);
            assert(length_sum(length@, 5) == 9 && kraft_sum(length@, 5) == 57344);
            assert(length@[5] == 4 && (4 as nat) * pow2(10) == 4096);
            assert(length_sum(length@, 6) == 13 && kraft_sum(length@, 6) == 61440);
            assert(length@[6] == 3 && (3 as nat) * pow2(9) == 1536);
            assert(length_sum(length@, 7) == 16 && kraft_sum(length@, 7) == 62976);
            assert(length@[7] == 4 && (4 as nat) * pow2(8) == 1024);
            assert(length_sum(length@, 8) == 20 && kraft_sum(length@, 8) == 64000);
            assert(length@[8] == 7 && (7 as nat) * pow2(7) == 896);
            assert(length_sum(length@, 9) == 27 && kraft_sum(length@, 9) == 64896);
            assert(length@[9] == 5 && (5 as nat) * pow2(6) == 320);
            assert(length_sum(length@, 10) == 32 && kraft_sum(length@, 10) == 65216);
            assert(length@[10] == 4 && (4 as nat) * pow2(5) == 128);
            assert(length_sum(length@, 11) == 36 && kraft_sum(length@, 11) == 65344);
            assert(length@[11] == 4 && (4 as nat) * pow2(4) == 64);
            assert(length_sum(length@, 12) == 40 && kraft_sum(length@, 12) == 65408);
            assert(length@[12] == 0 && (0 as nat) * pow2(3) == 0);
            assert(length_sum(length@, 13) == 40 && kraft_sum(length@, 13) == 65408);
            assert(length@[13] == 1 && (1 as nat) * pow2(2) == 4);
            assert(length_sum(length@, 14) == 41 && kraft_sum(length@, 14) == 65412);
            assert(length@[14] == 2 && (2 as nat) * pow2(1) == 4);
            assert(length_sum(length@, 15) == 43 && kraft_sum(length@, 15) == 65416);
            assert(length@[15] == 119 && (119 as nat) * pow2(0) == 119);
            assert(length_sum(length@, 16) == 162 && kraft_sum(length@, 16) == 65535);
        }
        HuffmanTable::new(&length, values.as_slice())
    }
}


impl HuffmanTable {
    /// A Huffman table built for the given symbol frequencies (Annex K.2):
    /// Huffman code sizes (Figure K.1), counted by size (Figure K.2),
    /// limited to 16 bits (Figure K.3), the symbols ordered by size
    /// (Figure K.4). Index 256 is a reserved symbol, given a frequency so
    /// that no code is made only of ones; its code is dropped. Exactly the
    /// symbols of non-zero frequency get a code.
    pub fn new_optimized(freq: [u32; 257]) -> (r: HuffmanTable)
        requires
            crate::optimal::total(freq@, 257) <= u32::MAX,
            freq@[256] > 0,
            exists|s: int| 0 <= s < 256 && freq@[s] > 0,
            exists|s: int| 0 <= s < 256 && freq@[s] == 0,
        ensures
            r.wf(),
            r.lengths() == crate::optimal::optimized_lengths(freq@),
            r.spec_values() == crate::optimal::optimized_values(freq@),
            forall|s: u8| #[trigger] r.spec_values().contains(s) <==> freq@[s as int] > 0,
            exists|cs: Seq<usize>|
                #![trigger crate::optimal::sized_table(cs, r.lengths(), r.spec_values())]
                {
                    &&& cs.len() == 257
                    &&& forall|s: int| 0 <= s < 257 ==> (#[trigger] cs[s] > 0) == (freq@[s] > 0)
                    &&& crate::optimal::kraft_cs(cs, 257) == pow2(256)
                    &&& crate::optimal::sized_table(cs, r.lengths(), r.spec_values())
                },
    {
        let ghost s0 = choose|s: int| 0 <= s < 256 && freq@[s] > 0;
        let ghost z = choose|s: int| 0 <= s < 256 && freq@[s] == 0;
        let codesize = crate::optimal::code_sizes(freq);
        proof {
            crate::optimal::lemma_used_is_active(codesize@, freq@, 257);
            crate::optimal::lemma_two_active(freq@, s0, 256, 257);
            crate::optimal::lemma_active_below(freq@, z, 257);
        }
        let bits = crate::optimal::count_sizes(&codesize);
        let length = crate::optimal::limit_sizes(bits);
        let values = crate::optimal::sort_symbols(&codesize);
        proof {
            assert(crate::optimal::used_count(codesize@, 257) == crate::optimal::used_count(codesize@, 256) + 1);
        }
        let r = HuffmanTable::new(&length, values.as_slice());
        proof {
            let cs = codesize@;
            if forall|s: int| 0 <= s < 257 ==> #[trigger] cs[s] <= 16 {
                crate::optimal::lemma_short_sizes(cs, bits@);
                let m = choose|m: int|
                    1 <= m <= 16 && bits@[m] > 0 && (forall|l: int| m < l <= 16 ==> bits@[l] == 0) && length@[m - 1]
                        == bits@[m] - 1 && (forall|l: int|
                        1 <= l <= 16 && l != m ==> #[trigger] length@[l - 1] == bits@[l]);
                assert(forall|l: int| 1 <= l <= 16 ==> bits@[l] == crate::optimal::count_eq(cs, 257, l));
            }
            assert(crate::optimal::sized_table(cs, r.lengths(), r.spec_values()));
            assert forall|s: u8| #[trigger] r.spec_values().contains(s) <==> freq@[s as int] > 0 by {
                if r.spec_values().contains(s) {
                    let k = choose|k: int| 0 <= k < values@.len() && values@[k] == s;
                    assert(codesize@[values@[k] as int] > 0);
                }
                if freq@[s as int] > 0 {
                    assert(codesize@[s as int] > 0);
                    assert((s as int) as u8 == s);
                }
            }
        }
        r
    }
}

} // verus!
