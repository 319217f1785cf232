//! Forward discrete cosine transform of an 8x8 block in scaled integer
//! arithmetic (the "islow" method of the Independent JPEG Group, after
//! Loeffler, Ligtenberg and Moschytz).
//!
//! Each one-dimensional pass is an integer matrix applied to eight values and
//! divided by a power of two rounding down; the rows of the matrix are the
//! DCT basis functions scaled by 2^13 * sqrt(2), as the algorithm's twelve
//! multiplications and thirty-two additions combine them.
use vstd::prelude::*;

verus! {

const CONST_BITS: i32 = 13;
const PASS1_BITS: i32 = 2;

const FIX_0_298631336: i32 = 2446;
const FIX_0_390180644: i32 = 3196;
const FIX_0_541196100: i32 = 4433;
const FIX_0_765366865: i32 = 6270;
const FIX_0_899976223: i32 = 7373;
const FIX_1_175875602: i32 = 9633;
const FIX_1_501321110: i32 = 12299;
const FIX_1_847759065: i32 = 15137;
const FIX_1_961570560: i32 = 16069;
const FIX_2_053119869: i32 = 16819;
const FIX_2_562915447: i32 = 20995;
const FIX_3_072711026: i32 = 25172;

const DCT_SIZE: usize = 8;

/// Row `u` of the integer transform matrix.
pub open spec fn dct_row(u: int) -> Seq<int> {
    if u == 0 {
        seq![8192, 8192, 8192, 8192, 8192, 8192, 8192, 8192]
    } else if u == 1 {
        seq![11363, 9633, 6437, 2260, -2260, -6437, -9633, -11363]
    } else if u == 2 {
        seq![10703, 4433, -4433, -10703, -10703, -4433, 4433, 10703]
    } else if u == 3 {
        seq![9633, -2259, -11362, -6436, 6436, 11362, 2259, -9633]
    } else if u == 4 {
        seq![8192, -8192, -8192, 8192, 8192, -8192, -8192, 8192]
    } else if u == 5 {
        seq![6437, -11362, 2261, 9633, -9633, -2261, 11362, -6437]
    } else if u == 6 {
        seq![4433, -10704, 10704, -4433, -4433, 10704, -10704, 4433]
    } else if u == 7 {
        seq![2260, -6436, 9633, -11363, 11363, -9633, 6436, -2260]
    } else {
        seq![0, 0, 0, 0, 0, 0, 0, 0]
    }
}

/// Row `u` of the matrix applied to `v[0..8]`.
pub open spec fn dct_dot(u: int, v: Seq<int>) -> int {
    let c = dct_row(u);
    c[0] * v[0] + c[1] * v[1] + c[2] * v[2] + c[3] * v[3] + c[4] * v[4] + c[5] * v[5] + c[6] * v[6]
        + c[7] * v[7]
}

/// Row `y` of a block.
pub open spec fn block_row(data: Seq<int>, y: int) -> Seq<int> {
    Seq::new(8, |x: int| data[8 * y + x])
}

/// Column `x` of a block.
pub open spec fn block_col(data: Seq<int>, x: int) -> Seq<int> {
    Seq::new(8, |y: int| data[8 * y + x])
}

/// The first pass: every row transformed, scaled down by 2^11.
pub open spec fn fdct_rows(data: Seq<int>) -> Seq<int> {
    Seq::new(64, |i: int| dct_dot(i % 8, block_row(data, i / 8)) / 2048)
}

/// The transform of a block: the rows transformed and scaled down by 2^11,
/// then the columns transformed and scaled down by 2^15. The result is the
/// two-dimensional DCT scaled up by 8.
pub open spec fn fdct_spec(data: Seq<int>) -> Seq<int> {
    let r = fdct_rows(data);
    Seq::new(64, |i: int| dct_dot(i / 8, block_col(r, i % 8)) / 32768)
}

/// Samples that the transform takes: at most 511 in magnitude.
pub open spec fn fdct_input(data: Seq<i16>) -> bool {
    forall|i: int| 0 <= i < 64 ==> -511 <= #[trigger] data[i] <= 511
}

/// Values of a block as integers.
pub open spec fn as_ints(data: Seq<i16>) -> Seq<int> {
    Seq::new(data.len(), |i: int| data[i] as int)
}

#[inline(always)]
fn descale(x: i32, n: i32) -> (r: i32)
    requires
        n == 2 || n == 11 || n == 15,
    ensures
        n == 2 ==> r == x / 4,
        n == 11 ==> r == x / 2048,
        n == 15 ==> r == x / 32768,
{
    if n == 2 {
        assert(x >> 2i32 == x / 4) by (bit_vector);
    } else if n == 11 {
        assert(x >> 11i32 == x / 2048) by (bit_vector);
    } else {
        assert(x >> 15i32 == x / 32768) by (bit_vector);
    }
    x >> n
}

#[inline(always)]
fn into_el(v: i32) -> (r: i16)
    requires
        i16::MIN <= v <= i16::MAX,
    ensures
        r == v,
{
    v as i16
}

/// A row of the matrix applied to values of at most `b` in magnitude is at
/// most `65536 * b` in magnitude: the magnitudes of each row sum to at most
/// 65536.
proof fn lemma_dot_bound(v: Seq<int>, u: int, b: int)
    requires
        v.len() == 8,
        0 <= u < 8,
        0 <= b,
        forall|i: int| 0 <= i < 8 ==> -b <= #[trigger] v[i] <= b,
    ensures
        -65536 * b <= dct_dot(u, v) <= 65536 * b,
{
    assert(-b <= v[0] <= b && -b <= v[1] <= b && -b <= v[2] <= b && -b <= v[3] <= b);
    assert(-b <= v[4] <= b && -b <= v[5] <= b && -b <= v[6] <= b && -b <= v[7] <= b);
    let c = dct_row(u);
    if u == 0 {
        assert(c == seq![8192int, 8192, 8192, 8192, 8192, 8192, 8192, 8192]);
    } else if u == 1 {
        assert(c == seq![11363int, 9633, 6437, 2260, -2260, -6437, -9633, -11363]);
    } else if u == 2 {
        assert(c == seq![10703int, 4433, -4433, -10703, -10703, -4433, 4433, 10703]);
    } else if u == 3 {
        assert(c == seq![9633int, -2259, -11362, -6436, 6436, 11362, 2259, -9633]);
    } else if u == 4 {
        assert(c == seq![8192int, -8192, -8192, 8192, 8192, -8192, -8192, 8192]);
    } else if u == 5 {
        assert(c == seq![6437int, -11362, 2261, 9633, -9633, -2261, 11362, -6437]);
    } else if u == 6 {
        assert(c == seq![4433int, -10704, 10704, -4433, -4433, 10704, -10704, 4433]);
    } else {
        assert(c == seq![2260int, -6436, 9633, -11363, 11363, -9633, 6436, -2260]);
    }
}

/// Bound of the second pass's results for first-pass values of at most
/// 16352.
proof fn lemma_col_bound(v: Seq<int>, u: int)
    requires
        v.len() == 8,
        0 <= u < 8,
        forall|i: int| 0 <= i < 8 ==> -16352 <= #[trigger] v[i] <= 16352,
    ensures
        -32768 <= dct_dot(u, v) / 32768 < 32768,
{
    lemma_dot_bound(v, u, 16352);
}

/// Bound of the first pass's results for samples of at most 511.
proof fn lemma_row_bound(v: Seq<int>, u: int)
    requires
        v.len() == 8,
        0 <= u < 8,
        forall|i: int| 0 <= i < 8 ==> -511 <= #[trigger] v[i] <= 511,
    ensures
        -16352 <= dct_dot(u, v) / 2048 <= 16352,
{
    lemma_dot_bound(v, u, 511);
}

/// The one-dimensional transform of eight values, before scaling: outputs 0
/// and 4 are the matrix rows divided by 2^13, the others the matrix rows.
#[allow(clippy::identity_op)]
fn dct_1d(v: [i32; 8]) -> (r: [i32; 8])
    requires
        forall|i: int| 0 <= i < 8 ==> -16352 <= #[trigger] v@[i] <= 16352,
    ensures
        r@[0] * 8192 == dct_dot(0, as_ints32(v@)),
        r@[4] * 8192 == dct_dot(4, as_ints32(v@)),
        r@[1] == dct_dot(1, as_ints32(v@)),
        r@[2] == dct_dot(2, as_ints32(v@)),
        r@[3] == dct_dot(3, as_ints32(v@)),
        r@[5] == dct_dot(5, as_ints32(v@)),
        r@[6] == dct_dot(6, as_ints32(v@)),
        r@[7] == dct_dot(7, as_ints32(v@)),
{
    let ghost w = as_ints32(v@);
    assert(w[0] == v[0] && w[1] == v[1] && w[2] == v[2] && w[3] == v[3]);
    assert(w[4] == v[4] && w[5] == v[5] && w[6] == v[6] && w[7] == v[7]);
    let tmp0 = v[0] + v[7];
    let tmp7 = v[0] - v[7];
    let tmp1 = v[1] + v[6];
    let tmp6 = v[1] - v[6];
    let tmp2 = v[2] + v[5];
    let tmp5 = v[2] - v[5];
    let tmp3 = v[3] + v[4];
    let tmp4 = v[3] - v[4];

    /* Even part per LL&M figure 1 --- note that published figure is faulty;
     * rotator "sqrt(2)*c1" should be "sqrt(2)*c6".
     */

    let tmp10 = tmp0 + tmp3;
    let tmp13 = tmp0 - tmp3;
    let tmp11 = tmp1 + tmp2;
    let tmp12 = tmp1 - tmp2;
    assert(-65408 <= tmp12 <= 65408 && -65408 <= tmp13 <= 65408);
    assert(-990580096 <= tmp12 * -15137 <= 990580096);

    let out0 = tmp10 + tmp11;
    let out4 = tmp10 - tmp11;

    let z1 = (tmp12 + tmp13) * FIX_0_541196100;
    let out2 = z1 + tmp13 * FIX_0_765366865;
    let out6 = z1 + tmp12 * -FIX_1_847759065;

    /* Odd part per figure 8 --- note paper omits factor of sqrt(2).
     * cK represents cos(K*pi/16).
     * i0..i3 in the paper are tmp4..tmp7 here.
     */

    let z1 = tmp4 + tmp7;
    let z2 = tmp5 + tmp6;
    let z3 = tmp4 + tmp6;
    let z4 = tmp5 + tmp7;
    assert(-32704 <= tmp4 <= 32704 && -32704 <= tmp5 <= 32704);
    assert(-32704 <= tmp6 <= 32704 && -32704 <= tmp7 <= 32704);
    assert(-65408 <= z1 <= 65408 && -65408 <= z2 <= 65408);
    assert(-65408 <= z3 <= 65408 && -65408 <= z4 <= 65408);
    assert(-65408 * 7373 <= z1 * -7373 <= 65408 * 7373);
    assert(-65408 * 20995 <= z2 * -20995 <= 65408 * 20995);
    assert(-65408 * 16069 <= z3 * -16069 <= 65408 * 16069);
    assert(-65408 * 3196 <= z4 * -3196 <= 65408 * 3196);
    let z5 = (z3 + z4) * FIX_1_175875602; /* sqrt(2) * c3 */

    let tmp4 = tmp4 * FIX_0_298631336; /* sqrt(2) * (-c1+c3+c5-c7) */
    let tmp5 = tmp5 * FIX_2_053119869; /* sqrt(2) * ( c1+c3-c5+c7) */
    let tmp6 = tmp6 * FIX_3_072711026; /* sqrt(2) * ( c1+c3+c5-c7) */
    let tmp7 = tmp7 * FIX_1_501321110; /* sqrt(2) * ( c1+c3-c5-c7) */
    let z1 = z1 * -FIX_0_899976223; /* sqrt(2) * ( c7-c3) */
    let z2 = z2 * -FIX_2_562915447; /* sqrt(2) * (-c1-c3) */
    let z3 = z3 * -FIX_1_961570560; /* sqrt(2) * (-c3-c5) */
    let z4 = z4 * -FIX_0_390180644; /* sqrt(2) * ( c5-c3) */

    let z3 = z3 + z5;
    let z4 = z4 + z5;

    let out7 = tmp4 + z1 + z3;
    let out5 = tmp5 + z2 + z4;
    let out3 = tmp6 + z2 + z3;
    let out1 = tmp7 + z1 + z4;
    assert(dct_row(0) =~= seq![8192, 8192, 8192, 8192, 8192, 8192, 8192, 8192]);
    assert(dct_dot(0, w) == 8192 * w[0] + 8192 * w[1] + 8192 * w[2] + 8192 * w[3] + 8192 * w[4] + 8192 * w[5] + 8192 * w[6] + 8192 * w[7]);
    assert(out0 * 8192 == 8192 * v[0] + 8192 * v[1] + 8192 * v[2] + 8192 * v[3] + 8192 * v[4] + 8192 * v[5] + 8192 * v[6] + 8192 * v[7]);
    assert(dct_row(1) =~= seq![11363, 9633, 6437, 2260, -2260, -6437, -9633, -11363]);
    assert(dct_dot(1, w) == 11363 * w[0] + 9633 * w[1] + 6437 * w[2] + 2260 * w[3] + -2260 * w[4] + -6437 * w[5] + -9633 * w[6] + -11363 * w[7]);
    assert(out1 == 11363 * v[0] + 9633 * v[1] + 6437 * v[2] + 2260 * v[3] + -2260 * v[4] + -6437 * v[5] + -9633 * v[6] + -11363 * v[7]);
    assert(dct_row(2) =~= seq![10703, 4433, -4433, -10703, -10703, -4433, 4433, 10703]);
    assert(dct_dot(2, w) == 10703 * w[0] + 4433 * w[1] + -4433 * w[2] + -10703 * w[3] + -10703 * w[4] + -4433 * w[5] + 4433 * w[6] + 10703 * w[7]);
    assert(out2 == 10703 * v[0] + 4433 * v[1] + -4433 * v[2] + -10703 * v[3] + -10703 * v[4] + -4433 * v[5] + 4433 * v[6] + 10703 * v[7]);
    assert(dct_row(3) =~= seq![9633, -2259, -11362, -6436, 6436, 11362, 2259, -9633]);
    assert(dct_dot(3, w) == 9633 * w[0] + -2259 * w[1] + -11362 * w[2] + -6436 * w[3] + 6436 * w[4] + 11362 * w[5] + 2259 * w[6] + -9633 * w[7]);
    assert(out3 == 9633 * v[0] + -2259 * v[1] + -11362 * v[2] + -6436 * v[3] + 6436 * v[4] + 11362 * v[5] + 2259 * v[6] + -9633 * v[7]);
    assert(dct_row(4) =~= seq![8192, -8192, -8192, 8192, 8192, -8192, -8192, 8192]);
    assert(dct_dot(4, w) == 8192 * w[0] + -8192 * w[1] + -8192 * w[2] + 8192 * w[3] + 8192 * w[4] + -8192 * w[5] + -8192 * w[6] + 8192 * w[7]);
    assert(out4 * 8192 == 8192 * v[0] + -8192 * v[1] + -8192 * v[2] + 8192 * v[3] + 8192 * v[4] + -8192 * v[5] + -8192 * v[6] + 8192 * v[7]);
    assert(dct_row(5) =~= seq![6437, -11362, 2261, 9633, -9633, -2261, 11362, -6437]);
    assert(dct_dot(5, w) == 6437 * w[0] + -11362 * w[1] + 2261 * w[2] + 9633 * w[3] + -9633 * w[4] + -2261 * w[5] + 11362 * w[6] + -6437 * w[7]);
    assert(out5 == 6437 * v[0] + -11362 * v[1] + 2261 * v[2] + 9633 * v[3] + -9633 * v[4] + -2261 * v[5] + 11362 * v[6] + -6437 * v[7]);
    assert(dct_row(6) =~= seq![4433, -10704, 10704, -4433, -4433, 10704, -10704, 4433]);
    assert(dct_dot(6, w) == 4433 * w[0] + -10704 * w[1] + 10704 * w[2] + -4433 * w[3] + -4433 * w[4] + 10704 * w[5] + -10704 * w[6] + 4433 * w[7]);
    assert(out6 == 4433 * v[0] + -10704 * v[1] + 10704 * v[2] + -4433 * v[3] + -4433 * v[4] + 10704 * v[5] + -10704 * v[6] + 4433 * v[7]);
    assert(dct_row(7) =~= seq![2260, -6436, 9633, -11363, 11363, -9633, 6436, -2260]);
    assert(dct_dot(7, w) == 2260 * w[0] + -6436 * w[1] + 9633 * w[2] + -11363 * w[3] + 11363 * w[4] + -9633 * w[5] + 6436 * w[6] + -2260 * w[7]);
    assert(out7 == 2260 * v[0] + -6436 * v[1] + 9633 * v[2] + -11363 * v[3] + 11363 * v[4] + -9633 * v[5] + 6436 * v[6] + -2260 * v[7]);
    [out0, out1, out2, out3, out4, out5, out6, out7]
}

/// Values of eight 32 bit integers as integers.
pub open spec fn as_ints32(v: Seq<i32>) -> Seq<int> {
    Seq::new(v.len(), |i: int| v[i] as int)
}

proof fn lemma_dot_ext(u: int, a: Seq<int>, b: Seq<int>)
    requires
        a.len() == 8,
        b.len() == 8,
        forall|i: int| 0 <= i < 8 ==> #[trigger] a[i] == b[i],
    ensures
        dct_dot(u, a) == dct_dot(u, b),
{
    assert(a =~= b);
}

proof fn lemma_index(i: int)
    requires
        0 <= i < 64,
    ensures
        i == 8 * (i / 8) + i % 8,
        0 <= i / 8 < 8,
        0 <= i % 8 < 8,
{
}

proof fn lemma_index_of(y: int, x: int)
    requires
        0 <= y < 8,
        0 <= x < 8,
    ensures
        (8 * y + x) / 8 == y,
        (8 * y + x) % 8 == x,
{
    vstd::arithmetic::div_mod::lemma_fundamental_div_mod_converse(8 * y + x, 8, y, x);
}

/// The first pass: the rows of the block transformed in place.
#[verifier::rlimit(60)]
fn fdct_pass_rows(data: &mut [i16; 64])
    requires
        fdct_input(old(data)@),
    ensures
        forall|i: int| 0 <= i < 64 ==> #[trigger] final(data)@[i] as int == fdct_rows(as_ints(old(data)@))[i],
{
    let ghost input = as_ints(data@);
    /* Pass 1: process rows. */
    /* Note results are scaled up by sqrt(8) compared to a true DCT; */
    /* furthermore, we scale the results by 2**PASS1_BITS. */
    let mut y: usize = 0;
    while y < 8
        invariant
            y <= 8,
            input == as_ints(old(data)@),
            fdct_input(old(data)@),
            forall|i: int| 8 * y <= i < 64 ==> #[trigger] data@[i] == old(data)@[i],
            forall|i: int| 0 <= i < 8 * y ==> #[trigger] data@[i] as int == fdct_rows(input)[i],
        decreases 8 - y,
    {
        let offset = y * 8;
        let v: [i32; 8] = [
            data[offset + 0] as i32,
            data[offset + 1] as i32,
            data[offset + 2] as i32,
            data[offset + 3] as i32,
            data[offset + 4] as i32,
            data[offset + 5] as i32,
            data[offset + 6] as i32,
            data[offset + 7] as i32,
        ];
        proof {
            assert forall|x: int| 0 <= x < 8 implies #[trigger] as_ints32(v@)[x] == block_row(
                input,
                y as int,
            )[x] && -511 <= v@[x] <= 511 by {
                assert(data@[offset + x] == old(data)@[offset + x]);
            }
            assert forall|u: int| 0 <= u < 8 implies -16352 <= #[trigger] (dct_dot(
                u,
                block_row(input, y as int),
            ) / 2048) <= 16352 by {
                lemma_row_bound(block_row(input, y as int), u);
            }
            assert forall|u: int| 0 <= u < 8 implies #[trigger] dct_dot(u, as_ints32(v@)) == dct_dot(
                u,
                block_row(input, y as int),
            ) by {
                lemma_dot_ext(u, as_ints32(v@), block_row(input, y as int));
            }
        }
        let r = dct_1d(v);
        let r0 = r[0];
        let r4 = r[4];
        assert(r0 << 2i32 == r0 * 4) by (bit_vector)
            requires
                -65536 <= r0 <= 65536,
        ;
        assert(r4 << 2i32 == r4 * 4) by (bit_vector)
            requires
                -65536 <= r4 <= 65536,
        ;
        data[offset + 0] = into_el(r0 << PASS1_BITS);
        data[offset + 4] = into_el(r4 << PASS1_BITS);
        data[offset + 2] = into_el(descale(r[2], CONST_BITS - PASS1_BITS));
        data[offset + 6] = into_el(descale(r[6], CONST_BITS - PASS1_BITS));
        data[offset + 7] = into_el(descale(r[7], CONST_BITS - PASS1_BITS));
        data[offset + 5] = into_el(descale(r[5], CONST_BITS - PASS1_BITS));
        data[offset + 3] = into_el(descale(r[3], CONST_BITS - PASS1_BITS));
        data[offset + 1] = into_el(descale(r[1], CONST_BITS - PASS1_BITS));
        proof {
            assert forall|i: int| 0 <= i < 8 * (y + 1) implies #[trigger] data@[i] as int == fdct_rows(
                input,
            )[i] by {
                if i >= 8 * y {
                    lemma_index_of(y as int, i - 8 * y);
                }
            }
        }
        y = y + 1;
    }
}

/// Column `x` of a block as integers.
pub open spec fn column_of(data: Seq<i16>, x: int) -> Seq<int> {
    Seq::new(8, |yy: int| data[8 * yy + x] as int)
}

/// The transform of column `x` in place.
#[verifier::rlimit(40)]
fn fdct_column(data: &mut [i16; 64], x: usize)
    requires
        x < 8,
        forall|yy: int| 0 <= yy < 8 ==> -16352 <= #[trigger] old(data)@[8 * yy + x] <= 16352,
    ensures
        forall|u: int| 0 <= u < 8 ==> #[trigger] final(data)@[8 * u + x] as int == dct_dot(u, column_of(old(data)@, x as int)) / 32768,
        forall|i: int| 0 <= i < 64 && i % 8 != x ==> #[trigger] final(data)@[i] == old(data)@[i],
{
    let v: [i32; 8] = [
        data[DCT_SIZE * 0 + x] as i32,
        data[DCT_SIZE * 1 + x] as i32,
        data[DCT_SIZE * 2 + x] as i32,
        data[DCT_SIZE * 3 + x] as i32,
        data[DCT_SIZE * 4 + x] as i32,
        data[DCT_SIZE * 5 + x] as i32,
        data[DCT_SIZE * 6 + x] as i32,
        data[DCT_SIZE * 7 + x] as i32,
    ];
    let ghost col = column_of(data@, x as int);
    proof {
        assert forall|yy: int| 0 <= yy < 8 implies #[trigger] as_ints32(v@)[yy] == col[yy] && -16352
            <= col[yy] <= 16352 by {}
        assert forall|u: int| 0 <= u < 8 implies #[trigger] dct_dot(u, as_ints32(v@)) == dct_dot(u, col) by {
            lemma_dot_ext(u, as_ints32(v@), col);
        }
        assert forall|u: int| 0 <= u < 8 implies -32768 <= #[trigger] (dct_dot(u, col) / 32768) < 32768 by {
            lemma_col_bound(col, u);
        }
    }
    let c = dct_1d(v);
    proof {
        let c0 = c@[0] as int;
        let c4 = c@[4] as int;
        assert((c0 * 8192) / 32768 == c0 / 4) by (nonlinear_arith);
        assert((c4 * 8192) / 32768 == c4 / 4) by (nonlinear_arith);
    }
    data[DCT_SIZE * 0 + x] = into_el(descale(c[0], PASS1_BITS));
    data[DCT_SIZE * 4 + x] = into_el(descale(c[4], PASS1_BITS));
    data[DCT_SIZE * 2 + x] = into_el(descale(c[2], CONST_BITS + PASS1_BITS));
    data[DCT_SIZE * 6 + x] = into_el(descale(c[6], CONST_BITS + PASS1_BITS));
    data[DCT_SIZE * 7 + x] = into_el(descale(c[7], CONST_BITS + PASS1_BITS));
    data[DCT_SIZE * 5 + x] = into_el(descale(c[5], CONST_BITS + PASS1_BITS));
    data[DCT_SIZE * 3 + x] = into_el(descale(c[3], CONST_BITS + PASS1_BITS));
    data[DCT_SIZE * 1 + x] = into_el(descale(c[1], CONST_BITS + PASS1_BITS));
    proof {
        assert forall|i: int| 0 <= i < 64 && i % 8 != x implies #[trigger] data@[i] == old(data)@[i] by {
            lemma_index(i);
        }
    }
}

/// The second pass: the columns of the block, which holds the first pass's
/// results, transformed in place.
#[verifier::rlimit(60)]
fn fdct_pass_columns(data: &mut [i16; 64], Ghost(input): Ghost<Seq<int>>)
    requires
        forall|i: int| 0 <= i < 64 ==> #[trigger] old(data)@[i] as int == fdct_rows(input)[i],
        forall|i: int| 0 <= i < 64 ==> -16352 <= #[trigger] fdct_rows(input)[i] <= 16352,
    ensures
        forall|i: int| 0 <= i < 64 ==> #[trigger] final(data)@[i] as int == fdct_spec(input)[i],
{
    let ghost r = fdct_rows(input);
    let mut x: usize = 0;
    while x < 8
        invariant
            x <= 8,
            r == fdct_rows(input),
            forall|i: int| 0 <= i < 64 && i % 8 >= x ==> #[trigger] data@[i] as int == r[i],
            forall|i: int| 0 <= i < 64 ==> -16352 <= #[trigger] r[i] <= 16352,
            forall|i: int| 0 <= i < 64 && i % 8 < x ==> #[trigger] data@[i] as int == fdct_spec(input)[i],
        decreases 8 - x,
    {
        proof {
            assert forall|yy: int| 0 <= yy < 8 implies -16352 <= #[trigger] data@[8 * yy + x] <= 16352
                && data@[8 * yy + x] as int == block_col(r, x as int)[yy] by {
                lemma_index_of(yy, x as int);
            }
            assert(column_of(data@, x as int) =~= block_col(r, x as int));
        }
        fdct_column(data, x);
        proof {
            assert forall|i: int| 0 <= i < 64 && i % 8 < x + 1 implies #[trigger] data@[i] as int
                == fdct_spec(input)[i] by {
                lemma_index(i);
                if i % 8 == x {
                    assert(data@[8 * (i / 8) + x] as int == dct_dot(i / 8, block_col(r, x as int)) / 32768);
                }
            }
            assert forall|i: int| 0 <= i < 64 && i % 8 >= x + 1 implies #[trigger] data@[i] as int == r[i] by {}
        }
        x = x + 1;
    }
}

/// A row of the matrix applied to values from `lo` to `hi` (`lo <= 0 <=
/// hi`): the first row sums them, scaled by 8192; each other row has
/// positive and negative entries of at most 32768 in sum each.
proof fn lemma_dot_range(v: Seq<int>, u: int, lo: int, hi: int)
    requires
        v.len() == 8,
        0 <= u < 8,
        lo <= 0 <= hi,
        forall|i: int| 0 <= i < 8 ==> lo <= #[trigger] v[i] <= hi,
    ensures
        u == 0 ==> 65536 * lo <= dct_dot(u, v) <= 65536 * hi,
        u != 0 ==> -32768 * (hi - lo) <= dct_dot(u, v) <= 32768 * (hi - lo),
{
    assert(lo <= v[0] <= hi && lo <= v[1] <= hi && lo <= v[2] <= hi && lo <= v[3] <= hi);
    assert(lo <= v[4] <= hi && lo <= v[5] <= hi && lo <= v[6] <= hi && lo <= v[7] <= hi);
    let c = dct_row(u);
    if u == 0 {
        assert(c == seq![8192int, 8192, 8192, 8192, 8192, 8192, 8192, 8192]);
    } else if u == 1 {
        assert(c == seq![11363int, 9633, 6437, 2260, -2260, -6437, -9633, -11363]);
    } else if u == 2 {
        assert(c == seq![10703int, 4433, -4433, -10703, -10703, -4433, 4433, 10703]);
    } else if u == 3 {
        assert(c == seq![9633int, -2259, -11362, -6436, 6436, 11362, 2259, -9633]);
    } else if u == 4 {
        assert(c == seq![8192int, -8192, -8192, 8192, 8192, -8192, -8192, 8192]);
    } else if u == 5 {
        assert(c == seq![6437int, -11362, 2261, 9633, -9633, -2261, 11362, -6437]);
    } else if u == 6 {
        assert(c == seq![4433int, -10704, 10704, -4433, -4433, 10704, -10704, 4433]);
    } else {
        assert(c == seq![2260int, -6436, 9633, -11363, 11363, -9633, 6436, -2260]);
    }
}

/// Transform of level-shifted 8-bit samples (-128 to 127): every
/// coefficient is from -8192 to 8160.
pub proof fn lemma_fdct_bound_samples(input: Seq<int>)
    requires
        input.len() == 64,
        forall|i: int| 0 <= i < 64 ==> -128 <= #[trigger] input[i] <= 127,
    ensures
        forall|i: int| 0 <= i < 64 ==> -8192 <= #[trigger] fdct_spec(input)[i] <= 8160,
{
    let r = fdct_rows(input);
    assert forall|i: int| 0 <= i < 64 implies (i % 8 == 0 ==> -4096 <= #[trigger] r[i] <= 4064) && (i % 8 != 0
        ==> -4080 <= r[i] <= 4080) by {
        lemma_index(i);
        assert forall|x: int| 0 <= x < 8 implies -128 <= #[trigger] block_row(input, i / 8)[x] <= 127 by {
            lemma_index_of(i / 8, x);
        }
        lemma_dot_range(block_row(input, i / 8), i % 8, -128, 127);
    }
    assert forall|i: int| 0 <= i < 64 implies -8192 <= #[trigger] fdct_spec(input)[i] <= 8160 by {
        lemma_index(i);
        let col = block_col(r, i % 8);
        assert forall|y: int| 0 <= y < 8 implies (i % 8 == 0 ==> -4096 <= #[trigger] col[y] <= 4064) && (i % 8
            != 0 ==> -4080 <= col[y] <= 4080) by {
            lemma_index_of(y, i % 8);
        }
        if i % 8 == 0 {
            lemma_dot_range(col, i / 8, -4096, 4064);
        } else {
            lemma_dot_range(col, i / 8, -4080, 4080);
        }
    }
}

/// Forward DCT of a block in place, in natural (row-major) order.
pub fn fdct(data: &mut [i16; 64])
    requires
        fdct_input(old(data)@),
    ensures
        forall|i: int| 0 <= i < 64 ==> #[trigger] final(data)@[i] as int == fdct_spec(as_ints(old(data)@))[i],
{
    /* Pass 1: process rows. */
    /* Note results are scaled up by sqrt(8) compared to a true DCT; */
    /* furthermore, we scale the results by 2**PASS1_BITS. */
    let ghost input = as_ints(data@);
    fdct_pass_rows(data);
    proof {
        let r = fdct_rows(input);
        assert forall|i: int| 0 <= i < 64 implies -16352 <= #[trigger] r[i] <= 16352 by {
            lemma_index(i);
            assert forall|x: int| 0 <= x < 8 implies -511 <= #[trigger] block_row(input, i / 8)[x] <= 511 by {
                assert(block_row(input, i / 8)[x] == old(data)@[8 * (i / 8) + x]);
            }
            lemma_row_bound(block_row(input, i / 8), i % 8);
        }
    }
    /* Pass 2: process columns.
     * We remove the PASS1_BITS scaling, but leave the results scaled up
     * by an overall factor of 8.
     */
    fdct_pass_columns(data, Ghost(input));
}

} // verus!
