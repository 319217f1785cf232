//! RGB to YCbCr conversion of sixteen pixels at a time, in lanes of 32 bit
//! integers that wrap on overflow, rounding to nearest.
use vstd::prelude::*;

use crate::image_buffer::{cb_of, cr_of, luma_of};

verus! {

/// A lane's fixed point value `v` (scaled by 2^16) rounded to an integer:
/// `0x7FFF` added, the sum wrapped to 32 bits, shifted right by 16.
pub open spec fn round_shift(v: int) -> i32 {
    ((v + 0x7FFF) as i32) >> 16
}

/// Y of a lane: `0.299 R + 0.587 G + 0.114 B`.
pub open spec fn lane_y(r: i32, g: i32, b: i32) -> i32 {
    round_shift(19595 * r + 38470 * g + 7471 * b)
}

/// Cb of a lane: `-0.16874 R - 0.33126 G + 0.5 B + 128`.
pub open spec fn lane_cb(r: i32, g: i32, b: i32) -> i32 {
    round_shift(-11059 * r - 21709 * g + 32768 * b + 128 * 65536)
}

/// Cr of a lane: `0.5 R - 0.41869 G - 0.08131 B + 128`.
pub open spec fn lane_cr(r: i32, g: i32, b: i32) -> i32 {
    round_shift(32768 * r - 27439 * g - 5329 * b + 128 * 65536)
}

/// Conversion from RGB to YCbCr of sixteen pixels, lane by lane.
///
/// To avoid floating point math this scales everything by 2^16 which gives
/// a precision of approx 4 digits. Lanes wrap on overflow, as the vector
/// operations do; the results are rounded to nearest.
pub fn rgb_to_ycbcr_simd(r: [i32; 16], g: [i32; 16], b: [i32; 16]) -> (res: ([i32; 16], [i32; 16], [i32; 16]))
    ensures
        forall|k: int| 0 <= k < 16 ==> #[trigger] res.0@[k] == lane_y(r@[k], g@[k], b@[k]),
        forall|k: int| 0 <= k < 16 ==> #[trigger] res.1@[k] == lane_cb(r@[k], g@[k], b@[k]),
        forall|k: int| 0 <= k < 16 ==> #[trigger] res.2@[k] == lane_cr(r@[k], g@[k], b@[k]),
{
    let mut y = [0i32; 16];
    let mut cb = [0i32; 16];
    let mut cr = [0i32; 16];
    let mut k: usize = 0;
    while k < 16
        invariant
            k <= 16,
            forall|j: int| 0 <= j < k ==> #[trigger] y@[j] == lane_y(r@[j], g@[j], b@[j]),
            forall|j: int| 0 <= j < k ==> #[trigger] cb@[j] == lane_cb(r@[j], g@[j], b@[j]),
            forall|j: int| 0 <= j < k ==> #[trigger] cr@[j] == lane_cr(r@[j], g@[j], b@[j]),
        decreases 16 - k,
    {
        let rv = r[k] as i64;
        let gv = g[k] as i64;
        let bv = b[k] as i64;
        assert(-0x8000_0000 <= rv < 0x8000_0000 && -0x8000_0000 <= gv < 0x8000_0000);
        assert(-0x8000_0000 <= bv < 0x8000_0000);
        assert((128i64 << 16i64) == 8388608) by (bit_vector);
        let offset: i64 = 128 << 16;
        let yv = (19595 * rv + 38470 * gv + 7471 * bv + 0x7FFF) as i32;
        let cbv = (offset - 11059 * rv - 21709 * gv + 32768 * bv + 0x7FFF) as i32;
        let crv = (32768 * rv - 27439 * gv - 5329 * bv + offset + 0x7FFF) as i32;
        y[k] = yv >> 16;
        cb[k] = cbv >> 16;
        cr[k] = crv >> 16;
        k = k + 1;
    }
    (y, cb, cr)
}

/// A value of at least 0 that fits in 31 bits, shifted right by 16, is its
/// quotient by 2^16.
proof fn lemma_shift_16(v: int)
    requires
        0 <= v <= i32::MAX,
    ensures
        (v as i32) >> 16 == v / 65536,
{
    let x = v as i32;
    assert(x == v);
    assert(0 <= x ==> x >> 16i32 == x / 65536) by (bit_vector);
}

/// Law: for pixel values of 0 to 255 no lane wraps, and each of Y, Cb and Cr
/// is the scalar conversion's result (which rounds down) or one more.
pub proof fn lemma_simd_rounds(r: u8, g: u8, b: u8)
    ensures
        lane_y(r as i32, g as i32, b as i32) == (19595 * r + 38470 * g + 7471 * b + 0x7FFF) / 65536,
        lane_cb(r as i32, g as i32, b as i32) == (-11059 * r - 21709 * g + 32768 * b + 128 * 65536 + 0x7FFF)
            / 65536,
        lane_cr(r as i32, g as i32, b as i32) == (32768 * r - 27439 * g - 5329 * b + 128 * 65536 + 0x7FFF)
            / 65536,
        luma_of(r, g, b) <= lane_y(r as i32, g as i32, b as i32) <= luma_of(r, g, b) + 1,
        cb_of(r, g, b) <= lane_cb(r as i32, g as i32, b as i32) <= cb_of(r, g, b) + 1,
        cr_of(r, g, b) <= lane_cr(r as i32, g as i32, b as i32) <= cr_of(r, g, b) + 1,
{
    let y = 19595 * r + 38470 * g + 7471 * b;
    let cb = -11059 * r - 21709 * g + 32768 * b + 128 * 65536;
    let cr = 32768 * r - 27439 * g - 5329 * b + 128 * 65536;
    lemma_shift_16(y + 0x7FFF);
    lemma_shift_16(cb + 0x7FFF);
    lemma_shift_16(cr + 0x7FFF);
    assert(y / 65536 <= (y + 0x7FFF) / 65536 <= y / 65536 + 1) by (nonlinear_arith)
        requires
            0 <= y,
    ;
    assert(cb / 65536 <= (cb + 0x7FFF) / 65536 <= cb / 65536 + 1) by (nonlinear_arith)
        requires
            0 <= cb,
    ;
    assert(cr / 65536 <= (cr + 0x7FFF) / 65536 <= cr / 65536 + 1) by (nonlinear_arith)
        requires
            0 <= cr,
    ;
}

/// Sixteen values of a slice, `stride` apart, starting at `offset`.
pub fn load(values: &[u8], offset: usize, stride: usize) -> (r: [i32; 16])
    requires
        values.len() >= offset + 15 * stride + 1,
    ensures
        forall|k: int| 0 <= k < 16 ==> #[trigger] r@[k] == values@[offset + k * stride] as i32,
{
    let mut r = [0i32; 16];
    let mut k: usize = 0;
    while k < 16
        invariant
            k <= 16,
            values.len() >= offset + 15 * stride + 1,
            forall|j: int| 0 <= j < k ==> #[trigger] r@[j] == values@[offset + j * stride] as i32,
        decreases 16 - k,
    {
        assert(k * stride <= 15 * stride) by (nonlinear_arith)
            requires
                k < 16,
        ;
        r[k] = values[offset + k * stride] as i32;
        k = k + 1;
    }
    r
}

/// Eight values of a slice, `STRIDE` apart, starting at its first.
pub fn load_channel<const STRIDE: usize>(values: &[u8]) -> (r: [i32; 8])
    requires
        values.len() >= 7 * STRIDE + 1,
    ensures
        forall|k: int| 0 <= k < 8 ==> #[trigger] r@[k] == values@[k * STRIDE] as i32,
{
    let mut r = [0i32; 8];
    let mut k: usize = 0;
    while k < 8
        invariant
            k <= 8,
            values.len() >= 7 * STRIDE + 1,
            forall|j: int| 0 <= j < k ==> #[trigger] r@[j] == values@[j * STRIDE] as i32,
        decreases 8 - k,
    {
        assert(k * STRIDE <= 7 * STRIDE) by (nonlinear_arith)
            requires
                k < 8,
        ;
        r[k] = values[k * STRIDE] as i32;
        k = k + 1;
    }
    r
}

/// Append the low bytes of sixteen lanes.
pub fn push(buffer: &mut Vec<u8>, values: [i32; 16])
    ensures
        final(buffer)@ == old(buffer)@ + Seq::new(16, |k: int| values@[k] as u8),
{
    let ghost start = buffer@;
    let mut k: usize = 0;
    while k < 16
        invariant
            k <= 16,
            buffer@ == start + Seq::new(k as nat, |j: int| values@[j] as u8),
        decreases 16 - k,
    {
        buffer.push(values[k] as u8);
        k = k + 1;
        assert(buffer@ =~= start + Seq::new(k as nat, |j: int| values@[j] as u8));
    }
}

} // verus!
