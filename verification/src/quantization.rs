//! Quantization tables and the quantization of DCT coefficients.
use vstd::prelude::*;

verus! {

/// The luminance table of ITU T.81 Table K.1.
pub open spec fn default_luma_table() -> Seq<u8> {
    seq![
        16u8, 11, 10, 16, 24, 40, 51, 61,
        12, 12, 14, 19, 26, 58, 60, 55,
        14, 13, 16, 24, 40, 57, 69, 56,
        14, 17, 22, 29, 51, 87, 80, 62,
        18, 22, 37, 56, 68, 109, 103, 77,
        24, 35, 55, 64, 81, 104, 113, 92,
        49, 64, 78, 87, 103, 121, 120, 101,
        72, 92, 95, 98, 112, 100, 103, 99,
    ]
}

/// The chrominance table of ITU T.81 Table K.2.
pub open spec fn default_chroma_table() -> Seq<u8> {
    seq![
        17u8, 18, 24, 47, 99, 99, 99, 99,
        18, 21, 26, 66, 99, 99, 99, 99,
        24, 26, 56, 99, 99, 99, 99, 99,
        47, 66, 99, 99, 99, 99, 99, 99,
        99, 99, 99, 99, 99, 99, 99, 99,
        99, 99, 99, 99, 99, 99, 99, 99,
        99, 99, 99, 99, 99, 99, 99, 99,
        99, 99, 99, 99, 99, 99, 99, 99,
    ]
}

/// Quality clamped to 1 to 100.
pub open spec fn clamped_quality(quality: u8) -> nat {
    if quality < 1 {
        1
    } else if quality > 100 {
        100
    } else {
        quality as nat
    }
}

/// Percentage by which a quality scales a base table.
pub open spec fn quality_scale(quality: u8) -> nat {
    let q = clamped_quality(quality);
    if q < 50 {
        5000nat / q
    } else {
        (200 - 2 * q) as nat
    }
}

/// Entry of a base table scaled for a quality, rounded and clamped to 1
/// to 255.
pub open spec fn scaled_entry(v: u8, quality: u8) -> u8 {
    let s = (v * quality_scale(quality) + 50) / 100;
    if s < 1 {
        1
    } else if s > 255 {
        255
    } else {
        s as u8
    }
}

/// Division rounding toward zero, as Rust's `/` on integers does.
pub open spec fn tdiv(a: int, b: int) -> int {
    if a >= 0 {
        a / b
    } else {
        -((-a) / b)
    }
}

/// Quantization of a coefficient scaled by 8: divided by the table entry,
/// then by 8 rounding to nearest, both divisions toward zero.
pub open spec fn quantized(value: int, q: int) -> int {
    tdiv(tdiv(value, q) + 4, 8)
}

/// A quantization table: 64 entries between 1 and 255, in natural order.
pub struct QuantizationTable {
    table: [u8; 64],
}

impl QuantizationTable {
    /// The 64 entries.
    pub closed spec fn entries(&self) -> Seq<u8> {
        self.table@
    }

    /// All entries are at least one.
    pub closed spec fn wf(&self) -> bool {
        forall|i: int| 0 <= i < 64 ==> #[trigger] self.table@[i] >= 1
    }

    /// Facts about a valid table.
    pub proof fn lemma_wf(&self)
        requires
            self.wf(),
        ensures
            self.entries().len() == 64,
            forall|i: int| 0 <= i < 64 ==> #[trigger] self.entries()[i] >= 1,
    {
    }

    /// A base table scaled for a quality between 1 and 100 (lower and higher
    /// values are clamped).
    pub fn new_with_quality(table: [u8; 64], quality: u8) -> (r: QuantizationTable)
        ensures
            r.wf(),
            r.entries() == Seq::new(64, |i: int| scaled_entry(table@[i], quality)),
    {
        let q: u32 = if quality < 1 {
            1
        } else if quality > 100 {
            100
        } else {
            quality as u32
        };
        let scale: u32 = if q < 50 {
            5000 / q
        } else {
            200 - q * 2
        };
        assert(scale == quality_scale(quality));
        assert(scale <= 5000);
        let mut q_table = [1u8; 64];
        let mut i: usize = 0;
        while i < 64
            invariant
                i <= 64,
                scale == quality_scale(quality),
                scale <= 5000,
                q_table@.len() == 64,
                forall|j: int| 0 <= j < i ==> q_table@[j] == scaled_entry(table@[j], quality),
                forall|j: int| 0 <= j < 64 ==> #[trigger] q_table@[j] >= 1,
            decreases 64 - i,
        {
            let v = table[i] as u32;
            assert(v * scale <= 255 * 5000) by (nonlinear_arith)
                requires
                    v <= 255,
                    scale <= 5000,
            ;
            let v = (v * scale + 50) / 100;
            let v: u8 = if v < 1 {
                1
            } else if v > 255 {
                255
            } else {
                v as u8
            };
            q_table[i] = v;
            i = i + 1;
        }
        let r = QuantizationTable { table: q_table };
        assert(r.entries() =~= Seq::new(64, |i: int| scaled_entry(table@[i], quality)));
        r
    }

    /// The default luminance table scaled for a quality.
    pub fn default_luma(quality: u8) -> (r: QuantizationTable)
        ensures
            r.wf(),
            r.entries() == Seq::new(64, |i: int| scaled_entry(default_luma_table()[i], quality)),
    {
        let t: [u8; 64] = [
            16, 11, 10, 16, 24, 40, 51, 61,
            12, 12, 14, 19, 26, 58, 60, 55,
            14, 13, 16, 24, 40, 57, 69, 56,
            14, 17, 22, 29, 51, 87, 80, 62,
            18, 22, 37, 56, 68, 109, 103, 77,
            24, 35, 55, 64, 81, 104, 113, 92,
            49, 64, 78, 87, 103, 121, 120, 101,
            72, 92, 95, 98, 112, 100, 103, 99,
        ];
        assert(t@ =~= default_luma_table());
        Self::new_with_quality(t, quality)
    }

    /// The default chrominance table scaled for a quality.
    pub fn default_chroma(quality: u8) -> (r: QuantizationTable)
        ensures
            r.wf(),
            r.entries() == Seq::new(64, |i: int| scaled_entry(default_chroma_table()[i], quality)),
    {
        let t: [u8; 64] = [
            17, 18, 24, 47, 99, 99, 99, 99,
            18, 21, 26, 66, 99, 99, 99, 99,
            24, 26, 56, 99, 99, 99, 99, 99,
            47, 66, 99, 99, 99, 99, 99, 99,
            99, 99, 99, 99, 99, 99, 99, 99,
            99, 99, 99, 99, 99, 99, 99, 99,
            99, 99, 99, 99, 99, 99, 99, 99,
            99, 99, 99, 99, 99, 99, 99, 99,
        ];
        assert(t@ =~= default_chroma_table());
        Self::new_with_quality(t, quality)
    }

    /// Entry at `index` (natural order).
    pub fn get(&self, index: usize) -> (r: u8)
        requires
            index < 64,
        ensures
            r == self.entries()[index as int],
    {
        self.table[index]
    }

    /// Quantize a coefficient (scaled by 8) with the entry at `index`.
    pub fn quantize(&self, value: i16, index: usize) -> (r: i16)
        requires
            self.wf(),
            index < 64,
            tdiv(value as int, self.entries()[index as int] as int) + 4 <= i16::MAX,
        ensures
            r as int == quantized(value as int, self.entries()[index as int] as int),
    {
        let q_value = self.table[index] as i16;
        assert(q_value >= 1);
        let d = value / q_value;
        assert(d as int == tdiv(value as int, q_value as int));
        let r = (d + 4) / 8;
        assert(r as int == tdiv(d + 4, 8));
        r
    }
}


/// Law: a quality below 1 acts as 1 and a quality above 100 as 100;
/// quality 50 keeps a base table as it is, quality 100 divides by one, and
/// a higher quality never gives a larger entry.
pub proof fn lemma_quality(v: u8, q1: u8, q2: u8)
    ensures
        scaled_entry(v, 0) == scaled_entry(v, 1),
        q1 > 100 ==> scaled_entry(v, q1) == scaled_entry(v, 100),
        v >= 1 ==> scaled_entry(v, 50) == v,
        scaled_entry(v, 100) == 1,
        q1 <= q2 ==> scaled_entry(v, q2) <= scaled_entry(v, q1),
{
    assert((v * 100nat + 50) / 100 == v) by (nonlinear_arith);
    assert(quality_scale(100) == 0);
    assert(v * quality_scale(100) == 0) by (nonlinear_arith)
        requires
            quality_scale(100) == 0,
    ;
    if q1 <= q2 {
        let c1 = clamped_quality(q1);
        let c2 = clamped_quality(q2);
        assert(c1 <= c2);
        assert(quality_scale(q2) <= quality_scale(q1)) by {
            if c2 < 50 {
                assert(5000nat / c2 <= 5000nat / c1) by (nonlinear_arith)
                    requires
                        1 <= c1 <= c2,
                ;
            } else if c1 < 50 {
                assert(5000nat / c1 >= 100) by (nonlinear_arith)
                    requires
                        1 <= c1 < 50,
                ;
            }
        }
        let a = v * quality_scale(q2);
        let b = v * quality_scale(q1);
        assert(a <= b) by (nonlinear_arith)
            requires
                quality_scale(q2) <= quality_scale(q1),
                a == v * quality_scale(q2),
                b == v * quality_scale(q1),
        ;
        assert((a + 50) / 100 <= (b + 50) / 100) by (nonlinear_arith)
            requires
                a <= b,
        ;
    }
}

} // verus!
