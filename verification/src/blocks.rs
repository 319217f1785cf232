//! Reading 8x8 blocks out of the image: lines of samples per component,
//! blocks taken from those lines, their transform and quantization.
use vstd::arithmetic::div_mod::lemma_fundamental_div_mod_converse;
use vstd::prelude::*;

use crate::fdct::{as_ints, fdct, fdct_spec, lemma_fdct_bound_samples};
use crate::image_buffer::ImageBuffer;
use crate::quantization::{tdiv, QuantizationTable};
use crate::stream::{clamp_to, coded_block, level_shifted_block, quantize_spec, sample};
use crate::writer::{zigzag, zigzag_table};

verus! {

/// Samples of a block read out of lines of `width` samples, starting at
/// `(start_x, start_y)` and taking every `col_stride`-th column and
/// `row_stride`-th line, shifted to be centered on 0.
pub open spec fn buffer_block(
    data: Seq<u8>,
    start_x: int,
    start_y: int,
    col_stride: int,
    row_stride: int,
    width: int,
) -> Seq<i16> {
    Seq::new(
        64,
        |k: int| (data[(start_y + (k / 8) * row_stride) * width + start_x + (k % 8) * col_stride] - 128) as i16,
    )
}

/// `buf` holds the samples of component `c` of lines `first_line` onward,
/// `width` samples per line, the image extended past its edges.
pub open spec fn holds_lines<I: ImageBuffer>(buf: Seq<u8>, img: I, c: int, width: int, first_line: int) -> bool {
    forall|k: int| 0 <= k < buf.len() ==> #[trigger] buf[k] == sample(img, c, k % width, first_line + k / width)
}

proof fn lemma_block_index(sx: int, sy: int, cs: int, rs: int, width: int, len: int, x: int, y: int)
    requires
        0 <= x < 8,
        0 <= y < 8,
        0 <= sx,
        0 <= sy,
        0 <= cs,
        0 <= rs,
        sx + 7 * cs < width,
        (sy + 7 * rs) * width + width <= len,
    ensures
        0 <= sx + x * cs < width,
        0 <= (sy + y * rs) * width,
        (sy + y * rs) * width + sx + x * cs < len,
        (sy + y * rs) * width <= (sy + 7 * rs) * width,
        0 <= y * rs,
        sy + y * rs <= (sy + y * rs) * width,
{
    assert(x * cs <= 7 * cs) by (nonlinear_arith)
        requires
            0 <= x < 8,
            0 <= cs,
    ;
    assert(0 <= x * cs) by (nonlinear_arith)
        requires
            0 <= x,
            0 <= cs,
    ;
    assert(y * rs <= 7 * rs) by (nonlinear_arith)
        requires
            0 <= y < 8,
            0 <= rs,
    ;
    assert(0 <= y * rs) by (nonlinear_arith)
        requires
            0 <= y,
            0 <= rs,
    ;
    assert((sy + y * rs) * width <= (sy + 7 * rs) * width) by (nonlinear_arith)
        requires
            sy + y * rs <= sy + 7 * rs,
            0 <= width,
    ;
    assert(0 <= (sy + y * rs) * width) by (nonlinear_arith)
        requires
            0 <= sy + y * rs,
            0 <= width,
    ;
    assert(sy + y * rs <= (sy + y * rs) * width) by (nonlinear_arith)
        requires
            0 <= sy + y * rs,
            1 <= width,
    ;
}

/// An index into lines `width` wide splits into its line and column.
pub proof fn lemma_split_index(k: int, width: int, y: int, x: int)
    requires
        0 <= x < width,
        k == y * width + x,
    ensures
        k % width == x,
        k / width == y,
{
    lemma_fundamental_div_mod_converse(k, width, y, x);
}

/// The 8x8 samples at `(start_x, start_y)` of lines `width` samples wide,
/// taking every `col_stride`-th column and `row_stride`-th line, shifted by
/// -128 to be centered on 0.
pub fn get_block(
    data: &[u8],
    start_x: usize,
    start_y: usize,
    col_stride: usize,
    row_stride: usize,
    width: usize,
) -> (r: [i16; 64])
    requires
        start_x + 7 * col_stride < width,
        (start_y + 7 * row_stride) * width + width <= data.len(),
    ensures
        r@ == buffer_block(
            data@,
            start_x as int,
            start_y as int,
            col_stride as int,
            row_stride as int,
            width as int,
        ),
{
    let ghost want = buffer_block(
        data@,
        start_x as int,
        start_y as int,
        col_stride as int,
        row_stride as int,
        width as int,
    );
    let mut block = [0i16; 64];
    let mut y: usize = 0;
    while y < 8
        invariant
            y <= 8,
            start_x + 7 * col_stride < width,
            (start_y + 7 * row_stride) * width + width <= data.len(),
            want == buffer_block(
                data@,
                start_x as int,
                start_y as int,
                col_stride as int,
                row_stride as int,
                width as int,
            ),
            forall|k: int| 0 <= k < 8 * y ==> #[trigger] block@[k] == want[k],
        decreases 8 - y,
    {
        let mut x: usize = 0;
        while x < 8
            invariant
                x <= 8,
                y < 8,
                start_x + 7 * col_stride < width,
                (start_y + 7 * row_stride) * width + width <= data.len(),
                want == buffer_block(
                    data@,
                    start_x as int,
                    start_y as int,
                    col_stride as int,
                    row_stride as int,
                    width as int,
                ),
                forall|k: int| 0 <= k < 8 * y + x ==> #[trigger] block@[k] == want[k],
            decreases 8 - x,
        {
            proof {
                lemma_block_index(
                    start_x as int,
                    start_y as int,
                    col_stride as int,
                    row_stride as int,
                    width as int,
                    data@.len() as int,
                    x as int,
                    y as int,
                );
                lemma_split_index(8 * y + x, 8, y as int, x as int);
            }
            let ix = start_x + x * col_stride;
            let iy = start_y + y * row_stride;
            let v = data[iy * width + ix];
            block[y * 8 + x] = v as i16 - 128;
            x = x + 1;
        }
        y = y + 1;
    }
    assert(block@ =~= want);
    block
}

/// Lines `first_line ..` of the image, `buffer_width` samples each, one
/// buffer per component of its colorspace (the others stay empty). Lines
/// below the image repeat its last line, samples right of it its last
/// column.
pub fn fill_rows<I: ImageBuffer>(image: &I, first_line: usize, lines: usize, buffer_width: usize) -> (rows: [Vec<u8>; 4])
    requires
        image.valid(),
        0 < image.spec_width() <= buffer_width,
        0 < image.spec_height(),
        lines * buffer_width <= usize::MAX,
        first_line + lines <= usize::MAX,
    ensures
        forall|c: int|
            0 <= c < 4 ==> (#[trigger] rows@[c]@).len() == (if c < image.spec_color_type().spec_num_components() {
                lines * buffer_width
            } else {
                0
            }),
        forall|c: int|
            0 <= c < image.spec_color_type().spec_num_components() ==> holds_lines(
                #[trigger] rows@[c]@,
                *image,
                c,
                buffer_width as int,
                first_line as int,
            ),
{
    let width = image.width();
    let height = image.height();
    let ghost nc = image.spec_color_type().spec_num_components();
    let mut rows: [Vec<u8>; 4] = [Vec::new(), Vec::new(), Vec::new(), Vec::new()];
    let mut yy: usize = 0;
    while yy < lines
        invariant
            yy <= lines,
            image.valid(),
            width == image.spec_width(),
            height == image.spec_height(),
            0 < width <= buffer_width,
            0 < height,
            lines * buffer_width <= usize::MAX,
            first_line + lines <= usize::MAX,
            nc == image.spec_color_type().spec_num_components(),
            forall|c: int|
                0 <= c < 4 ==> (#[trigger] rows@[c]@).len() == (if c < nc {
                    yy * buffer_width
                } else {
                    0
                }),
            forall|c: int|
                0 <= c < nc ==> holds_lines(#[trigger] rows@[c]@, *image, c, buffer_width as int, first_line as int),
        decreases lines - yy,
    {
        let line = first_line + yy;
        let y: u16 = if line < height as usize {
            line as u16
        } else {
            height - 1
        };
        assert(y as int == clamp_to(line as int, height as int));
        proof {
            assert((yy + 1) * buffer_width <= lines * buffer_width) by (nonlinear_arith)
                requires
                    yy < lines,
                    0 <= buffer_width,
            ;
            assert((yy + 1) * buffer_width == yy * buffer_width + buffer_width) by (nonlinear_arith);
        }
        let mut x: usize = 0;
        while x < buffer_width
            invariant
                x <= buffer_width,
                yy < lines,
                (yy + 1) * buffer_width <= lines * buffer_width <= usize::MAX,
                (yy + 1) * buffer_width == yy * buffer_width + buffer_width,
                image.valid(),
                width == image.spec_width(),
                height == image.spec_height(),
                0 < width <= buffer_width,
                y < height,
                y as int == clamp_to((first_line + yy) as int, height as int),
                nc == image.spec_color_type().spec_num_components(),
                forall|c: int|
                    0 <= c < 4 ==> (#[trigger] rows@[c]@).len() == (if c < nc {
                        yy * buffer_width + x
                    } else {
                        0
                    }),
                forall|c: int|
                    0 <= c < nc ==> holds_lines(
                        #[trigger] rows@[c]@,
                        *image,
                        c,
                        buffer_width as int,
                        first_line as int,
                    ),
            decreases buffer_width - x,
        {
            let xs: u16 = if x < width as usize {
                x as u16
            } else {
                width - 1
            };
            let ghost before = rows;
            image.fill_buffers(xs, y, &mut rows);
            proof {
                let k0 = yy * buffer_width + x;
                lemma_split_index(k0, buffer_width as int, yy as int, x as int);
                assert(xs as int == clamp_to(x as int, width as int));
                assert forall|c: int| 0 <= c < nc implies holds_lines(
                    #[trigger] rows@[c]@,
                    *image,
                    c,
                    buffer_width as int,
                    first_line as int,
                ) by {
                    assert(rows@[c]@ == before@[c]@.push(image.pixel(xs as int, y as int)[c]));
                    assert forall|k: int| 0 <= k < rows@[c]@.len() implies #[trigger] rows@[c]@[k] == sample(
                        *image,
                        c,
                        k % (buffer_width as int),
                        first_line + k / (buffer_width as int),
                    ) by {
                        if k < before@[c]@.len() {
                            assert(rows@[c]@[k] == before@[c]@[k]);
                        }
                    }
                }
            }
            x = x + 1;
        }
        yy = yy + 1;
    }
    rows
}

/// The quantized coefficients of a transformed block, in zig-zag order.
pub fn quantize_block(table: &QuantizationTable, block: &[i16; 64]) -> (r: [i16; 64])
    requires
        table.wf(),
        forall|i: int| 0 <= i < 64 ==> -8192 <= #[trigger] block@[i] <= 8192,
    ensures
        r@ == quantize_spec(as_ints(block@), *table),
{
    let zz = zigzag_table();
    let mut q_block = [0i16; 64];
    let mut i: usize = 0;
    proof {
        table.lemma_wf();
    }
    while i < 64
        invariant
            i <= 64,
            zz@ == zigzag(),
            table.wf(),
            table.entries().len() == 64,
            forall|j: int| 0 <= j < 64 ==> #[trigger] table.entries()[j] >= 1,
            forall|j: int| 0 <= j < 64 ==> -8192 <= #[trigger] block@[j] <= 8192,
            forall|j: int| 0 <= j < i ==> #[trigger] q_block@[j] == quantize_spec(as_ints(block@), *table)[j],
        decreases 64 - i,
    {
        assert(zz@[i as int] < 64);
        let z = zz[i] as usize;
        let v = block[z];
        proof {
            let q = table.entries()[i as int] as int;
            assert(q >= 1);
            if v >= 0 {
                assert(v as int / q <= v) by (nonlinear_arith)
                    requires
                        v >= 0,
                        q >= 1,
                ;
            } else {
                assert((-v) as int / q <= -v) by (nonlinear_arith)
                    requires
                        v < 0,
                        q >= 1,
                ;
            }
            assert(tdiv(v as int, q) + 4 <= i16::MAX);
        }
        q_block[i] = table.quantize(v, i);
        i = i + 1;
    }
    assert(q_block@ =~= quantize_spec(as_ints(block@), *table));
    q_block
}


/// Quantized transform coefficients of 8-bit samples stay within -1023 to
/// 1023.
pub proof fn lemma_quantized_bound(v: int, q: int)
    requires
        -8192 <= v <= 8160,
        q >= 1,
    ensures
        -1023 <= crate::quantization::quantized(v, q) <= 1023,
{
    let t = tdiv(v, q);
    if v >= 0 {
        assert(0 <= v / q <= v) by (nonlinear_arith)
            requires
                v >= 0,
                q >= 1,
        ;
    } else {
        assert(0 <= (-v) / q <= -v) by (nonlinear_arith)
            requires
                v < 0,
                q >= 1,
        ;
    }
    assert(-8192 <= t <= 8160);
}

/// Every coefficient of a coded block is within -1023 to 1023.
pub proof fn lemma_coded_block_in_range<I: ImageBuffer>(
    img: I,
    c: int,
    x0: int,
    y0: int,
    hs: int,
    vs: int,
    table: QuantizationTable,
)
    requires
        table.wf(),
    ensures
        crate::stream::block_in_range(coded_block(img, c, x0, y0, hs, vs, table)),
{
    let lsb = as_ints(level_shifted_block(img, c, x0, y0, hs, vs));
    assert forall|i: int| 0 <= i < 64 implies -128 <= #[trigger] lsb[i] <= 127 by {
        let s = sample(img, c, x0 + (i % 8) * hs, y0 + (i / 8) * vs);
        assert(lsb[i] == (s - 128) as i16);
    }
    lemma_fdct_bound_samples(lsb);
    table.lemma_wf();
    reveal(coded_block);
    let f = fdct_spec(lsb);
    let b = coded_block(img, c, x0, y0, hs, vs, table);
    assert forall|k: int| 0 <= k < 64 implies -1023 <= #[trigger] b[k] <= 1023 by {
        assert(zigzag()[k] < 64) by {
            assert(forall|j: int| 0 <= j < 64 ==> #[trigger] zigzag()[j] < 64);
        }
        let z = zigzag()[k] as int;
        lemma_quantized_bound(f[z], table.entries()[k] as int);
    }
}


/// The coded block of component `c` with the top left sample at
/// `(x0, first_line + y0)`, taking every `hs`-th sample and `vs`-th line of
/// `samples`, which holds lines `first_line ..` of the component: level
/// shift, transform and quantization.
pub fn code_block<I: ImageBuffer>(
    image: &I,
    Ghost(c): Ghost<int>,
    samples: &Vec<u8>,
    buffer_width: usize,
    Ghost(first_line): Ghost<int>,
    x0: usize,
    y0: usize,
    hs: usize,
    vs: usize,
    table: &QuantizationTable,
) -> (r: [i16; 64])
    requires
        table.wf(),
        x0 + 7 * hs < buffer_width,
        (y0 + 7 * vs) * buffer_width + buffer_width <= samples.len(),
        holds_lines(samples@, *image, c, buffer_width as int, first_line),
    ensures
        r@ == coded_block(*image, c, x0 as int, first_line + y0, hs as int, vs as int, *table),
{
    let mut block = get_block(samples.as_slice(), x0, y0, hs, vs, buffer_width);
    let ghost lsb = level_shifted_block(*image, c, x0 as int, first_line + y0, hs as int, vs as int);
    proof {
        assert forall|k: int| 0 <= k < 64 implies #[trigger] block@[k] == lsb[k] by {
            let x = k % 8;
            let y = k / 8;
            lemma_block_index(
                x0 as int,
                y0 as int,
                hs as int,
                vs as int,
                buffer_width as int,
                samples@.len() as int,
                x,
                y,
            );
            let i = (y0 + y * vs) * buffer_width + x0 + x * hs;
            lemma_split_index(i, buffer_width as int, y0 + y * vs, x0 + x * hs);
            assert(samples@[i] == sample(
                *image,
                c,
                i % (buffer_width as int),
                first_line + i / (buffer_width as int),
            ));
        }
        assert(block@ =~= lsb);
        assert forall|i: int| 0 <= i < 64 implies -511 <= #[trigger] block@[i] <= 511 by {
            let s = sample(*image, c, x0 + (i % 8) * hs, first_line + y0 + (i / 8) * vs);
            assert(lsb[i] == (s - 128) as i16);
        }
        assert forall|i: int| 0 <= i < 64 implies -128 <= #[trigger] as_ints(lsb)[i] <= 127 by {
            let s = sample(*image, c, x0 + (i % 8) * hs, first_line + y0 + (i / 8) * vs);
            assert(lsb[i] == (s - 128) as i16);
        }
        lemma_fdct_bound_samples(as_ints(lsb));
    }
    fdct(&mut block);
    let q_block = quantize_block(table, &block);
    proof {
        assert(as_ints(block@) =~= fdct_spec(as_ints(lsb)));
        reveal(coded_block);
    }
    q_block
}

/// The coded blocks of component `c`: `rows` rows of `cols` blocks, block
/// `(bx, by)` starting at `(8 * bx * hs, 8 * by * vs)` and taking every
/// `hs`-th sample and `vs`-th line of `samples`, the lines of the component.
pub fn code_component<I: ImageBuffer>(
    image: &I,
    Ghost(c): Ghost<int>,
    samples: &Vec<u8>,
    buffer_width: usize,
    cols: usize,
    rows: usize,
    hs: usize,
    vs: usize,
    table: &QuantizationTable,
) -> (r: Vec<[i16; 64]>)
    requires
        table.wf(),
        1 <= hs,
        1 <= vs,
        cols * 8 * hs <= buffer_width,
        rows * 8 * vs * buffer_width <= samples.len(),
        holds_lines(samples@, *image, c, buffer_width as int, 0),
    ensures
        r@.len() == cols * rows,
        forall|n: int|
            0 <= n < cols * rows ==> #[trigger] r@[n]@ == coded_block(
                *image,
                c,
                (n % cols as int) * 8 * hs,
                (n / cols as int) * 8 * vs,
                hs as int,
                vs as int,
                *table,
            ),
{
    let mut blocks: Vec<[i16; 64]> = Vec::new();
    let mut by: usize = 0;
    while by < rows
        invariant
            by <= rows,
            table.wf(),
            1 <= hs,
            1 <= vs,
            cols * 8 * hs <= buffer_width,
            rows * 8 * vs * buffer_width <= samples.len(),
            holds_lines(samples@, *image, c, buffer_width as int, 0),
            blocks@.len() == by * cols,
            forall|n: int|
                0 <= n < by * cols ==> #[trigger] blocks@[n]@ == coded_block(
                    *image,
                    c,
                    (n % cols as int) * 8 * hs,
                    (n / cols as int) * 8 * vs,
                    hs as int,
                    vs as int,
                    *table,
                ),
        decreases rows - by,
    {
        let mut bx: usize = 0;
        while bx < cols
            invariant
                bx <= cols,
                by < rows,
                table.wf(),
                1 <= hs,
                1 <= vs,
                cols * 8 * hs <= buffer_width,
                rows * 8 * vs * buffer_width <= samples.len(),
                holds_lines(samples@, *image, c, buffer_width as int, 0),
                blocks@.len() == by * cols + bx,
                forall|n: int|
                    0 <= n < by * cols + bx ==> #[trigger] blocks@[n]@ == coded_block(
                        *image,
                        c,
                        (n % cols as int) * 8 * hs,
                        (n / cols as int) * 8 * vs,
                        hs as int,
                        vs as int,
                        *table,
                    ),
            decreases cols - bx,
        {
            proof {
                assert((8 * bx + 7) * hs < cols * 8 * hs) by (nonlinear_arith)
                    requires
                        bx < cols,
                        1 <= hs,
                ;
                assert(bx * 8 * hs + 7 * hs == (8 * bx + 7) * hs) by (nonlinear_arith);
                assert(bx * 8 <= bx * 8 * hs) by (nonlinear_arith)
                    requires
                        1 <= hs,
                ;
                assert(buffer_width >= 8) by (nonlinear_arith)
                    requires
                        bx < cols,
                        1 <= hs,
                        cols * 8 * hs <= buffer_width,
                ;
                assert((by * 8 * vs + 7 * vs) * buffer_width + buffer_width <= (by + 1) * 8 * vs * buffer_width)
                    by (nonlinear_arith)
                    requires
                        1 <= vs,
                        0 <= buffer_width,
                ;
                assert((by + 1) * 8 * vs * buffer_width <= rows * 8 * vs * buffer_width) by (nonlinear_arith)
                    requires
                        by < rows,
                        1 <= vs,
                        buffer_width >= 8,
                ;
                assert(by * 8 <= by * 8 * vs) by (nonlinear_arith)
                    requires
                        1 <= vs,
                ;
                assert(by * 8 * vs <= by * 8 * vs * buffer_width) by (nonlinear_arith)
                    requires
                        buffer_width >= 8,
                ;
                assert(by * 8 * vs * buffer_width <= (by + 1) * 8 * vs * buffer_width) by (nonlinear_arith)
                    requires
                        1 <= vs,
                        buffer_width >= 8,
                ;
                assert(by * 8 * vs <= samples.len());
            }
            let x0 = bx * 8 * hs;
            let y0 = by * 8 * vs;
            let q_block = code_block(image, Ghost(c), samples, buffer_width, Ghost(0), x0, y0, hs, vs, table);
            proof {
                let n = by * cols + bx;
                lemma_split_index(n as int, cols as int, by as int, bx as int);
            }
            blocks.push(q_block);
            bx = bx + 1;
        }
        proof {
            assert((by + 1) * cols == by * cols + cols) by (nonlinear_arith);
        }
        by = by + 1;
    }
    blocks
}


/// Every block of a component is within the range of quantized blocks.
pub proof fn lemma_component_blocks_in_range<I: ImageBuffer>(
    img: I,
    comps: Seq<crate::encoder::Component>,
    mh: int,
    mv: int,
    i: int,
    table: QuantizationTable,
)
    requires
        table.wf(),
    ensures
        forall|n: int|
            0 <= n < crate::stream::component_blocks(img, comps, mh, mv, i, table).len()
                ==> crate::stream::block_in_range(
                #[trigger] crate::stream::component_blocks(img, comps, mh, mv, i, table)[n],
            ),
{
    let hs = mh / comps[i].horizontal_sampling_factor as int;
    let vs = mv / comps[i].vertical_sampling_factor as int;
    let cols = crate::stream::ceil_div_int(crate::stream::ceil_div_int(img.spec_width() as int, 8), hs);
    assert forall|n: int|
        0 <= n < crate::stream::component_blocks(img, comps, mh, mv, i, table).len()
            implies crate::stream::block_in_range(
            #[trigger] crate::stream::component_blocks(img, comps, mh, mv, i, table)[n],
        ) by {
        lemma_coded_block_in_range(img, i, (n % cols) * 8 * hs, (n / cols) * 8 * vs, hs, vs, table);
    }
}

} // verus!
