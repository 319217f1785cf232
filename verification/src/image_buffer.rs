//! Color conversions and the images that the encoder reads.
#![allow(clippy::identity_op)]
use vstd::prelude::*;

use crate::encoder::JpegColorType;

verus! {

/// Luma of an RGB pixel, in 16 bit fixed point: `0.299 R + 0.587 G + 0.114 B`
/// rounded down.
pub open spec fn luma_of(r: u8, g: u8, b: u8) -> int {
    (19595 * r + 38470 * g + 7471 * b) / 65536
}

/// Blue-difference chroma of an RGB pixel, in 16 bit fixed point:
/// `-0.16874 R - 0.33126 G + 0.5 B + 128` rounded down.
pub open spec fn cb_of(r: u8, g: u8, b: u8) -> int {
    (-11059 * r - 21709 * g + 32768 * b + 128 * 65536) / 65536
}

/// Red-difference chroma of an RGB pixel, in 16 bit fixed point:
/// `0.5 R - 0.41869 G - 0.08131 B + 128` rounded down.
pub open spec fn cr_of(r: u8, g: u8, b: u8) -> int {
    (32768 * r - 27439 * g - 5329 * b + 128 * 65536) / 65536
}

/// Conversion from RGB to YCbCr
///
/// To avoid floating point math this scales everything by 2^16 which gives
/// a precision of approx 4 digits.
///
/// Non scaled conversion:
/// Y  =  0.29900 * R + 0.58700 * G + 0.11400 * B
/// Cb = -0.16874 * R - 0.33126 * G + 0.50000 * B  + 128
/// Cr =  0.50000 * R - 0.41869 * G - 0.08131 * B  + 128
///
pub fn rgb_to_ycbcr(r: u8, g: u8, b: u8) -> (res: (u8, u8, u8))
    ensures
        res.0 == luma_of(r, g, b),
        res.1 == cb_of(r, g, b),
        res.2 == cr_of(r, g, b),
{
    let r = r as i32;
    let g = g as i32;
    let b = b as i32;
    assert(0 <= r <= 255 && 0 <= g <= 255 && 0 <= b <= 255);

    assert(128i32 << 16i32 == 8388608) by (bit_vector);
    let y = 19595 * r + 38470 * g + 7471 * b;
    let cb = 32768 * b - 11059 * r - 21709 * g + (128 << 16);
    let cr = 32768 * r - 27439 * g - 5329 * b + (128 << 16);

    assert(y >> 16i32 == y / 65536) by (bit_vector);
    assert(cb >> 16i32 == cb / 65536) by (bit_vector);
    assert(cr >> 16i32 == cr / 65536) by (bit_vector);
    assert(0 <= y <= 255 * 65536 + 65535);
    assert(32768 <= cb <= 255 * 65536 + 32768);
    assert(32768 <= cr <= 255 * 65536 + 32768);
    let y = y >> 16;
    let cb = cb >> 16;
    let cr = cr >> 16;

    (y as u8, cb as u8, cr as u8)
}

/// Conversion from CMYK to YCCK: the C, M and Y values are converted as if
/// they were R, G and B, and K is inverted.
pub fn cmyk_to_ycck(c: u8, m: u8, y: u8, k: u8) -> (res: (u8, u8, u8, u8))
    ensures
        res.0 == luma_of(c, m, y),
        res.1 == cb_of(c, m, y),
        res.2 == cr_of(c, m, y),
        res.3 == 255 - k,
{
    let (y, cb, cr) = rgb_to_ycbcr(c, m, y);
    (y, cb, cr, 255 - k)
}

/// An image that the encoder can read, pixel by pixel.
pub trait ImageBuffer {
    /// The component values of the pixel at `(x, y)`, as they are encoded.
    spec fn pixel(&self, x: int, y: int) -> Seq<u8>;

    /// Width in pixels.
    spec fn spec_width(&self) -> u16;

    /// Height in pixels.
    spec fn spec_height(&self) -> u16;

    /// Colorspace of the encoded components.
    spec fn spec_color_type(&self) -> JpegColorType;

    /// The image can be read: its data covers all of its pixels.
    spec fn valid(&self) -> bool;

    /// Colorspace of the encoded components.
    fn get_jpeg_color_type(&self) -> (r: JpegColorType)
        ensures
            r == self.spec_color_type(),
    ;

    /// Width in pixels.
    fn width(&self) -> (r: u16)
        ensures
            r == self.spec_width(),
    ;

    /// Height in pixels.
    fn height(&self) -> (r: u16)
        ensures
            r == self.spec_height(),
    ;

    /// Append the component values of the pixel at `(x, y)` to the buffers,
    /// one buffer per component of the colorspace; the other buffers stay
    /// as they are.
    fn fill_buffers(&self, x: u16, y: u16, buffers: &mut [Vec<u8>; 4])
        requires
            self.valid(),
            x < self.spec_width(),
            y < self.spec_height(),
        ensures
            forall|c: int|
                0 <= c < 4 ==> #[trigger] final(buffers)@[c]@ == (if c < self.spec_color_type().spec_num_components() {
                    old(buffers)@[c]@.push(self.pixel(x as int, y as int)[c])
                } else {
                    old(buffers)@[c]@
                }),
    ;
}

/// Offset of the first byte of a pixel in interleaved image data.
pub open spec fn pixel_offset(width: u16, x: int, y: int, bytes_per_pixel: int) -> int {
    (y * width + x) * bytes_per_pixel
}

/// Image data covers `width * height` pixels of `bytes_per_pixel` bytes.
pub open spec fn covers(data: Seq<u8>, width: u16, height: u16, bytes_per_pixel: int) -> bool {
    width * height * bytes_per_pixel <= data.len()
}

proof fn lemma_offset_fits(data: Seq<u8>, width: u16, height: u16, x: u16, y: u16, n: int)
    requires
        x < width,
        y < height,
        1 <= n <= 4,
        covers(data, width, height, n),
    ensures
        0 <= pixel_offset(width, x as int, y as int, n),
        pixel_offset(width, x as int, y as int, n) + n <= data.len(),
        y * width <= y * width + x < data.len(),
        (y * width + x) * n + n <= data.len(),
{
    assert(y * width + x < width * height) by (nonlinear_arith)
        requires
            x < width,
            y < height,
    ;
    assert((y * width + x) * n + n <= width * height * n) by (nonlinear_arith)
        requires
            y * width + x < width * height,
            1 <= n,
    ;
    assert(0 <= (y * width + x) * n) by (nonlinear_arith)
        requires
            0 <= y * width + x,
            1 <= n,
    ;
    assert(y * width + x <= (y * width + x) * n) by (nonlinear_arith)
        requires
            0 <= y * width + x,
            1 <= n,
    ;
    assert(0 <= y * width) by (nonlinear_arith);
}

/// Grayscale image, one byte per pixel.
pub struct GrayImage<'a>(pub &'a [u8], pub u16, pub u16);

impl<'a> ImageBuffer for GrayImage<'a> {
    open spec fn pixel(&self, x: int, y: int) -> Seq<u8> {
        seq![self.0@[pixel_offset(self.1, x, y, 1)]]
    }

    open spec fn spec_width(&self) -> u16 {
        self.1
    }

    open spec fn spec_height(&self) -> u16 {
        self.2
    }

    open spec fn spec_color_type(&self) -> JpegColorType {
        JpegColorType::Luma
    }

    open spec fn valid(&self) -> bool {
        covers(self.0@, self.1, self.2, 1)
    }

    fn get_jpeg_color_type(&self) -> (r: JpegColorType) {
        JpegColorType::Luma
    }

    fn width(&self) -> (r: u16) {
        self.1
    }

    fn height(&self) -> (r: u16) {
        self.2
    }

    fn fill_buffers(&self, x: u16, y: u16, buffers: &mut [Vec<u8>; 4]) {
        proof {
            lemma_offset_fits(self.0@, self.1, self.2, x, y, 1);
        }
        let _len = self.0.len();
        let offset = y as usize * self.1 as usize + x as usize;
        buffers[0].push(self.0[offset + 0]);
    }
}

/// RGB-like image converted to YCbCr: `n` bytes per pixel, the red, green and
/// blue values at offsets `o1`, `o2` and `o3` of each pixel.
pub open spec fn rgb_pixel(data: Seq<u8>, width: u16, x: int, y: int, n: int, o1: int, o2: int, o3: int) -> Seq<u8> {
    let off = pixel_offset(width, x, y, n);
    let r = data[off + o1];
    let g = data[off + o2];
    let b = data[off + o3];
    seq![luma_of(r, g, b) as u8, cb_of(r, g, b) as u8, cr_of(r, g, b) as u8]
}

/// Append the YCbCr values of an RGB-like pixel to the buffers.
fn fill_rgb(
    data: &[u8],
    width: u16,
    height: u16,
    x: u16,
    y: u16,
    n: usize,
    o1: usize,
    o2: usize,
    o3: usize,
    buffers: &mut [Vec<u8>; 4],
)
    requires
        covers(data@, width, height, n as int),
        x < width,
        y < height,
        3 <= n <= 4,
        o1 < 3 && o2 < 3 && o3 < 3,
    ensures
        forall|c: int|
            0 <= c < 4 ==> #[trigger] final(buffers)@[c]@ == (if c < 3 {
                old(buffers)@[c]@.push(
                    rgb_pixel(data@, width, x as int, y as int, n as int, o1 as int, o2 as int, o3 as int)[c],
                )
            } else {
                old(buffers)@[c]@
            }),
{
    proof {
        lemma_offset_fits(data@, width, height, x, y, n as int);
    }
    let _len = data.len();
    let offset = (y as usize * width as usize + x as usize) * n;
    let (y, cb, cr) = rgb_to_ycbcr(data[offset + o1], data[offset + o2], data[offset + o3]);
    buffers[0].push(y);
    buffers[1].push(cb);
    buffers[2].push(cr);
}

/// RGB image, three bytes per pixel.
pub struct RgbImage<'a>(pub &'a [u8], pub u16, pub u16);

/// RGBA image, four bytes per pixel; alpha is ignored.
pub struct RgbaImage<'a>(pub &'a [u8], pub u16, pub u16);

/// BGR image, three bytes per pixel.
pub struct BgrImage<'a>(pub &'a [u8], pub u16, pub u16);

/// BGRA image, four bytes per pixel; alpha is ignored.
pub struct BgraImage<'a>(pub &'a [u8], pub u16, pub u16);

impl<'a> ImageBuffer for RgbImage<'a> {
    open spec fn pixel(&self, x: int, y: int) -> Seq<u8> {
        rgb_pixel(self.0@, self.1, x, y, 3, 0, 1, 2)
    }

    open spec fn spec_width(&self) -> u16 {
        self.1
    }

    open spec fn spec_height(&self) -> u16 {
        self.2
    }

    open spec fn spec_color_type(&self) -> JpegColorType {
        JpegColorType::Ycbcr
    }

    open spec fn valid(&self) -> bool {
        covers(self.0@, self.1, self.2, 3)
    }

    fn get_jpeg_color_type(&self) -> (r: JpegColorType) {
        JpegColorType::Ycbcr
    }

    fn width(&self) -> (r: u16) {
        self.1
    }

    fn height(&self) -> (r: u16) {
        self.2
    }

    fn fill_buffers(&self, x: u16, y: u16, buffers: &mut [Vec<u8>; 4]) {
        fill_rgb(self.0, self.1, self.2, x, y, 3, 0, 1, 2, buffers);
    }
}

impl<'a> ImageBuffer for RgbaImage<'a> {
    open spec fn pixel(&self, x: int, y: int) -> Seq<u8> {
        rgb_pixel(self.0@, self.1, x, y, 4, 0, 1, 2)
    }

    open spec fn spec_width(&self) -> u16 {
        self.1
    }

    open spec fn spec_height(&self) -> u16 {
        self.2
    }

    open spec fn spec_color_type(&self) -> JpegColorType {
        JpegColorType::Ycbcr
    }

    open spec fn valid(&self) -> bool {
        covers(self.0@, self.1, self.2, 4)
    }

    fn get_jpeg_color_type(&self) -> (r: JpegColorType) {
        JpegColorType::Ycbcr
    }

    fn width(&self) -> (r: u16) {
        self.1
    }

    fn height(&self) -> (r: u16) {
        self.2
    }

    fn fill_buffers(&self, x: u16, y: u16, buffers: &mut [Vec<u8>; 4]) {
        fill_rgb(self.0, self.1, self.2, x, y, 4, 0, 1, 2, buffers);
    }
}

impl<'a> ImageBuffer for BgrImage<'a> {
    open spec fn pixel(&self, x: int, y: int) -> Seq<u8> {
        rgb_pixel(self.0@, self.1, x, y, 3, 2, 1, 0)
    }

    open spec fn spec_width(&self) -> u16 {
        self.1
    }

    open spec fn spec_height(&self) -> u16 {
        self.2
    }

    open spec fn spec_color_type(&self) -> JpegColorType {
        JpegColorType::Ycbcr
    }

    open spec fn valid(&self) -> bool {
        covers(self.0@, self.1, self.2, 3)
    }

    fn get_jpeg_color_type(&self) -> (r: JpegColorType) {
        JpegColorType::Ycbcr
    }

    fn width(&self) -> (r: u16) {
        self.1
    }

    fn height(&self) -> (r: u16) {
        self.2
    }

    fn fill_buffers(&self, x: u16, y: u16, buffers: &mut [Vec<u8>; 4]) {
        fill_rgb(self.0, self.1, self.2, x, y, 3, 2, 1, 0, buffers);
    }
}

impl<'a> ImageBuffer for BgraImage<'a> {
    open spec fn pixel(&self, x: int, y: int) -> Seq<u8> {
        rgb_pixel(self.0@, self.1, x, y, 4, 2, 1, 0)
    }

    open spec fn spec_width(&self) -> u16 {
        self.1
    }

    open spec fn spec_height(&self) -> u16 {
        self.2
    }

    open spec fn spec_color_type(&self) -> JpegColorType {
        JpegColorType::Ycbcr
    }

    open spec fn valid(&self) -> bool {
        covers(self.0@, self.1, self.2, 4)
    }

    fn get_jpeg_color_type(&self) -> (r: JpegColorType) {
        JpegColorType::Ycbcr
    }

    fn width(&self) -> (r: u16) {
        self.1
    }

    fn height(&self) -> (r: u16) {
        self.2
    }

    fn fill_buffers(&self, x: u16, y: u16, buffers: &mut [Vec<u8>; 4]) {
        fill_rgb(self.0, self.1, self.2, x, y, 4, 2, 1, 0, buffers);
    }
}

/// YCbCr image, three bytes per pixel, encoded as it is.
pub struct YCbCrImage<'a>(pub &'a [u8], pub u16, pub u16);

impl<'a> ImageBuffer for YCbCrImage<'a> {
    open spec fn pixel(&self, x: int, y: int) -> Seq<u8> {
        let off = pixel_offset(self.1, x, y, 3);
        seq![self.0@[off], self.0@[off + 1], self.0@[off + 2]]
    }

    open spec fn spec_width(&self) -> u16 {
        self.1
    }

    open spec fn spec_height(&self) -> u16 {
        self.2
    }

    open spec fn spec_color_type(&self) -> JpegColorType {
        JpegColorType::Ycbcr
    }

    open spec fn valid(&self) -> bool {
        covers(self.0@, self.1, self.2, 3)
    }

    fn get_jpeg_color_type(&self) -> (r: JpegColorType) {
        JpegColorType::Ycbcr
    }

    fn width(&self) -> (r: u16) {
        self.1
    }

    fn height(&self) -> (r: u16) {
        self.2
    }

    fn fill_buffers(&self, x: u16, y: u16, buffers: &mut [Vec<u8>; 4]) {
        proof {
            lemma_offset_fits(self.0@, self.1, self.2, x, y, 3);
        }
        let _len = self.0.len();
        let offset = (y as usize * self.1 as usize + x as usize) * 3;
        buffers[0].push(self.0[offset + 0]);
        buffers[1].push(self.0[offset + 1]);
        buffers[2].push(self.0[offset + 2]);
    }
}

/// CMYK image, four bytes per pixel, encoded inverted as Adobe does.
pub struct CmykImage<'a>(pub &'a [u8], pub u16, pub u16);

impl<'a> ImageBuffer for CmykImage<'a> {
    open spec fn pixel(&self, x: int, y: int) -> Seq<u8> {
        let off = pixel_offset(self.1, x, y, 4);
        seq![
            (255 - self.0@[off]) as u8,
            (255 - self.0@[off + 1]) as u8,
            (255 - self.0@[off + 2]) as u8,
            (255 - self.0@[off + 3]) as u8,
        ]
    }

    open spec fn spec_width(&self) -> u16 {
        self.1
    }

    open spec fn spec_height(&self) -> u16 {
        self.2
    }

    open spec fn spec_color_type(&self) -> JpegColorType {
        JpegColorType::Cmyk
    }

    open spec fn valid(&self) -> bool {
        covers(self.0@, self.1, self.2, 4)
    }

    fn get_jpeg_color_type(&self) -> (r: JpegColorType) {
        JpegColorType::Cmyk
    }

    fn width(&self) -> (r: u16) {
        self.1
    }

    fn height(&self) -> (r: u16) {
        self.2
    }

    fn fill_buffers(&self, x: u16, y: u16, buffers: &mut [Vec<u8>; 4]) {
        proof {
            lemma_offset_fits(self.0@, self.1, self.2, x, y, 4);
        }
        let _len = self.0.len();
        let offset = (y as usize * self.1 as usize + x as usize) * 4;
        buffers[0].push(255 - self.0[offset + 0]);
        buffers[1].push(255 - self.0[offset + 1]);
        buffers[2].push(255 - self.0[offset + 2]);
        buffers[3].push(255 - self.0[offset + 3]);
    }
}

/// CMYK image, four bytes per pixel, encoded as YCCK.
pub struct CmykAsYcckImage<'a>(pub &'a [u8], pub u16, pub u16);

impl<'a> ImageBuffer for CmykAsYcckImage<'a> {
    open spec fn pixel(&self, x: int, y: int) -> Seq<u8> {
        let off = pixel_offset(self.1, x, y, 4);
        let c = self.0@[off];
        let m = self.0@[off + 1];
        let yy = self.0@[off + 2];
        let k = self.0@[off + 3];
        seq![luma_of(c, m, yy) as u8, cb_of(c, m, yy) as u8, cr_of(c, m, yy) as u8, (255 - k) as u8]
    }

    open spec fn spec_width(&self) -> u16 {
        self.1
    }

    open spec fn spec_height(&self) -> u16 {
        self.2
    }

    open spec fn spec_color_type(&self) -> JpegColorType {
        JpegColorType::Ycck
    }

    open spec fn valid(&self) -> bool {
        covers(self.0@, self.1, self.2, 4)
    }

    fn get_jpeg_color_type(&self) -> (r: JpegColorType) {
        JpegColorType::Ycck
    }

    fn width(&self) -> (r: u16) {
        self.1
    }

    fn height(&self) -> (r: u16) {
        self.2
    }

    fn fill_buffers(&self, x: u16, y: u16, buffers: &mut [Vec<u8>; 4]) {
        proof {
            lemma_offset_fits(self.0@, self.1, self.2, x, y, 4);
        }
        let _len = self.0.len();
        let offset = (y as usize * self.1 as usize + x as usize) * 4;
        let (y, cb, cr, k) = cmyk_to_ycck(
            self.0[offset + 0],
            self.0[offset + 1],
            self.0[offset + 2],
            self.0[offset + 3],
        );
        buffers[0].push(y);
        buffers[1].push(cb);
        buffers[2].push(cr);
        buffers[3].push(k);
    }
}

/// YCCK image, four bytes per pixel, encoded as it is.
pub struct YcckImage<'a>(pub &'a [u8], pub u16, pub u16);

impl<'a> ImageBuffer for YcckImage<'a> {
    open spec fn pixel(&self, x: int, y: int) -> Seq<u8> {
        let off = pixel_offset(self.1, x, y, 4);
        seq![self.0@[off], self.0@[off + 1], self.0@[off + 2], self.0@[off + 3]]
    }

    open spec fn spec_width(&self) -> u16 {
        self.1
    }

    open spec fn spec_height(&self) -> u16 {
        self.2
    }

    open spec fn spec_color_type(&self) -> JpegColorType {
        JpegColorType::Ycck
    }

    open spec fn valid(&self) -> bool {
        covers(self.0@, self.1, self.2, 4)
    }

    fn get_jpeg_color_type(&self) -> (r: JpegColorType) {
        JpegColorType::Ycck
    }

    fn width(&self) -> (r: u16) {
        self.1
    }

    fn height(&self) -> (r: u16) {
        self.2
    }

    fn fill_buffers(&self, x: u16, y: u16, buffers: &mut [Vec<u8>; 4]) {
        proof {
            lemma_offset_fits(self.0@, self.1, self.2, x, y, 4);
        }
        let _len = self.0.len();
        let offset = (y as usize * self.1 as usize + x as usize) * 4;
        buffers[0].push(self.0[offset + 0]);
        buffers[1].push(self.0[offset + 1]);
        buffers[2].push(self.0[offset + 2]);
        buffers[3].push(self.0[offset + 3]);
    }
}

/// Law: the components coded for a pixel of RGB, RGBA, BGR or BGRA input
/// are the Y, Cb and Cr values of its red, green and blue bytes: bytes 0, 1
/// and 2 of the pixel in RGB order, bytes 2, 1 and 0 in BGR order; the
/// fourth byte of RGBA and BGRA input is not coded.
pub proof fn lemma_rgb_input_pixels<'a>(data: &'a [u8], width: u16, height: u16, x: int, y: int)
    ensures
        ({
            let o3 = (y * width + x) * 3;
            let o4 = (y * width + x) * 4;
            let (a0, a1, a2) = (data@[o3], data@[o3 + 1], data@[o3 + 2]);
            let (q0, q1, q2) = (data@[o4], data@[o4 + 1], data@[o4 + 2]);
            &&& RgbImage(data, width, height).pixel(x, y) == seq![
                luma_of(a0, a1, a2) as u8,
                cb_of(a0, a1, a2) as u8,
                cr_of(a0, a1, a2) as u8,
            ]
            &&& RgbaImage(data, width, height).pixel(x, y) == seq![
                luma_of(q0, q1, q2) as u8,
                cb_of(q0, q1, q2) as u8,
                cr_of(q0, q1, q2) as u8,
            ]
            &&& BgrImage(data, width, height).pixel(x, y) == seq![
                luma_of(a2, a1, a0) as u8,
                cb_of(a2, a1, a0) as u8,
                cr_of(a2, a1, a0) as u8,
            ]
            &&& BgraImage(data, width, height).pixel(x, y) == seq![
                luma_of(q2, q1, q0) as u8,
                cb_of(q2, q1, q0) as u8,
                cr_of(q2, q1, q0) as u8,
            ]
        }),
{
}

/// Law: a BGR pixel is coded as the RGB pixel with its first and third
/// bytes exchanged, and a BGRA pixel as that RGBA pixel.
pub proof fn lemma_bgr_is_swapped_rgb<'a, 'b>(
    bgr: &'a [u8],
    rgb: &'b [u8],
    width: u16,
    height: u16,
    x: int,
    y: int,
    n: int,
)
    requires
        n == 3 || n == 4,
        ({
            let o = (y * width + x) * n;
            &&& rgb@[o] == bgr@[o + 2]
            &&& rgb@[o + 1] == bgr@[o + 1]
            &&& rgb@[o + 2] == bgr@[o]
        }),
    ensures
        n == 3 ==> BgrImage(bgr, width, height).pixel(x, y) == RgbImage(rgb, width, height).pixel(x, y),
        n == 4 ==> BgraImage(bgr, width, height).pixel(x, y) == RgbaImage(rgb, width, height).pixel(x, y),
{
}

/// Law: YCbCr and YCCK input is coded as it is: component `c` of a pixel is
/// byte `c` of the pixel, in the order of the input; grayscale input is its
/// one byte.
pub proof fn lemma_direct_input_pixels<'a>(data: &'a [u8], width: u16, height: u16, x: int, y: int)
    ensures
        YCbCrImage(data, width, height).pixel(x, y).len() == 3,
        forall|c: int|
            0 <= c < 3 ==> #[trigger] YCbCrImage(data, width, height).pixel(x, y)[c] == data@[(y * width + x) * 3
                + c],
        YcckImage(data, width, height).pixel(x, y).len() == 4,
        forall|c: int|
            0 <= c < 4 ==> #[trigger] YcckImage(data, width, height).pixel(x, y)[c] == data@[(y * width + x) * 4
                + c],
        GrayImage(data, width, height).pixel(x, y) == seq![data@[y * width + x]],
{
}

/// Law: CMYK input is coded inverted, each component 255 less the byte, in
/// the order C, M, Y, K; CMYK input coded as YCCK converts C, M and Y as
/// red, green and blue and inverts K.
pub proof fn lemma_cmyk_input_pixels<'a>(data: &'a [u8], width: u16, height: u16, x: int, y: int)
    ensures
        CmykImage(data, width, height).pixel(x, y).len() == 4,
        forall|c: int|
            0 <= c < 4 ==> #[trigger] CmykImage(data, width, height).pixel(x, y)[c] == 255 - data@[(y * width
                + x) * 4 + c],
        ({
            let o = (y * width + x) * 4;
            let (c, m, yy, k) = (data@[o], data@[o + 1], data@[o + 2], data@[o + 3]);
            CmykAsYcckImage(data, width, height).pixel(x, y) == seq![
                luma_of(c, m, yy) as u8,
                cb_of(c, m, yy) as u8,
                cr_of(c, m, yy) as u8,
                (255 - k) as u8,
            ]
        }),
{
}

/// Law: gray is neutral: a pixel of equal red, green and blue values `v` has
/// luma `v` and both chroma values 128.
pub proof fn lemma_gray_is_neutral(v: u8)
    ensures
        luma_of(v, v, v) == v,
        cb_of(v, v, v) == 128,
        cr_of(v, v, v) == 128,
{
    assert(19595 * v + 38470 * v + 7471 * v == v * 65536);
    assert(-11059 * v - 21709 * v + 32768 * v + 128 * 65536 == 128 * 65536);
    assert(32768 * v - 27439 * v - 5329 * v + 128 * 65536 == 128 * 65536);
}

/// Law: red moves the red-difference chroma up and the blue-difference one
/// down, blue the other way round: a pixel of red alone has `Cr >= 128 >=
/// Cb`, one of blue alone `Cb >= 128 >= Cr`, strictly so from 2 on.
pub proof fn lemma_chroma_direction(v: u8)
    ensures
        cr_of(v, 0, 0) >= 128 >= cb_of(v, 0, 0),
        cb_of(0, 0, v) >= 128 >= cr_of(0, 0, v),
        v >= 2 ==> cr_of(v, 0, 0) > 128 > cb_of(v, 0, 0),
        v >= 2 ==> cb_of(0, 0, v) > 128 > cr_of(0, 0, v),
{
}

/// Law: green weighs most in the luma and blue least: a pixel of one
/// primary `v` has luma `0.587 v` for green, `0.299 v` for red and `0.114 v`
/// for blue, rounded down; so blue alone is never brighter than red alone,
/// nor red alone than green alone. The chroma value of a primary's own
/// difference is `128 + v / 2`.
pub proof fn lemma_primary_weights(v: u8)
    ensures
        luma_of(0, 0, v) <= luma_of(v, 0, 0) <= luma_of(0, v, 0),
        luma_of(v, 0, 0) == (299 * v) / 1000 || luma_of(v, 0, 0) == (299 * v) / 1000 + 1 || luma_of(v, 0, 0)
            == (299 * v) / 1000 - 1,
        luma_of(0, v, 0) == (587 * v) / 1000 || luma_of(0, v, 0) == (587 * v) / 1000 + 1 || luma_of(0, v, 0)
            == (587 * v) / 1000 - 1,
        luma_of(0, 0, v) == (114 * v) / 1000 || luma_of(0, 0, v) == (114 * v) / 1000 + 1 || luma_of(0, 0, v)
            == (114 * v) / 1000 - 1,
        cr_of(v, 0, 0) == 128 + v / 2,
        cb_of(0, 0, v) == 128 + v / 2,
{
}

} // verus!
