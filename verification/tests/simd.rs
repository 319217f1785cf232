use jpeg_encoder::simd::{load, push, rgb_to_ycbcr_simd};

fn assert_rgb_to_ycbcr(rgb: [u8; 3], ycbcr: [u8; 3]) {
    let r = [rgb[0] as i32; 16];
    let g = [rgb[1] as i32; 16];
    let b = [rgb[2] as i32; 16];

    let y_i = [ycbcr[0] as i32; 16];
    let cb_i = [ycbcr[1] as i32; 16];
    let cr_i = [ycbcr[2] as i32; 16];

    let (y_o, cb_o, cr_o) = rgb_to_ycbcr_simd(r, g, b);
    assert_eq!(y_i, y_o);
    assert_eq!(cb_i, cb_o);
    assert_eq!(cr_i, cr_o);
}

#[test]
fn test_rgb_to_ycbcr() {

    assert_rgb_to_ycbcr([0, 0, 0], [0, 128, 128]);
    assert_rgb_to_ycbcr([255, 255, 255], [255, 128, 128]);
    assert_rgb_to_ycbcr([255, 0, 0], [76, 85, 255]);
    assert_rgb_to_ycbcr([0, 255, 0], [150, 44, 21]);
    assert_rgb_to_ycbcr([0, 0, 255], [29, 255, 107]);

    // Values taken from libjpeg for a common image

    assert_rgb_to_ycbcr([59, 109, 6], [82, 85, 111]);
    assert_rgb_to_ycbcr([29, 60, 11], [45, 109, 116]);
    assert_rgb_to_ycbcr([57, 114, 26], [87, 94, 107]);
    assert_rgb_to_ycbcr([30, 60, 6], [45, 106, 117]);
    assert_rgb_to_ycbcr([41, 75, 11], [58, 102, 116]);
    assert_rgb_to_ycbcr([145, 184, 108], [164, 97, 115]);
    assert_rgb_to_ycbcr([33, 85, 7], [61, 98, 108]);
    assert_rgb_to_ycbcr([61, 90, 40], [76, 108, 118]);
    assert_rgb_to_ycbcr([75, 127, 45], [102, 96, 109]);
    assert_rgb_to_ycbcr([30, 56, 14], [43, 111, 118]);
    assert_rgb_to_ycbcr([106, 142, 81], [124, 104, 115]);
    assert_rgb_to_ycbcr([35, 59, 11], [46, 108, 120]);
    assert_rgb_to_ycbcr([170, 203, 123], [184, 94, 118]);
    assert_rgb_to_ycbcr([45, 87, 16], [66, 100, 113]);
    assert_rgb_to_ycbcr([59, 109, 21], [84, 92, 110]);
    assert_rgb_to_ycbcr([100, 167, 36], [132, 74, 105]);
    assert_rgb_to_ycbcr([17, 53, 5], [37, 110, 114]);
    assert_rgb_to_ycbcr([226, 244, 220], [236, 119, 121]);
    assert_rgb_to_ycbcr([192, 214, 120], [197, 85, 125]);
    assert_rgb_to_ycbcr([63, 107, 22], [84, 93, 113]);
    assert_rgb_to_ycbcr([44, 78, 19], [61, 104, 116]);
    assert_rgb_to_ycbcr([72, 106, 54], [90, 108, 115]);
    assert_rgb_to_ycbcr([99, 123, 73], [110, 107, 120]);
    assert_rgb_to_ycbcr([188, 216, 148], [200, 99, 120]);
    assert_rgb_to_ycbcr([19, 46, 7], [33, 113, 118]);
    assert_rgb_to_ycbcr([56, 95, 40], [77, 107, 113]);
    assert_rgb_to_ycbcr([81, 120, 56], [101, 103, 114]);
    assert_rgb_to_ycbcr([9, 30, 0], [20, 117, 120]);
    assert_rgb_to_ycbcr([90, 118, 46], [101, 97, 120]);
    assert_rgb_to_ycbcr([24, 52, 0], [38, 107, 118]);
    assert_rgb_to_ycbcr([32, 69, 9], [51, 104, 114]);
    assert_rgb_to_ycbcr([74, 134, 33], [105, 88, 106]);
    assert_rgb_to_ycbcr([37, 74, 7], [55, 101, 115]);
    assert_rgb_to_ycbcr([69, 119, 31], [94, 92, 110]);
    assert_rgb_to_ycbcr([63, 112, 21], [87, 91, 111]);
    assert_rgb_to_ycbcr([90, 148, 17], [116, 72, 110]);
    assert_rgb_to_ycbcr([50, 97, 30], [75, 102, 110]);
    assert_rgb_to_ycbcr([99, 129, 72], [114, 105, 118]);
    assert_rgb_to_ycbcr([161, 196, 57], [170, 64, 122]);
    assert_rgb_to_ycbcr([10, 26, 1], [18, 118, 122]);
    assert_rgb_to_ycbcr([87, 128, 68], [109, 105, 112]);
    assert_rgb_to_ycbcr([111, 155, 73], [132, 94, 113]);
    assert_rgb_to_ycbcr([33, 75, 11], [55, 103, 112]);
    assert_rgb_to_ycbcr([70, 122, 51], [98, 101, 108]);
    assert_rgb_to_ycbcr([22, 74, 3], [50, 101, 108]);
    assert_rgb_to_ycbcr([88, 142, 45], [115, 89, 109]);
    assert_rgb_to_ycbcr([66, 107, 40], [87, 101, 113]);
    assert_rgb_to_ycbcr([18, 45, 0], [32, 110, 118]);
    assert_rgb_to_ycbcr([163, 186, 88], [168, 83, 124]);
    assert_rgb_to_ycbcr([47, 104, 4], [76, 88, 108]);
    assert_rgb_to_ycbcr([147, 211, 114], [181, 90, 104]);
    assert_rgb_to_ycbcr([42, 77, 18], [60, 104, 115]);
    assert_rgb_to_ycbcr([37, 72, 6], [54, 101, 116]);
    assert_rgb_to_ycbcr([84, 140, 55], [114, 95, 107]);
    assert_rgb_to_ycbcr([46, 98, 25], [74, 100, 108]);
    assert_rgb_to_ycbcr([48, 97, 20], [74, 98, 110]);
    assert_rgb_to_ycbcr([189, 224, 156], [206, 100, 116]);
    assert_rgb_to_ycbcr([36, 83, 0], [59, 94, 111]);
    assert_rgb_to_ycbcr([159, 186, 114], [170, 97, 120]);
    assert_rgb_to_ycbcr([75, 118, 46], [97, 99, 112]);
    assert_rgb_to_ycbcr([193, 233, 158], [212, 97, 114]);
    assert_rgb_to_ycbcr([76, 116, 48], [96, 101, 114]);
    assert_rgb_to_ycbcr([108, 157, 79], [133, 97, 110]);
    assert_rgb_to_ycbcr([180, 208, 155], [194, 106, 118]);
    assert_rgb_to_ycbcr([74, 126, 53], [102, 100, 108]);
    assert_rgb_to_ycbcr([72, 123, 46], [99, 98, 109]);
    assert_rgb_to_ycbcr([71, 123, 34], [97, 92, 109]);
    assert_rgb_to_ycbcr([130, 184, 72], [155, 81, 110]);
    assert_rgb_to_ycbcr([30, 61, 17], [47, 111, 116]);
    assert_rgb_to_ycbcr([27, 71, 0], [50, 100, 112]);
    assert_rgb_to_ycbcr([45, 73, 24], [59, 108, 118]);
    assert_rgb_to_ycbcr([139, 175, 93], [155, 93, 117]);
    assert_rgb_to_ycbcr([11, 38, 0], [26, 114, 118]);
    assert_rgb_to_ycbcr([34, 87, 15], [63, 101, 107]);
    assert_rgb_to_ycbcr([43, 76, 35], [61, 113, 115]);
    assert_rgb_to_ycbcr([18, 35, 7], [27, 117, 122]);
    assert_rgb_to_ycbcr([69, 97, 48], [83, 108, 118]);
    assert_rgb_to_ycbcr([139, 176, 50], [151, 71, 120]);
    assert_rgb_to_ycbcr([21, 51, 7], [37, 111, 117]);
    assert_rgb_to_ycbcr([209, 249, 189], [230, 105, 113]);
    assert_rgb_to_ycbcr([32, 66, 14], [50, 108, 115]);
    assert_rgb_to_ycbcr([100, 143, 67], [121, 97, 113]);
    assert_rgb_to_ycbcr([40, 96, 14], [70, 96, 107]);
    assert_rgb_to_ycbcr([88, 130, 64], [110, 102, 112]);
    assert_rgb_to_ycbcr([52, 112, 14], [83, 89, 106]);
    assert_rgb_to_ycbcr([49, 72, 25], [60, 108, 120]);
    assert_rgb_to_ycbcr([144, 193, 75], [165, 77, 113]);
    assert_rgb_to_ycbcr([49, 94, 1], [70, 89, 113]);
}

#[test]
fn simd_lanes_differ() {
    let mut r = [0i32; 16];
    let mut g = [0i32; 16];
    let mut b = [0i32; 16];
    for k in 0..16 {
        r[k] = (k * 16) as i32;
        g[k] = (255 - k * 16) as i32;
        b[k] = (k * 7) as i32;
    }
    let (y, cb, cr) = rgb_to_ycbcr_simd(r, g, b);
    for k in 0..16 {
        let (r8, g8, b8) = (r[k] as i64, g[k] as i64, b[k] as i64);
        assert_eq!(y[k] as i64, (19595 * r8 + 38470 * g8 + 7471 * b8 + 0x7FFF) >> 16);
        assert_eq!(cb[k] as i64, (-11059 * r8 - 21709 * g8 + 32768 * b8 + (128 << 16) + 0x7FFF) >> 16);
        assert_eq!(cr[k] as i64, (32768 * r8 - 27439 * g8 - 5329 * b8 + (128 << 16) + 0x7FFF) >> 16);
    }
}

#[test]
fn simd_lanes_wrap() {
    let big = [i32::MAX; 16];
    let zero = [0i32; 16];
    let (y, _, _) = rgb_to_ycbcr_simd(big, zero, zero);
    let expected = (19595i32.wrapping_mul(i32::MAX)).wrapping_add(0x7FFF) >> 16;
    assert_eq!(y, [expected; 16]);
}

#[test]
fn simd_load_and_push() {
    let data: Vec<u8> = (0..64).map(|v| v as u8).collect();
    let lanes = load(&data, 1, 3);
    for k in 0..16 {
        assert_eq!(lanes[k], (1 + 3 * k) as i32);
    }
    let mut out = vec![9u8];
    let mut values = [0i32; 16];
    for k in 0..16 {
        values[k] = 250 + k as i32;
    }
    push(&mut out, values);
    assert_eq!(out.len(), 17);
    assert_eq!(out[0], 9);
    assert_eq!(out[1], 250);
    assert_eq!(out[6], 255);
    assert_eq!(out[7], 0);
    assert_eq!(out[16], 9);
}

#[test]
fn load_channel_strides() {
    let values: Vec<u8> = (0..22u8).collect();
    assert_eq!(
        jpeg_encoder::simd::load_channel::<3>(&values),
        [0, 3, 6, 9, 12, 15, 18, 21]
    );
    assert_eq!(jpeg_encoder::simd::load_channel::<1>(&values[5..]), [5, 6, 7, 8, 9, 10, 11, 12]);
}
