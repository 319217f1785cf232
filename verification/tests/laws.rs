use jpeg_encoder::encoder::{ceil_div, optimization_fits};
use jpeg_encoder::fdct::fdct;
use jpeg_encoder::huffman::HuffmanTable;
use jpeg_encoder::image_buffer::{cmyk_to_ycck, rgb_to_ycbcr};
use jpeg_encoder::marker::Marker;
use jpeg_encoder::quantization::QuantizationTable;
use jpeg_encoder::writer::{get_code, JfifWriter};
use jpeg_encoder::{ColorType, Density, Encoder, EncodingError, JpegColorType, SamplingFactor};

const LUMA: [u8; 64] = [
    16, 11, 10, 16, 24, 40, 51, 61, //
    12, 12, 14, 19, 26, 58, 60, 55, //
    14, 13, 16, 24, 40, 57, 69, 56, //
    14, 17, 22, 29, 51, 87, 80, 62, //
    18, 22, 37, 56, 68, 109, 103, 77, //
    24, 35, 55, 64, 81, 104, 113, 92, //
    49, 64, 78, 87, 103, 121, 120, 101, //
    72, 92, 95, 98, 112, 100, 103, 99,
];

fn entries(table: &QuantizationTable) -> Vec<u8> {
    (0..64).map(|i| table.get(i)).collect()
}

#[test]
fn quality_50_keeps_the_base_table() {
    let t = QuantizationTable::new_with_quality(LUMA, 50);
    assert_eq!(entries(&t), LUMA.to_vec());
}

#[test]
fn quality_100_gives_all_ones() {
    let t = QuantizationTable::default_luma(100);
    assert_eq!(entries(&t), vec![1u8; 64]);
    let t = QuantizationTable::default_chroma(100);
    assert_eq!(entries(&t), vec![1u8; 64]);
}

#[test]
fn quality_is_clamped() {
    assert_eq!(
        entries(&QuantizationTable::default_luma(0)),
        entries(&QuantizationTable::default_luma(1))
    );
    assert_eq!(
        entries(&QuantizationTable::default_luma(200)),
        entries(&QuantizationTable::default_luma(100))
    );
}

#[test]
fn quality_scales_entries() {
    // Quality 10 scales by 500 %, quality 90 by 20 %.
    assert_eq!(QuantizationTable::default_luma(10).get(0), 80);
    assert_eq!(QuantizationTable::default_luma(90).get(0), 3);
    // Quality 1 scales by 5000 % and clamps at 255.
    assert_eq!(QuantizationTable::default_luma(1).get(0), 255);
}

#[test]
fn higher_quality_never_gives_a_larger_entry() {
    let mut previous = entries(&QuantizationTable::default_chroma(1));
    for q in 2..=100u8 {
        let current = entries(&QuantizationTable::default_chroma(q));
        for i in 0..64 {
            assert!(current[i] <= previous[i]);
        }
        previous = current;
    }
}

#[test]
fn quantize_rounds_toward_zero() {
    let t = QuantizationTable::default_luma(50);
    assert_eq!(t.quantize(800, 0), 6);
    assert_eq!(t.quantize(-800, 0), -5);
    assert_eq!(t.quantize(0, 5), 0);
}

#[test]
fn default_luma_dc_codes() {
    let t = HuffmanTable::default_luma_dc();
    assert_eq!(t.get_for_value(0), (2, 0b00));
    assert_eq!(t.get_for_value(1), (3, 0b010));
    assert_eq!(t.get_for_value(5), (3, 0b110));
    assert_eq!(t.get_for_value(6), (4, 0b1110));
    assert_eq!(t.get_for_value(11), (9, 0b1_1111_1110));
    assert_eq!(t.length()[..3], [0, 1, 5]);
    assert_eq!(t.values(), &[0, 1, 2, 3, 4, 5, 6, 7, 8, 9, 10, 11]);
}

#[test]
fn optimized_table_codes_exactly_the_used_symbols() {
    let mut freq = [0u32; 257];
    freq[0] = 10;
    freq[1] = 5;
    freq[2] = 1;
    freq[256] = 1;
    let t = HuffmanTable::new_optimized(freq);
    assert_eq!(t.values(), &[0, 1, 2]);
    assert_eq!(t.length()[..4], [1, 1, 1, 0]);
    assert_eq!(t.get_for_value(0), (1, 0b0));
    assert_eq!(t.get_for_value(1), (2, 0b10));
    assert_eq!(t.get_for_value(2), (3, 0b110));
}

#[test]
fn optimized_table_limits_code_lengths() {
    // Frequencies that grow like Fibonacci numbers give a Huffman tree deeper
    // than 16 levels, which must be limited.
    let mut freq = [0u32; 257];
    let (mut a, mut b) = (1u32, 1u32);
    for s in 0..30 {
        freq[s] = a;
        let c = a + b;
        a = b;
        b = c;
    }
    freq[256] = 1;
    let t = HuffmanTable::new_optimized(freq);
    let total: u32 = t.length().iter().map(|&n| n as u32).sum();
    assert_eq!(total, 30);
    let mut values = t.values().to_vec();
    values.sort();
    assert_eq!(values, (0..30u8).collect::<Vec<u8>>());
    // Kraft inequality with the all-ones code left out.
    let kraft: u32 = t.length().iter().enumerate().map(|(i, &n)| (n as u32) << (15 - i)).sum();
    assert!(kraft < 1 << 16);
}

#[test]
fn fdct_of_a_flat_block() {
    let mut block = [1i16; 64];
    fdct(&mut block);
    let mut expected = [0i16; 64];
    expected[0] = 64;
    assert_eq!(block, expected);

    let mut block = [-3i16; 64];
    fdct(&mut block);
    expected[0] = -192;
    assert_eq!(block, expected);
}

#[test]
fn color_conversion_values() {
    assert_eq!(rgb_to_ycbcr(0, 0, 0), (0, 128, 128));
    assert_eq!(rgb_to_ycbcr(255, 255, 255), (255, 128, 128));
    assert_eq!(rgb_to_ycbcr(255, 0, 0), (76, 84, 255));
    assert_eq!(cmyk_to_ycck(0, 0, 0, 10), (0, 128, 128, 245));
}

#[test]
fn ceil_div_values() {
    assert_eq!(ceil_div(10, 3), 4);
    assert_eq!(ceil_div(9, 3), 3);
    assert_eq!(ceil_div(0, 8), 0);
}

#[test]
fn coefficient_codes() {
    assert_eq!(get_code(0), (0, 0));
    assert_eq!(get_code(3), (2, 0b11));
    assert_eq!(get_code(-3), (2, 0b00));
    assert_eq!(get_code(-1), (1, 0));
    assert_eq!(get_code(1), (1, 1));
    assert_eq!(get_code(1023), (10, 1023));
    assert_eq!(get_code(-1023), (10, 0));
}

#[test]
fn marker_codes() {
    assert_eq!(Marker::SOI.code(), 0xD8);
    assert_eq!(Marker::EOI.code(), 0xD9);
    assert_eq!(Marker::APP(2).code(), 0xE2);
    assert_eq!(Marker::DQT.code(), 0xDB);
}

#[test]
fn header_with_density() {
    let mut w = JfifWriter::new();
    w.write_header(&Density::Inch { x: 72, y: 300 });
    assert_eq!(
        w.into_bytes(),
        vec![0xFF, 0xE0, 0, 16, b'J', b'F', b'I', b'F', 0, 1, 2, 1, 0, 72, 1, 44, 0, 0]
    );
}

#[test]
fn bits_are_padded_with_ones() {
    let mut w = JfifWriter::new();
    w.write_bits(0b101, 3);
    w.finalize_bit_buffer();
    assert_eq!(w.into_bytes(), vec![0b1011_1111]);
}

#[test]
fn ff_bytes_are_stuffed() {
    let mut w = JfifWriter::new();
    w.write_bits(0xFF, 8);
    w.write_bits(0x12, 8);
    assert_eq!(w.into_bytes(), vec![0xFF, 0x00, 0x12]);
}

#[test]
fn sampling_factors() {
    assert_eq!(SamplingFactor::from_factors(3, 3), None);
    assert_eq!(SamplingFactor::from_factors(4, 4), None);
    assert_eq!(SamplingFactor::from_factors(2, 2), Some(SamplingFactor::R4_2_0));
    assert_eq!(SamplingFactor::R4_1_0.get_sampling_factors(), (4, 2));
    assert!(SamplingFactor::R4_2_0.supports_interleaved());
    assert!(!SamplingFactor::R4_2_1.supports_interleaved());
}

#[test]
fn settings_do_not_disturb_each_other() {
    let mut e = Encoder::new(80);
    assert_eq!(e.sampling_factor(), SamplingFactor::R4_2_0);
    assert_eq!(e.progressive_scans(), None);
    e.set_progressive(true);
    assert_eq!(e.progressive_scans(), Some(4));
    e.set_density(Density::Centimeter { x: 5, y: 6 });
    e.set_optimized_huffman_tables(true);
    e.set_sampling_factor(SamplingFactor::R4_4_4);
    assert_eq!(e.progressive_scans(), Some(4));
    assert_eq!(e.density(), Density::Centimeter { x: 5, y: 6 });
    assert!(e.optimized_huffman_tables());
    assert_eq!(e.sampling_factor(), SamplingFactor::R4_4_4);
    e.set_progressive_scans(9);
    assert_eq!(e.progressive_scans(), Some(9));
    e.set_progressive(false);
    assert_eq!(e.progressive_scans(), None);
    assert_eq!(Encoder::new(90).sampling_factor(), SamplingFactor::R4_4_4);
}

#[test]
fn invalid_app_segments_are_refused() {
    let mut e = Encoder::new(90);
    assert_eq!(e.add_app_segment(0, &[1, 2]), Err(EncodingError::InvalidAppSegment(0)));
    assert_eq!(e.add_app_segment(16, &[1, 2]), Err(EncodingError::InvalidAppSegment(16)));
    let big = vec![0u8; 65534];
    assert_eq!(e.add_app_segment(3, &big), Err(EncodingError::AppSegmentTooLarge(65534)));
    assert_eq!(e.add_app_segment(3, &big[..65533]), Ok(()));
}

#[test]
fn too_large_icc_profile_is_refused() {
    let mut e = Encoder::new(90);
    let data = vec![7u8; 16_707_346];
    assert_eq!(e.add_icc_profile(&data), Err(EncodingError::ICCTooLarge(16_707_346)));
    assert_eq!(e.add_icc_profile(&data[..16_707_345]), Ok(()));
}

#[test]
fn bad_image_data_is_refused() {
    let e = Encoder::new(90);
    let r = e.encode(&[0u8; 11], 2, 2, ColorType::Rgb);
    assert_eq!(r, Err(EncodingError::BadImageData { length: 11, required: 12 }));
}

#[test]
fn empty_image_is_refused() {
    let e = Encoder::new(90);
    let r = e.encode(&[], 0, 5, ColorType::Luma);
    assert_eq!(r, Err(EncodingError::ZeroImageDimensions { width: 0, height: 5 }));
    let e = Encoder::new(90);
    let r = e.encode(&[1, 2, 3], 3, 0, ColorType::Luma);
    assert_eq!(r, Err(EncodingError::ZeroImageDimensions { width: 3, height: 0 }));
}

#[test]
fn stream_starts_and_ends_with_markers() {
    let e = Encoder::new(75);
    let bytes = e.encode(&[128u8; 16 * 16 * 3], 16, 16, ColorType::Rgb).unwrap();
    assert_eq!(
        bytes[..20],
        [0xFF, 0xD8, 0xFF, 0xE0, 0, 16, b'J', b'F', b'I', b'F', 0, 1, 2, 0, 0, 1, 0, 1, 0, 0]
    );
    assert_eq!(bytes[bytes.len() - 2..], [0xFF, 0xD9]);
}

/// The segments before the first scan: marker byte and payload.
fn segments(bytes: &[u8]) -> Vec<(u8, Vec<u8>)> {
    let mut out = Vec::new();
    let mut i = 2;
    while bytes[i] == 0xFF && bytes[i + 1] != 0xDA {
        let len = ((bytes[i + 2] as usize) << 8) | bytes[i + 3] as usize;
        out.push((bytes[i + 1], bytes[i + 4..i + 2 + len].to_vec()));
        i += 2 + len;
    }
    out
}

#[test]
fn app_segments_are_written_in_order() {
    let mut e = Encoder::new(75);
    e.add_app_segment(5, b"first").unwrap();
    e.add_app_segment(9, b"second").unwrap();
    let bytes = e.encode(&[10u8; 8 * 8], 8, 8, ColorType::Luma).unwrap();
    let apps: Vec<(u8, Vec<u8>)> = segments(&bytes)
        .into_iter()
        .filter(|(m, _)| (0xE1..=0xEF).contains(m))
        .collect();
    assert_eq!(apps, vec![(0xE5, b"first".to_vec()), (0xE9, b"second".to_vec())]);
}

#[test]
fn icc_profile_reassembles() {
    let data: Vec<u8> = (0..150_000u32).map(|i| (i % 251) as u8).collect();
    let mut e = Encoder::new(75);
    e.add_icc_profile(&data).unwrap();
    let bytes = e.encode(&[10u8; 8 * 8], 8, 8, ColorType::Luma).unwrap();
    let icc: Vec<Vec<u8>> = segments(&bytes)
        .into_iter()
        .filter(|(m, _)| *m == 0xE2)
        .map(|(_, p)| p)
        .collect();
    assert_eq!(icc.len(), 3);
    let mut joined = Vec::new();
    for (i, seg) in icc.iter().enumerate() {
        assert_eq!(&seg[..12], b"ICC_PROFILE\0");
        assert_eq!(seg[12] as usize, i + 1);
        assert_eq!(seg[13], 3);
        joined.extend_from_slice(&seg[14..]);
    }
    assert_eq!(joined, data);
}

#[test]
fn cmyk_stream_has_adobe_segment() {
    let e = Encoder::new(75);
    let bytes = e.encode(&[10u8; 8 * 8 * 4], 8, 8, ColorType::Cmyk).unwrap();
    let adobe: Vec<Vec<u8>> = segments(&bytes)
        .into_iter()
        .filter(|(m, _)| *m == 0xEE)
        .map(|(_, p)| p)
        .collect();
    assert_eq!(adobe.len(), 1);
    assert_eq!(&adobe[0][..5], b"Adobe");
    assert_eq!(adobe[0][11], 0);
}

fn assert_prefix_free(t: &HuffmanTable) {
    let coded: Vec<(u8, u8, u16)> = (0..=255u8)
        .map(|s| (s, t.get_for_value(s)))
        .filter(|(_, (size, _))| *size > 0)
        .map(|(s, (size, code))| (s, size, code))
        .collect();
    assert_eq!(coded.len(), t.values().len());
    for &(x, sx, cx) in &coded {
        for &(y, sy, cy) in &coded {
            if x != y && sx <= sy {
                assert_ne!(cy >> (sy - sx), cx, "code of {} starts the code of {}", x, y);
            }
        }
    }
}

#[test]
fn default_tables_are_prefix_free() {
    assert_prefix_free(&HuffmanTable::default_luma_dc());
    assert_prefix_free(&HuffmanTable::default_luma_ac());
    assert_prefix_free(&HuffmanTable::default_chroma_dc());
    assert_prefix_free(&HuffmanTable::default_chroma_ac());
}

#[test]
fn optimized_tables_are_prefix_free() {
    let mut freq = [0u32; 257];
    for s in 0..200 {
        freq[s] = (s as u32 * 7919) % 1000 + 1;
    }
    freq[256] = 1;
    assert_prefix_free(&HuffmanTable::new_optimized(freq));
}

#[test]
fn optimized_tables_code_only_the_symbols_used() {
    // A flat gray block: every coefficient is zero, so the DC table codes
    // only the difference size 0 and the AC table only end-of-block.
    let mut e = Encoder::new(90);
    e.set_optimized_huffman_tables(true);
    let bytes = e.encode(&[128u8; 8 * 8], 8, 8, ColorType::Luma).unwrap();
    let dht: Vec<Vec<u8>> = segments(&bytes)
        .into_iter()
        .filter(|(m, _)| *m == 0xC4)
        .map(|(_, p)| p)
        .collect();
    let mut dc = vec![0x00u8, 1];
    dc.extend_from_slice(&[0u8; 15]);
    dc.push(0);
    let mut ac = vec![0x10u8, 1];
    ac.extend_from_slice(&[0u8; 15]);
    ac.push(0);
    assert_eq!(dht, vec![dc, ac]);
}

#[test]
fn optimized_tables_give_a_shorter_stream() {
    let width = 96usize;
    let height = 64usize;
    let mut data = Vec::with_capacity(width * height * 3);
    for y in 0..height {
        for x in 0..width {
            data.push((x * 2) as u8);
            data.push((y * 3) as u8);
            data.push(((x * y) % 256) as u8);
        }
    }
    let plain = Encoder::new(85)
        .encode(&data, width as u16, height as u16, ColorType::Rgb)
        .unwrap();
    let mut e = Encoder::new(85);
    e.set_optimized_huffman_tables(true);
    let optimized = e.encode(&data, width as u16, height as u16, ColorType::Rgb).unwrap();
    assert!(optimized.len() < plain.len());
}

#[test]
fn largest_app_segment_fills_the_length_field() {
    let mut e = Encoder::new(75);
    let data: Vec<u8> = (0..65533u32).map(|i| (i % 253) as u8).collect();
    e.add_app_segment(4, &data).unwrap();
    let bytes = e.encode(&[10u8; 8 * 8], 8, 8, ColorType::Luma).unwrap();
    let pos = bytes.windows(2).position(|w| w == [0xFF, 0xE4]).unwrap();
    assert_eq!(&bytes[pos + 2..pos + 4], &[0xFF, 0xFF]);
    assert_eq!(&bytes[pos + 4..pos + 4 + 65533], &data[..]);
}

#[test]
fn every_progressive_scan_count_gives_non_empty_bands() {
    // With 34 to 64 scans per component, each AC scan has one coefficient
    // and the last one the rest: every spectral range is non-empty and the
    // ranges cover 1 to 63 in order.
    for scans in [2u8, 4, 33, 34, 40, 64] {
        let mut e = Encoder::new(80);
        e.set_progressive_scans(scans);
        let bytes = e.encode(&[200u8; 16 * 16 * 3], 16, 16, ColorType::Rgb).unwrap();
        let mut next = 1u8;
        let mut i = 0;
        let mut ac_scans = 0;
        while i + 1 < bytes.len() {
            if bytes[i] == 0xFF && bytes[i + 1] == 0xDA {
                let n = bytes[i + 4] as usize;
                let ss = bytes[i + 5 + 2 * n];
                let se = bytes[i + 6 + 2 * n];
                if ss > 0 {
                    assert!(ss <= se, "empty band with {} scans", scans);
                    if ac_scans % 3 == 0 {
                        assert_eq!(ss, next);
                        next = se + 1;
                    }
                    ac_scans += 1;
                }
            }
            i += 1;
        }
        assert_eq!(ac_scans, 3 * (scans as usize - 1));
        assert_eq!(next, 64);
    }
}

#[test]
fn subsampled_components_get_all_their_blocks() {
    // 20 pixels across with 4:2:2 subsampling: chroma is 10 samples wide,
    // two blocks per row; the image must decode at its full size.
    let data: Vec<u8> = (0..20 * 8 * 3).map(|i| (i * 7 % 256) as u8).collect();
    let mut e = Encoder::new(90);
    e.set_sampling_factor(SamplingFactor::from_factors(2, 1).unwrap());
    e.set_optimized_huffman_tables(true);
    let bytes = e.encode(&data, 20, 8, ColorType::Rgb).unwrap();
    let mut decoder = jpeg_decoder::Decoder::new(&bytes[..]);
    let pixels = decoder.decode().unwrap();
    assert_eq!(pixels.len(), 20 * 8 * 3);
}

#[test]
fn table_counters_limit_only_shared_tables() {
    // 8192 x 8192 blocks: one component's 63 symbols per block fit 32 bits,
    // two full-size components sharing a table do not.
    let s444 = SamplingFactor::from_factors(1, 1).unwrap();
    let s420 = SamplingFactor::from_factors(2, 2).unwrap();
    assert!(optimization_fits(JpegColorType::Luma, s444, 65535, 65535));
    assert!(!optimization_fits(JpegColorType::Ycbcr, s444, 65535, 65535));
    assert!(optimization_fits(JpegColorType::Ycbcr, s420, 65535, 65535));
    assert!(optimization_fits(JpegColorType::Cmyk, s420, 65535, 65535));
    assert!(!optimization_fits(JpegColorType::Ycck, s420, 65535, 65535));
    assert!(optimization_fits(JpegColorType::Ycbcr, s444, 40000, 20000));
}

#[test]
fn short_data_is_refused_whatever_the_size() {
    let mut e = Encoder::new(90);
    e.set_optimized_huffman_tables(true);
    assert_eq!(
        e.encode(&[0u8; 10], 65535, 65535, ColorType::Rgb),
        Err(EncodingError::BadImageData { length: 10, required: 65535 * 65535 * 3 })
    );
}
