# jpeg_encoder

A JPEG encoder (baseline and progressive, chroma subsampling, optimized
Huffman tables, grayscale, YCbCr, CMYK and YCCK) whose logic is verified with
Verus: every function in `src/` is verified, the public ones and the steps of
the encoder against contracts that state their results, and the properties
that span several functions are stated and proved as laws.

## Layout

- `src/encoder.rs`: the encoder's settings, its entry points `encode` and
  `encode_image`, the three ways of writing the image data (sequential,
  progressive, interleaved) and the laws about the whole stream.
- `src/stream.rs`: the model of the stream the encoder writes, component by
  component and scan by scan, that the contracts speak of.
- `src/image_buffer.rs`, `src/blocks.rs`, `src/fdct.rs`,
  `src/quantization.rs`: color conversion, 8x8 blocks, the forward DCT and
  quantization.
- `src/huffman.rs`, `src/optimal.rs`, `src/symbols.rs`: Huffman tables
  (canonical codes, the default tables, tables built from symbol counts) and
  the counting of the symbols an image needs.
- `src/writer.rs`, `src/bitstream.rs`, `src/marker.rs`, `src/scans.rs`: the
  byte and bit level writer, byte stuffing, markers and segments.
- `src/decode.rs`: a model of reading the entropy-coded data back, and the
  proofs that it gives back the coded coefficients.
- `src/simd.rs`: the lane-wise color conversion used for vectorized input.
- `app/`: the encoder writing to any `std::io::Write` or to a file, with an
  error type that also carries I/O errors.
- `tests/`: the tests, run against the compiled library.
