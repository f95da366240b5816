use jpeg_decoder::error::DecodeError;
use jpeg_decoder::jpeg::{strip_entropy_data, JFIFUnits, JFIFVersion, JPEGImage};
use jpeg_decoder::transform::{dequantize, discrete_cosine_transform_inverse, zigzag_inverse};

struct BitWriter {
    bytes: Vec<u8>,
    cur: u8,
    used: u8,
}

impl BitWriter {
    fn new() -> BitWriter {
        BitWriter { bytes: Vec::new(), cur: 0, used: 0 }
    }

    fn push_bit(&mut self, b: u8) {
        self.cur = (self.cur << 1) | (b & 1);
        self.used += 1;
        if self.used == 8 {
            self.bytes.push(self.cur);
            self.cur = 0;
            self.used = 0;
        }
    }

    fn push_bits(&mut self, value: u32, count: u8) {
        for k in (0..count).rev() {
            self.push_bit(((value >> k) & 1) as u8);
        }
    }

    /// Pad the last byte with 1-bits and return the entropy bytes with
    /// stuffing applied.
    fn finish_stuffed(mut self) -> Vec<u8> {
        while self.used != 0 {
            self.push_bit(1);
        }
        let mut out = Vec::new();
        for b in self.bytes {
            out.push(b);
            if b == 0xFF {
                out.push(0x00);
            }
        }
        out
    }
}

fn segment(marker: u8, body: &[u8]) -> Vec<u8> {
    let len = (body.len() + 2) as u16;
    let mut v = vec![0xFF, marker, (len >> 8) as u8, (len & 0xFF) as u8];
    v.extend_from_slice(body);
    v
}

fn app0() -> Vec<u8> {
    let mut body = vec![b'J', b'F', b'I', b'F', 0, 1, 1, 0];
    body.extend_from_slice(&[0, 1, 0, 1, 0, 0]);
    segment(0xE0, &body)
}

fn dqt(id: u8, table: &[u8; 64]) -> Vec<u8> {
    let mut body = vec![id];
    body.extend_from_slice(table);
    segment(0xDB, &body)
}

fn sof0(width: u16, height: u16, comps: &[(u8, u8, u8, u8)]) -> Vec<u8> {
    let mut body = vec![
        8,
        (height >> 8) as u8,
        (height & 0xFF) as u8,
        (width >> 8) as u8,
        (width & 0xFF) as u8,
        comps.len() as u8,
    ];
    for &(id, h, v, q) in comps {
        body.push(id);
        body.push((h << 4) | v);
        body.push(q);
    }
    segment(0xC0, &body)
}

fn dht(class: u8, id: u8, counts: &[u8; 16], values: &[u8]) -> Vec<u8> {
    let mut body = vec![(class << 4) | id];
    body.extend_from_slice(counts);
    body.extend_from_slice(values);
    segment(0xC4, &body)
}

fn sos(comps: &[(u8, u8, u8)]) -> Vec<u8> {
    let mut body = vec![comps.len() as u8];
    for &(id, dc, ac) in comps {
        body.push(id);
        body.push((dc << 4) | ac);
    }
    body.extend_from_slice(&[0, 63, 0]);
    segment(0xDA, &body)
}

fn counts(pairs: &[(usize, u8)]) -> [u8; 16] {
    let mut v = [0u8; 16];
    for &(len, n) in pairs {
        v[len - 1] = n;
    }
    v
}

/// A minimal single-component 8x8 file whose one block is all-zero
/// coefficients: every pixel decodes to gray 128.
fn gray_8x8_file() -> Vec<u8> {
    let mut file = vec![0xFF, 0xD8];
    file.extend(app0());
    file.extend(dqt(0, &[1u8; 64]));
    file.extend(sof0(8, 8, &[(1, 1, 1, 0)]));
    file.extend(dht(0, 0, &counts(&[(1, 1)]), &[0x00]));
    file.extend(dht(1, 0, &counts(&[(1, 1)]), &[0x00]));
    file.extend(sos(&[(1, 0, 0)]));
    let mut bw = BitWriter::new();
    bw.push_bits(0, 1); // DC size symbol '0' -> zero difference bits
    bw.push_bits(0, 1); // AC symbol '0' -> end of block
    file.extend(bw.finish_stuffed());
    file.extend_from_slice(&[0xFF, 0xD9]);
    file
}

#[test]
fn minimal_gray_image_decodes_to_all_128() {
    let image = JPEGImage::parse(gray_8x8_file()).unwrap();
    assert_eq!(image.width(), 8);
    assert_eq!(image.height(), 8);
    let pixels = image.image_data().unwrap();
    assert_eq!(pixels.len(), 64);
    for &p in pixels.iter() {
        assert_eq!(p, (128, 128, 128));
    }
}

#[test]
fn missing_soi_signature_is_malformed() {
    assert_eq!(JPEGImage::parse(vec![0x12, 0x34]).unwrap_err(), DecodeError::MalformedHeader);
}

#[test]
fn empty_buffer_is_malformed() {
    assert_eq!(JPEGImage::parse(Vec::new()).unwrap_err(), DecodeError::MalformedHeader);
}

#[test]
fn scan_referencing_undefined_table_is_missing_table() {
    let mut file = vec![0xFF, 0xD8];
    file.extend(app0());
    file.extend(dqt(0, &[1u8; 64]));
    file.extend(sof0(8, 8, &[(1, 1, 1, 0)]));
    file.extend(dht(0, 0, &counts(&[(1, 1)]), &[0x00]));
    file.extend(dht(0, 1, &counts(&[(1, 1)]), &[0x00]));
    file.extend(dht(1, 0, &counts(&[(1, 1)]), &[0x00]));
    file.extend(dht(1, 1, &counts(&[(1, 1)]), &[0x00]));
    // the scan selects DC and AC table id 3, which was never defined
    file.extend(sos(&[(1, 3, 3)]));
    file.push(0x3F);
    file.extend_from_slice(&[0xFF, 0xD9]);
    assert_eq!(JPEGImage::parse(file).unwrap_err(), DecodeError::MissingTable);
}

#[test]
fn corrupt_entropy_stream_fails_decode() {
    let mut file = vec![0xFF, 0xD8];
    file.extend(dqt(0, &[1u8; 64]));
    file.extend(sof0(8, 8, &[(1, 1, 1, 0)]));
    // the only DC code is '00'; an all-ones stream can never match it
    file.extend(dht(0, 0, &counts(&[(2, 1)]), &[0x00]));
    file.extend(dht(1, 0, &counts(&[(2, 1)]), &[0x00]));
    file.extend(sos(&[(1, 0, 0)]));
    file.extend_from_slice(&[0xFF, 0x00]);
    file.extend_from_slice(&[0xFF, 0xD9]);
    assert_eq!(JPEGImage::parse(file).unwrap_err(), DecodeError::EntropyDecodeFailure);
}

#[test]
fn restart_interval_definition_is_unsupported() {
    let mut file = vec![0xFF, 0xD8];
    file.extend(segment(0xDD, &[0x00, 0x04]));
    file.extend_from_slice(&[0xFF, 0xD9]);
    assert_eq!(JPEGImage::parse(file).unwrap_err(), DecodeError::UnsupportedFeature);
}

#[test]
fn unknown_marker_is_never_skipped() {
    let mut file = vec![0xFF, 0xD8];
    file.extend_from_slice(&[0xFF, 0x01, 0x00, 0x02]);
    file.extend_from_slice(&[0xFF, 0xD9]);
    assert_eq!(JPEGImage::parse(file).unwrap_err(), DecodeError::UnrecognizedMarker);
}

#[test]
fn truncated_segment_is_malformed() {
    let mut file = vec![0xFF, 0xD8];
    // a DQT that declares 65 body bytes which are not there
    file.extend_from_slice(&[0xFF, 0xDB, 0x00, 0x43]);
    assert_eq!(JPEGImage::parse(file).unwrap_err(), DecodeError::MalformedHeader);
}

#[test]
fn sampling_factor_three_is_unsupported() {
    let mut file = vec![0xFF, 0xD8];
    file.extend(dqt(0, &[1u8; 64]));
    file.extend(sof0(24, 8, &[(1, 3, 1, 0), (2, 1, 1, 0), (3, 1, 1, 0)]));
    file.extend(dht(0, 0, &counts(&[(1, 1)]), &[0x00]));
    file.extend(dht(1, 0, &counts(&[(1, 1)]), &[0x00]));
    file.extend(sos(&[(1, 0, 0), (2, 0, 0), (3, 0, 0)]));
    file.push(0x3F);
    file.extend_from_slice(&[0xFF, 0xD9]);
    assert_eq!(JPEGImage::parse(file).unwrap_err(), DecodeError::UnsupportedFeature);
}

#[test]
fn strip_entropy_data_collapses_stuffing_and_finds_marker() {
    let data = vec![0x12, 0xFF, 0x00, 0x34, 0xFF, 0xD9];
    let (clean, end) = strip_entropy_data(&data, 0);
    assert_eq!(clean, vec![0x12, 0xFF, 0x34]);
    assert_eq!(end, 4);
    let (clean2, end2) = strip_entropy_data(&data, 6);
    assert_eq!(clean2, Vec::<u8>::new());
    assert_eq!(end2, 6);
}

#[test]
fn stuffed_entropy_bytes_decode_like_unstuffed_ones() {
    // One gray block whose AC literal drives a 0xFF byte into the
    // entropy data, so the file must carry a stuffing byte. The decoded
    // pixels must match running the clean coefficients through the
    // public pipeline by hand.
    let mut ac_values = vec![0x00u8]; // the length-1 code '0' is end-of-block
    for _ in 0..63 {
        ac_values.push(0x01);
    }
    ac_values.push(0x08); // the last length-7 code '1111111' is (run 0, size 8)
    let mut file = vec![0xFF, 0xD8];
    file.extend(dqt(0, &[1u8; 64]));
    file.extend(sof0(8, 8, &[(1, 1, 1, 0)]));
    file.extend(dht(0, 0, &counts(&[(1, 1)]), &[0x00]));
    file.extend(dht(1, 0, &counts(&[(1, 1), (7, 64)]), &ac_values));
    file.extend(sos(&[(1, 0, 0)]));
    let mut bw = BitWriter::new();
    bw.push_bits(0, 1); // DC size 0
    bw.push_bits(0b1111111, 7); // AC symbol (0, 8)
    bw.push_bits(255, 8); // literal 255
    bw.push_bits(0, 1); // end of block
    let entropy = bw.finish_stuffed();
    assert!(entropy.contains(&0xFF) && entropy.contains(&0x00));
    file.extend(entropy);
    file.extend_from_slice(&[0xFF, 0xD9]);

    let image = JPEGImage::parse(file).unwrap();
    let pixels = image.image_data().unwrap();

    // the same block, decoded by hand from its clean coefficients
    let mut coeffs = vec![0i16; 64];
    coeffs[1] = 255; // zigzag position 1
    let spat = discrete_cosine_transform_inverse(&zigzag_inverse(&dequantize(
        &coeffs,
        &vec![1u8; 64],
    )));
    for i in 0..64 {
        let v = (spat[i] + 128).clamp(0, 255) as u8;
        assert_eq!(pixels[i], (v, v, v));
    }
}

#[test]
fn three_component_422_image_replicates_chroma() {
    // 16x8, luma sampled 2x1, chroma 1x1: the chroma blocks are doubled
    // horizontally, so with flat luma every pair of adjacent columns is
    // identical, while the chroma gradient still varies across the row.
    let mut file = vec![0xFF, 0xD8];
    file.extend(app0());
    file.extend(dqt(0, &[1u8; 64]));
    file.extend(sof0(16, 8, &[(1, 2, 1, 0), (2, 1, 1, 0), (3, 1, 1, 0)]));
    file.extend(dht(0, 0, &counts(&[(1, 1)]), &[0x00]));
    file.extend(dht(1, 0, &counts(&[(2, 2)]), &[0x00, 0x0A]));
    file.extend(sos(&[(1, 0, 0), (2, 0, 0), (3, 0, 0)]));
    let mut bw = BitWriter::new();
    // two luma blocks: zero difference, end of block
    for _ in 0..2 {
        bw.push_bits(0, 1);
        bw.push_bits(0b00, 2);
    }
    // Cb block: one size-10 literal (999) at zigzag position 1
    bw.push_bits(0, 1);
    bw.push_bits(0b01, 2);
    bw.push_bits(999, 10);
    bw.push_bits(0b00, 2);
    // Cr block: zero difference, end of block
    bw.push_bits(0, 1);
    bw.push_bits(0b00, 2);
    file.extend(bw.finish_stuffed());
    file.extend_from_slice(&[0xFF, 0xD9]);

    let image = JPEGImage::parse(file).unwrap();
    assert_eq!(image.width(), 16);
    assert_eq!(image.height(), 8);
    let pixels = image.image_data().unwrap();
    assert_eq!(pixels.len(), 16 * 8);
    for y in 0..8 {
        for x in 0..8 {
            let a = pixels[y * 16 + 2 * x];
            let b = pixels[y * 16 + 2 * x + 1];
            assert_eq!(a, b, "columns {} and {} of row {y} differ", 2 * x, 2 * x + 1);
        }
    }
    // the chroma ramp is visible: blue falls from left to right
    assert!(pixels[0].2 > pixels[14].2);
}

#[test]
fn dc_difference_accumulates_across_blocks() {
    // 16x8, one component: two blocks whose DC differences are +2 and
    // +3, with quantization 8 for the DC entry. The first block is flat
    // 128 + 2, the second flat 128 + 5: the running DC carries over.
    let mut file = vec![0xFF, 0xD8];
    let mut quant = [1u8; 64];
    quant[0] = 8;
    file.extend(dqt(0, &quant));
    file.extend(sof0(16, 8, &[(1, 1, 1, 0)]));
    file.extend(dht(0, 0, &counts(&[(1, 1)]), &[0x02]));
    file.extend(dht(1, 0, &counts(&[(1, 1)]), &[0x00]));
    file.extend(sos(&[(1, 0, 0)]));
    let mut bw = BitWriter::new();
    bw.push_bits(0, 1); // DC size symbol -> 2 bits follow
    bw.push_bits(0b10, 2); // raw 2 -> difference +2
    bw.push_bits(0, 1); // end of block
    bw.push_bits(0, 1);
    bw.push_bits(0b11, 2); // raw 3 -> difference +3
    bw.push_bits(0, 1);
    file.extend(bw.finish_stuffed());
    file.extend_from_slice(&[0xFF, 0xD9]);

    let image = JPEGImage::parse(file).unwrap();
    let pixels = image.image_data().unwrap();
    assert_eq!(pixels.len(), 128);
    for y in 0..8 {
        for x in 0..8 {
            assert_eq!(pixels[y * 16 + x], (130, 130, 130));
            assert_eq!(pixels[y * 16 + 8 + x], (133, 133, 133));
        }
    }
}

#[test]
fn odd_width_is_cropped_to_declared_size() {
    // 12x8, one component: two 8x8 blocks decode, but only the declared
    // 12 columns survive; the DC differences make the two blocks
    // distinguishable across the crop boundary.
    let mut file = vec![0xFF, 0xD8];
    let mut quant = [1u8; 64];
    quant[0] = 8;
    file.extend(dqt(0, &quant));
    file.extend(sof0(12, 8, &[(1, 1, 1, 0)]));
    file.extend(dht(0, 0, &counts(&[(1, 1)]), &[0x02]));
    file.extend(dht(1, 0, &counts(&[(1, 1)]), &[0x00]));
    file.extend(sos(&[(1, 0, 0)]));
    let mut bw = BitWriter::new();
    bw.push_bits(0, 1);
    bw.push_bits(0b10, 2); // difference +2
    bw.push_bits(0, 1);
    bw.push_bits(0, 1);
    bw.push_bits(0b11, 2); // difference +3
    bw.push_bits(0, 1);
    file.extend(bw.finish_stuffed());
    file.extend_from_slice(&[0xFF, 0xD9]);

    let image = JPEGImage::parse(file).unwrap();
    assert_eq!(image.width(), 12);
    assert_eq!(image.height(), 8);
    let pixels = image.image_data().unwrap();
    assert_eq!(pixels.len(), 12 * 8);
    for y in 0..8 {
        for x in 0..12 {
            let expected = if x < 8 { 130 } else { 133 };
            assert_eq!(pixels[y * 12 + x], (expected, expected, expected));
        }
    }
}

#[test]
fn unequal_vertical_sampling_is_unsupported() {
    let mut file = vec![0xFF, 0xD8];
    file.extend(dqt(0, &[1u8; 64]));
    file.extend(sof0(16, 16, &[(1, 2, 2, 0), (2, 1, 1, 0), (3, 1, 1, 0)]));
    file.extend(dht(0, 0, &counts(&[(1, 1)]), &[0x00]));
    file.extend(dht(1, 0, &counts(&[(1, 1)]), &[0x00]));
    file.extend(sos(&[(1, 0, 0), (2, 0, 0), (3, 0, 0)]));
    file.push(0x3F);
    file.extend_from_slice(&[0xFF, 0xD9]);
    assert_eq!(JPEGImage::parse(file).unwrap_err(), DecodeError::UnsupportedFeature);
}

#[test]
fn jfif_units_mapping() {
    assert_eq!(JFIFUnits::from_u8(1), JFIFUnits::NoUnits);
    assert_eq!(JFIFUnits::from_u8(2), JFIFUnits::DotsPerInch);
    assert_eq!(JFIFUnits::from_u8(3), JFIFUnits::DotsPerCm);
    assert_eq!(JFIFUnits::from_u8(9), JFIFUnits::Unknown(9));
}

#[test]
fn jfif_version_mapping() {
    assert_eq!(JFIFVersion::from_bytes(1, 1), JFIFVersion::V1_01);
    assert_eq!(JFIFVersion::from_bytes(1, 2), JFIFVersion::V1_02);
    assert_eq!(JFIFVersion::from_bytes(2, 0), JFIFVersion::Unknown(2, 0));
}

#[test]
fn getters_report_header_dimensions() {
    let image = JPEGImage::parse(gray_8x8_file()).unwrap();
    assert_eq!(image.width(), 8);
    assert_eq!(image.height(), 8);
    assert!(image.image_data().is_some());
}
