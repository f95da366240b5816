use jpeg_decoder::error::DecodeError;
use jpeg_decoder::huffman::{value_correction, HuffmanDecoder, Table};

fn counts(pairs: &[(usize, u8)]) -> Vec<u8> {
    let mut v = vec![0u8; 16];
    for &(len, n) in pairs {
        v[len - 1] = n;
    }
    v
}

#[test]
fn canonical_codes_annex_k_dc_luminance() {
    // 0 codes of length 1, 1 of length 2, 5 of length 3, then one each of
    // lengths 4..=9: the standard's example DC luminance table.
    let size_data = counts(&[(2, 1), (3, 5), (4, 1), (5, 1), (6, 1), (7, 1), (8, 1), (9, 1)]);
    let values: Vec<u8> = (0u8..12).collect();
    let table = Table::from_size_data_tables(&size_data, &values).unwrap();

    let len2 = table.codes_of_length(2);
    assert_eq!(len2.len(), 1);
    assert_eq!(len2[0].code, 0b00);
    assert_eq!(len2[0].value, 0);

    let len3 = table.codes_of_length(3);
    let codes3: Vec<u16> = len3.iter().map(|c| c.code).collect();
    assert_eq!(codes3, vec![0b010, 0b011, 0b100, 0b101, 0b110]);
    let vals3: Vec<u8> = len3.iter().map(|c| c.value).collect();
    assert_eq!(vals3, vec![1, 2, 3, 4, 5]);

    assert_eq!(table.codes_of_length(4)[0].code, 0b1110);
    assert_eq!(table.codes_of_length(5)[0].code, 0b11110);
    assert_eq!(table.codes_of_length(6)[0].code, 0b111110);
    assert_eq!(table.codes_of_length(7)[0].code, 0b1111110);
    assert_eq!(table.codes_of_length(8)[0].code, 0b11111110);
    assert_eq!(table.codes_of_length(9)[0].code, 0b111111110);
    assert_eq!(table.codes_of_length(10).len(), 0);
}

#[test]
fn canonical_codes_are_prefix_free() {
    // Collect all (length, code) pairs of a mixed table and check that no
    // code is a bit-prefix of another of greater or equal length.
    let size_data = counts(&[(1, 1), (3, 2), (4, 2), (6, 5)]);
    let values: Vec<u8> = (10u8..20).collect();
    let table = Table::from_size_data_tables(&size_data, &values).unwrap();
    let mut all: Vec<(u32, u16)> = Vec::new();
    for len in 1..=16usize {
        for c in table.codes_of_length(len) {
            all.push((len as u32, c.code));
        }
    }
    assert_eq!(all.len(), 10);
    for &(la, ca) in &all {
        for &(lb, cb) in &all {
            if lb >= la && !(la == lb && ca == cb) {
                assert_ne!(cb >> (lb - la), ca, "one code is a prefix of another");
            }
        }
    }
}

#[test]
fn over_full_histogram_is_rejected() {
    // Three codes of length 1 cannot exist.
    let size_data = counts(&[(1, 3)]);
    let values = vec![0u8, 1, 2];
    assert_eq!(
        Table::from_size_data_tables(&size_data, &values).unwrap_err(),
        DecodeError::MalformedHeader
    );
}

#[test]
fn mismatched_value_table_is_rejected() {
    let size_data = counts(&[(2, 2)]);
    let values = vec![0u8];
    assert_eq!(
        Table::from_size_data_tables(&size_data, &values).unwrap_err(),
        DecodeError::MalformedHeader
    );
}

#[test]
fn short_size_histogram_is_rejected() {
    let size_data = vec![0u8; 15];
    let values: Vec<u8> = Vec::new();
    assert_eq!(
        Table::from_size_data_tables(&size_data, &values).unwrap_err(),
        DecodeError::MalformedHeader
    );
}

#[test]
fn sign_extension_round_trip_small_lengths() {
    // JPEG Table F.2: raw values below the halfway point are negative.
    assert_eq!(value_correction(0, 0), 0);
    let expect2 = [-3i16, -2, 2, 3];
    for raw in 0..4u16 {
        assert_eq!(value_correction(raw, 2), expect2[raw as usize]);
    }
    let expect3 = [-7i16, -6, -5, -4, 4, 5, 6, 7];
    for raw in 0..8u16 {
        assert_eq!(value_correction(raw, 3), expect3[raw as usize]);
    }
}

#[test]
fn sign_extension_round_trip_exhaustive() {
    for len in 1..=10usize {
        let half = 1u16 << (len - 1);
        let full = 1u16 << len;
        for raw in 0..full {
            let v = value_correction(raw, len) as i32;
            if raw < half {
                assert_eq!(v, raw as i32 - (full as i32 - 1));
            } else {
                assert_eq!(v, raw as i32);
            }
        }
    }
    assert_eq!(value_correction(0, 15), -32767);
    assert_eq!(value_correction(32767, 15), 32767);
}

#[test]
fn bit_cursor_reads_msb_first_and_pads() {
    let hd = HuffmanDecoder::new(vec![0b1010_0110, 0xFF]);
    assert_eq!(hd.peek_bits(4), 0b1010);
    assert_eq!(hd.peek_bits(16), 0b1010_0110_1111_1111);
    let mut hd = HuffmanDecoder::new(vec![0b1010_0110]);
    assert_eq!(hd.read_n_bits(3), 0b101);
    assert_eq!(hd.bits_read(), 3);
    assert_eq!(hd.read_n_bits(5), 0b00110);
    assert_eq!(hd.bits_read(), 0);
    // past the end the stream reads the 0xAA fill byte
    assert_eq!(hd.read_n_bits(8), 0xAA);
}

#[test]
fn next_code_takes_shortest_match_and_consumes_it() {
    // '0' -> 7, '10' -> 9, '11 0' is not a code
    let size_data = counts(&[(1, 1), (2, 1)]);
    let values = vec![7u8, 9u8];
    let table = Table::from_size_data_tables(&size_data, &values).unwrap();
    let mut hd = HuffmanDecoder::new(vec![0b0101_0111]);
    assert_eq!(hd.next_code(&table), Some(7));
    assert_eq!(hd.next_code(&table), Some(9));
    assert_eq!(hd.next_code(&table), Some(9));
    assert_eq!(hd.bits_read(), 5);
}

#[test]
fn next_code_reports_no_match_without_consuming() {
    // the only code is '00' but the stream starts with ones
    let size_data = counts(&[(2, 1)]);
    let values = vec![5u8];
    let table = Table::from_size_data_tables(&size_data, &values).unwrap();
    let mut hd = HuffmanDecoder::new(vec![0xFF, 0xFF]);
    assert_eq!(hd.next_code(&table), None);
    assert_eq!(hd.bits_read(), 0);
}

#[test]
fn block_with_value_and_end_of_block() {
    // DC table: '0' -> size 2; AC table: '0' -> end of block
    let dc = Table::from_size_data_tables(&counts(&[(1, 1)]), &vec![2u8]).unwrap();
    let ac = Table::from_size_data_tables(&counts(&[(1, 1)]), &vec![0u8]).unwrap();
    // bits: DC '0', raw "11" (= 3), AC end-of-block '0'
    let mut hd = HuffmanDecoder::new(vec![0b0110_0000]);
    let block = hd.next_block(&ac, &dc).unwrap();
    assert_eq!(block.len(), 64);
    assert_eq!(block[0], 3);
    assert!(block[1..].iter().all(|&c| c == 0));
}

#[test]
fn block_fills_exactly_64_with_zero_runs() {
    // DC '0' -> size 0; AC '0' -> sixteen zeros: four runs fill the 63
    // AC coefficients (the last run truncates to 15) with no end marker.
    let dc = Table::from_size_data_tables(&counts(&[(1, 1)]), &vec![0u8]).unwrap();
    let ac = Table::from_size_data_tables(&counts(&[(1, 1)]), &vec![0xF0u8]).unwrap();
    let mut hd = HuffmanDecoder::new(vec![0b0000_0000]);
    let block = hd.next_block(&ac, &dc).unwrap();
    assert_eq!(block.len(), 64);
    assert!(block.iter().all(|&c| c == 0));
    // exactly 5 symbols of one bit each were consumed
    assert_eq!(hd.bits_read(), 5);
}

#[test]
fn block_with_run_and_value() {
    // DC '0' -> size 0; AC: '0' -> (run 3, size 2), '10' -> end of block
    let dc = Table::from_size_data_tables(&counts(&[(1, 1)]), &vec![0u8]).unwrap();
    let ac = Table::from_size_data_tables(&counts(&[(1, 1), (2, 1)]), &vec![0x32u8, 0x00]).unwrap();
    // bits: DC '0', AC '0', raw "01" (= -2), AC '10' end of block
    let mut hd = HuffmanDecoder::new(vec![0b0001_1000]);
    let block = hd.next_block(&ac, &dc).unwrap();
    assert_eq!(block.len(), 64);
    assert_eq!(&block[0..6], &[0, 0, 0, 0, -2, 0]);
    assert!(block[5..].iter().all(|&c| c == 0));
}

#[test]
fn corrupt_stream_fails_block() {
    // empty tables can never match a code
    let dc = Table::from_size_data_tables(&vec![0u8; 16], &Vec::new()).unwrap();
    let ac = Table::from_size_data_tables(&vec![0u8; 16], &Vec::new()).unwrap();
    let mut hd = HuffmanDecoder::new(vec![0x12, 0x34]);
    assert_eq!(hd.next_block(&ac, &dc).unwrap_err(), DecodeError::EntropyDecodeFailure);
}
