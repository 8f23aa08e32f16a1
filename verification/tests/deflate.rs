use nexora::deflate::{
    deflate, distance_code, distance_symbol, fixed_block, fixed_literal, hash3, length_code,
    length_symbol, stored_blocks, BitWriter, HASH_SIZE, MAX_MATCH, MIN_MATCH, WINDOW,
};

fn inflate(stream: &[u8]) -> Vec<u8> {
    miniz_oxide::inflate::decompress_to_vec(stream).expect("our own output must inflate")
}

fn round_trip(data: &[u8]) -> Vec<u8> {
    inflate(&deflate(data))
}

#[test]
fn every_shape_of_input_survives_the_round_trip() {
    let cases: Vec<Vec<u8>> = vec![
        Vec::new(),
        b"a".to_vec(),
        b"aaaaaaaaaa".to_vec(),
        b"abcabcabcabcabcabc".to_vec(),
        b"the quick brown fox jumps over the lazy dog".repeat(20),
        vec![0u8; 100_000],
        (0..=255u8).cycle().take(50_000).collect(),
        vec![0xFFu8; 3],
    ];
    for case in cases {
        assert_eq!(round_trip(&case), case, "round trip failed on {} bytes", case.len());
    }
}

#[test]
fn a_long_run_becomes_a_handful_of_bytes() {
    let data = vec![0x42u8; 100_000];
    let compressed = deflate(&data);
    assert!(
        compressed.len() < 700,
        "100 KB of one byte compressed to {} bytes, past the 585 the coding allows",
        compressed.len()
    );
    assert_eq!(inflate(&compressed), data);
}

#[test]
fn incompressible_data_falls_back_to_stored_rather_than_growing() {
    let data: Vec<u8> =
        (0..60_000u32).map(|index| (index.wrapping_mul(2_654_435_761) >> 24) as u8).collect();
    let compressed = deflate(&data);
    let stored = stored_blocks(&data);
    assert!(
        compressed.len() <= stored.len(),
        "compressed {} exceeds stored {}",
        compressed.len(),
        stored.len()
    );
    assert_eq!(inflate(&compressed), data);
}

#[test]
fn matches_at_the_edges_of_every_table_entry_round_trip() {
    for index in 0..29usize {
        let (extra, base) = length_code(index);
        for length in [usize::from(base), usize::from(base) + extra as usize] {
            let length = length.min(MAX_MATCH);
            let mut data = vec![0xA5u8; length];
            data.extend(std::iter::repeat_n(0xA5u8, length));
            assert_eq!(round_trip(&data), data, "length {length}");
        }
    }
    for index in 0..30usize {
        let (_, base) = distance_code(index);
        let distance = usize::from(base);
        let mut data: Vec<u8> = (0..distance).map(|index| (index % 251) as u8).collect();
        let tail: Vec<u8> = data[..MIN_MATCH.max(4).min(distance)].to_vec();
        data.extend_from_slice(&tail);
        assert_eq!(round_trip(&data), data, "distance {distance}");
    }
}

#[test]
fn a_match_that_overlaps_itself_round_trips() {
    let mut data = b"x".to_vec();
    data.extend(std::iter::repeat_n(b'x', 200));
    assert_eq!(round_trip(&data), data);

    let mut data = b"abc".to_vec();
    for _ in 0..20 {
        let next = data[data.len() - 3];
        data.push(next);
    }
    assert_eq!(round_trip(&data), data);
}

#[test]
fn bits_and_codes_are_written_in_the_two_orders_deflate_wants() {
    let mut writer = BitWriter::new(4);
    writer.bits(0b101, 3);
    writer.code(0b110, 3);
    let out = writer.finish();
    assert_eq!(out, vec![0b0_011_101], "{out:?}");
}

#[test]
fn the_fixed_code_table_matches_rfc_1951() {
    assert_eq!(fixed_literal(0), (0b0011_0000, 8));
    assert_eq!(fixed_literal(143), (0b1011_1111, 8));
    assert_eq!(fixed_literal(144), (0b1_1001_0000, 9));
    assert_eq!(fixed_literal(255), (0b1_1111_1111, 9));
    assert_eq!(fixed_literal(256), (0b000_0000, 7));
    assert_eq!(fixed_literal(279), (0b001_0111, 7));
    assert_eq!(fixed_literal(280), (0b1100_0000, 8));
    assert_eq!(fixed_literal(287), (0b1100_0111, 8));
}

#[test]
fn the_length_and_distance_tables_cover_their_ranges_without_gaps() {
    for length in MIN_MATCH..=MAX_MATCH {
        let (symbol, extra, bits) = length_symbol(length);
        let (declared_bits, base) = length_code((symbol - 257) as usize);
        assert_eq!(declared_bits, bits, "length {length}");
        assert_eq!(usize::from(base) + extra as usize, length, "length {length}");
        assert!(extra < (1 << bits) || bits == 0, "length {length} overflows its extra bits");
    }
    for distance in 1..=WINDOW {
        let (code, extra, bits) = distance_symbol(distance);
        let (declared_bits, base) = distance_code(code as usize);
        assert_eq!(declared_bits, bits, "distance {distance}");
        assert_eq!(usize::from(base) + extra as usize, distance);
    }
}

#[test]
fn an_empty_input_is_one_empty_final_stored_block() {
    assert_eq!(stored_blocks(&[]), vec![0x01, 0x00, 0x00, 0xFF, 0xFF]);
    assert_eq!(inflate(&stored_blocks(&[])), Vec::<u8>::new());
}

#[test]
fn stored_blocks_split_at_the_largest_block_and_flag_only_the_last() {
    let data: Vec<u8> = (0..70_000u32).map(|i| (i % 253) as u8).collect();
    let out = stored_blocks(&data);
    assert_eq!(out.len(), data.len() + 10);
    assert_eq!(&out[..5], &[0x00, 0xFF, 0xFF, 0x00, 0x00]);
    let second = 5 + 0xFFFF;
    let rest = (70_000 - 0xFFFF) as u16;
    assert_eq!(out[second], 0x01);
    assert_eq!(u16::from_le_bytes([out[second + 1], out[second + 2]]), rest);
    assert_eq!(u16::from_le_bytes([out[second + 3], out[second + 4]]), !rest);
    assert_eq!(inflate(&out), data);
}

#[test]
fn a_fixed_block_alone_inflates_to_its_input() {
    let data = b"abracadabra abracadabra abracadabra".to_vec();
    let block = fixed_block(&data);
    assert_eq!(inflate(&block), data);
    // The first byte carries the final-block flag and the fixed block type.
    assert_eq!(block[0] & 0b111, 0b011);
}

#[test]
fn the_hash_of_three_bytes_stays_inside_the_table() {
    let data: Vec<u8> = (0..=255u8).collect();
    for at in 0..data.len() - 2 {
        assert!(hash3(&data, at) < HASH_SIZE);
    }
    assert_eq!(hash3(b"abc", 0), hash3(b"xabc", 1));
}

#[test]
fn four_equal_bytes_become_a_literal_and_a_match() {
    assert_eq!(fixed_block(b"aaaa"), vec![0x4B, 0x04, 0x02, 0x00]);
}

#[test]
fn empty_input_deflates_to_an_empty_fixed_block() {
    assert_eq!(deflate(&[]), vec![0x03, 0x00]);
}

#[test]
fn deflate_keeps_the_shorter_of_the_two_encodings() {
    let run = vec![0x42_u8; 100_000];
    let noise: Vec<u8> = (0..4096_u32).map(|i| (i.wrapping_mul(2_654_435_761) >> 13) as u8).collect();
    for data in [run.as_slice(), noise.as_slice(), b"abcabcabcabc".as_slice()] {
        let fixed = fixed_block(data);
        let stored = stored_blocks(data);
        let expected = if fixed.len() < stored.len() { fixed } else { stored };
        assert_eq!(deflate(data), expected);
    }
    assert!(deflate(&run).len() < 700);
}
