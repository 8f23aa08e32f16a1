use nexora::hashing::crc32;
use nexora::png::{adler32, encode, encode_raw, signature, zlib_stored, PngError};
use nexora::texture::{ChannelLayout, TextureFormat, TextureMap};

fn map(layout: ChannelLayout, edge: u32) -> TextureMap {
    let bytes = (edge as usize) * (edge as usize) * layout.count() as usize;
    let pixels = (0..bytes).map(|index| (index % 251) as u8).collect();
    TextureMap { format: TextureFormat::eight_bit(layout), width: edge, height: edge, pixels }
}

/// Read the chunks back out of an encoded file.
fn chunks(png: &[u8]) -> Vec<(String, Vec<u8>)> {
    let mut at = signature().len();
    let mut found = Vec::new();
    while at + 8 <= png.len() {
        let len = u32::from_be_bytes(png[at..at + 4].try_into().unwrap()) as usize;
        let kind = String::from_utf8(png[at + 4..at + 8].to_vec()).unwrap();
        let data = png[at + 8..at + 8 + len].to_vec();
        let stated = u32::from_be_bytes(png[at + 8 + len..at + 12 + len].try_into().unwrap());
        assert_eq!(stated, crc32(&png[at + 4..at + 8 + len]), "chunk {kind} carries a wrong CRC");
        found.push((kind, data));
        at += 12 + len;
    }
    assert_eq!(at, png.len(), "trailing bytes after the last chunk");
    found
}

#[test]
fn adler32_matches_the_published_vectors() {
    assert_eq!(adler32(b""), 0x0000_0001);
    assert_eq!(adler32(b"a"), 0x0062_0062);
    assert_eq!(adler32(b"abc"), 0x024D_0127);
    assert_eq!(adler32(b"Wikipedia"), 0x11E6_0398);
    assert_eq!(adler32(&vec![0xFF; 10_000]), 0xB623_EB2B);
}

#[test]
fn crc32_matches_the_published_check_value() {
    assert_eq!(crc32(b"123456789"), 0xCBF4_3926);
    assert_eq!(crc32(b""), 0);
}

#[test]
fn a_file_begins_with_the_signature_and_the_three_required_chunks() {
    let png = encode(&map(ChannelLayout::Rgba, 8)).unwrap();
    assert_eq!(&png[..8], &signature());

    let found = chunks(&png);
    let kinds: Vec<&str> = found.iter().map(|(kind, _)| kind.as_str()).collect();
    assert_eq!(kinds, ["IHDR", "IDAT", "IEND"]);

    let header = &found[0].1;
    assert_eq!(header.len(), 13);
    assert_eq!(u32::from_be_bytes(header[0..4].try_into().unwrap()), 8);
    assert_eq!(u32::from_be_bytes(header[4..8].try_into().unwrap()), 8);
    assert_eq!(header[8], 8, "bit depth");
    assert_eq!(header[9], 6, "colour type RGBA");
    assert_eq!(&header[10..13], &[0, 0, 0]);
    assert!(found[2].1.is_empty(), "IEND carries no data");
}

#[test]
fn every_layout_maps_to_its_png_colour_type() {
    for (layout, expected) in [
        (ChannelLayout::Grey, 0u8),
        (ChannelLayout::Rgb, 2),
        (ChannelLayout::GreyAlpha, 4),
        (ChannelLayout::Rgba, 6),
    ] {
        let png = encode_raw(4, 4, layout, &vec![7; 16 * layout.count() as usize]).unwrap();
        assert_eq!(chunks(&png)[0].1[9], expected, "{layout:?}");
    }
}

#[test]
fn the_zlib_stream_is_well_formed_and_carries_the_scanlines() {
    let source = map(ChannelLayout::Grey, 8);
    let png = encode(&source).unwrap();
    let idat = &chunks(&png)[1].1;

    assert_eq!(&idat[..2], &[0x78, 0x01]);
    assert_eq!((u32::from(idat[0]) * 256 + u32::from(idat[1])) % 31, 0);

    let mut at = 2usize;
    let mut raw = Vec::new();
    loop {
        let header = idat[at];
        assert_eq!(header & 0b110, 0, "BTYPE must be stored");
        let len = u16::from_le_bytes(idat[at + 1..at + 3].try_into().unwrap());
        let nlen = u16::from_le_bytes(idat[at + 3..at + 5].try_into().unwrap());
        assert_eq!(len, !nlen, "LEN and NLEN must be complements");
        raw.extend_from_slice(&idat[at + 5..at + 5 + len as usize]);
        at += 5 + len as usize;
        if header & 1 == 1 {
            break;
        }
    }
    assert_eq!(
        u32::from_be_bytes(idat[at..at + 4].try_into().unwrap()),
        adler32(&raw),
        "the trailing Adler-32 must cover the uncompressed data"
    );
    assert_eq!(at + 4, idat.len(), "trailing bytes in the zlib stream");

    assert_eq!(raw.len(), 8 * 9);
    for (row, chunk) in raw.chunks_exact(9).enumerate() {
        assert_eq!(chunk[0], 0, "row {row} must use filter None");
        assert_eq!(&chunk[1..], &source.pixels[row * 8..row * 8 + 8]);
    }
}

#[test]
fn an_image_larger_than_one_stored_block_is_split_and_still_reassembles() {
    let png = encode(&map(ChannelLayout::Rgba, 128)).unwrap();
    let idat = &chunks(&png)[1].1;

    let mut at = 2usize;
    let mut blocks = 0;
    let mut total = 0usize;
    loop {
        let header = idat[at];
        let len = u16::from_le_bytes(idat[at + 1..at + 3].try_into().unwrap()) as usize;
        blocks += 1;
        total += len;
        at += 5 + len;
        if header & 1 == 1 {
            break;
        }
    }
    assert!(blocks > 1, "expected more than one block, got {blocks}");
    assert_eq!(total, 128 * 128 * 4 + 128);
}

#[test]
fn a_bit_depth_this_encoder_cannot_write_is_refused() {
    let map = TextureMap {
        format: TextureFormat::sixteen_bit(ChannelLayout::Grey),
        width: 8,
        height: 8,
        pixels: vec![0; 8 * 8 * 2],
    };
    let err = encode(&map).expect_err("sixteen bits is not written yet");
    assert_eq!(err, PngError::UnsupportedDepth { bits: 16 });
    assert!(err.message().contains("eight bits"), "{}", err.message());
}

#[test]
fn a_mismatched_buffer_is_refused_before_anything_is_written() {
    assert!(encode_raw(4, 4, ChannelLayout::Rgba, &[0; 63]).is_err());
    assert!(encode_raw(4, 4, ChannelLayout::Rgba, &[0; 65]).is_err());
    assert!(encode_raw(0, 4, ChannelLayout::Grey, &[]).is_err());
    encode_raw(4, 4, ChannelLayout::Rgba, &[0; 64]).expect("the exact size is written");
}

#[test]
fn encoding_is_deterministic() {
    let source = map(ChannelLayout::Rgba, 16);
    assert_eq!(encode(&source).unwrap(), encode(&source).unwrap());
}

#[test]
fn the_zlib_stream_inflates_to_its_input() {
    let data: Vec<u8> = (0..100_000u32).map(|i| (i % 241) as u8).collect();
    let stream = zlib_stored(&data);
    assert_eq!(miniz_oxide::inflate::decompress_to_vec_zlib(&stream).unwrap(), data);
}

#[test]
fn each_refusal_names_its_cause() {
    assert_eq!(
        encode_raw(4, 4, ChannelLayout::Rgba, &[0; 63]),
        Err(PngError::BufferMismatch { expected: 64, found: 63 })
    );
    assert_eq!(encode_raw(0, 4, ChannelLayout::Grey, &[]), Err(PngError::EmptyExtent));
}
