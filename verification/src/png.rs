//! A PNG encoder.
//!
//! Every PNG chunk is checksummed with CRC-32/ISO-HDLC, and `IDAT` carries a
//! zlib stream: a two-byte header, deflate blocks, and the Adler-32 of the
//! uncompressed data. The stream here is made of stored deflate blocks,
//! which every decoder reads because they are the fallback every compressor
//! emits for incompressible data. Scanlines use filter 0, "none".

use vstd::prelude::*;

use crate::deflate::{stored_blocks, stored_spec};
use crate::hashing::{crc32, crc32_spec};
use crate::texture::{ChannelLayout, TextureMap, channel_count};

verus! {

/// The Adler-32 modulus: the largest prime below 2^16.
pub const ADLER_MODULUS: u32 = 65_521;

/// The eight bytes that begin every PNG file.
pub open spec fn signature_spec() -> Seq<u8> {
    seq![0x89u8, 0x50u8, 0x4Eu8, 0x47u8, 0x0Du8, 0x0Au8, 0x1Au8, 0x0Au8]
}

/// The eight bytes that begin every PNG file.
pub fn signature() -> (r: [u8; 8])
    ensures
        r@ == signature_spec(),
{
    let r: [u8; 8] = [0x89, 0x50, 0x4E, 0x47, 0x0D, 0x0A, 0x1A, 0x0A];
    proof {
        assert(r@ =~= signature_spec());
    }
    r
}

/// The two Adler-32 sums after folding `bytes` in, from `(1, 0)`.
pub open spec fn adler_sums(bytes: Seq<u8>) -> (u32, u32)
    decreases bytes.len(),
{
    if bytes.len() == 0 {
        (1, 0)
    } else {
        let (low, high) = adler_sums(bytes.drop_last());
        let next_low = ((low + bytes.last()) % (ADLER_MODULUS as int)) as u32;
        (next_low, ((high + next_low) % (ADLER_MODULUS as int)) as u32)
    }
}

/// Adler-32 as zlib defines it: the high sum above the low sum.
pub open spec fn adler32_spec(bytes: Seq<u8>) -> u32 {
    let (low, high) = adler_sums(bytes);
    (high << 16u32) | low
}

proof fn lemma_adler_sums_bounded(bytes: Seq<u8>)
    ensures
        adler_sums(bytes).0 < ADLER_MODULUS,
        adler_sums(bytes).1 < ADLER_MODULUS,
    decreases bytes.len(),
{
    if bytes.len() > 0 {
        lemma_adler_sums_bounded(bytes.drop_last());
    }
}

/// Adler-32, as zlib defines it: two running sums modulo 65521.
pub fn adler32(data: &[u8]) -> (r: u32)
    ensures
        r == adler32_spec(data@),
{
    let mut low: u32 = 1;
    let mut high: u32 = 0;
    let mut i: usize = 0;
    while i < data.len()
        invariant
            i <= data@.len(),
            (low, high) == adler_sums(data@.take(i as int)),
        decreases data.len() - i,
    {
        proof {
            assert(data@.take(i + 1).drop_last() =~= data@.take(i as int));
            lemma_adler_sums_bounded(data@.take(i as int));
        }
        low = (low + data[i] as u32) % ADLER_MODULUS;
        high = (high + low) % ADLER_MODULUS;
        i += 1;
    }
    proof {
        assert(data@.take(i as int) =~= data@);
    }
    (high << 16) | low
}

/// A `u32` as four big-endian bytes.
pub open spec fn be32(v: u32) -> Seq<u8> {
    seq![(v >> 24u32) as u8, (v >> 16u32) as u8, (v >> 8u32) as u8, v as u8]
}

fn push_be32(out: &mut Vec<u8>, v: u32)
    ensures
        final(out)@ == old(out)@ + be32(v),
{
    out.push((v >> 24) as u8);
    out.push((v >> 16) as u8);
    out.push((v >> 8) as u8);
    out.push(v as u8);
    proof {
        assert(final(out)@ =~= old(out)@ + be32(v));
    }
}

fn push_all(out: &mut Vec<u8>, data: &[u8])
    ensures
        final(out)@ == old(out)@ + data@,
{
    let ghost start = out@;
    let mut i: usize = 0;
    while i < data.len()
        invariant
            i <= data@.len(),
            out@ == start + data@.take(i as int),
        decreases data.len() - i,
    {
        out.push(data[i]);
        i += 1;
        proof {
            assert(out@ =~= start + data@.take(i as int));
        }
    }
    proof {
        assert(data@.take(i as int) =~= data@);
    }
}

/// The zlib header: deflate, 32 KiB window, no preset dictionary. The two
/// bytes read as one big-endian number are divisible by 31.
pub open spec fn zlib_header() -> Seq<u8> {
    seq![0x78u8, 0x01u8]
}

/// A zlib stream of stored deflate blocks.
pub open spec fn zlib_stored_spec(data: Seq<u8>) -> Seq<u8> {
    zlib_header() + stored_spec(data) + be32(adler32_spec(data))
}

/// Wrap bytes in a zlib stream made of stored deflate blocks.
pub fn zlib_stored(data: &[u8]) -> (out: Vec<u8>)
    ensures
        out@ == zlib_stored_spec(data@),
{
    let mut out: Vec<u8> = Vec::new();
    out.push(0x78);
    out.push(0x01);
    let blocks = stored_blocks(data);
    push_all(&mut out, blocks.as_slice());
    push_be32(&mut out, adler32(data));
    proof {
        assert(out@ =~= zlib_stored_spec(data@));
    }
    out
}

/// Length, type, data, CRC: the shape of every PNG chunk. The CRC covers
/// the type and the data, and not the length.
pub open spec fn chunk_spec(kind: Seq<u8>, data: Seq<u8>) -> Seq<u8> {
    be32(data.len() as u32) + kind + data + be32(crc32_spec(kind + data))
}

/// Append one chunk.
pub fn write_chunk(out: &mut Vec<u8>, kind: &[u8; 4], data: &[u8])
    ensures
        final(out)@ == old(out)@ + chunk_spec(kind@, data@),
{
    push_be32(out, data.len() as u32);
    let mut covered: Vec<u8> = Vec::new();
    push_all(&mut covered, kind.as_slice());
    push_all(&mut covered, data);
    push_all(out, covered.as_slice());
    push_be32(out, crc32(covered.as_slice()));
    proof {
        assert(final(out)@ =~= old(out)@ + chunk_spec(kind@, data@));
    }
}

/// PNG's colour type for a channel layout: these four are exactly PNG's
/// four non-indexed types.
pub open spec fn color_type_spec(layout: ChannelLayout) -> u8 {
    match layout {
        ChannelLayout::Grey => 0,
        ChannelLayout::Rgb => 2,
        ChannelLayout::GreyAlpha => 4,
        ChannelLayout::Rgba => 6,
    }
}

/// PNG's colour type for a channel layout.
pub fn color_type(layout: ChannelLayout) -> (r: u8)
    ensures
        r == color_type_spec(layout),
{
    match layout {
        ChannelLayout::Grey => 0,
        ChannelLayout::Rgb => 2,
        ChannelLayout::GreyAlpha => 4,
        ChannelLayout::Rgba => 6,
    }
}

/// The first `rows` scanlines, each a zero filter byte and `stride` samples.
pub open spec fn scanlines(pixels: Seq<u8>, stride: int, rows: int) -> Seq<u8>
    decreases rows,
{
    if rows <= 0 {
        Seq::empty()
    } else {
        scanlines(pixels, stride, rows - 1) + seq![0u8] + pixels.subrange(
            (rows - 1) * stride,
            rows * stride,
        )
    }
}

/// The thirteen bytes of an `IHDR` chunk for eight-bit samples.
pub open spec fn ihdr_spec(width: u32, height: u32, layout: ChannelLayout) -> Seq<u8> {
    be32(width) + be32(height) + seq![8u8, color_type_spec(layout), 0u8, 0u8, 0u8]
}

/// The chunk type names, as bytes.
pub open spec fn ihdr_kind() -> Seq<u8> {
    seq![0x49u8, 0x48u8, 0x44u8, 0x52u8]
}

/// `IDAT`.
pub open spec fn idat_kind() -> Seq<u8> {
    seq![0x49u8, 0x44u8, 0x41u8, 0x54u8]
}

/// `IEND`.
pub open spec fn iend_kind() -> Seq<u8> {
    seq![0x49u8, 0x45u8, 0x4Eu8, 0x44u8]
}

/// The whole file: signature, header, image data, end.
pub open spec fn png_spec(width: u32, height: u32, layout: ChannelLayout, pixels: Seq<u8>) -> Seq<u8> {
    let stride = width * channel_count(layout);
    signature_spec() + chunk_spec(ihdr_kind(), ihdr_spec(width, height, layout)) + chunk_spec(
        idat_kind(),
        zlib_stored_spec(scanlines(pixels, stride, height as int)),
    ) + chunk_spec(iend_kind(), Seq::empty())
}

/// Why a texture could not be encoded.
#[derive(Debug, Clone, Copy, PartialEq, Eq, Structural)]
pub enum PngError {
    /// The map is not eight bits per channel.
    UnsupportedDepth { bits: u8 },
    /// The pixel buffer does not hold exactly width × height × channels samples.
    BufferMismatch { expected: u128, found: usize },
    /// The width or the height is zero.
    EmptyExtent,
}

/// The text of an encoding error.
pub open spec fn png_error_text(e: PngError) -> Seq<char> {
    match e {
        PngError::UnsupportedDepth { .. } => "this encoder writes eight bits per channel"@,
        PngError::BufferMismatch { .. } => "pixel buffer does not match the dimensions"@,
        PngError::EmptyExtent => "a PNG needs a non-zero extent"@,
    }
}

impl PngError {
    /// A description of the error.
    pub fn message(&self) -> (r: String)
        ensures
            r@ == png_error_text(*self),
    {
        let text = match self {
            PngError::UnsupportedDepth { .. } => "this encoder writes eight bits per channel",
            PngError::BufferMismatch { .. } => "pixel buffer does not match the dimensions",
            PngError::EmptyExtent => "a PNG needs a non-zero extent",
        };
        text.to_owned()
    }
}

/// Encode raw eight-bit pixels as a PNG file.
///
/// Refused when the buffer length does not match the dimensions and layout
/// exactly, and then when either dimension is zero.
pub fn encode_raw(width: u32, height: u32, layout: ChannelLayout, pixels: &[u8]) -> (r: Result<
    Vec<u8>,
    PngError,
>)
    ensures
        ({
            let expected = width * channel_count(layout) * height;
            if pixels@.len() != expected {
                r == Err::<Vec<u8>, PngError>(
                    PngError::BufferMismatch { expected: expected as u128, found: pixels@.len() as usize },
                )
            } else if width == 0 || height == 0 {
                r == Err::<Vec<u8>, PngError>(PngError::EmptyExtent)
            } else {
                r matches Ok(out) && out@ == png_spec(width, height, layout, pixels@)
            }
        }),
{
    let count = layout.count();
    proof {
        let (w, c, h) = (width as int, count as int, height as int);
        assert(w * c * h <= 0xFFFF_FFFF * 4 * 0xFFFF_FFFF) by (nonlinear_arith)
            requires
                0 <= w <= 0xFFFF_FFFF,
                0 <= c <= 4,
                0 <= h <= 0xFFFF_FFFF,
        ;
    }
    let expected: u128 = (width as u128) * (count as u128) * (height as u128);
    if (pixels.len() as u128) != expected {
        return Err(PngError::BufferMismatch { expected, found: pixels.len() });
    }
    if width == 0 || height == 0 {
        return Err(PngError::EmptyExtent);
    }
    let ghost stride_spec = width * channel_count(layout);
    proof {
        assert(stride_spec <= width * channel_count(layout) * height) by (nonlinear_arith)
            requires
                height >= 1,
                stride_spec == width * channel_count(layout),
                stride_spec >= 0,
        ;
    }
    let stride: usize = (width as usize) * (count as usize);
    let mut raw: Vec<u8> = Vec::new();
    let mut row: u32 = 0;
    let total = pixels.len();
    while row < height
        invariant
            total == pixels@.len(),
            pixels@.len() == stride * height,
            stride == stride_spec,
            row <= height,
            raw@ == scanlines(pixels@, stride as int, row as int),
        decreases height - row,
    {
        proof {
            assert(row * stride + stride <= stride * height) by (nonlinear_arith)
                requires
                    row < height,
                    stride >= 0,
            ;
            assert((row + 1) * stride == row * stride + stride) by (nonlinear_arith);
        }
        let start = (row as usize) * stride;
        raw.push(0);
        let mut i: usize = 0;
        let ghost before = raw@;
        while i < stride
            invariant
                total == pixels@.len(),
                pixels@.len() == stride * height,
                start + stride <= pixels@.len(),
                i <= stride,
                raw@ == before + pixels@.subrange(start as int, start + i),
            decreases stride - i,
        {
            raw.push(pixels[start + i]);
            i += 1;
            proof {
                assert(raw@ =~= before + pixels@.subrange(start as int, start + i));
            }
        }
        row += 1;
        proof {
            assert(raw@ =~= scanlines(pixels@, stride as int, row as int));
        }
    }
    let mut out: Vec<u8> = Vec::new();
    push_all(&mut out, signature().as_slice());
    let mut header: Vec<u8> = Vec::new();
    push_be32(&mut header, width);
    push_be32(&mut header, height);
    header.push(8);
    header.push(color_type(layout));
    header.push(0);
    header.push(0);
    header.push(0);
    write_chunk(&mut out, &[0x49, 0x48, 0x44, 0x52], header.as_slice());
    let stream = zlib_stored(raw.as_slice());
    write_chunk(&mut out, &[0x49, 0x44, 0x41, 0x54], stream.as_slice());
    let empty: Vec<u8> = Vec::new();
    write_chunk(&mut out, &[0x49, 0x45, 0x4E, 0x44], empty.as_slice());
    proof {
        assert(header@ =~= ihdr_spec(width, height, layout));
        assert(empty@ =~= Seq::<u8>::empty());
        assert(out@ =~= png_spec(width, height, layout, pixels@));
    }
    Ok(out)
}

/// Encode a texture map as a PNG file.
///
/// Refused when the map is not eight bits per channel: refusing is better
/// than writing a file whose header claims something the bytes do not say.
pub fn encode(map: &TextureMap) -> (r: Result<Vec<u8>, PngError>)
    ensures
        map.format.bits_per_channel != 8 ==> r == Err::<Vec<u8>, PngError>(
            PngError::UnsupportedDepth { bits: map.format.bits_per_channel },
        ),
        map.format.bits_per_channel == 8 ==> ({
            let expected = map.width * channel_count(map.format.channels) * map.height;
            if map.pixels@.len() != expected {
                r == Err::<Vec<u8>, PngError>(
                    PngError::BufferMismatch {
                        expected: expected as u128,
                        found: map.pixels@.len() as usize,
                    },
                )
            } else if map.width == 0 || map.height == 0 {
                r == Err::<Vec<u8>, PngError>(PngError::EmptyExtent)
            } else {
                r matches Ok(out) && out@ == png_spec(
                    map.width,
                    map.height,
                    map.format.channels,
                    map.pixels@,
                )
            }
        }),
{
    if map.format.bits_per_channel != 8 {
        return Err(PngError::UnsupportedDepth { bits: map.format.bits_per_channel });
    }
    encode_raw(map.width, map.height, map.format.channels, map.pixels.as_slice())
}

} // verus!
