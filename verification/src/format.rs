//! The file format around the bitstream: a fixed fourteen-byte header with
//! the magic signature, color type, pixel depth and big-endian dimensions.

use crate::error::DecompressionError;
use vstd::arithmetic::div_mod::{lemma_div_denominator, lemma_fundamental_div_mod};
use vstd::prelude::*;

verus! {

/// Supported color types by the felics compression algorithm.
#[derive(Debug, PartialEq, Eq, Structural, Clone, Copy)]
pub enum ColorType {
    Gray,
    Rgb,
}

/// Supported pixel depths by the felics compression algorithm.
#[derive(Debug, PartialEq, Eq, Structural, Clone, Copy)]
pub enum PixelDepth {
    Eight,
    Sixteen,
}

/// The fixed-layout header that starts every compressed file.
#[derive(Debug, PartialEq, Eq, Structural, Clone, Copy)]
pub struct Header {
    pub color_type: ColorType,
    pub pixel_depth: PixelDepth,
    pub width: u32,
    pub height: u32,
}

/// The byte that encodes a color type.
pub open spec fn color_type_byte(c: ColorType) -> u8 {
    match c {
        ColorType::Gray => 0,
        ColorType::Rgb => 1,
    }
}

/// The byte that encodes a pixel depth.
pub open spec fn pixel_depth_byte(d: PixelDepth) -> u8 {
    match d {
        PixelDepth::Eight => 0,
        PixelDepth::Sixteen => 1,
    }
}

/// The four big-endian bytes of a 32-bit value.
pub open spec fn be32_bytes(v: u32) -> Seq<u8> {
    seq![
        (v / 0x1000000) as u8,
        ((v / 0x10000) % 0x100) as u8,
        ((v / 0x100) % 0x100) as u8,
        (v % 0x100) as u8,
    ]
}

/// The value of four big-endian bytes.
pub open spec fn be32_val(s: Seq<u8>) -> u32
    recommends
        s.len() == 4,
{
    (s[0] * 0x1000000 + s[1] * 0x10000 + s[2] * 0x100 + s[3]) as u32
}

/// Reading back the four big-endian bytes of a value recovers it.
pub proof fn lemma_be32_round_trip(v: u32)
    ensures
        be32_val(be32_bytes(v)) == v,
{
    lemma_fundamental_div_mod(v as int, 0x100);
    lemma_fundamental_div_mod(v as int / 0x100, 0x100);
    lemma_fundamental_div_mod(v as int / 0x10000, 0x100);
    lemma_div_denominator(v as int, 0x100, 0x100);
    lemma_div_denominator(v as int, 0x10000, 0x100);
}

/// The fourteen header bytes: the magic signature `FLCS`, the color type,
/// the pixel depth, and the big-endian width and height.
pub open spec fn header_bytes(h: Header) -> Seq<u8> {
    seq![70u8, 76u8, 67u8, 83u8, color_type_byte(h.color_type), pixel_depth_byte(h.pixel_depth)]
        + be32_bytes(h.width) + be32_bytes(h.height)
}

/// What parsing a header from the start of a byte stream yields: the header,
/// or the error. A short stream is `Truncated`; a wrong signature or an
/// unknown discriminant byte is rejected.
pub open spec fn header_parse(bytes: Seq<u8>) -> Result<Header, DecompressionError> {
    if bytes.len() < 14 {
        Err(DecompressionError::Truncated)
    } else if !(bytes[0] == 70 && bytes[1] == 76 && bytes[2] == 67 && bytes[3] == 83) {
        Err(DecompressionError::InvalidSignature)
    } else if bytes[4] != 0 && bytes[4] != 1 {
        Err(DecompressionError::InvalidColorType)
    } else if bytes[5] != 0 && bytes[5] != 1 {
        Err(DecompressionError::InvalidPixelDepth)
    } else {
        Ok(
            Header {
                color_type: if bytes[4] == 0 {
                    ColorType::Gray
                } else {
                    ColorType::Rgb
                },
                pixel_depth: if bytes[5] == 0 {
                    PixelDepth::Eight
                } else {
                    PixelDepth::Sixteen
                },
                width: be32_val(bytes.subrange(6, 10)),
                height: be32_val(bytes.subrange(10, 14)),
            },
        )
    }
}

/// Parsing the bytes written for a header, with anything after them,
/// recovers the header exactly.
pub proof fn lemma_header_round_trip(h: Header, rest: Seq<u8>)
    ensures
        header_parse(header_bytes(h) + rest) == Ok::<Header, DecompressionError>(h),
{
    let bytes = header_bytes(h) + rest;
    assert(bytes.subrange(6, 10) =~= be32_bytes(h.width));
    assert(bytes.subrange(10, 14) =~= be32_bytes(h.height));
    lemma_be32_round_trip(h.width);
    lemma_be32_round_trip(h.height);
}

/// Appends the four big-endian bytes of a value.
fn push_be32(to: &mut Vec<u8>, v: u32)
    requires
        old(to)@.len() + 4 <= usize::MAX,
    ensures
        final(to)@ == old(to)@ + be32_bytes(v),
{
    to.push((v / 0x1000000) as u8);
    to.push(((v / 0x10000) % 0x100) as u8);
    to.push(((v / 0x100) % 0x100) as u8);
    to.push((v % 0x100) as u8);
    proof {
        assert(final(to)@ =~= old(to)@ + be32_bytes(v));
    }
}

/// Appends the header bytes to the given buffer.
pub fn write_header(header: Header, to: &mut Vec<u8>)
    requires
        old(to)@.len() + 14 <= usize::MAX,
    ensures
        final(to)@ == old(to)@ + header_bytes(header),
{
    to.push(70);
    to.push(76);
    to.push(67);
    to.push(83);
    to.push(match header.color_type {
        ColorType::Gray => 0,
        ColorType::Rgb => 1,
    });
    to.push(match header.pixel_depth {
        PixelDepth::Eight => 0,
        PixelDepth::Sixteen => 1,
    });
    push_be32(to, header.width);
    push_be32(to, header.height);
    proof {
        assert(final(to)@ =~= old(to)@ + header_bytes(header));
    }
}

/// Parses the header from the start of the given bytes.
pub fn read_header(from: &Vec<u8>) -> (r: Result<Header, DecompressionError>)
    ensures
        r == header_parse(from@),
{
    if from.len() < 14 {
        return Err(DecompressionError::Truncated);
    }
    if !(from[0] == 70 && from[1] == 76 && from[2] == 67 && from[3] == 83) {
        return Err(DecompressionError::InvalidSignature);
    }
    let color_type = if from[4] == 0 {
        ColorType::Gray
    } else if from[4] == 1 {
        ColorType::Rgb
    } else {
        return Err(DecompressionError::InvalidColorType);
    };
    let pixel_depth = if from[5] == 0 {
        PixelDepth::Eight
    } else if from[5] == 1 {
        PixelDepth::Sixteen
    } else {
        return Err(DecompressionError::InvalidPixelDepth);
    };
    let width = read_be32(from, 6);
    let height = read_be32(from, 10);
    proof {
        assert(from@.subrange(6, 10) =~= seq![from@[6], from@[7], from@[8], from@[9]]);
        assert(from@.subrange(10, 14) =~= seq![from@[10], from@[11], from@[12], from@[13]]);
    }
    Ok(Header { color_type, pixel_depth, width, height })
}

/// Reads four big-endian bytes starting at `at`.
fn read_be32(from: &Vec<u8>, at: usize) -> (r: u32)
    requires
        at + 4 <= from@.len(),
    ensures
        r == be32_val(seq![from@[at as int], from@[at + 1], from@[at + 2], from@[at + 3]]),
{
    proof {
        vstd::std_specs::vec::axiom_spec_len(from);
    }
    let b0 = from[at] as u32;
    let b1 = from[at + 1] as u32;
    let b2 = from[at + 2] as u32;
    let b3 = from[at + 3] as u32;
    b0 * 0x1000000 + b1 * 0x10000 + b2 * 0x100 + b3
}

} // verus!
