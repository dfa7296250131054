//! The image-level codec: dispatch on color type and pixel depth, the
//! YCoCg-R transform for RGB images, per-channel compression in a fixed
//! order, and the byte-aligned file around it.

use crate::bitio::{pack_msb, pad_len, BitReader, BitSink, BitWriter};
use crate::bitio::bytes_to_bits;
use crate::channel::{
    chan_bits, chan_dec, chan_vals_ok, compress_channel, decompress_channel, lemma_chan_bits_len,
    lemma_chan_dec_ok, lemma_chan_round_trip, lit_hi, lit_lo, opts_wf, params_of, ChanParams,
    CodingOptions, Literal,
};
use crate::color_transform::{rgb_of, rgb_to_ycocg, ycocg_of, ycocg_to_rgb};
use crate::error::DecompressionError;
use crate::format::{
    header_bytes, header_parse, read_header, write_header, ColorType, Header, PixelDepth,
};
use vstd::prelude::*;

verus! {

/// A raw image: the samples of each kind, in raster order, with RGB
/// channels interleaved.
#[allow(inconsistent_fields)]
#[derive(Debug, PartialEq, Eq)]
pub enum Image {
    Luma8 { width: u32, height: u32, data: Vec<u8> },
    Luma16 { width: u32, height: u32, data: Vec<u16> },
    Rgb8 { width: u32, height: u32, data: Vec<u8> },
    Rgb16 { width: u32, height: u32, data: Vec<u16> },
}

impl Image {
    /// The image's header.
    pub open spec fn spec_header(&self) -> Header {
        match *self {
            Image::Luma8 { width, height, .. } => Header {
                color_type: ColorType::Gray,
                pixel_depth: PixelDepth::Eight,
                width,
                height,
            },
            Image::Luma16 { width, height, .. } => Header {
                color_type: ColorType::Gray,
                pixel_depth: PixelDepth::Sixteen,
                width,
                height,
            },
            Image::Rgb8 { width, height, .. } => Header {
                color_type: ColorType::Rgb,
                pixel_depth: PixelDepth::Eight,
                width,
                height,
            },
            Image::Rgb16 { width, height, .. } => Header {
                color_type: ColorType::Rgb,
                pixel_depth: PixelDepth::Sixteen,
                width,
                height,
            },
        }
    }

    /// The samples in storage order, widened to signed integers.
    pub open spec fn samples(&self) -> Seq<i32> {
        match *self {
            Image::Luma8 { data, .. } => data@.map_values(|v: u8| v as i32),
            Image::Luma16 { data, .. } => data@.map_values(|v: u16| v as i32),
            Image::Rgb8 { data, .. } => data@.map_values(|v: u8| v as i32),
            Image::Rgb16 { data, .. } => data@.map_values(|v: u16| v as i32),
        }
    }

    /// The sample buffer matches the dimensions: one sample per pixel for
    /// grayscale, three for RGB, and the pixel count fits 32 bits.
    pub open spec fn wf(&self) -> bool {
        match *self {
            Image::Luma8 { width, height, data } => {
                &&& data@.len() == width * height
                &&& width * height <= u32::MAX
            },
            Image::Luma16 { width, height, data } => {
                &&& data@.len() == width * height
                &&& width * height <= u32::MAX
            },
            Image::Rgb8 { width, height, data } => {
                &&& data@.len() == 3 * (width * height)
                &&& width * height <= u32::MAX
            },
            Image::Rgb16 { width, height, data } => {
                &&& data@.len() == 3 * (width * height)
                &&& width * height <= u32::MAX
            },
        }
    }
}

/// The candidate Rice parameters for a channel kind.
pub open spec fn spec_k_list(l: Literal) -> Seq<u8> {
    match l {
        Literal::Gray8 => seq![0u8, 1u8, 2u8, 3u8, 4u8, 5u8],
        Literal::Rgb8 => seq![0u8, 1u8, 2u8, 3u8, 4u8, 5u8],
        Literal::Gray16 => seq![
            0u8, 1u8, 2u8, 3u8, 4u8, 5u8, 6u8, 7u8, 8u8, 9u8, 10u8, 11u8, 12u8, 13u8, 14u8,
        ],
        Literal::Rgb16 => seq![
            0u8, 1u8, 2u8, 3u8, 4u8, 5u8, 6u8, 7u8, 8u8, 9u8, 10u8, 11u8, 12u8, 13u8, 14u8,
        ],
    }
}

/// The standard coding parameters of a channel kind: its candidate list,
/// the exact maximum context of its sample range, and count scaling at
/// 1024.
pub open spec fn spec_options(l: Literal) -> ChanParams {
    ChanParams {
        max_context: (lit_hi(l) - lit_lo(l)) as nat,
        ks: spec_k_list(l),
        halve_at: Some(1024u32),
        lit: l,
    }
}

/// Builds the standard coding parameters of a channel kind.
pub fn coding_options(l: Literal) -> (r: CodingOptions)
    ensures
        opts_wf(r),
        params_of(r) == spec_options(l),
{
    let mut k_values: Vec<u8> = Vec::new();
    let max_context: u32;
    match l {
        Literal::Gray8 => {
            max_context = 255;
        },
        Literal::Gray16 => {
            max_context = 65535;
        },
        Literal::Rgb8 => {
            max_context = 510;
        },
        Literal::Rgb16 => {
            max_context = 131070;
        },
    }
    let deep = match l {
        Literal::Gray8 => false,
        Literal::Rgb8 => false,
        Literal::Gray16 => true,
        Literal::Rgb16 => true,
    };
    k_values.push(0);
    k_values.push(1);
    k_values.push(2);
    k_values.push(3);
    k_values.push(4);
    k_values.push(5);
    if deep {
        k_values.push(6);
        k_values.push(7);
        k_values.push(8);
        k_values.push(9);
        k_values.push(10);
        k_values.push(11);
        k_values.push(12);
        k_values.push(13);
        k_values.push(14);
    }
    proof {
        assert(k_values@ =~= spec_k_list(l));
    }
    let r = CodingOptions { max_context, k_values, periodic_count_scaling: Some(1024), literal: l };
    proof {
        assert(params_of(r) == spec_options(l));
    }
    r
}

/// The Y channel of an interleaved RGB sample sequence.
pub open spec fn y_channel(samples: Seq<i32>, n: nat) -> Seq<i32> {
    Seq::new(
        n,
        |i: int|
            ycocg_of(
                samples[3 * i] as int,
                samples[3 * i + 1] as int,
                samples[3 * i + 2] as int,
            ).0 as i32,
    )
}

/// The Co channel of an interleaved RGB sample sequence.
pub open spec fn co_channel(samples: Seq<i32>, n: nat) -> Seq<i32> {
    Seq::new(
        n,
        |i: int|
            ycocg_of(
                samples[3 * i] as int,
                samples[3 * i + 1] as int,
                samples[3 * i + 2] as int,
            ).1 as i32,
    )
}

/// The Cg channel of an interleaved RGB sample sequence.
pub open spec fn cg_channel(samples: Seq<i32>, n: nat) -> Seq<i32> {
    Seq::new(
        n,
        |i: int|
            ycocg_of(
                samples[3 * i] as int,
                samples[3 * i + 1] as int,
                samples[3 * i + 2] as int,
            ).2 as i32,
    )
}

/// All the bits of the image's payload: the channels in their fixed order,
/// bit-concatenated without per-channel alignment.
pub open spec fn image_bits(img: Image) -> Seq<bool> {
    let w = img.spec_header().width as nat;
    let h = img.spec_header().height as nat;
    match img {
        Image::Luma8 { .. } => chan_bits(img.samples(), w, h, spec_options(Literal::Gray8)),
        Image::Luma16 { .. } => chan_bits(img.samples(), w, h, spec_options(Literal::Gray16)),
        Image::Rgb8 { .. } => {
            let o = spec_options(Literal::Rgb8);
            let n = (w * h) as nat;
            chan_bits(y_channel(img.samples(), n), w, h, o) + chan_bits(
                co_channel(img.samples(), n),
                w,
                h,
                o,
            ) + chan_bits(cg_channel(img.samples(), n), w, h, o)
        },
        Image::Rgb16 { .. } => {
            let o = spec_options(Literal::Rgb16);
            let n = (w * h) as nat;
            chan_bits(y_channel(img.samples(), n), w, h, o) + chan_bits(
                co_channel(img.samples(), n),
                w,
                h,
                o,
            ) + chan_bits(cg_channel(img.samples(), n), w, h, o)
        },
    }
}

/// The complete compressed file: the header bytes, then the payload bits
/// padded with zero bits to the next byte boundary.
pub open spec fn image_bytes(img: Image) -> Seq<u8> {
    header_bytes(img.spec_header()) + pack_msb(
        image_bits(img) + Seq::new(pad_len(image_bits(img).len()), |j: int| false),
    )
}


/// Widens bytes to signed samples.
fn widen8(data: &Vec<u8>) -> (r: Vec<i32>)
    ensures
        r@ == data@.map_values(|v: u8| v as i32),
{
    let ghost target = data@.map_values(|v: u8| v as i32);
    let mut out: Vec<i32> = Vec::new();
    let mut idx: usize = 0;
    proof {
        assert(target.take(0) =~= Seq::<i32>::empty());
    }
    while idx < data.len()
        invariant
            idx <= data@.len(),
            target == data@.map_values(|v: u8| v as i32),
            out@ == target.take(idx as int),
        decreases data@.len() - idx,
    {
        out.push(data[idx] as i32);
        proof {
            assert(target.take(idx + 1) =~= target.take(idx as int).push(target[idx as int]));
        }
        idx = idx + 1;
    }
    proof {
        assert(target.take(data@.len() as int) =~= target);
    }
    out
}

/// Widens 16-bit samples to signed samples.
fn widen16(data: &Vec<u16>) -> (r: Vec<i32>)
    ensures
        r@ == data@.map_values(|v: u16| v as i32),
{
    let ghost target = data@.map_values(|v: u16| v as i32);
    let mut out: Vec<i32> = Vec::new();
    let mut idx: usize = 0;
    proof {
        assert(target.take(0) =~= Seq::<i32>::empty());
    }
    while idx < data.len()
        invariant
            idx <= data@.len(),
            target == data@.map_values(|v: u16| v as i32),
            out@ == target.take(idx as int),
        decreases data@.len() - idx,
    {
        out.push(data[idx] as i32);
        proof {
            assert(target.take(idx + 1) =~= target.take(idx as int).push(target[idx as int]));
        }
        idx = idx + 1;
    }
    proof {
        assert(target.take(data@.len() as int) =~= target);
    }
    out
}

/// The payload of a compressed grayscale channel, byte aligned.
fn gray_payload(channel: &Vec<i32>, width: u32, height: u32, l: Literal) -> (r: Vec<u8>)
    requires
        l == Literal::Gray8 || l == Literal::Gray16,
        chan_vals_ok(channel@, spec_options(l)),
        channel@.len() == width * height,
        width * height <= u32::MAX,
        chan_bits(channel@, width as nat, height as nat, spec_options(l)).len() + 8
            <= usize::MAX,
    ensures
        ({
            let bits = chan_bits(channel@, width as nat, height as nat, spec_options(l));
            r@ == pack_msb(bits + Seq::new(pad_len(bits.len()), |j: int| false))
        }),
{
    let options = coding_options(l);
    let mut bw = BitWriter::new();
    proof {
        assert(Seq::<bool>::empty() + chan_bits(
            channel@,
            width as nat,
            height as nat,
            spec_options(l),
        ) =~= chan_bits(channel@, width as nat, height as nat, spec_options(l)));
    }
    compress_channel(channel, width, height, &options, &mut bw);
    bw.byte_align();
    bw.into_bytes()
}

/// Splits interleaved RGB bytes into the transformed Y, Co and Cg channels.
fn split_rgb8(data: &Vec<u8>, n: usize) -> (r: (Vec<i32>, Vec<i32>, Vec<i32>))
    requires
        data@.len() == 3 * n,
    ensures
        ({
            let samples = data@.map_values(|v: u8| v as i32);
            &&& r.0@ == y_channel(samples, n as nat)
            &&& r.1@ == co_channel(samples, n as nat)
            &&& r.2@ == cg_channel(samples, n as nat)
            &&& chan_vals_ok(r.0@, spec_options(Literal::Rgb8))
            &&& chan_vals_ok(r.1@, spec_options(Literal::Rgb8))
            &&& chan_vals_ok(r.2@, spec_options(Literal::Rgb8))
        }),
{
    let ghost samples = data@.map_values(|v: u8| v as i32);
    let mut y: Vec<i32> = Vec::new();
    let mut co: Vec<i32> = Vec::new();
    let mut cg: Vec<i32> = Vec::new();
    let mut i: usize = 0;
    proof {
        vstd::std_specs::vec::axiom_spec_len(data);
        assert(y_channel(samples, n as nat).take(0) =~= Seq::<i32>::empty());
        assert(co_channel(samples, n as nat).take(0) =~= Seq::<i32>::empty());
        assert(cg_channel(samples, n as nat).take(0) =~= Seq::<i32>::empty());
    }
    while i < n
        invariant
            i <= n,
            data@.len() == 3 * n,
            3 * n <= usize::MAX,
            samples == data@.map_values(|v: u8| v as i32),
            y@ == y_channel(samples, n as nat).take(i as int),
            co@ == co_channel(samples, n as nat).take(i as int),
            cg@ == cg_channel(samples, n as nat).take(i as int),
            forall|j: int| 0 <= j < i ==> -255 <= #[trigger] y@[j] <= 255,
            forall|j: int| 0 <= j < i ==> -255 <= #[trigger] co@[j] <= 255,
            forall|j: int| 0 <= j < i ==> -255 <= #[trigger] cg@[j] <= 255,
        decreases n - i,
    {
        let rv = data[3 * i] as i32;
        let gv = data[3 * i + 1] as i32;
        let bv = data[3 * i + 2] as i32;
        let t = rgb_to_ycocg(rv, gv, bv);
        y.push(t.0);
        co.push(t.1);
        cg.push(t.2);
        proof {
            assert(y_channel(samples, n as nat).take(i + 1) =~= y_channel(
                samples,
                n as nat,
            ).take(i as int).push(t.0));
            assert(co_channel(samples, n as nat).take(i + 1) =~= co_channel(
                samples,
                n as nat,
            ).take(i as int).push(t.1));
            assert(cg_channel(samples, n as nat).take(i + 1) =~= cg_channel(
                samples,
                n as nat,
            ).take(i as int).push(t.2));
        }
        i = i + 1;
    }
    proof {
        assert(y_channel(samples, n as nat).take(n as int) =~= y_channel(samples, n as nat));
        assert(co_channel(samples, n as nat).take(n as int) =~= co_channel(samples, n as nat));
        assert(cg_channel(samples, n as nat).take(n as int) =~= cg_channel(samples, n as nat));
    }
    (y, co, cg)
}

/// Splits interleaved 16-bit RGB samples into the transformed Y, Co and Cg
/// channels.
fn split_rgb16(data: &Vec<u16>, n: usize) -> (r: (Vec<i32>, Vec<i32>, Vec<i32>))
    requires
        data@.len() == 3 * n,
    ensures
        ({
            let samples = data@.map_values(|v: u16| v as i32);
            &&& r.0@ == y_channel(samples, n as nat)
            &&& r.1@ == co_channel(samples, n as nat)
            &&& r.2@ == cg_channel(samples, n as nat)
            &&& chan_vals_ok(r.0@, spec_options(Literal::Rgb16))
            &&& chan_vals_ok(r.1@, spec_options(Literal::Rgb16))
            &&& chan_vals_ok(r.2@, spec_options(Literal::Rgb16))
        }),
{
    let ghost samples = data@.map_values(|v: u16| v as i32);
    let mut y: Vec<i32> = Vec::new();
    let mut co: Vec<i32> = Vec::new();
    let mut cg: Vec<i32> = Vec::new();
    let mut i: usize = 0;
    proof {
        vstd::std_specs::vec::axiom_spec_len(data);
        assert(y_channel(samples, n as nat).take(0) =~= Seq::<i32>::empty());
        assert(co_channel(samples, n as nat).take(0) =~= Seq::<i32>::empty());
        assert(cg_channel(samples, n as nat).take(0) =~= Seq::<i32>::empty());
    }
    while i < n
        invariant
            i <= n,
            data@.len() == 3 * n,
            3 * n <= usize::MAX,
            samples == data@.map_values(|v: u16| v as i32),
            y@ == y_channel(samples, n as nat).take(i as int),
            co@ == co_channel(samples, n as nat).take(i as int),
            cg@ == cg_channel(samples, n as nat).take(i as int),
            forall|j: int| 0 <= j < i ==> -65535 <= #[trigger] y@[j] <= 65535,
            forall|j: int| 0 <= j < i ==> -65535 <= #[trigger] co@[j] <= 65535,
            forall|j: int| 0 <= j < i ==> -65535 <= #[trigger] cg@[j] <= 65535,
        decreases n - i,
    {
        let rv = data[3 * i] as i32;
        let gv = data[3 * i + 1] as i32;
        let bv = data[3 * i + 2] as i32;
        let t = rgb_to_ycocg(rv, gv, bv);
        y.push(t.0);
        co.push(t.1);
        cg.push(t.2);
        proof {
            assert(y_channel(samples, n as nat).take(i + 1) =~= y_channel(
                samples,
                n as nat,
            ).take(i as int).push(t.0));
            assert(co_channel(samples, n as nat).take(i + 1) =~= co_channel(
                samples,
                n as nat,
            ).take(i as int).push(t.1));
            assert(cg_channel(samples, n as nat).take(i + 1) =~= cg_channel(
                samples,
                n as nat,
            ).take(i as int).push(t.2));
        }
        i = i + 1;
    }
    proof {
        assert(y_channel(samples, n as nat).take(n as int) =~= y_channel(samples, n as nat));
        assert(co_channel(samples, n as nat).take(n as int) =~= co_channel(samples, n as nat));
        assert(cg_channel(samples, n as nat).take(n as int) =~= cg_channel(samples, n as nat));
    }
    (y, co, cg)
}

/// The payload of three compressed RGB channels, bit-concatenated and byte
/// aligned.
fn rgb_payload(y: &Vec<i32>, co: &Vec<i32>, cg: &Vec<i32>, width: u32, height: u32, l: Literal) -> (r:
    Vec<u8>)
    requires
        l == Literal::Rgb8 || l == Literal::Rgb16,
        chan_vals_ok(y@, spec_options(l)),
        chan_vals_ok(co@, spec_options(l)),
        chan_vals_ok(cg@, spec_options(l)),
        y@.len() == width * height,
        co@.len() == width * height,
        cg@.len() == width * height,
        width * height <= u32::MAX,
        chan_bits(y@, width as nat, height as nat, spec_options(l)).len() + chan_bits(
            co@,
            width as nat,
            height as nat,
            spec_options(l),
        ).len() + chan_bits(cg@, width as nat, height as nat, spec_options(l)).len() + 8
            <= usize::MAX,
    ensures
        ({
            let bits = chan_bits(y@, width as nat, height as nat, spec_options(l)) + chan_bits(
                co@,
                width as nat,
                height as nat,
                spec_options(l),
            ) + chan_bits(cg@, width as nat, height as nat, spec_options(l));
            r@ == pack_msb(bits + Seq::new(pad_len(bits.len()), |j: int| false))
        }),
{
    let options = coding_options(l);
    let mut bw = BitWriter::new();
    let ghost o = spec_options(l);
    let ghost cby = chan_bits(y@, width as nat, height as nat, o);
    let ghost cbco = chan_bits(co@, width as nat, height as nat, o);
    let ghost cbcg = chan_bits(cg@, width as nat, height as nat, o);
    proof {
        assert(Seq::<bool>::empty() + cby =~= cby);
    }
    compress_channel(y, width, height, &options, &mut bw);
    compress_channel(co, width, height, &options, &mut bw);
    compress_channel(cg, width, height, &options, &mut bw);
    proof {
        assert(bw.bits() =~= cby + cbco + cbcg);
    }
    bw.byte_align();
    bw.into_bytes()
}

/// Compresses an image into the bytes of a complete file: the header, then
/// the byte-aligned payload of its channels.
pub fn compress_image(image: &Image) -> (r: Vec<u8>)
    requires
        image.wf(),
        image_bits(*image).len() + 8 <= usize::MAX,
    ensures
        r@ == image_bytes(*image),
{
    let mut out: Vec<u8> = Vec::new();
    match image {
        Image::Luma8 { width, height, data } => {
            write_header(
                Header {
                    color_type: ColorType::Gray,
                    pixel_depth: PixelDepth::Eight,
                    width: *width,
                    height: *height,
                },
                &mut out,
            );
            let channel = widen8(data);
            let mut payload = gray_payload(&channel, *width, *height, Literal::Gray8);
            out.append(&mut payload);
        },
        Image::Luma16 { width, height, data } => {
            write_header(
                Header {
                    color_type: ColorType::Gray,
                    pixel_depth: PixelDepth::Sixteen,
                    width: *width,
                    height: *height,
                },
                &mut out,
            );
            let channel = widen16(data);
            let mut payload = gray_payload(&channel, *width, *height, Literal::Gray16);
            out.append(&mut payload);
        },
        Image::Rgb8 { width, height, data } => {
            write_header(
                Header {
                    color_type: ColorType::Rgb,
                    pixel_depth: PixelDepth::Eight,
                    width: *width,
                    height: *height,
                },
                &mut out,
            );
            let n: usize = (((*width) as u64) * ((*height) as u64)) as usize;
            let channels = split_rgb8(data, n);
            let mut payload = rgb_payload(
                &channels.0,
                &channels.1,
                &channels.2,
                *width,
                *height,
                Literal::Rgb8,
            );
            out.append(&mut payload);
        },
        Image::Rgb16 { width, height, data } => {
            write_header(
                Header {
                    color_type: ColorType::Rgb,
                    pixel_depth: PixelDepth::Sixteen,
                    width: *width,
                    height: *height,
                },
                &mut out,
            );
            let n: usize = (((*width) as u64) * ((*height) as u64)) as usize;
            let channels = split_rgb16(data, n);
            let mut payload = rgb_payload(
                &channels.0,
                &channels.1,
                &channels.2,
                *width,
                *height,
                Literal::Rgb16,
            );
            out.append(&mut payload);
        },
    }
    out
}


/// The interleaved samples rebuilt from three decoded YCoCg channels, pixel
/// by pixel: a component outside the channel range, or an inverse-transform
/// result outside the pixel depth, is an `InvalidValue`.
pub open spec fn rgb_assemble(
    cy: Seq<i32>,
    cco: Seq<i32>,
    ccg: Seq<i32>,
    i: nat,
    n: nat,
    l: Literal,
    acc: Seq<i32>,
) -> Result<Seq<i32>, DecompressionError>
    decreases n - i,
    when i <= n
{
    if i >= n {
        Ok(acc)
    } else {
        let y = cy[i as int] as int;
        let co = cco[i as int] as int;
        let cg = ccg[i as int] as int;
        if y < lit_lo(l) || y > lit_hi(l) || co < lit_lo(l) || co > lit_hi(l) || cg < lit_lo(l)
            || cg > lit_hi(l) {
            Err(DecompressionError::InvalidValue)
        } else {
            let rgb = rgb_of(y, co, cg);
            if rgb.0 < 0 || rgb.0 > lit_hi(l) || rgb.1 < 0 || rgb.1 > lit_hi(l) || rgb.2 < 0
                || rgb.2 > lit_hi(l) {
                Err(DecompressionError::InvalidValue)
            } else {
                rgb_assemble(
                    cy,
                    cco,
                    ccg,
                    i + 1,
                    n,
                    l,
                    acc + seq![rgb.0 as i32, rgb.1 as i32, rgb.2 as i32],
                )
            }
        }
    }
}

/// What decompressing a complete file yields: the header and the samples of
/// the image (in storage order, widened to signed integers), or the error.
pub open spec fn image_dec(bytes: Seq<u8>) -> Result<(Header, Seq<i32>), DecompressionError> {
    match header_parse(bytes) {
        Err(e) => Err(e),
        Ok(hd) => {
            let s = bytes_to_bits(bytes.skip(14));
            let w = hd.width as nat;
            let h = hd.height as nat;
            if hd.color_type == ColorType::Gray {
                let l = if hd.pixel_depth == PixelDepth::Eight {
                    Literal::Gray8
                } else {
                    Literal::Gray16
                };
                match chan_dec(s, 0, w, h, spec_options(l)) {
                    Err(e) => Err(e),
                    Ok((c, q)) => Ok((hd, c)),
                }
            } else {
                let l = if hd.pixel_depth == PixelDepth::Eight {
                    Literal::Rgb8
                } else {
                    Literal::Rgb16
                };
                match rgb_dec(s, 0, w, h, l) {
                    Err(e) => Err(e),
                    Ok((samples, q)) => Ok((hd, samples)),
                }
            }
        },
    }
}

/// Narrows decoded samples back to bytes.
fn narrow8(chan: &Vec<i32>) -> (r: Vec<u8>)
    requires
        forall|j: int| 0 <= j < chan@.len() ==> 0 <= #[trigger] chan@[j] <= 255,
    ensures
        r@.len() == chan@.len(),
        r@.map_values(|v: u8| v as i32) == chan@,
{
    let mut out: Vec<u8> = Vec::new();
    let mut idx: usize = 0;
    while idx < chan.len()
        invariant
            idx <= chan@.len(),
            forall|j: int| 0 <= j < chan@.len() ==> 0 <= #[trigger] chan@[j] <= 255,
            out@.len() == idx,
            forall|j: int| 0 <= j < idx ==> #[trigger] out@[j] == chan@[j] as u8,
        decreases chan@.len() - idx,
    {
        out.push(chan[idx] as u8);
        idx = idx + 1;
    }
    proof {
        assert(out@.map_values(|v: u8| v as i32) =~= chan@);
    }
    out
}

/// Narrows decoded samples back to 16-bit values.
fn narrow16(chan: &Vec<i32>) -> (r: Vec<u16>)
    requires
        forall|j: int| 0 <= j < chan@.len() ==> 0 <= #[trigger] chan@[j] <= 65535,
    ensures
        r@.len() == chan@.len(),
        r@.map_values(|v: u16| v as i32) == chan@,
{
    let mut out: Vec<u16> = Vec::new();
    let mut idx: usize = 0;
    while idx < chan.len()
        invariant
            idx <= chan@.len(),
            forall|j: int| 0 <= j < chan@.len() ==> 0 <= #[trigger] chan@[j] <= 65535,
            out@.len() == idx,
            forall|j: int| 0 <= j < idx ==> #[trigger] out@[j] == chan@[j] as u16,
        decreases chan@.len() - idx,
    {
        out.push(chan[idx] as u16);
        idx = idx + 1;
    }
    proof {
        assert(out@.map_values(|v: u16| v as i32) =~= chan@);
    }
    out
}

/// Rebuilds interleaved byte samples from three decoded YCoCg channels.
fn assemble_rgb8(cy: &Vec<i32>, cco: &Vec<i32>, ccg: &Vec<i32>) -> (r: Result<
    Vec<u8>,
    DecompressionError,
>)
    requires
        cy@.len() == cco@.len(),
        cy@.len() == ccg@.len(),
    ensures
        match rgb_assemble(cy@, cco@, ccg@, 0, cy@.len(), Literal::Rgb8, Seq::empty()) {
            Ok(samples) => {
                &&& r is Ok
                &&& r->Ok_0@.len() == samples.len()
                &&& r->Ok_0@.map_values(|v: u8| v as i32) == samples
            },
            Err(e) => r == Err::<Vec<u8>, DecompressionError>(e),
        },
{
    let n = cy.len();
    let mut out: Vec<u8> = Vec::new();
    let mut i: usize = 0;
    proof {
        assert(out@.map_values(|v: u8| v as i32) =~= Seq::<i32>::empty());
    }
    while i < n
        invariant
            i <= n,
            n == cy@.len(),
            cy@.len() == cco@.len(),
            cy@.len() == ccg@.len(),
            out@.len() == 3 * i,
            rgb_assemble(cy@, cco@, ccg@, 0, n as nat, Literal::Rgb8, Seq::empty())
                == rgb_assemble(
                cy@,
                cco@,
                ccg@,
                i as nat,
                n as nat,
                Literal::Rgb8,
                out@.map_values(|v: u8| v as i32),
            ),
        decreases n - i,
    {
        let y = cy[i];
        let co = cco[i];
        let cg = ccg[i];
        if y < -255 || y > 255 || co < -255 || co > 255 || cg < -255 || cg > 255 {
            return Err(DecompressionError::InvalidValue);
        }
        let rgb = ycocg_to_rgb(y, co, cg);
        if rgb.0 < 0 || rgb.0 > 255 || rgb.1 < 0 || rgb.1 > 255 || rgb.2 < 0 || rgb.2 > 255 {
            return Err(DecompressionError::InvalidValue);
        }
        let ghost acc0 = out@.map_values(|v: u8| v as i32);
        out.push(rgb.0 as u8);
        out.push(rgb.1 as u8);
        out.push(rgb.2 as u8);
        proof {
            assert(out@.map_values(|v: u8| v as i32) =~= acc0 + seq![
                rgb.0 as i32,
                rgb.1 as i32,
                rgb.2 as i32,
            ]);
        }
        i = i + 1;
    }
    Ok(out)
}

/// Rebuilds interleaved 16-bit samples from three decoded YCoCg channels.
fn assemble_rgb16(cy: &Vec<i32>, cco: &Vec<i32>, ccg: &Vec<i32>) -> (r: Result<
    Vec<u16>,
    DecompressionError,
>)
    requires
        cy@.len() == cco@.len(),
        cy@.len() == ccg@.len(),
    ensures
        match rgb_assemble(cy@, cco@, ccg@, 0, cy@.len(), Literal::Rgb16, Seq::empty()) {
            Ok(samples) => {
                &&& r is Ok
                &&& r->Ok_0@.len() == samples.len()
                &&& r->Ok_0@.map_values(|v: u16| v as i32) == samples
            },
            Err(e) => r == Err::<Vec<u16>, DecompressionError>(e),
        },
{
    let n = cy.len();
    let mut out: Vec<u16> = Vec::new();
    let mut i: usize = 0;
    proof {
        assert(out@.map_values(|v: u16| v as i32) =~= Seq::<i32>::empty());
    }
    while i < n
        invariant
            i <= n,
            n == cy@.len(),
            cy@.len() == cco@.len(),
            cy@.len() == ccg@.len(),
            out@.len() == 3 * i,
            rgb_assemble(cy@, cco@, ccg@, 0, n as nat, Literal::Rgb16, Seq::empty())
                == rgb_assemble(
                cy@,
                cco@,
                ccg@,
                i as nat,
                n as nat,
                Literal::Rgb16,
                out@.map_values(|v: u16| v as i32),
            ),
        decreases n - i,
    {
        let y = cy[i];
        let co = cco[i];
        let cg = ccg[i];
        if y < -65535 || y > 65535 || co < -65535 || co > 65535 || cg < -65535 || cg > 65535 {
            return Err(DecompressionError::InvalidValue);
        }
        let rgb = ycocg_to_rgb(y, co, cg);
        if rgb.0 < 0 || rgb.0 > 65535 || rgb.1 < 0 || rgb.1 > 65535 || rgb.2 < 0 || rgb.2
            > 65535 {
            return Err(DecompressionError::InvalidValue);
        }
        let ghost acc0 = out@.map_values(|v: u16| v as i32);
        out.push(rgb.0 as u16);
        out.push(rgb.1 as u16);
        out.push(rgb.2 as u16);
        proof {
            assert(out@.map_values(|v: u16| v as i32) =~= acc0 + seq![
                rgb.0 as i32,
                rgb.1 as i32,
                rgb.2 as i32,
            ]);
        }
        i = i + 1;
    }
    Ok(out)
}

/// What decompressing the three channels of an RGB image and rebuilding
/// the samples yields.
pub open spec fn rgb_dec(s: Seq<bool>, pos: nat, w: nat, h: nat, l: Literal) -> Result<
    (Seq<i32>, nat),
    DecompressionError,
> {
    let o = spec_options(l);
    match chan_dec(s, pos, w, h, o) {
        Err(e) => Err(e),
        Ok((cy, q1)) => match chan_dec(s, q1, w, h, o) {
            Err(e) => Err(e),
            Ok((cco, q2)) => match chan_dec(s, q2, w, h, o) {
                Err(e) => Err(e),
                Ok((ccg, q3)) => match rgb_assemble(cy, cco, ccg, 0, cy.len(), l, Seq::empty()) {
                    Err(e) => Err(e),
                    Ok(samples) => Ok((samples, q3)),
                },
            },
        },
    }
}

/// Decompresses and rebuilds the interleaved byte samples of an RGB image.
#[verifier::rlimit(100)]
#[verifier::spinoff_prover]
fn decompress_rgb8(width: u32, height: u32, bitread: &mut BitReader) -> (r: Result<
    Vec<u8>,
    DecompressionError,
>)
    requires
        old(bitread).wf(),
    ensures
        final(bitread).wf(),
        final(bitread).bits() == old(bitread).bits(),
        match rgb_dec(
            old(bitread).bits(),
            old(bitread).pos(),
            width as nat,
            height as nat,
            Literal::Rgb8,
        ) {
            Ok((samples, p)) => {
                &&& r is Ok
                &&& r->Ok_0@.len() == 3 * (width * height)
                &&& r->Ok_0@.map_values(|v: u8| v as i32) == samples
                &&& width * height <= u32::MAX
            },
            Err(e) => r == Err::<Vec<u8>, DecompressionError>(e),
        },
{
    let ghost s = old(bitread).bits();
    let options = coding_options(Literal::Rgb8);
    let ghost p0 = old(bitread).pos();
    let cy = match decompress_channel(width, height, &options, bitread) {
        Ok(c) => c,
        Err(e) => {
            return Err(e);
        },
    };
    let ghost q1 = bitread.pos();
    let cco = match decompress_channel(width, height, &options, bitread) {
        Ok(c) => c,
        Err(e) => {
            return Err(e);
        },
    };
    let ghost q2 = bitread.pos();
    let ccg = match decompress_channel(width, height, &options, bitread) {
        Ok(c) => c,
        Err(e) => {
            return Err(e);
        },
    };
    proof {
        lemma_chan_dec_ok(s, p0, width as nat, height as nat, spec_options(Literal::Rgb8));
        lemma_chan_dec_ok(s, q1, width as nat, height as nat, spec_options(Literal::Rgb8));
        lemma_chan_dec_ok(s, q2, width as nat, height as nat, spec_options(Literal::Rgb8));
        vstd::std_specs::vec::axiom_spec_len(&cy);
    }
    let data = match assemble_rgb8(&cy, &cco, &ccg) {
        Ok(d) => d,
        Err(e) => {
            return Err(e);
        },
    };
    proof {
        lemma_rgb_assemble_len(cy@, cco@, ccg@, 0, cy@.len(), Literal::Rgb8, Seq::empty());
    }
    Ok(data)
}

/// Decompresses and rebuilds the interleaved 16-bit samples of an RGB image.
#[verifier::rlimit(100)]
#[verifier::spinoff_prover]
fn decompress_rgb16(width: u32, height: u32, bitread: &mut BitReader) -> (r: Result<
    Vec<u16>,
    DecompressionError,
>)
    requires
        old(bitread).wf(),
    ensures
        final(bitread).wf(),
        final(bitread).bits() == old(bitread).bits(),
        match rgb_dec(
            old(bitread).bits(),
            old(bitread).pos(),
            width as nat,
            height as nat,
            Literal::Rgb16,
        ) {
            Ok((samples, p)) => {
                &&& r is Ok
                &&& r->Ok_0@.len() == 3 * (width * height)
                &&& r->Ok_0@.map_values(|v: u16| v as i32) == samples
                &&& width * height <= u32::MAX
            },
            Err(e) => r == Err::<Vec<u16>, DecompressionError>(e),
        },
{
    let ghost s = old(bitread).bits();
    let options = coding_options(Literal::Rgb16);
    let ghost p0 = old(bitread).pos();
    let cy = match decompress_channel(width, height, &options, bitread) {
        Ok(c) => c,
        Err(e) => {
            return Err(e);
        },
    };
    let ghost q1 = bitread.pos();
    let cco = match decompress_channel(width, height, &options, bitread) {
        Ok(c) => c,
        Err(e) => {
            return Err(e);
        },
    };
    let ghost q2 = bitread.pos();
    let ccg = match decompress_channel(width, height, &options, bitread) {
        Ok(c) => c,
        Err(e) => {
            return Err(e);
        },
    };
    proof {
        lemma_chan_dec_ok(s, p0, width as nat, height as nat, spec_options(Literal::Rgb16));
        lemma_chan_dec_ok(s, q1, width as nat, height as nat, spec_options(Literal::Rgb16));
        lemma_chan_dec_ok(s, q2, width as nat, height as nat, spec_options(Literal::Rgb16));
        vstd::std_specs::vec::axiom_spec_len(&cy);
    }
    let data = match assemble_rgb16(&cy, &cco, &ccg) {
        Ok(d) => d,
        Err(e) => {
            return Err(e);
        },
    };
    proof {
        lemma_rgb_assemble_len(cy@, cco@, ccg@, 0, cy@.len(), Literal::Rgb16, Seq::empty());
    }
    Ok(data)
}

/// Decompresses the bytes of a complete file back into the image they hold.
#[verifier::rlimit(100)]
#[verifier::spinoff_prover]
pub fn decompress_image(bytes: &Vec<u8>) -> (r: Result<Image, DecompressionError>)
    requires
        8 * bytes@.len() <= usize::MAX,
    ensures
        match image_dec(bytes@) {
            Ok((hd, samples)) => {
                &&& r is Ok
                &&& r->Ok_0.wf()
                &&& r->Ok_0.spec_header() == hd
                &&& r->Ok_0.samples() == samples
            },
            Err(e) => r == Err::<Image, DecompressionError>(e),
        },
{
    let header = match read_header(bytes) {
        Ok(h) => h,
        Err(e) => {
            return Err(e);
        },
    };
    proof {
        vstd::std_specs::vec::axiom_spec_len(bytes);
    }

    let mut payload: Vec<u8> = Vec::new();
    let mut idx: usize = 14;
    while idx < bytes.len()
        invariant
            14 <= idx <= bytes@.len(),
            payload@ == bytes@.subrange(14, idx as int),
        decreases bytes@.len() - idx,
    {
        payload.push(bytes[idx]);
        proof {
            assert(bytes@.subrange(14, idx + 1) =~= bytes@.subrange(14, idx as int).push(
                bytes@[idx as int],
            ));
        }
        idx = idx + 1;
    }
    proof {
        assert(payload@ =~= bytes@.skip(14));
    }
    let mut reader = BitReader::from_bytes(&payload);
    let ghost s = bytes_to_bits(bytes@.skip(14));

    match (header.color_type, header.pixel_depth) {
        (ColorType::Gray, PixelDepth::Eight) => {
            let options = coding_options(Literal::Gray8);
            let chan = match decompress_channel(header.width, header.height, &options, &mut reader)
                {
                Ok(c) => c,
                Err(e) => {
                    return Err(e);
                },
            };
            proof {
                lemma_chan_dec_ok(
                    s,
                    0,
                    header.width as nat,
                    header.height as nat,
                    spec_options(Literal::Gray8),
                );
            }
            let data = narrow8(&chan);
            Ok(Image::Luma8 { width: header.width, height: header.height, data })
        },
        (ColorType::Gray, PixelDepth::Sixteen) => {
            let options = coding_options(Literal::Gray16);
            let chan = match decompress_channel(header.width, header.height, &options, &mut reader)
                {
                Ok(c) => c,
                Err(e) => {
                    return Err(e);
                },
            };
            proof {
                lemma_chan_dec_ok(
                    s,
                    0,
                    header.width as nat,
                    header.height as nat,
                    spec_options(Literal::Gray16),
                );
            }
            let data = narrow16(&chan);
            Ok(Image::Luma16 { width: header.width, height: header.height, data })
        },
        (ColorType::Rgb, PixelDepth::Eight) => {
            let data = match decompress_rgb8(header.width, header.height, &mut reader) {
                Ok(d) => d,
                Err(e) => {
                    return Err(e);
                },
            };
            Ok(Image::Rgb8 { width: header.width, height: header.height, data })
        },
        (ColorType::Rgb, PixelDepth::Sixteen) => {
            let data = match decompress_rgb16(header.width, header.height, &mut reader) {
                Ok(d) => d,
                Err(e) => {
                    return Err(e);
                },
            };
            Ok(Image::Rgb16 { width: header.width, height: header.height, data })
        },
    }
}

/// A successfully assembled sample sequence holds three samples per pixel.
proof fn lemma_rgb_assemble_len(
    cy: Seq<i32>,
    cco: Seq<i32>,
    ccg: Seq<i32>,
    i: nat,
    n: nat,
    l: Literal,
    acc: Seq<i32>,
)
    requires
        i <= n,
        acc.len() == 3 * i,
    ensures
        rgb_assemble(cy, cco, ccg, i, n, l, acc) matches Ok(samples) ==> samples.len() == 3 * n,
    decreases n - i,
{
    if i < n {
        let y = cy[i as int] as int;
        let co = cco[i as int] as int;
        let cg = ccg[i as int] as int;
        if !(y < lit_lo(l) || y > lit_hi(l) || co < lit_lo(l) || co > lit_hi(l) || cg < lit_lo(l)
            || cg > lit_hi(l)) {
            let rgb = rgb_of(y, co, cg);
            if !(rgb.0 < 0 || rgb.0 > lit_hi(l) || rgb.1 < 0 || rgb.1 > lit_hi(l) || rgb.2 < 0
                || rgb.2 > lit_hi(l)) {
                lemma_rgb_assemble_len(
                    cy,
                    cco,
                    ccg,
                    i + 1,
                    n,
                    l,
                    acc + seq![rgb.0 as i32, rgb.1 as i32, rgb.2 as i32],
                );
            }
        }
    }
}


/// Rebuilding the samples from the transformed channels of a valid image
/// recovers them exactly: every check passes and each inverse transform
/// lands back on the original pixel.
proof fn lemma_assemble_round_trip(samples: Seq<i32>, i: nat, n: nat, l: Literal)
    requires
        l == Literal::Rgb8 || l == Literal::Rgb16,
        samples.len() == 3 * n,
        i <= n,
        forall|j: int| 0 <= j < samples.len() ==> 0 <= #[trigger] samples[j] <= lit_hi(l),
    ensures
        rgb_assemble(
            y_channel(samples, n),
            co_channel(samples, n),
            cg_channel(samples, n),
            i,
            n,
            l,
            samples.take(3 * i as int),
        ) == Ok::<Seq<i32>, DecompressionError>(samples),
    decreases n - i,
{
    if i >= n {
        assert(samples.take(3 * i as int) =~= samples);
    } else {
        let r = samples[3 * i as int] as int;
        let g = samples[3 * i as int + 1] as int;
        let b = samples[3 * i as int + 2] as int;
        let t = ycocg_of(r, g, b);
        crate::color_transform::lemma_ycocg_ranges(r, g, b, lit_hi(l));
        crate::color_transform::lemma_color_transform_exact(r, g, b);
        let y = y_channel(samples, n)[i as int] as int;
        let co = co_channel(samples, n)[i as int] as int;
        let cg = cg_channel(samples, n)[i as int] as int;
        assert(y == t.0 && co == t.1 && cg == t.2);
        assert(rgb_of(y, co, cg) == (r, g, b));
        assert(samples.take(3 * i as int) + seq![r as i32, g as i32, b as i32] =~= samples.take(
            3 * (i + 1) as int,
        ));
        lemma_assemble_round_trip(samples, i + 1, n, l);
    }
}

/// Every sample of a well-formed image lies within its depth.
proof fn lemma_image_sample_ranges(img: Image)
    ensures
        img matches Image::Luma8 { .. } ==> forall|j: int|
            0 <= j < img.samples().len() ==> 0 <= #[trigger] img.samples()[j] <= 255,
        img matches Image::Rgb8 { .. } ==> forall|j: int|
            0 <= j < img.samples().len() ==> 0 <= #[trigger] img.samples()[j] <= 255,
        img matches Image::Luma16 { .. } ==> forall|j: int|
            0 <= j < img.samples().len() ==> 0 <= #[trigger] img.samples()[j] <= 65535,
        img matches Image::Rgb16 { .. } ==> forall|j: int|
            0 <= j < img.samples().len() ==> 0 <= #[trigger] img.samples()[j] <= 65535,
{
}

/// The transformed channels of a valid image are valid channels.
proof fn lemma_rgb_channels_ok(samples: Seq<i32>, n: nat, l: Literal)
    requires
        l == Literal::Rgb8 || l == Literal::Rgb16,
        samples.len() == 3 * n,
        forall|j: int| 0 <= j < samples.len() ==> 0 <= #[trigger] samples[j] <= lit_hi(l),
    ensures
        chan_vals_ok(y_channel(samples, n), spec_options(l)),
        chan_vals_ok(co_channel(samples, n), spec_options(l)),
        chan_vals_ok(cg_channel(samples, n), spec_options(l)),
{
    assert forall|i: int| 0 <= i < n implies {
        &&& lit_lo(l) <= #[trigger] y_channel(samples, n)[i] <= lit_hi(l)
        &&& lit_lo(l) <= co_channel(samples, n)[i] <= lit_hi(l)
        &&& lit_lo(l) <= cg_channel(samples, n)[i] <= lit_hi(l)
    } by {
        crate::color_transform::lemma_ycocg_ranges(
            samples[3 * i] as int,
            samples[3 * i + 1] as int,
            samples[3 * i + 2] as int,
            lit_hi(l),
        );
    }
}

/// The header takes fourteen bytes.
proof fn lemma_header_len(hd: Header)
    ensures
        header_bytes(hd).len() == 14,
{
}

/// The single channel of a valid grayscale image decodes back to its
/// samples.
#[verifier::rlimit(100)]
#[verifier::spinoff_prover]
proof fn lemma_gray_chan_dec(img: Image, l: Literal, s: Seq<bool>, pad: Seq<bool>)
    requires
        img matches Image::Luma8 { .. } ==> l == Literal::Gray8,
        img matches Image::Luma16 { .. } ==> l == Literal::Gray16,
        img is Luma8 || img is Luma16,
        img.wf(),
        s == image_bits(img) + pad,
    ensures
        chan_dec(s, 0, img.spec_header().width as nat, img.spec_header().height as nat, spec_options(l))
            == Ok::<(Seq<i32>, nat), DecompressionError>(
            (img.samples(), image_bits(img).len() as nat),
        ),
{
    let hd = img.spec_header();
    let w = hd.width as nat;
    let h = hd.height as nat;
    let o = spec_options(l);
    lemma_image_sample_ranges(img);
    lemma_chan_round_trip(img.samples(), w, h, o, Seq::empty(), pad);
    assert(Seq::<bool>::empty() + chan_bits(img.samples(), w, h, o) + pad =~= s);
}

/// The three channels of a valid RGB image decode back, in order, to its
/// transformed channels.
#[verifier::rlimit(100)]
#[verifier::spinoff_prover]
proof fn lemma_rgb_chans_dec(img: Image, l: Literal, s: Seq<bool>, pad: Seq<bool>)
    requires
        img matches Image::Rgb8 { .. } ==> l == Literal::Rgb8,
        img matches Image::Rgb16 { .. } ==> l == Literal::Rgb16,
        img is Rgb8 || img is Rgb16,
        img.wf(),
        s == image_bits(img) + pad,
    ensures
        ({
            let hd = img.spec_header();
            let w = hd.width as nat;
            let h = hd.height as nat;
            let n = (w * h) as nat;
            let o = spec_options(l);
            let samples = img.samples();
            let cb1 = chan_bits(y_channel(samples, n), w, h, o);
            let cb2 = chan_bits(co_channel(samples, n), w, h, o);
            let cb3 = chan_bits(cg_channel(samples, n), w, h, o);
            &&& chan_dec(s, 0, w, h, o) == Ok::<(Seq<i32>, nat), DecompressionError>(
                (y_channel(samples, n), cb1.len() as nat),
            )
            &&& chan_dec(s, cb1.len(), w, h, o) == Ok::<(Seq<i32>, nat), DecompressionError>(
                (co_channel(samples, n), (cb1.len() + cb2.len()) as nat),
            )
            &&& chan_dec(s, cb1.len() + cb2.len(), w, h, o) == Ok::<
                (Seq<i32>, nat),
                DecompressionError,
            >((cg_channel(samples, n), (cb1.len() + cb2.len() + cb3.len()) as nat))
            &&& image_bits(img).len() == cb1.len() + cb2.len() + cb3.len()
            &&& samples.len() == 3 * n
        }),
{
    let hd = img.spec_header();
    let w = hd.width as nat;
    let h = hd.height as nat;
    let n = (w * h) as nat;
    let o = spec_options(l);
    let samples = img.samples();
    let cy = y_channel(samples, n);
    let cco = co_channel(samples, n);
    let ccg = cg_channel(samples, n);
    let cb1 = chan_bits(cy, w, h, o);
    let cb2 = chan_bits(cco, w, h, o);
    let cb3 = chan_bits(ccg, w, h, o);
    assert(image_bits(img) == cb1 + cb2 + cb3);
    lemma_image_sample_ranges(img);
    lemma_rgb_channels_ok(samples, n, l);

    lemma_chan_round_trip(cy, w, h, o, Seq::empty(), cb2 + cb3 + pad);
    assert(Seq::<bool>::empty() + cb1 + (cb2 + cb3 + pad) =~= s);
    lemma_chan_round_trip(cco, w, h, o, cb1, cb3 + pad);
    assert(cb1 + cb2 + (cb3 + pad) =~= s);
    lemma_chan_round_trip(ccg, w, h, o, cb1 + cb2, pad);
    assert((cb1 + cb2) + cb3 + pad =~= s);
}

/// The round-trip argument shared by the two RGB depths: the three channels
/// decode in order and reassemble to the original samples.
#[verifier::rlimit(100)]
#[verifier::spinoff_prover]
proof fn lemma_rgb_round_trip(img: Image, l: Literal, s: Seq<bool>, pad: Seq<bool>)
    requires
        img matches Image::Rgb8 { .. } ==> l == Literal::Rgb8,
        img matches Image::Rgb16 { .. } ==> l == Literal::Rgb16,
        img is Rgb8 || img is Rgb16,
        img.wf(),
        s == image_bits(img) + pad,
    ensures
        rgb_dec(s, 0, img.spec_header().width as nat, img.spec_header().height as nat, l)
            == Ok::<(Seq<i32>, nat), DecompressionError>(
            (img.samples(), image_bits(img).len() as nat),
        ),
{
    let hd = img.spec_header();
    let w = hd.width as nat;
    let h = hd.height as nat;
    let n = (w * h) as nat;
    let samples = img.samples();
    lemma_rgb_chans_dec(img, l, s, pad);
    lemma_image_sample_ranges(img);
    assert(y_channel(samples, n).len() == n);
    lemma_assemble_round_trip(samples, 0, n, l);
    assert(samples.take(0) =~= Seq::<i32>::empty());
}

/// Decompressing what an image compresses to recovers the image exactly:
/// the codec's round-trip law.
#[verifier::rlimit(100)]
#[verifier::spinoff_prover]
pub proof fn lemma_image_round_trip(img: Image)
    requires
        img.wf(),
    ensures
        image_dec(image_bytes(img)) == Ok::<(Header, Seq<i32>), DecompressionError>(
            (img.spec_header(), img.samples()),
        ),
{
    let hd = img.spec_header();
    let bits = image_bits(img);
    let pad = Seq::new(pad_len(bits.len()), |j: int| false);
    let padded = bits + pad;
    let bytes = image_bytes(img);
    lemma_header_len(hd);
    crate::format::lemma_header_round_trip(hd, pack_msb(padded));
    assert(bytes.skip(14) =~= pack_msb(padded));
    assert(padded.len() % 8 == 0);
    crate::bitio::lemma_pack_unpack(padded);
    let s = bytes_to_bits(bytes.skip(14));
    assert(s == padded);

    match img {
        Image::Luma8 { .. } => {
            lemma_gray_chan_dec(img, Literal::Gray8, s, pad);
        },
        Image::Luma16 { .. } => {
            lemma_gray_chan_dec(img, Literal::Gray16, s, pad);
        },
        Image::Rgb8 { .. } => {
            lemma_rgb_round_trip(img, Literal::Rgb8, s, pad);
        },
        Image::Rgb16 { .. } => {
            lemma_rgb_round_trip(img, Literal::Rgb16, s, pad);
        },
    }
}


/// A compressed payload is at most `192 + 3 * pixels * 131104` bits long:
/// each channel costs two 32-bit verbatim fields plus a bounded code per
/// pixel. A caller can use this to discharge the compressor's stream-length
/// precondition.
pub proof fn lemma_image_bits_len(img: Image)
    requires
        img.wf(),
    ensures
        image_bits(img).len() <= 192 + 3 * ((img.spec_header().width
            * img.spec_header().height) * 131104),
{
    let hd = img.spec_header();
    let w = hd.width as nat;
    let h = hd.height as nat;
    let n = (w * h) as nat;
    lemma_image_sample_ranges(img);
    match img {
        Image::Luma8 { .. } => {
            let o = spec_options(Literal::Gray8);
            lemma_chan_bits_len(img.samples(), w, h, o);
            lemma_one_channel_bound(img.samples().len() as int, o.max_context as int);
        },
        Image::Luma16 { .. } => {
            let o = spec_options(Literal::Gray16);
            lemma_chan_bits_len(img.samples(), w, h, o);
            lemma_one_channel_bound(img.samples().len() as int, o.max_context as int);
        },
        Image::Rgb8 { .. } => {
            let o = spec_options(Literal::Rgb8);
            lemma_rgb_channels_ok(img.samples(), n, Literal::Rgb8);
            lemma_chan_bits_len(y_channel(img.samples(), n), w, h, o);
            lemma_chan_bits_len(co_channel(img.samples(), n), w, h, o);
            lemma_chan_bits_len(cg_channel(img.samples(), n), w, h, o);
            lemma_one_channel_bound(n as int, o.max_context as int);
        },
        Image::Rgb16 { .. } => {
            let o = spec_options(Literal::Rgb16);
            lemma_rgb_channels_ok(img.samples(), n, Literal::Rgb16);
            lemma_chan_bits_len(y_channel(img.samples(), n), w, h, o);
            lemma_chan_bits_len(co_channel(img.samples(), n), w, h, o);
            lemma_chan_bits_len(cg_channel(img.samples(), n), w, h, o);
            lemma_one_channel_bound(n as int, o.max_context as int);
        },
    }
}

/// The per-channel pixel cost is within the uniform `131104`-bit bound.
proof fn lemma_one_channel_bound(n: int, mc: int)
    requires
        n >= 0,
        0 <= mc <= 131070,
    ensures
        n * (mc + 34) <= n * 131104,
{
    vstd::arithmetic::mul::lemma_mul_inequality(mc + 34, 131104, n);
    vstd::arithmetic::mul::lemma_mul_is_commutative(n, mc + 34);
    vstd::arithmetic::mul::lemma_mul_is_commutative(n, 131104);
}

} // verus!
