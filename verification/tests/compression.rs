use felics::bitio::{BitSink, BitWriter};
use felics::color_transform::{rgb_to_ycocg, ycocg_to_rgb};
use felics::compression::{compress_image, decompress_image, Image};
use felics::error::DecompressionError;
use felics::format::{write_header, ColorType, Header, PixelDepth};
use felics::phase_in_coding::PhaseInCoder;
use felics::rice_coding::RiceCoder;

fn round_trip(image: &Image) {
    let sink = compress_image(image);
    let decompressed = decompress_image(&sink).unwrap();
    assert_eq!(*image, decompressed);
}

// A small deterministic pseudo-random generator, so the round-trip suites
// run on the same inputs everywhere.
struct Lcg {
    state: u64,
}

impl Lcg {
    fn new(seed: u64) -> Lcg {
        Lcg { state: seed }
    }

    fn next_u32(&mut self) -> u32 {
        self.state = self
            .state
            .wrapping_mul(6364136223846793005)
            .wrapping_add(1442695040888963407);
        (self.state >> 32) as u32
    }
}

fn random_grayscale8(width: u32, height: u32, rng: &mut Lcg) -> Image {
    let mut data = Vec::new();
    for _ in 0..(width as usize) * (height as usize) {
        data.push(rng.next_u32() as u8);
    }
    Image::Luma8 {
        width,
        height,
        data,
    }
}

fn random_grayscale16(width: u32, height: u32, rng: &mut Lcg) -> Image {
    let mut data = Vec::new();
    for _ in 0..(width as usize) * (height as usize) {
        data.push(rng.next_u32() as u16);
    }
    Image::Luma16 {
        width,
        height,
        data,
    }
}

fn random_rgb8(width: u32, height: u32, rng: &mut Lcg) -> Image {
    let mut data = Vec::new();
    for _ in 0..3 * (width as usize) * (height as usize) {
        data.push(rng.next_u32() as u8);
    }
    Image::Rgb8 {
        width,
        height,
        data,
    }
}

fn random_rgb16(width: u32, height: u32, rng: &mut Lcg) -> Image {
    let mut data = Vec::new();
    for _ in 0..3 * (width as usize) * (height as usize) {
        data.push(rng.next_u32() as u16);
    }
    Image::Rgb16 {
        width,
        height,
        data,
    }
}

#[test]
fn compression_test_compression_zero_width() {
    let image = Image::Luma8 {
        width: 0,
        height: 3,
        data: Vec::new(),
    };
    let sink = compress_image(&image);
    let decompressed = decompress_image(&sink).unwrap();
    assert_eq!(image, decompressed);
}

#[test]
fn compression_test_compression_decompression_grayscale() {
    let dimensions = vec![
        (2, 1),
        (1, 2),
        (1, 1),
        (4, 7),
        (100, 40),
        (124, 274),
        (1447, 8),
        (44, 1),
        (1, 100),
        (680, 480),
    ];
    let mut rng = Lcg::new(0x5eed);

    for (width, height) in dimensions {
        let image = random_grayscale8(width, height, &mut rng);
        round_trip(&image);

        let image = random_grayscale16(width, height, &mut rng);
        round_trip(&image);
    }
}

#[test]
fn test_compression_decompression_rgb() {
    let dimensions = vec![(1, 1), (2, 1), (1, 2), (5, 3), (31, 17), (1, 40)];
    let mut rng = Lcg::new(0xfe11c5);

    for (width, height) in dimensions {
        let image = random_rgb8(width, height, &mut rng);
        round_trip(&image);

        let image = random_rgb16(width, height, &mut rng);
        round_trip(&image);
    }
}

// A one-pixel 8-bit grayscale image compresses to the header, the literal
// pixel, a zero literal, and nothing else.
#[test]
fn test_single_pixel_stream() {
    let image = Image::Luma8 {
        width: 1,
        height: 1,
        data: vec![243],
    };
    let bytes = compress_image(&image);
    assert_eq!(
        bytes,
        vec![70, 76, 67, 83, 0, 0, 0, 0, 0, 1, 0, 0, 0, 1, 0b11110011, 0]
    );
    let decompressed = decompress_image(&bytes).unwrap();
    assert_eq!(image, decompressed);
}

// A zero-area image compresses to the header and two zero literals.
#[test]
fn test_degenerate_dimensions_stream() {
    let image = Image::Luma8 {
        width: 0,
        height: 3,
        data: Vec::new(),
    };
    let bytes = compress_image(&image);
    assert_eq!(
        bytes,
        vec![70, 76, 67, 83, 0, 0, 0, 0, 0, 0, 0, 0, 0, 3, 0, 0]
    );
    let decompressed = decompress_image(&bytes).unwrap();
    assert_eq!(image, decompressed);
}

// The color transform on a concrete 16-bit triple: the inverse reproduces
// it exactly and the luma stays within the sample range.
#[test]
fn test_color_transform_scenario() {
    let (y, co, cg) = rgb_to_ycocg(1726, 12640, 26649);
    assert!(0 <= y && y <= 65535);
    assert_eq!(ycocg_to_rgb(y, co, cg), (1726, 12640, 26649));
}

#[test]
fn test_invalid_signature() {
    let bytes = vec![70, 77, 67, 83, 0, 0, 0, 0, 0, 1, 0, 0, 0, 1, 0, 0];
    assert_eq!(
        decompress_image(&bytes),
        Err(DecompressionError::InvalidSignature)
    );
}

#[test]
fn test_invalid_color_type() {
    let bytes = vec![70, 76, 67, 83, 7, 0, 0, 0, 0, 1, 0, 0, 0, 1, 0, 0];
    assert_eq!(
        decompress_image(&bytes),
        Err(DecompressionError::InvalidColorType)
    );
}

#[test]
fn test_invalid_pixel_depth() {
    let bytes = vec![70, 76, 67, 83, 0, 9, 0, 0, 0, 1, 0, 0, 0, 1, 0, 0];
    assert_eq!(
        decompress_image(&bytes),
        Err(DecompressionError::InvalidPixelDepth)
    );
}

#[test]
fn test_truncated_header() {
    let bytes = vec![70, 76, 67, 83, 0, 0];
    assert_eq!(decompress_image(&bytes), Err(DecompressionError::Truncated));
}

#[test]
fn test_truncated_payload() {
    let image = Image::Luma8 {
        width: 4,
        height: 4,
        data: vec![
            17, 250, 3, 99, 17, 250, 3, 99, 17, 250, 3, 99, 17, 250, 3, 99,
        ],
    };
    let mut bytes = compress_image(&image);
    // Cut the stream inside the payload.
    bytes.truncate(15);
    assert_eq!(decompress_image(&bytes), Err(DecompressionError::Truncated));
}

#[test]
fn test_invalid_dimensions() {
    // 0x10000 * 0x10000 pixels overflow the 32-bit pixel count. Two literal
    // bytes are present, so the dimension check is what fails.
    let bytes = vec![70, 76, 67, 83, 0, 0, 0, 1, 0, 0, 0, 1, 0, 0, 0, 0];
    assert_eq!(
        decompress_image(&bytes),
        Err(DecompressionError::InvalidDimensions)
    );
}

#[test]
fn test_invalid_value() {
    // A 3x1 8-bit grayscale stream whose third pixel decodes below zero:
    // both literals are zero, then the prefix `00` (below range) and the
    // Rice code of residual 0 reconstruct -1.
    let mut bytes = Vec::new();
    write_header(
        Header {
            color_type: ColorType::Gray,
            pixel_depth: PixelDepth::Eight,
            width: 3,
            height: 1,
        },
        &mut bytes,
    );
    let mut bw = BitWriter::new();
    bw.write(8, 0);
    bw.write(8, 0);
    bw.write_bit(false);
    bw.write_bit(false);
    RiceCoder::new(0).encode(&mut bw, 0);
    bw.byte_align();
    let mut payload = bw.into_bytes();
    bytes.append(&mut payload);
    assert_eq!(
        decompress_image(&bytes),
        Err(DecompressionError::InvalidValue)
    );
}

#[test]
fn test_value_overflow() {
    // A 1x5 16-bit RGB stream: after one large residual the estimator
    // prefers a big Rice parameter, which makes a residual near 2^31 cheap
    // to write; reconstructing that pixel overflows 32-bit arithmetic.
    let mut bytes = Vec::new();
    write_header(
        Header {
            color_type: ColorType::Rgb,
            pixel_depth: PixelDepth::Sixteen,
            width: 1,
            height: 5,
        },
        &mut bytes,
    );
    let mut bw = BitWriter::new();
    bw.write_signed(0);
    bw.write_signed(0);
    // Pixel 2: above range, residual 65534 with k = 0.
    bw.write_bit(false);
    bw.write_bit(true);
    RiceCoder::new(0).encode(&mut bw, 65534);
    // Pixel 3: in range of [0, 65535], value 65535.
    bw.write_bit(true);
    PhaseInCoder::new(65536).encode(&mut bw, 65535);
    // Pixel 4: context is zero again and the estimator now picks k = 14;
    // an above-range residual of i32::MAX overflows the reconstruction.
    bw.write_bit(false);
    bw.write_bit(true);
    RiceCoder::new(14).encode(&mut bw, i32::MAX as u32);
    bw.byte_align();
    let mut payload = bw.into_bytes();
    bytes.append(&mut payload);
    assert_eq!(
        decompress_image(&bytes),
        Err(DecompressionError::ValueOverflow)
    );
}
