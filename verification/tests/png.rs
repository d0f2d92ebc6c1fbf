use mean_image::checksum::compute_checksum;
use mean_image::error::{Field, SpoofError};
use mean_image::pixels::PixelBuffer;
use mean_image::png;
use mean_image::{extract_u32, write_u32};

fn gradient(width: u32, height: u32) -> PixelBuffer {
    let mut image = PixelBuffer::new(width, height).expect("a grid of this size fits in memory");
    for y in 0..height {
        for x in 0..width {
            image.put_pixel(x, y, [(x % 256) as u8, (y % 256) as u8, ((x + y) % 256) as u8]);
        }
    }
    image
}

/// Signature and IHDR chunk of a PNG file of one RGBA pixel, then filler.
fn one_pixel_header() -> Vec<u8> {
    vec![
        0x89, 0x50, 0x4E, 0x47, 0x0D, 0x0A, 0x1A, 0x0A, // signature
        0x00, 0x00, 0x00, 0x0D, // length
        0x49, 0x48, 0x44, 0x52, // IHDR
        0x00, 0x00, 0x00, 0x01, // width
        0x00, 0x00, 0x00, 0x01, // height
        0x08, 0x06, 0x00, 0x00, 0x00, // depth, colour type, compression, filter, interlace
        0x1F, 0x15, 0xC4, 0x89, // checksum
        0xAB, 0xCD,
    ]
}

fn mismatch(field: Field, offset: usize, expected: u64, actual: u64) -> Result<(), SpoofError> {
    Err(SpoofError::StructuralMismatch { field, offset, expected, actual })
}

#[test]
fn png_encoded_image_passes_the_check() {
    let encoded = png::create_png(&gradient(512, 512)).expect("the encoder accepts the grid");
    assert_eq!(&encoded[0..8], &[0x89, 0x50, 0x4E, 0x47, 0x0D, 0x0A, 0x1A, 0x0A]);
    assert_eq!(extract_u32(&encoded, 8), 13);
    assert_eq!(&encoded[12..16], b"IHDR");
    assert_eq!(extract_u32(&encoded, 16), 512);
    assert_eq!(extract_u32(&encoded, 20), 512);
    assert_eq!(extract_u32(&encoded, 29), compute_checksum(&encoded, 12, 17));
    assert_eq!(png::verify_image(&encoded, 512, 512), Ok(()));
}

#[test]
fn png_end_to_end_beyond_sixteen_bits() {
    let mut encoded = png::create_png(&gradient(512, 512)).expect("the encoder accepts the grid");
    assert_eq!(png::verify_image(&encoded, 512, 512), Ok(()));
    let before = extract_u32(&encoded, 29);
    assert_eq!(png::modify_width_and_height(&mut encoded, 65536, 65536), Ok(()));
    assert_eq!(extract_u32(&encoded, 16), 65536);
    assert_eq!(extract_u32(&encoded, 20), 65536);
    assert_eq!(png::verify_image(&encoded, 65536, 65536), Ok(()));
    let after = extract_u32(&encoded, 29);
    assert_ne!(before, after);
    assert_eq!(after, compute_checksum(&encoded, 12, 17));
}

#[test]
fn png_pipeline_returns_the_patched_file() {
    let image = gradient(64, 48);
    let encoded = png::create_png(&image).expect("the encoder accepts the grid");
    let spoofed = png::create_image(&image, 65_500, 65_500).expect("the pipeline succeeds");
    assert_eq!(spoofed.len(), encoded.len());
    assert_eq!(png::verify_image(&spoofed, 65_500, 65_500), Ok(()));
    assert_eq!(&spoofed[..16], &encoded[..16]);
    assert_eq!(&spoofed[24..29], &encoded[24..29]);
    assert_eq!(&spoofed[33..], &encoded[33..]);
    let again = png::spoof_dimensions(encoded, 64, 48, 65_500, 65_500);
    assert_eq!(again, Ok(spoofed));
}

#[test]
fn png_pipeline_stops_at_the_first_check() {
    let encoded = png::create_png(&gradient(64, 48)).expect("the encoder accepts the grid");
    assert_eq!(
        png::spoof_dimensions(encoded, 48, 64, 1, 1),
        Err(SpoofError::StructuralMismatch {
            field: Field::Width,
            offset: 16,
            expected: 48,
            actual: 64
        })
    );
}

#[test]
fn png_known_header_checksum() {
    let header = one_pixel_header();
    assert_eq!(compute_checksum(&header, 12, 17), 0x1F15_C489);
    assert_eq!(png::verify_image(&header, 1, 1), Ok(()));
}

#[test]
fn png_check_is_repeatable() {
    let header = one_pixel_header();
    let copy = header.clone();
    let first = png::verify_image(&header, 1, 1);
    let second = png::verify_image(&header, 1, 1);
    assert_eq!(first, second);
    assert_eq!(header, copy);
    let first = png::verify_image(&header, 2, 1);
    let second = png::verify_image(&header, 2, 1);
    assert_eq!(first, second);
    assert_eq!(header, copy);
}

#[test]
fn png_patch_repairs_the_checksum() {
    let mut header = one_pixel_header();
    assert_eq!(png::modify_width_and_height(&mut header, 1, 2), Ok(()));
    assert_eq!(extract_u32(&header, 16), 1);
    assert_eq!(extract_u32(&header, 20), 2);
    assert_ne!(extract_u32(&header, 29), 0x1F15_C489);
    assert_eq!(extract_u32(&header, 29), compute_checksum(&header, 12, 17));
    assert_eq!(png::verify_image(&header, 1, 2), Ok(()));
    assert_eq!(&header[33..], &[0xAB, 0xCD]);
    assert_eq!(png::modify_width_and_height(&mut header, 1, 1), Ok(()));
    assert_eq!(header, one_pixel_header());
}

#[test]
fn png_patch_to_the_largest_dimensions() {
    let mut header = one_pixel_header();
    assert_eq!(png::modify_width_and_height(&mut header, u32::MAX, u32::MAX), Ok(()));
    assert_eq!(&header[16..24], &[0xFF; 8]);
    assert_eq!(png::verify_image(&header, u32::MAX, u32::MAX), Ok(()));
}

#[test]
fn png_dimensions_without_checksum_are_rejected() {
    let mut header = one_pixel_header();
    write_u32(&mut header, 16, 65_500);
    write_u32(&mut header, 20, 65_500);
    let fresh = compute_checksum(&header, 12, 17);
    assert_eq!(
        png::verify_image(&header, 65_500, 65_500),
        mismatch(Field::Checksum, 29, fresh as u64, 0x1F15_C489)
    );
}

#[test]
fn png_rejects_each_wrong_field() {
    let good = one_pixel_header();

    let mut bad = good.clone();
    bad[3] = 0x48;
    assert_eq!(png::verify_image(&bad, 1, 1), mismatch(Field::Signature, 3, 0x47, 0x48));

    let mut bad = good.clone();
    bad[11] = 0x0E;
    assert_eq!(png::verify_image(&bad, 1, 1), mismatch(Field::ChunkLength, 8, 13, 14));

    let mut bad = good.clone();
    bad[15] = 0x53;
    assert_eq!(
        png::verify_image(&bad, 1, 1),
        mismatch(Field::ChunkType, 12, 0x4948_4452, 0x4948_4453)
    );

    assert_eq!(png::verify_image(&good, 2, 1), mismatch(Field::Width, 16, 2, 1));
    assert_eq!(png::verify_image(&good, 1, 2), mismatch(Field::Height, 20, 2, 1));
    assert_eq!(png::verify_image(&good, 2, 2), mismatch(Field::Width, 16, 2, 1));

    let mut bad = good.clone();
    bad[32] = 0x88;
    assert_eq!(
        png::verify_image(&bad, 1, 1),
        mismatch(Field::Checksum, 29, 0x1F15_C489, 0x1F15_C488)
    );
}

#[test]
fn png_rejects_short_buffers() {
    let good = one_pixel_header();
    assert_eq!(png::verify_image(&[], 1, 1), Err(SpoofError::BoundsViolation));
    assert_eq!(png::verify_image(&good[..7], 1, 1), Err(SpoofError::BoundsViolation));
    assert_eq!(png::verify_image(&good[..23], 1, 1), Err(SpoofError::BoundsViolation));
    assert_eq!(png::verify_image(&good[..32], 1, 1), Err(SpoofError::BoundsViolation));
    assert_eq!(png::verify_image(&good[..33], 1, 1), Ok(()));
    assert_eq!(png::verify_image(&good[..24], 2, 1), mismatch(Field::Width, 16, 2, 1));
}

#[test]
fn png_patch_leaves_rejected_buffers_alone() {
    let mut short = one_pixel_header();
    short.truncate(32);
    let copy = short.clone();
    assert_eq!(
        png::modify_width_and_height(&mut short, 9, 9),
        Err(SpoofError::BoundsViolation)
    );
    assert_eq!(short, copy);

    let mut odd = one_pixel_header();
    odd[11] = 0x0C;
    let copy = odd.clone();
    assert_eq!(
        png::modify_width_and_height(&mut odd, 9, 9),
        mismatch(Field::ChunkLength, 8, 13, 12)
    );
    assert_eq!(odd, copy);
}
