use mean_image::error::{Field, SpoofError};
use mean_image::jpeg;
use mean_image::pixels::PixelBuffer;
use mean_image::{extract_u16, write_u16};

/// Start of image, an application segment with two bytes of data, a comment
/// without data, then a baseline frame header for `width` by `height`.
fn stream(width: u16, height: u16) -> Vec<u8> {
    let mut data = vec![
        0xFF, 0xD8, // start of image
        0xFF, 0xE0, 0x00, 0x04, 0x11, 0x22, // application segment
        0xFF, 0xFE, 0x00, 0x02, // comment
        0xFF, 0xC0, 0x00, 0x0B, 0x08, 0, 0, 0, 0, 0x01, 0x01, 0x11, 0x00, // frame header
        0xFF, 0xD9, // end of image
    ];
    write_u16(&mut data, 17, height);
    write_u16(&mut data, 19, width);
    data
}

fn mismatch(field: Field, offset: usize, expected: u64, actual: u64) -> Result<(), SpoofError> {
    Err(SpoofError::StructuralMismatch { field, offset, expected, actual })
}

fn noise(width: u32, height: u32) -> PixelBuffer {
    let mut image = PixelBuffer::new(width, height).expect("a grid of this size fits in memory");
    let mut state: u32 = 12345;
    for y in 0..height {
        for x in 0..width {
            state = state.wrapping_mul(1_103_515_245).wrapping_add(12345);
            let bytes = state.to_be_bytes();
            image.put_pixel(x, y, [bytes[0], bytes[1], bytes[2]]);
        }
    }
    image
}

#[test]
fn jpeg_encoded_image_passes_the_check() {
    let encoded = jpeg::create_jpeg(&noise(512, 512)).expect("the encoder accepts the grid");
    assert_eq!(&encoded[0..2], &[0xFF, 0xD8]);
    let frame = jpeg::find_sof0(&encoded).expect("the file has a baseline frame header");
    assert_eq!(&encoded[frame..frame + 2], &[0xFF, 0xC0]);
    assert_eq!(extract_u16(&encoded, frame + 5), 512);
    assert_eq!(extract_u16(&encoded, frame + 7), 512);
    assert_eq!(jpeg::verify_image(&encoded, 512, 512), Ok(()));
}

#[test]
fn jpeg_encoder_stores_height_before_width() {
    let encoded = jpeg::create_jpeg(&noise(40, 24)).expect("the encoder accepts the grid");
    let frame = jpeg::find_sof0(&encoded).expect("the file has a baseline frame header");
    assert_eq!(extract_u16(&encoded, frame + 5), 24);
    assert_eq!(extract_u16(&encoded, frame + 7), 40);
    assert_eq!(jpeg::verify_image(&encoded, 40, 24), Ok(()));
    assert_eq!(
        jpeg::verify_image(&encoded, 24, 40),
        mismatch(Field::Width, frame + 7, 24, 40)
    );
}

#[test]
fn jpeg_pipeline_returns_the_patched_file() {
    let image = noise(40, 24);
    let encoded = jpeg::create_jpeg(&image).expect("the encoder accepts the grid");
    let frame = jpeg::find_sof0(&encoded).expect("the file has a baseline frame header");
    let spoofed = jpeg::create_image(&image, 65_500, 65_499).expect("the pipeline succeeds");
    assert_eq!(jpeg::verify_image(&spoofed, 65_500, 65_499), Ok(()));
    assert_eq!(jpeg::find_sof0(&spoofed), Ok(frame));
    assert_eq!(extract_u16(&spoofed, frame + 5), 65_499);
    assert_eq!(extract_u16(&spoofed, frame + 7), 65_500);
    assert_eq!(&spoofed[..frame + 5], &encoded[..frame + 5]);
    assert_eq!(&spoofed[frame + 9..], &encoded[frame + 9..]);
    assert_eq!(jpeg::spoof_dimensions(encoded, 40, 24, 65_500, 65_499), Ok(spoofed));
}

#[test]
fn jpeg_encoder_refuses_wide_grids() {
    let wide = PixelBuffer::new(65_536, 1).expect("a grid of this size fits in memory");
    assert_eq!(jpeg::create_jpeg(&wide), Err(SpoofError::EncodingFailed));
    assert_eq!(jpeg::create_image(&wide, 1, 1), Err(SpoofError::EncodingFailed));
    let tall = PixelBuffer::new(1, 65_536).expect("a grid of this size fits in memory");
    assert_eq!(jpeg::create_jpeg(&tall), Err(SpoofError::EncodingFailed));
}

#[test]
fn jpeg_walk_steps_over_segments() {
    assert_eq!(jpeg::find_sof0(&stream(3, 2)), Ok(12));
    assert_eq!(jpeg::find_sof0(&[0xFF, 0xD8, 0xFF, 0xC0, 0x00, 0x02]), Ok(2));
    // The walk reads no signature: it begins behind the first two bytes.
    assert_eq!(jpeg::find_sof0(&[0x00, 0x00, 0xFF, 0xC0, 0x00, 0x02]), Ok(2));
}

#[test]
fn jpeg_walk_runs_off_the_end() {
    assert_eq!(jpeg::find_sof0(&[]), Err(SpoofError::ScanExhausted));
    assert_eq!(jpeg::find_sof0(&[0xFF, 0xD8]), Err(SpoofError::ScanExhausted));
    assert_eq!(jpeg::find_sof0(&[0xFF, 0xD8, 0xFF, 0xC0, 0x00]), Err(SpoofError::ScanExhausted));
    assert_eq!(jpeg::find_sof0(&stream(3, 2)[..15]), Err(SpoofError::ScanExhausted));
    // A length that points behind the buffer.
    assert_eq!(
        jpeg::find_sof0(&[0xFF, 0xD8, 0xFF, 0xE0, 0xFF, 0xFF, 0xFF, 0xC0, 0x00, 0x02]),
        Err(SpoofError::ScanExhausted)
    );
    // A frame header of another kind is no baseline frame header.
    let mut progressive = stream(3, 2);
    progressive[13] = 0xC2;
    assert_eq!(jpeg::find_sof0(&progressive), Err(SpoofError::ScanExhausted));
    assert_eq!(jpeg::verify_image(&progressive, 3, 2), Err(SpoofError::ScanExhausted));
}

#[test]
fn jpeg_check_reads_height_at_five_and_width_at_seven() {
    let data = stream(0x0203, 0x0405);
    assert_eq!(&data[17..21], &[0x04, 0x05, 0x02, 0x03]);
    assert_eq!(jpeg::verify_image(&data, 0x0203, 0x0405), Ok(()));
    assert_eq!(
        jpeg::verify_image(&data, 0x0405, 0x0203),
        mismatch(Field::Width, 19, 0x0405, 0x0203)
    );
    assert_eq!(
        jpeg::verify_image(&data, 0x0203, 0x0203),
        mismatch(Field::Height, 17, 0x0203, 0x0405)
    );
}

#[test]
fn jpeg_check_is_repeatable() {
    let data = stream(3, 2);
    assert_eq!(jpeg::verify_image(&data, 3, 2), jpeg::verify_image(&data, 3, 2));
    assert_eq!(jpeg::verify_image(&data, 2, 3), jpeg::verify_image(&data, 2, 3));
    assert_eq!(data, stream(3, 2));
}

#[test]
fn jpeg_rejects_wrong_signature_and_short_buffers() {
    let mut data = stream(3, 2);
    data[1] = 0xD9;
    assert_eq!(jpeg::verify_image(&data, 3, 2), mismatch(Field::Signature, 1, 0xD8, 0xD9));
    data[0] = 0x00;
    assert_eq!(jpeg::verify_image(&data, 3, 2), mismatch(Field::Signature, 0, 0xFF, 0x00));
    assert_eq!(jpeg::verify_image(&[0xFF], 3, 2), Err(SpoofError::BoundsViolation));
    assert_eq!(jpeg::verify_image(&[], 3, 2), Err(SpoofError::BoundsViolation));
    // The frame header is found, but the buffer ends inside the width.
    assert_eq!(jpeg::verify_image(&stream(3, 2)[..20], 3, 2), Err(SpoofError::BoundsViolation));
    assert_eq!(jpeg::verify_image(&stream(3, 2)[..21], 3, 2), Ok(()));
}

#[test]
fn jpeg_patch_rewrites_the_frame_header() {
    let mut data = stream(3, 2);
    assert_eq!(jpeg::modify_width_and_height(&mut data, 0xFFDC, 0x1234), Ok(()));
    assert_eq!(&data[17..21], &[0x12, 0x34, 0xFF, 0xDC]);
    assert_eq!(jpeg::verify_image(&data, 0xFFDC, 0x1234), Ok(()));
    assert_eq!(jpeg::modify_width_and_height(&mut data, 3, 2), Ok(()));
    assert_eq!(data, stream(3, 2));
    assert_eq!(jpeg::modify_width_and_height(&mut data, u16::MAX, u16::MAX), Ok(()));
    assert_eq!(jpeg::verify_image(&data, u16::MAX, u16::MAX), Ok(()));
}

#[test]
fn jpeg_patch_leaves_rejected_buffers_alone() {
    let mut short = stream(3, 2);
    short.truncate(20);
    let copy = short.clone();
    assert_eq!(
        jpeg::modify_width_and_height(&mut short, 9, 9),
        Err(SpoofError::BoundsViolation)
    );
    assert_eq!(short, copy);
    short.truncate(14);
    let copy = short.clone();
    assert_eq!(
        jpeg::modify_width_and_height(&mut short, 9, 9),
        Err(SpoofError::ScanExhausted)
    );
    assert_eq!(short, copy);
}
