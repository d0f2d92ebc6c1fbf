use mean_image::bmp;
use mean_image::error::{Field, SpoofError};
use mean_image::pixels::PixelBuffer;
use mean_image::{extract_u32_le, write_u32_le};

fn header(width: u32, height: u32) -> Vec<u8> {
    let mut data = vec![0u8; 30];
    data[0] = b'B';
    data[1] = b'M';
    write_u32_le(&mut data, 2, 30);
    write_u32_le(&mut data, 18, width);
    write_u32_le(&mut data, 22, height);
    data[26] = 0x01;
    data
}

fn mismatch(field: Field, offset: usize, expected: u64, actual: u64) -> Result<(), SpoofError> {
    Err(SpoofError::StructuralMismatch { field, offset, expected, actual })
}

#[test]
fn bmp_encoded_image_passes_the_check() {
    let image = PixelBuffer::new(512, 512).expect("a grid of this size fits in memory");
    let encoded = bmp::create_png(&image).expect("the encoder accepts the grid");
    assert_eq!(&encoded[0..2], b"BM");
    assert_eq!(encoded.len(), 54 + 512 * 512 * 3);
    assert_eq!(extract_u32_le(&encoded, 2) as usize, encoded.len());
    assert_eq!(bmp::verify_image(&encoded, 512, 512), Ok(()));
}

#[test]
fn bmp_pipeline_returns_the_patched_file() {
    let mut image = PixelBuffer::new(5, 3).expect("a grid of this size fits in memory");
    image.put_pixel(4, 2, [1, 2, 3]);
    let encoded = bmp::create_png(&image).expect("the encoder accepts the grid");
    let spoofed = bmp::create_image(&image, 65_500, 65_500).expect("the pipeline succeeds");
    assert_eq!(bmp::verify_image(&spoofed, 65_500, 65_500), Ok(()));
    assert_eq!(extract_u32_le(&spoofed, 2), u32::MAX);
    assert_eq!(&spoofed[6..18], &encoded[6..18]);
    assert_eq!(&spoofed[26..], &encoded[26..]);
    assert_eq!(bmp::spoof_dimensions(encoded, 5, 3, 65_500, 65_500), Ok(spoofed));
}

#[test]
fn bmp_check_passes_on_a_plain_header() {
    assert_eq!(bmp::verify_image(&header(640, 480), 640, 480), Ok(()));
    assert_eq!(bmp::verify_image(&header(0, 0), 0, 0), Ok(()));
}

#[test]
fn bmp_check_is_repeatable() {
    let data = header(640, 480);
    assert_eq!(bmp::verify_image(&data, 640, 480), bmp::verify_image(&data, 640, 480));
    assert_eq!(bmp::verify_image(&data, 1, 480), bmp::verify_image(&data, 1, 480));
    assert_eq!(data, header(640, 480));
}

#[test]
fn bmp_rejects_each_wrong_field() {
    let good = header(640, 480);
    let mut bad = good.clone();
    bad[1] = b'N';
    assert_eq!(bmp::verify_image(&bad, 640, 480), mismatch(Field::Signature, 1, 0x4D, 0x4E));
    bad[0] = b'A';
    assert_eq!(bmp::verify_image(&bad, 640, 480), mismatch(Field::Signature, 0, 0x42, 0x41));
    assert_eq!(bmp::verify_image(&good, 641, 480), mismatch(Field::Width, 18, 641, 640));
    assert_eq!(bmp::verify_image(&good, 640, 481), mismatch(Field::Height, 22, 481, 480));
    assert_eq!(bmp::verify_image(&good, 480, 640), mismatch(Field::Width, 18, 480, 640));
}

#[test]
fn bmp_rejects_short_buffers() {
    let good = header(640, 480);
    assert_eq!(bmp::verify_image(&good[..1], 640, 480), Err(SpoofError::BoundsViolation));
    assert_eq!(bmp::verify_image(&good[..25], 640, 480), Err(SpoofError::BoundsViolation));
    assert_eq!(bmp::verify_image(&good[..26], 640, 480), Ok(()));
    assert_eq!(bmp::verify_image(b"PM", 640, 480), mismatch(Field::Signature, 0, 0x42, 0x50));
}

#[test]
fn bmp_patch_writes_size_and_dimensions() {
    let mut data = header(640, 480);
    assert_eq!(bmp::modify_width_and_height(&mut data, 0x0102_0304, 0x0A0B_0C0D), Ok(()));
    assert_eq!(&data[2..6], &[0xFF, 0xFF, 0xFF, 0xFF]);
    assert_eq!(&data[18..22], &[0x04, 0x03, 0x02, 0x01]);
    assert_eq!(&data[22..26], &[0x0D, 0x0C, 0x0B, 0x0A]);
    assert_eq!(&data[0..2], b"BM");
    assert_eq!(&data[6..18], &[0u8; 12]);
    assert_eq!(&data[26..], &[1, 0, 0, 0]);
    assert_eq!(bmp::verify_image(&data, 0x0102_0304, 0x0A0B_0C0D), Ok(()));
}

#[test]
fn bmp_patch_leaves_rejected_buffers_alone() {
    let mut short = header(640, 480);
    short.truncate(25);
    let copy = short.clone();
    assert_eq!(
        bmp::modify_width_and_height(&mut short, 1, 1),
        Err(SpoofError::BoundsViolation)
    );
    assert_eq!(short, copy);
}
