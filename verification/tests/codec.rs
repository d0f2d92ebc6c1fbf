use mean_image::checksum::compute_checksum;
use mean_image::codec::find_mismatch;
use mean_image::{
    extract_u16, extract_u16_le, extract_u32, extract_u32_le, write_u16, write_u16_le, write_u32,
    write_u32_le,
};

#[test]
fn reads_big_endian_u32() {
    let data = [0xAA, 0x12, 0x34, 0x56, 0x78, 0xBB];
    assert_eq!(extract_u32(&data, 1), 0x1234_5678);
    assert_eq!(extract_u32(&[0xFF, 0xFF, 0xFF, 0xFF], 0), u32::MAX);
}

#[test]
fn reads_little_endian_u32() {
    let data = [0xAA, 0x12, 0x34, 0x56, 0x78, 0xBB];
    assert_eq!(extract_u32_le(&data, 1), 0x7856_3412);
    assert_eq!(extract_u32_le(&data, 2), 0xBB78_5634);
}

#[test]
fn reads_u16_in_both_orders() {
    let data = [0x00, 0xFF, 0xC0, 0x01];
    assert_eq!(extract_u16(&data, 1), 0xFFC0);
    assert_eq!(extract_u16_le(&data, 1), 0xC0FF);
    assert_eq!(extract_u16(&data, 2), 0xC001);
    assert_eq!(extract_u16_le(&data, 2), 0x01C0);
}

#[test]
fn writes_big_endian_u32_in_place() {
    let mut data = [0x11u8; 7];
    write_u32(&mut data, 2, 0x0001_0000);
    assert_eq!(data, [0x11, 0x11, 0x00, 0x01, 0x00, 0x00, 0x11]);
    write_u32(&mut data, 3, 0xDEAD_BEEF);
    assert_eq!(data, [0x11, 0x11, 0x00, 0xDE, 0xAD, 0xBE, 0xEF]);
}

#[test]
fn writes_little_endian_u32_in_place() {
    let mut data = [0x11u8; 6];
    write_u32_le(&mut data, 1, 0xDEAD_BEEF);
    assert_eq!(data, [0x11, 0xEF, 0xBE, 0xAD, 0xDE, 0x11]);
}

#[test]
fn writes_u16_in_both_orders() {
    let mut data = [0u8; 5];
    write_u16(&mut data, 0, 65_500);
    write_u16_le(&mut data, 3, 65_500);
    assert_eq!(data, [0xFF, 0xDC, 0x00, 0xDC, 0xFF]);
}

#[test]
fn written_values_are_read_back() {
    let mut data = vec![0x5Au8; 16];
    for &value in &[0u32, 1, 255, 256, 65_535, 65_536, 0x8000_0000, u32::MAX] {
        write_u32(&mut data, 3, value);
        assert_eq!(extract_u32(&data, 3), value);
        write_u32_le(&mut data, 9, value);
        assert_eq!(extract_u32_le(&data, 9), value);
    }
    for &value in &[0u16, 1, 255, 256, 512, 65_500, u16::MAX] {
        write_u16(&mut data, 0, value);
        assert_eq!(extract_u16(&data, 0), value);
        write_u16_le(&mut data, 14, value);
        assert_eq!(extract_u16_le(&data, 14), value);
    }
    assert_eq!(data[2], 0x5A);
    assert_eq!(data[7], 0x5A);
    assert_eq!(data[8], 0x5A);
    assert_eq!(data[13], 0x5A);
}

#[test]
fn fields_may_end_at_the_end_of_the_buffer() {
    let mut data = [0u8; 4];
    write_u32(&mut data, 0, 7);
    assert_eq!(extract_u32(&data, 0), 7);
    write_u16_le(&mut data, 2, 9);
    assert_eq!(extract_u16_le(&data, 2), 9);
}

#[test]
fn finds_the_first_byte_that_differs() {
    let data = [9, 1, 2, 3, 4];
    assert_eq!(find_mismatch(&data, 1, &[1, 2, 3]), None);
    assert_eq!(find_mismatch(&data, 1, &[1, 7, 8]), Some(1));
    assert_eq!(find_mismatch(&data, 0, &[1, 2, 3]), Some(0));
    assert_eq!(find_mismatch(&data, 5, &[]), None);
}

#[test]
fn checksum_of_the_standard_check_string() {
    assert_eq!(compute_checksum(b"123456789", 0, 9), 0xCBF4_3926);
    assert_eq!(compute_checksum(b"xx123456789yy", 2, 9), 0xCBF4_3926);
    assert_eq!(compute_checksum(b"123456789", 4, 0), 0);
}
