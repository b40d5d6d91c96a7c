//! Byte-order detection on whole buffers: the first record must be a FAR
//! whose declared payload length is two under exactly one byte order.

use stdf::rec_lot::FAR;
use stdf::records::{detect_endian, V4};
use stdf::types::{Endian, StdfError, U1};

#[test]
fn test_get_endian_from_file_none_file_too_short() {
    let test_data: &[u8] = &[0x00, 0x02, 0x00];
    assert_eq!(detect_endian(test_data), Err(StdfError::NotStdf));
}

#[test]
fn test_get_endian_from_file_none_typ_or_sub_fail() {
    let test_data: &[u8] = &[0x00, 0x02, 0xAA, 0x55];
    assert_eq!(detect_endian(test_data), Err(StdfError::NotStdf));
}

#[test]
fn test_get_endian_from_file_none_rec_len_fail() {
    let test_data: &[u8] = &[0x00, 0x03, 0x00, 0x0A];
    assert_eq!(detect_endian(test_data), Err(StdfError::NotStdf));
}

#[test]
fn far_detection_little_endian() {
    let b: &[u8] = &[0x02, 0x00, 0x00, 0x0A, 0x02, 0x04];
    assert_eq!(detect_endian(b), Ok(Endian::Little));
    let mut off = 0;
    let rec = V4::try_read(b, &mut off, Endian::Little).unwrap();
    assert_eq!(rec, V4::FAR(FAR { cpu_type: U1(2), stdf_ver: U1(4), present: 2 }));
    assert_eq!(off, 6);
}

#[test]
fn far_detection_big_endian() {
    let b: &[u8] = &[0x00, 0x02, 0x00, 0x0A, 0x01, 0x04];
    assert_eq!(detect_endian(b), Ok(Endian::Big));
}

#[test]
fn not_stdf_at_all() {
    let b: &[u8] = &[0x00, 0x02, 0xAA, 0x55];
    assert_eq!(detect_endian(b), Err(StdfError::NotStdf));
}

#[test]
fn truncated_header_is_not_stdf() {
    let b: &[u8] = &[0x00, 0x02, 0x00];
    assert_eq!(detect_endian(b), Err(StdfError::NotStdf));
}

#[test]
fn far_with_wrong_length_is_not_stdf() {
    // a FAR pair whose length reads as neither 2 nor 512
    let b: &[u8] = &[0x00, 0x03, 0x00, 0x0A, 0x01, 0x04];
    assert_eq!(detect_endian(b), Err(StdfError::NotStdf));
}

#[test]
fn detection_reads_only_the_first_six_bytes() {
    let short: &[u8] = &[0x02, 0x00, 0x00, 0x0A, 0x02, 0x04];
    let mut long = short.to_vec();
    long.extend_from_slice(&[0xde, 0xad, 0xbe, 0xef]);
    assert_eq!(detect_endian(short), detect_endian(&long));
}
