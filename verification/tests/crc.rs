//! The plain table-driven CRC-32.

use oxideav_tta::crc::crc32;

#[test]
fn empty_input_matches_init_inversion() {
    assert_eq!(crc32(&[]), 0);
}

#[test]
fn known_vector_check_message() {
    assert_eq!(crc32(b"123456789"), 0xCBF4_3926);
}
