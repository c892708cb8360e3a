//! Tags after the last frame.

use oxideav_tta::trailers::{detect_trailers, ApeV2Range, Id3v1Range, TrailerInfo};
use oxideav_tta::Error;

fn prefix(eos: usize) -> Vec<u8> {
    vec![0u8; eos]
}

#[test]
fn no_trailers_when_buffer_ends_at_eos() {
    let buf = prefix(100);
    let info = detect_trailers(&buf, 100);
    assert!(info.is_empty());
    assert_eq!(info.id3v1, None);
    assert_eq!(info.apev2, None);
}

#[test]
fn id3v1_detected_at_file_end() {
    let mut buf = prefix(50);
    buf.extend_from_slice(b"TAG");
    buf.extend(std::iter::repeat(0u8).take(125));
    assert_eq!(buf.len(), 50 + 128);
    let info = detect_trailers(&buf, 50);
    assert_eq!(info.id3v1, Some((50, 128)));
    assert_eq!(info.apev2, None);
}

#[test]
fn id3v1_not_detected_when_eos_too_close_to_end() {
    let mut buf = prefix(200);
    buf.extend_from_slice(b"TAG");
    buf.extend(std::iter::repeat(0u8).take(20));
    let info = detect_trailers(&buf, 200);
    assert_eq!(info.id3v1, None);
}

fn build_ape_footer_only(item_count: u32, body_size: usize) -> Vec<u8> {
    let mut out = Vec::with_capacity(32 + body_size);
    out.extend(std::iter::repeat(0xAAu8).take(body_size));
    out.extend_from_slice(b"APETAGEX");
    out.extend_from_slice(&2000u32.to_le_bytes());
    out.extend_from_slice(&((body_size + 32) as u32).to_le_bytes());
    out.extend_from_slice(&item_count.to_le_bytes());
    let flags: u32 = 0x2000_0000;
    out.extend_from_slice(&flags.to_le_bytes());
    out.extend_from_slice(&[0u8; 8]);
    out
}

fn build_ape_with_header(item_count: u32, body_size: usize) -> Vec<u8> {
    let mut out = Vec::with_capacity(64 + body_size);
    out.extend_from_slice(b"APETAGEX");
    out.extend_from_slice(&2000u32.to_le_bytes());
    out.extend_from_slice(&((body_size + 32) as u32).to_le_bytes());
    out.extend_from_slice(&item_count.to_le_bytes());
    let header_flags: u32 = 0x8000_0000 | 0x4000_0000;
    out.extend_from_slice(&header_flags.to_le_bytes());
    out.extend_from_slice(&[0u8; 8]);
    out.extend(std::iter::repeat(0xAAu8).take(body_size));
    out.extend_from_slice(b"APETAGEX");
    out.extend_from_slice(&2000u32.to_le_bytes());
    out.extend_from_slice(&((body_size + 32) as u32).to_le_bytes());
    out.extend_from_slice(&item_count.to_le_bytes());
    let footer_flags: u32 = 0x8000_0000 | 0x2000_0000;
    out.extend_from_slice(&footer_flags.to_le_bytes());
    out.extend_from_slice(&[0u8; 8]);
    out
}

#[test]
fn apev2_footer_only_detected() {
    let mut buf = prefix(200);
    let ape = build_ape_footer_only(5, 100);
    let ape_len = ape.len();
    buf.extend(ape);
    let info = detect_trailers(&buf, 200);
    assert_eq!(info.id3v1, None);
    assert_eq!(info.apev2, Some((200, ape_len)));
    assert_eq!(ape_len, 132);
}

#[test]
fn apev2_with_header_detected() {
    let mut buf = prefix(200);
    let ape = build_ape_with_header(3, 64);
    let ape_len = ape.len();
    buf.extend(ape);
    let info = detect_trailers(&buf, 200);
    assert_eq!(info.id3v1, None);
    assert_eq!(info.apev2, Some((200, ape_len)));
    assert_eq!(ape_len, 128);
}

#[test]
fn both_trailers_detected_ape_before_id3v1() {
    let mut buf = prefix(200);
    let ape = build_ape_footer_only(2, 40);
    let ape_len = ape.len();
    buf.extend(ape);
    let ape_end_off = buf.len();
    buf.extend_from_slice(b"TAG");
    buf.extend(std::iter::repeat(0u8).take(125));
    let info = detect_trailers(&buf, 200);
    assert_eq!(info.id3v1, Some((ape_end_off, 128)));
    assert_eq!(info.apev2, Some((200, ape_len)));
}

#[test]
fn apev2_bogus_tag_size_rejected() {
    let mut buf = prefix(20);
    let body_size = 10;
    let bogus_tag_size = 200u32;
    buf.extend(std::iter::repeat(0xAAu8).take(body_size));
    buf.extend_from_slice(b"APETAGEX");
    buf.extend_from_slice(&2000u32.to_le_bytes());
    buf.extend_from_slice(&bogus_tag_size.to_le_bytes());
    buf.extend_from_slice(&1u32.to_le_bytes());
    buf.extend_from_slice(&0x2000_0000u32.to_le_bytes());
    buf.extend_from_slice(&[0u8; 8]);
    let info = detect_trailers(&buf, 20);
    assert_eq!(info.apev2, None);
}

#[test]
fn detect_with_out_of_range_eos_yields_empty() {
    let buf = vec![0u8; 50];
    let info = detect_trailers(&buf, 100);
    assert!(info.is_empty());
}

#[test]
fn no_apev2_when_footer_magic_absent() {
    let mut buf = prefix(50);
    buf.extend(std::iter::repeat(0u8).take(64));
    let info = detect_trailers(&buf, 50);
    assert!(info.is_empty());
}

#[test]
fn id3v1_range_from_raw_accepts_anchored_128_byte_trailer() {
    let r = Id3v1Range::from_raw(72, 128, 200).expect("valid");
    assert_eq!(r.start(), 72);
    assert_eq!(r.len(), 128);
    assert_eq!(r.end(), 200);
    assert_eq!(r.byte_range(), 72..200);
    assert!(r.is_at_file_end(200));
    assert!(!r.is_at_file_end(201));
    assert!(!r.is_empty());
}

#[test]
fn id3v1_range_rejects_wrong_length() {
    for bad_len in [0usize, 1, 64, 127, 129, 256] {
        let start = 200_usize.saturating_sub(bad_len);
        let r = Id3v1Range::from_raw(start, bad_len, 200);
        assert_eq!(
            r,
            Err(Error::InvalidId3v1Range(start, bad_len)),
            "len {bad_len} should be rejected"
        );
    }
}

#[test]
fn id3v1_range_rejects_not_anchored_at_file_end() {
    let r = Id3v1Range::from_raw(71, 128, 200);
    assert_eq!(r, Err(Error::InvalidId3v1Range(71, 128)));
}

#[test]
fn id3v1_range_rejects_past_file_end() {
    let r = Id3v1Range::from_raw(150, 128, 200);
    assert_eq!(r, Err(Error::InvalidId3v1Range(150, 128)));
}

#[test]
fn id3v1_range_rejects_arithmetic_overflow() {
    let r = Id3v1Range::from_raw(usize::MAX, 128, usize::MAX);
    assert_eq!(r, Err(Error::InvalidId3v1Range(usize::MAX, 128)));
}

#[test]
fn ape_v2_range_from_raw_accepts_footer_only() {
    let r = ApeV2Range::from_raw(168, 32, 200).expect("valid");
    assert_eq!(r.start(), 168);
    assert_eq!(r.len(), 32);
    assert_eq!(r.end(), 200);
    assert_eq!(r.byte_range(), 168..200);
    assert!(r.is_at_file_end(200));
    assert_eq!(r.header_and_body_size(), 0);
    assert!(!r.is_empty());
}

#[test]
fn ape_v2_range_from_raw_accepts_body_plus_footer() {
    let r = ApeV2Range::from_raw(68, 132, 200).expect("valid");
    assert_eq!(r.len(), 132);
    assert_eq!(r.header_and_body_size(), 100);
}

#[test]
fn ape_v2_range_from_raw_accepts_header_body_footer() {
    let r = ApeV2Range::from_raw(72, 128, 200).expect("valid");
    assert_eq!(r.len(), 128);
    assert_eq!(r.header_and_body_size(), 96);
}

#[test]
fn ape_v2_range_accepts_not_anchored_at_file_end() {
    let r = ApeV2Range::from_raw(40, 32, 200).expect("valid");
    assert!(!r.is_at_file_end(200));
    assert!(r.is_at_file_end(72));
}

#[test]
fn ape_v2_range_rejects_below_footer_minimum() {
    for bad_len in [0usize, 1, 16, 31] {
        let r = ApeV2Range::from_raw(0, bad_len, 200);
        assert_eq!(
            r,
            Err(Error::InvalidApeV2Range(0, bad_len)),
            "len {bad_len} should be rejected"
        );
    }
}

#[test]
fn ape_v2_range_rejects_past_file_end() {
    let r = ApeV2Range::from_raw(180, 64, 200);
    assert_eq!(r, Err(Error::InvalidApeV2Range(180, 64)));
}

#[test]
fn ape_v2_range_rejects_arithmetic_overflow() {
    let r = ApeV2Range::from_raw(usize::MAX, 32, usize::MAX);
    assert_eq!(r, Err(Error::InvalidApeV2Range(usize::MAX, 32)));
}

#[test]
fn trailer_info_typed_accessors_return_none_on_empty() {
    let info = TrailerInfo::default();
    assert_eq!(info.id3v1_typed(0).unwrap(), None);
    assert_eq!(info.apev2_typed(0).unwrap(), None);
    assert_eq!(info.combined_byte_range(), None);
}

#[test]
fn trailer_info_typed_accessors_from_parser_id3v1() {
    let mut buf = prefix(50);
    buf.extend_from_slice(b"TAG");
    buf.extend(std::iter::repeat(0u8).take(125));
    let file_len = buf.len();
    let info = detect_trailers(&buf, 50);
    let id3 = info.id3v1_typed(file_len).unwrap().expect("present");
    assert_eq!(id3.start(), file_len - 128);
    assert_eq!(id3.len(), 128);
    assert!(id3.is_at_file_end(file_len));
    assert_eq!(info.apev2_typed(file_len).unwrap(), None);
    assert_eq!(info.combined_byte_range(), Some((50, 128)));
}

#[test]
fn trailer_info_typed_accessors_from_parser_apev2_only() {
    let mut buf = prefix(200);
    let ape = build_ape_footer_only(5, 100);
    let ape_len = ape.len();
    buf.extend(ape);
    let file_len = buf.len();
    let info = detect_trailers(&buf, 200);
    let ape_typed = info.apev2_typed(file_len).unwrap().expect("present");
    assert_eq!(ape_typed.start(), 200);
    assert_eq!(ape_typed.len(), ape_len);
    assert!(ape_typed.is_at_file_end(file_len));
    assert_eq!(ape_typed.header_and_body_size(), 100);
    assert_eq!(info.id3v1_typed(file_len).unwrap(), None);
    assert_eq!(info.combined_byte_range(), Some((200, ape_len)));
}

#[test]
fn trailer_info_typed_accessors_from_parser_both() {
    let mut buf = prefix(200);
    let ape = build_ape_footer_only(2, 40);
    let ape_len = ape.len();
    buf.extend(ape);
    let ape_end_off = buf.len();
    buf.extend_from_slice(b"TAG");
    buf.extend(std::iter::repeat(0u8).take(125));
    let file_len = buf.len();
    let info = detect_trailers(&buf, 200);
    let id3 = info.id3v1_typed(file_len).unwrap().expect("present");
    let ape = info.apev2_typed(file_len).unwrap().expect("present");
    assert!(id3.is_at_file_end(file_len));
    assert!(!ape.is_at_file_end(file_len));
    let combined = info.combined_byte_range().unwrap();
    assert_eq!(combined.0, 200);
    assert_eq!(combined.1, ape_len + 128);
    assert_eq!(combined.0 + combined.1, file_len);
    assert_eq!(ape.end(), id3.start());
    assert_eq!(ape.end(), ape_end_off);
}

#[test]
fn trailer_info_typed_accessors_reject_hand_built_literals() {
    let info = TrailerInfo {
        id3v1: Some((10, 64)),
        apev2: None,
    };
    assert_eq!(info.id3v1_typed(74), Err(Error::InvalidId3v1Range(10, 64)));
    let info2 = TrailerInfo {
        id3v1: None,
        apev2: Some((10, 16)),
    };
    assert_eq!(
        info2.apev2_typed(100),
        Err(Error::InvalidApeV2Range(10, 16))
    );
}
