//! Header fields, frame geometry, seek table and ID3v2 prefix.

use oxideav_tta::crc32::crc32;
use oxideav_tta::header::{
    parse_seek_table, parse_stream_header, skip_id3v2_prefix, BitsPerSample, ChannelCount, Format,
    FrameByteLength, FrameDescriptor, FrameSampleCount, SampleRate, StreamHeader, TotalSamples,
    MAX_SAMPLE_RATE,
};
use oxideav_tta::Error;

fn build_header_bytes(format: u16, nch: u16, bps: u16, sr: u32, total: u32) -> Vec<u8> {
    let mut buf = Vec::with_capacity(22);
    buf.extend_from_slice(b"TTA1");
    buf.extend_from_slice(&format.to_le_bytes());
    buf.extend_from_slice(&nch.to_le_bytes());
    buf.extend_from_slice(&bps.to_le_bytes());
    buf.extend_from_slice(&sr.to_le_bytes());
    buf.extend_from_slice(&total.to_le_bytes());
    let crc = crc32(&buf);
    buf.extend_from_slice(&crc.to_le_bytes());
    buf
}

#[test]
fn parse_minimal_header() {
    let buf = build_header_bytes(1, 1, 16, 44_100, 44_100);
    let (h, n) = parse_stream_header(&buf).unwrap();
    assert_eq!(n, 22);
    assert_eq!(h.format, 1);
    assert_eq!(h.channels, 1);
    assert_eq!(h.bits_per_sample, 16);
    assert_eq!(h.sample_rate, 44_100);
    assert_eq!(h.total_samples, 44_100);
    assert_eq!(h.bytes_per_sample(), 2);
    assert_eq!(h.regular_frame_samples(), 46_080);
}

#[test]
fn invalid_magic_rejected() {
    let mut buf = build_header_bytes(1, 1, 16, 44_100, 44_100);
    buf[0] = b'X';
    assert!(matches!(
        parse_stream_header(&buf),
        Err(Error::InvalidMagic)
    ));
}

#[test]
fn header_crc_mismatch_rejected() {
    let mut buf = build_header_bytes(1, 1, 16, 44_100, 44_100);
    buf[18] ^= 0x01;
    assert!(matches!(
        parse_stream_header(&buf),
        Err(Error::Crc32Mismatch { region: "header" })
    ));
}

#[test]
fn unsupported_format_rejected() {
    let buf = build_header_bytes(2, 1, 16, 44_100, 44_100);
    assert!(matches!(
        parse_stream_header(&buf),
        Err(Error::UnsupportedFormat(2))
    ));
}

#[test]
fn unsupported_bps_rejected() {
    let buf = build_header_bytes(1, 1, 8, 44_100, 44_100);
    assert!(matches!(
        parse_stream_header(&buf),
        Err(Error::UnsupportedBitDepth(8))
    ));
    let buf = build_header_bytes(1, 1, 32, 44_100, 44_100);
    assert!(matches!(
        parse_stream_header(&buf),
        Err(Error::UnsupportedBitDepth(32))
    ));
}

#[test]
fn channel_bounds() {
    assert!(matches!(
        parse_stream_header(&build_header_bytes(1, 0, 16, 44_100, 44_100)),
        Err(Error::UnsupportedChannelCount(0))
    ));
    assert!(matches!(
        parse_stream_header(&build_header_bytes(1, 7, 16, 44_100, 44_100)),
        Err(Error::UnsupportedChannelCount(7))
    ));
}

#[test]
fn frame_geometry_examples() {
    let h = StreamHeader {
        format: 1,
        channels: 1,
        bits_per_sample: 16,
        sample_rate: 44_100,
        total_samples: 44_100,
    };
    assert_eq!(h.regular_frame_samples(), 46_080);
    assert_eq!(h.frame_geometry(), (1, 44_100));

    let h = StreamHeader {
        total_samples: 110_250,
        ..h
    };
    assert_eq!(h.frame_geometry(), (3, 18_090));

    let h = StreamHeader {
        total_samples: 92_160,
        ..h
    };
    assert_eq!(h.frame_geometry(), (2, 46_080));
}

#[test]
fn format_typed_round_trip() {
    let s = Format::from_raw(1).unwrap();
    assert_eq!(s, Format::Simple);
    assert_eq!(s.as_raw(), 1);
    assert!(!s.requires_password());
    let e = Format::from_raw(2).unwrap();
    assert_eq!(e, Format::Encrypted);
    assert_eq!(e.as_raw(), 2);
    assert!(e.requires_password());
    assert!(matches!(
        Format::from_raw(0),
        Err(Error::UnsupportedFormat(0))
    ));
    assert!(matches!(
        Format::from_raw(3),
        Err(Error::UnsupportedFormat(3))
    ));
    assert!(matches!(
        Format::from_raw(255),
        Err(Error::UnsupportedFormat(255))
    ));
}

#[test]
fn bits_per_sample_typed_boundary() {
    let b16 = BitsPerSample::from_raw(16).unwrap();
    assert_eq!(b16.bits(), 16);
    assert_eq!(b16.byte_depth(), 2);
    let b17 = BitsPerSample::from_raw(17).unwrap();
    assert_eq!(b17.byte_depth(), 3);
    let b23 = BitsPerSample::from_raw(23).unwrap();
    assert_eq!(b23.byte_depth(), 3);
    let b24 = BitsPerSample::from_raw(24).unwrap();
    assert_eq!(b24.bits(), 24);
    assert_eq!(b24.byte_depth(), 3);
    assert!(matches!(
        BitsPerSample::from_raw(8),
        Err(Error::UnsupportedBitDepth(8))
    ));
    assert!(matches!(
        BitsPerSample::from_raw(15),
        Err(Error::UnsupportedBitDepth(15))
    ));
    assert!(matches!(
        BitsPerSample::from_raw(25),
        Err(Error::UnsupportedBitDepth(25))
    ));
    assert!(matches!(
        BitsPerSample::from_raw(32),
        Err(Error::UnsupportedBitDepth(32))
    ));
}

#[test]
fn channel_count_typed_boundary() {
    let mono = ChannelCount::from_raw(1).unwrap();
    assert_eq!(mono.count(), 1);
    assert!(!mono.is_multichannel());
    let stereo = ChannelCount::from_raw(2).unwrap();
    assert_eq!(stereo.count(), 2);
    assert!(stereo.is_multichannel());
    let six = ChannelCount::from_raw(6).unwrap();
    assert_eq!(six.count(), 6);
    assert!(six.is_multichannel());
    assert!(matches!(
        ChannelCount::from_raw(0),
        Err(Error::UnsupportedChannelCount(0))
    ));
    assert!(matches!(
        ChannelCount::from_raw(7),
        Err(Error::UnsupportedChannelCount(7))
    ));
    assert!(matches!(
        ChannelCount::from_raw(255),
        Err(Error::UnsupportedChannelCount(255))
    ));
}

#[test]
fn sample_rate_typed_boundary() {
    let sr = SampleRate::from_raw(44_100).unwrap();
    assert_eq!(sr.hz(), 44_100);
    assert_eq!(sr.regular_frame_samples(), 46_080);
    let max = SampleRate::from_raw(MAX_SAMPLE_RATE).unwrap();
    assert_eq!(max.hz(), MAX_SAMPLE_RATE);
    let expected = ((MAX_SAMPLE_RATE as u64) * 256 / 245) as u32;
    assert_eq!(max.regular_frame_samples(), expected);
    assert!(matches!(
        SampleRate::from_raw(0),
        Err(Error::UnsupportedSampleRate(0))
    ));
    assert!(matches!(
        SampleRate::from_raw(MAX_SAMPLE_RATE + 1),
        Err(Error::UnsupportedSampleRate(_))
    ));
    assert!(matches!(
        SampleRate::from_raw(u32::MAX),
        Err(Error::UnsupportedSampleRate(_))
    ));
}

#[test]
fn total_samples_typed_boundary() {
    let z = TotalSamples::from_raw(0);
    assert_eq!(z.count(), 0);
    assert!(z.is_empty());
    let mx = TotalSamples::from_raw(u32::MAX);
    assert_eq!(mx.count(), u32::MAX);
    assert!(!mx.is_empty());
    let mid = TotalSamples::from_raw(44_100);
    assert_eq!(mid.count(), 44_100);
    assert!(!mid.is_empty());
}

#[test]
fn total_samples_typed_duration_at_44100() {
    let one_sec = TotalSamples::from_raw(44_100);
    assert_eq!(
        one_sec.duration_at(44_100),
        core::time::Duration::from_secs(1)
    );
    let zero = TotalSamples::from_raw(0);
    assert_eq!(zero.duration_at(44_100), core::time::Duration::ZERO);
    assert_eq!(
        TotalSamples::from_raw(44_100).duration_at(0),
        core::time::Duration::ZERO
    );
    let half = TotalSamples::from_raw(22_050);
    let d = half.duration_at(44_100);
    assert_eq!(d.as_secs(), 0);
    assert_eq!(d.subsec_nanos(), 500_000_000);
}

#[test]
fn total_samples_typed_duration_at_envelope_upper_bound() {
    let mx = TotalSamples::from_raw(u32::MAX);
    let d = mx.duration_at(MAX_SAMPLE_RATE);
    let expected_secs = (u32::MAX as u64) / (MAX_SAMPLE_RATE as u64);
    let expected_remainder = (u32::MAX as u64) % (MAX_SAMPLE_RATE as u64);
    let expected_ns =
        ((expected_remainder as u128) * 1_000_000_000u128 / (MAX_SAMPLE_RATE as u128)) as u64;
    assert_eq!(d.as_secs(), expected_secs);
    assert_eq!(d.subsec_nanos(), expected_ns as u32);
}

#[test]
fn stream_header_total_samples_typed_round_trip() {
    let buf = build_header_bytes(1, 2, 16, 48_000, 96_000);
    let (h, _) = parse_stream_header(&buf).unwrap();
    let typed = h.total_samples_typed();
    assert_eq!(typed.count(), h.total_samples);
    assert_eq!(typed.count(), 96_000);
    assert!(!typed.is_empty());
    let d = h.total_duration();
    assert_eq!(d, core::time::Duration::from_secs(2));
    assert_eq!(d, typed.duration_at(h.sample_rate));
}

#[test]
fn stream_header_total_samples_typed_zero_payload() {
    let buf = build_header_bytes(1, 1, 16, 44_100, 0);
    let (h, _) = parse_stream_header(&buf).unwrap();
    assert_eq!(h.total_samples_typed().count(), 0);
    assert!(h.total_samples_typed().is_empty());
    assert_eq!(h.total_duration(), core::time::Duration::ZERO);
    assert_eq!(h.frame_geometry(), (0, 0));
}

#[test]
fn stream_header_typed_accessors_match_raw() {
    let buf = build_header_bytes(1, 2, 16, 44_100, 88_200);
    let (h, _) = parse_stream_header(&buf).unwrap();
    assert_eq!(h.format_typed().unwrap(), Format::Simple);
    assert_eq!(h.format_typed().unwrap().as_raw(), h.format);
    let bps = h.bits_per_sample_typed().unwrap();
    assert_eq!(bps.bits(), h.bits_per_sample);
    assert_eq!(bps.byte_depth(), h.bytes_per_sample());
    let ch = h.channel_count_typed().unwrap();
    assert_eq!(ch.count(), h.channels);
    assert!(ch.is_multichannel());
    let sr = h.sample_rate_typed().unwrap();
    assert_eq!(sr.hz(), h.sample_rate);
    assert_eq!(sr.regular_frame_samples(), h.regular_frame_samples());

    let bogus = StreamHeader {
        format: 1,
        channels: 0,
        bits_per_sample: 16,
        sample_rate: 44_100,
        total_samples: 0,
    };
    assert!(matches!(
        bogus.channel_count_typed(),
        Err(Error::UnsupportedChannelCount(0))
    ));
}

#[test]
fn frame_byte_length_typed_boundary() {
    let m = FrameByteLength::from_raw(4).unwrap();
    assert_eq!(m.total_size(), 4);
    assert_eq!(m.body_size(), 0);
    let mid = FrameByteLength::from_raw(22_189).unwrap();
    assert_eq!(mid.total_size(), 22_189);
    assert_eq!(mid.body_size(), 22_185);
    let mx = FrameByteLength::from_raw(u32::MAX).unwrap();
    assert_eq!(mx.total_size(), u32::MAX);
    assert_eq!(mx.body_size(), u32::MAX - 4);
    assert!(matches!(
        FrameByteLength::from_raw(0),
        Err(Error::InvalidFrameByteLength(0))
    ));
    assert!(matches!(
        FrameByteLength::from_raw(1),
        Err(Error::InvalidFrameByteLength(1))
    ));
    assert!(matches!(
        FrameByteLength::from_raw(3),
        Err(Error::InvalidFrameByteLength(3))
    ));
}

#[test]
fn frame_sample_count_typed_boundary() {
    let one = FrameSampleCount::from_raw(1).unwrap();
    assert_eq!(one.count(), 1);
    let mid = FrameSampleCount::from_raw(46_080).unwrap();
    assert_eq!(mid.count(), 46_080);
    let mx = FrameSampleCount::from_raw(u32::MAX).unwrap();
    assert_eq!(mx.count(), u32::MAX);
    assert!(matches!(
        FrameSampleCount::from_raw(0),
        Err(Error::InvalidFrameSampleCount(0))
    ));
}

#[test]
fn frame_sample_count_typed_regular_bound() {
    let regular = 46_080u32;
    assert!(FrameSampleCount::from_raw(1)
        .unwrap()
        .is_within_regular_bound(regular));
    assert!(FrameSampleCount::from_raw(regular)
        .unwrap()
        .is_within_regular_bound(regular));
    assert!(!FrameSampleCount::from_raw(regular + 1)
        .unwrap()
        .is_within_regular_bound(regular));
    assert!(!FrameSampleCount::from_raw(u32::MAX)
        .unwrap()
        .is_within_regular_bound(regular));
}

#[test]
fn frame_descriptor_typed_accessors_match_raw() {
    let fd = FrameDescriptor {
        file_offset: 30,
        disk_size: 22_189,
        sample_count: 44_100,
        is_last: true,
    };
    let len = fd.disk_size_typed().unwrap();
    assert_eq!(len.total_size(), fd.disk_size);
    assert_eq!(len.body_size(), fd.body_size());
    let sc = fd.sample_count_typed().unwrap();
    assert_eq!(sc.count(), fd.sample_count);
    assert!(sc.is_within_regular_bound(46_080));

    let bogus_len = FrameDescriptor {
        file_offset: 0,
        disk_size: 3,
        sample_count: 1,
        is_last: true,
    };
    assert!(matches!(
        bogus_len.disk_size_typed(),
        Err(Error::InvalidFrameByteLength(3))
    ));

    let bogus_sc = FrameDescriptor {
        file_offset: 0,
        disk_size: 4,
        sample_count: 0,
        is_last: true,
    };
    assert!(matches!(
        bogus_sc.sample_count_typed(),
        Err(Error::InvalidFrameSampleCount(0))
    ));
}

#[test]
fn frame_descriptor_typed_accessors_round_trip_via_parse_seek_table() {
    let buf = build_header_bytes(1, 1, 16, 44_100, 110_250);
    let (h, _) = parse_stream_header(&buf).unwrap();
    let regular = h.regular_frame_samples();
    let (frame_count, last_samples) = h.frame_geometry();
    assert_eq!(frame_count, 3);
    assert_eq!(last_samples, 18_090);

    let mut sk_buf = Vec::with_capacity(16);
    let entries = [50u32, 50, 50];
    for e in &entries {
        sk_buf.extend_from_slice(&e.to_le_bytes());
    }
    let sk_crc = oxideav_tta::crc32::crc32(&sk_buf);
    sk_buf.extend_from_slice(&sk_crc.to_le_bytes());
    let (seek, _) = parse_seek_table(&sk_buf, &h, 30).unwrap();
    assert!(seek.crc_ok);
    assert_eq!(seek.frames.len(), 3);

    for fd in &seek.frames {
        let len = fd.disk_size_typed().unwrap();
        assert_eq!(len.total_size(), fd.disk_size);
        assert_eq!(len.body_size(), fd.body_size());
        let sc = fd.sample_count_typed().unwrap();
        assert_eq!(sc.count(), fd.sample_count);
        assert!(sc.is_within_regular_bound(regular));
    }

    assert_eq!(seek.frames[0].sample_count, regular);
    assert_eq!(seek.frames[1].sample_count, regular);
    assert_eq!(seek.frames[2].sample_count, last_samples);
}

#[test]
fn id3v2_prefix_skip() {
    assert_eq!(skip_id3v2_prefix(b"TTA1...").unwrap(), 0);
    let mut buf = Vec::new();
    buf.extend_from_slice(b"ID3");
    buf.push(4);
    buf.push(0);
    buf.push(0);
    buf.extend_from_slice(&[0, 0, 0, 17]);
    buf.extend(std::iter::repeat(0u8).take(17));
    assert_eq!(skip_id3v2_prefix(&buf).unwrap(), 27);

    let mut buf2 = buf.clone();
    buf2[5] = 0x10;
    buf2.extend(std::iter::repeat(0u8).take(10));
    assert_eq!(skip_id3v2_prefix(&buf2).unwrap(), 37);
}
