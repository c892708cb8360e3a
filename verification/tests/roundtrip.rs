//! Whole streams, encoded and decoded again in every way on offer.

use core::time::Duration;
use oxideav_tta::decoder::{SampleRangeIter, SampleSkipIter};
use oxideav_tta::{
    decode, decode_with_password, encode, encode_with_password, pack_pcm, FrameIter, Result,
};

/// Hands out everything a lazy walk has left.
trait Drain {
    fn drain(self) -> Vec<Result<Vec<i32>>>;
}

impl Drain for FrameIter<'_, '_> {
    fn drain(mut self) -> Vec<Result<Vec<i32>>> {
        let mut out = Vec::new();
        while let Some(r) = self.next() {
            out.push(r);
        }
        out
    }
}

impl Drain for SampleSkipIter<'_, '_> {
    fn drain(mut self) -> Vec<Result<Vec<i32>>> {
        let mut out = Vec::new();
        while let Some(r) = self.next() {
            out.push(r);
        }
        out
    }
}

impl Drain for SampleRangeIter<'_, '_> {
    fn drain(mut self) -> Vec<Result<Vec<i32>>> {
        let mut out = Vec::new();
        while let Some(r) = self.next() {
            out.push(r);
        }
        out
    }
}

fn sine(n_samples: usize, channels: u16, sample_rate: u32, freq_hz: f64, amp_i32: i32) -> Vec<i32> {
    let mut out = Vec::with_capacity(n_samples * channels as usize);
    for s in 0..n_samples {
        let phase = 2.0 * std::f64::consts::PI * freq_hz * s as f64 / sample_rate as f64;
        let v = ((phase.sin()) * amp_i32 as f64).round() as i32;
        for _ in 0..channels {
            out.push(v);
        }
    }
    out
}

fn pseudo_noise(n_samples: usize, channels: u16, amp_mask: i32, seed: u64) -> Vec<i32> {
    let mut s = seed.wrapping_mul(0x9E37_79B9_7F4A_7C15).wrapping_add(1);
    let mut out = Vec::with_capacity(n_samples * channels as usize);
    for _ in 0..n_samples * channels as usize {
        s ^= s << 13;
        s ^= s >> 7;
        s ^= s << 17;
        let raw = s as i64;
        let v = ((raw & 0xFFFF_FFFF) as i32) & amp_mask;
        let half = (amp_mask >> 1).wrapping_add(1);
        let centered = v.wrapping_sub(half);
        out.push(centered);
    }
    out
}

fn dc_with_impulse(n_samples: usize, channels: u16, dc: i32, impulse: i32) -> Vec<i32> {
    let mut out = Vec::with_capacity(n_samples * channels as usize);
    for s in 0..n_samples {
        let v = if s == n_samples / 4 { impulse } else { dc };
        for _ in 0..channels {
            out.push(v);
        }
    }
    out
}

fn assert_roundtrip(samples: &[i32], channels: u16, bits_per_sample: u16, sample_rate: u32) {
    let tta =
        encode(samples, channels, bits_per_sample, sample_rate).expect("encode should succeed");
    let (info, decoded) = decode(&tta).expect("decode should succeed");
    assert_eq!(info.format, 1);
    assert_eq!(info.channels, channels);
    assert_eq!(info.bits_per_sample, bits_per_sample);
    assert_eq!(info.sample_rate, sample_rate);
    assert_eq!(
        info.total_samples as usize,
        samples.len() / channels as usize
    );
    assert_eq!(
        decoded.len(),
        samples.len(),
        "decoded sample count mismatch"
    );
    if decoded != samples {
        for (i, (&got, &want)) in decoded.iter().zip(samples.iter()).enumerate() {
            assert_eq!(
                got, want,
                "first divergence at sample index {i}: got {got}, want {want}"
            );
        }
    }
    assert_eq!(decoded, samples);
}

#[test]
fn roundtrip_mono_16bit_silence() {
    let samples = vec![0i32; 1024];
    assert_roundtrip(&samples, 1, 16, 44_100);
}

#[test]
fn roundtrip_mono_16bit_sine_short() {
    let n = (44_100.0 * 0.05) as usize;
    let samples = sine(n, 1, 44_100, 440.0, 16_000);
    assert_roundtrip(&samples, 1, 16, 44_100);
}

#[test]
fn roundtrip_mono_24bit_sine_short() {
    let n = (44_100.0 * 0.05) as usize;
    let samples = sine(n, 1, 44_100, 440.0, 1_000_000);
    assert_roundtrip(&samples, 1, 24, 44_100);
}

#[test]
fn roundtrip_stereo_16bit_correlated_sine() {
    let n = (44_100.0 * 0.05) as usize;
    let samples = sine(n, 2, 44_100, 440.0, 12_000);
    assert_roundtrip(&samples, 2, 16, 44_100);
}

#[test]
fn roundtrip_stereo_16bit_uncorrelated_sines() {
    let n_per_ch = (44_100.0 * 0.05) as usize;
    let mut samples = Vec::with_capacity(n_per_ch * 2);
    for s in 0..n_per_ch {
        let phase_l = 2.0 * std::f64::consts::PI * 440.0 * s as f64 / 44_100.0;
        let phase_r = 2.0 * std::f64::consts::PI * 660.0 * s as f64 / 44_100.0;
        samples.push((phase_l.sin() * 12_000.0).round() as i32);
        samples.push((phase_r.sin() * 8_000.0).round() as i32);
    }
    assert_roundtrip(&samples, 2, 16, 44_100);
}

#[test]
fn roundtrip_stereo_16bit_pseudo_noise() {
    let samples = pseudo_noise(2_048, 2, 0x7FFF, 0x1234_5678);
    assert_roundtrip(&samples, 2, 16, 44_100);
}

#[test]
fn roundtrip_six_channel_16bit() {
    let n_per_ch = 1_024;
    let mut samples = Vec::with_capacity(n_per_ch * 6);
    for s in 0..n_per_ch {
        for ch in 0..6 {
            let freq = 220.0 * (1.0 + 0.1 * ch as f64);
            let phase = 2.0 * std::f64::consts::PI * freq * s as f64 / 44_100.0;
            let amp = 8_000.0 - 500.0 * ch as f64;
            samples.push((phase.sin() * amp).round() as i32);
        }
    }
    assert_roundtrip(&samples, 6, 16, 44_100);
}

#[test]
fn roundtrip_dc_with_impulse_mono() {
    let samples = dc_with_impulse(512, 1, 256, 12_000);
    assert_roundtrip(&samples, 1, 16, 44_100);
}

#[test]
fn roundtrip_multi_frame_mono_44100() {
    let n = 110_250;
    let samples = sine(n, 1, 44_100, 440.0, 14_000);
    assert_roundtrip(&samples, 1, 16, 44_100);
}

#[test]
fn pcm_pack_round_trip_16bit() {
    let samples: Vec<i32> = vec![0, 1, -1, 32_767, -32_768, 100, -100];
    let packed = pack_pcm(&samples, 16);
    assert_eq!(packed.len(), samples.len() * 2);
    for (i, chunk) in packed.chunks(2).enumerate() {
        let v = i16::from_le_bytes([chunk[0], chunk[1]]);
        assert_eq!(v as i32, samples[i]);
    }
}

#[test]
fn pcm_pack_round_trip_24bit() {
    let samples: Vec<i32> = vec![0, 1, -1, 8_388_607, -8_388_608, 0x123456, -0x123456];
    let packed = pack_pcm(&samples, 24);
    assert_eq!(packed.len(), samples.len() * 3);
    for (i, chunk) in packed.chunks(3).enumerate() {
        let raw = (chunk[0] as i32) | ((chunk[1] as i32) << 8) | ((chunk[2] as i32) << 16);
        let signed = if raw & 0x0080_0000 != 0 {
            raw | (-1i32 << 24)
        } else {
            raw
        };
        assert_eq!(signed, samples[i]);
    }
}

#[test]
fn header_validation_rejects_format_2_without_password() {
    let mut buf = Vec::new();
    buf.extend_from_slice(b"TTA1");
    buf.extend_from_slice(&2u16.to_le_bytes());
    buf.extend_from_slice(&1u16.to_le_bytes());
    buf.extend_from_slice(&16u16.to_le_bytes());
    buf.extend_from_slice(&44_100u32.to_le_bytes());
    buf.extend_from_slice(&100u32.to_le_bytes());
    let crc = oxideav_tta::crc32::crc32(&buf);
    buf.extend_from_slice(&crc.to_le_bytes());
    assert!(matches!(decode(&buf), Err(oxideav_tta::Error::PasswordRequired)));
}

#[test]
fn header_validation_rejects_unsupported_format() {
    let mut buf = Vec::new();
    buf.extend_from_slice(b"TTA1");
    buf.extend_from_slice(&3u16.to_le_bytes());
    buf.extend_from_slice(&1u16.to_le_bytes());
    buf.extend_from_slice(&16u16.to_le_bytes());
    buf.extend_from_slice(&44_100u32.to_le_bytes());
    buf.extend_from_slice(&100u32.to_le_bytes());
    let crc = oxideav_tta::crc32::crc32(&buf);
    buf.extend_from_slice(&crc.to_le_bytes());
    assert!(matches!(
        decode(&buf),
        Err(oxideav_tta::Error::UnsupportedFormat(3))
    ));
}

#[test]
fn roundtrip_format2_password_protected() {
    let n = (44_100.0 * 0.05) as usize;
    let samples = sine(n, 1, 44_100, 440.0, 12_000);
    let password = b"correct horse battery staple";
    let tta =
        encode_with_password(&samples, 1, 16, 44_100, password).expect("encode should succeed");
    let (info, decoded) =
        decode_with_password(&tta, password).expect("password-aware decode should succeed");
    assert_eq!(info.format, 2);
    assert_eq!(info.channels, 1);
    assert_eq!(decoded, samples);
}

#[test]
fn format2_without_password_fails_clean() {
    let n = 1024;
    let samples = vec![0i32; n];
    let tta =
        encode_with_password(&samples, 1, 16, 44_100, b"hunter2").expect("encode should succeed");
    assert!(matches!(decode(&tta), Err(oxideav_tta::Error::PasswordRequired)));
}

#[test]
fn format2_wrong_password_corrupts_decode() {
    let n = 1024;
    let samples = sine(n, 1, 44_100, 440.0, 8_000);
    let tta =
        encode_with_password(&samples, 1, 16, 44_100, b"correct").expect("encode should succeed");
    let (_, decoded) = decode_with_password(&tta, b"wrong").expect("decode succeeds");
    assert!(
        decoded != samples,
        "wrong password should corrupt PCM (format=2 has no MAC)"
    );
}

#[test]
fn scan_trailers_finds_id3v1_appended_to_real_tta_file() {
    let n = 256;
    let samples = sine(n, 1, 44_100, 440.0, 4_000);
    let mut tta = encode(&samples, 1, 16, 44_100).expect("encode should succeed");
    let eos = tta.len();
    tta.extend_from_slice(b"TAG");
    tta.extend(std::iter::repeat(0u8).take(125));
    assert_eq!(tta.len(), eos + 128);

    let (_, decoded) = decode(&tta).expect("decode succeeds despite trailing tag");
    assert_eq!(decoded, samples);

    let info = oxideav_tta::scan_trailers(&tta).expect("trailer scan");
    assert_eq!(info.id3v1, Some((eos, 128)));
    assert_eq!(info.apev2, None);
}

#[test]
fn scan_trailers_finds_apev2_footer_only() {
    let n = 256;
    let samples = sine(n, 1, 44_100, 440.0, 4_000);
    let mut tta = encode(&samples, 1, 16, 44_100).expect("encode should succeed");
    let eos = tta.len();
    let body_size = 50;
    tta.extend(std::iter::repeat(0xAAu8).take(body_size));
    tta.extend_from_slice(b"APETAGEX");
    tta.extend_from_slice(&2000u32.to_le_bytes());
    tta.extend_from_slice(&((body_size + 32) as u32).to_le_bytes());
    tta.extend_from_slice(&1u32.to_le_bytes());
    tta.extend_from_slice(&0x2000_0000u32.to_le_bytes());
    tta.extend_from_slice(&[0u8; 8]);

    let info = oxideav_tta::scan_trailers(&tta).expect("trailer scan");
    assert_eq!(info.id3v1, None);
    assert_eq!(info.apev2, Some((eos, body_size + 32)));
}

#[test]
fn scan_trailers_finds_both_with_ape_immediately_before_id3v1() {
    let n = 256;
    let samples = sine(n, 1, 44_100, 440.0, 4_000);
    let mut tta = encode(&samples, 1, 16, 44_100).expect("encode should succeed");
    let eos = tta.len();
    let body_size = 20;
    tta.extend(std::iter::repeat(0xAAu8).take(body_size));
    tta.extend_from_slice(b"APETAGEX");
    tta.extend_from_slice(&2000u32.to_le_bytes());
    tta.extend_from_slice(&((body_size + 32) as u32).to_le_bytes());
    tta.extend_from_slice(&1u32.to_le_bytes());
    tta.extend_from_slice(&0x2000_0000u32.to_le_bytes());
    tta.extend_from_slice(&[0u8; 8]);
    let ape_end = tta.len();
    tta.extend_from_slice(b"TAG");
    tta.extend(std::iter::repeat(0u8).take(125));

    let info = oxideav_tta::scan_trailers(&tta).expect("trailer scan");
    assert_eq!(info.id3v1, Some((ape_end, 128)));
    assert_eq!(info.apev2, Some((eos, body_size + 32)));
}

#[test]
fn scan_trailers_returns_empty_on_clean_tta_file() {
    let n = 256;
    let samples = sine(n, 1, 44_100, 440.0, 4_000);
    let tta = encode(&samples, 1, 16, 44_100).expect("encode should succeed");
    let info = oxideav_tta::scan_trailers(&tta).expect("trailer scan");
    assert!(info.is_empty(), "no trailers expected on a fresh encode");
}

#[test]
fn scan_trailers_typed_accessors_match_parser_output() {
    let n = 256;
    let samples = sine(n, 1, 44_100, 440.0, 4_000);
    let mut tta = encode(&samples, 1, 16, 44_100).expect("encode should succeed");
    let eos = tta.len();

    let body_size = 50;
    tta.extend(std::iter::repeat(0xAAu8).take(body_size));
    tta.extend_from_slice(b"APETAGEX");
    tta.extend_from_slice(&2000u32.to_le_bytes());
    tta.extend_from_slice(&((body_size + 32) as u32).to_le_bytes());
    tta.extend_from_slice(&7u32.to_le_bytes());
    tta.extend_from_slice(&0x2000_0000u32.to_le_bytes());
    tta.extend_from_slice(&[0u8; 8]);
    let ape_end = tta.len();

    tta.extend_from_slice(b"TAG");
    tta.extend(std::iter::repeat(0u8).take(125));
    let file_len = tta.len();

    let info = oxideav_tta::scan_trailers(&tta).expect("trailer scan");

    assert_eq!(info.id3v1, Some((ape_end, 128)));
    assert_eq!(info.apev2, Some((eos, body_size + 32)));

    let id3 = info.id3v1_typed(file_len).unwrap().expect("present");
    assert_eq!(id3.start(), ape_end);
    assert_eq!(id3.len(), 128);
    assert_eq!(id3.end(), file_len);
    assert!(id3.is_at_file_end(file_len));
    assert_eq!(id3.byte_range(), ape_end..file_len);
    assert_eq!(&tta[id3.byte_range()][..3], b"TAG");

    let ape = info.apev2_typed(file_len).unwrap().expect("present");
    assert_eq!(ape.start(), eos);
    assert_eq!(ape.len(), body_size + 32);
    assert_eq!(ape.end(), ape_end);
    assert!(!ape.is_at_file_end(file_len));
    assert_eq!(ape.header_and_body_size(), body_size);
    let footer_start = ape.end() - oxideav_tta::ApeV2Range::FOOTER_SIZE;
    assert_eq!(&tta[footer_start..footer_start + 8], b"APETAGEX");

    let combined = info.combined_byte_range().unwrap();
    assert_eq!(combined, (eos, (body_size + 32) + 128));
    assert_eq!(combined.0 + combined.1, file_len);

    let (_, decoded) = decode(&tta).expect("decode succeeds despite trailers");
    assert_eq!(decoded, samples);
}

#[test]
fn corrupted_frame_crc_detected() {
    let n = 256;
    let samples = sine(n, 1, 44_100, 440.0, 4_000);
    let mut tta = encode(&samples, 1, 16, 44_100).expect("encode should succeed");
    let last = tta.len() - 1;
    tta[last] ^= 0x01;
    let result = decode(&tta);
    assert!(matches!(
        result,
        Err(oxideav_tta::Error::Crc32Mismatch { region: "frame" })
    ));
}

#[test]
fn roundtrip_format2_multi_frame_44100_mono() {
    let n = 110_250;
    let samples = sine(n, 1, 44_100, 440.0, 14_000);
    let password = b"multi-frame format2 verification";
    let tta = encode_with_password(&samples, 1, 16, 44_100, password)
        .expect("multi-frame format=2 encode should succeed");
    let (info, decoded) =
        decode_with_password(&tta, password).expect("password-aware decode should succeed");
    assert_eq!(info.format, 2);
    assert_eq!(info.channels, 1);
    assert_eq!(info.total_samples as usize, n);
    let regular = (44_100u64 * 256 / 245) as u32;
    let (frame_count, _) = info.frame_geometry();
    assert!(
        frame_count >= 3,
        "fixture must span ≥ 3 frames; regular={regular}, frame_count={frame_count}"
    );
    assert_eq!(decoded, samples);
}

#[test]
fn roundtrip_format2_multi_frame_44100_stereo() {
    let n_per_ch = 110_250;
    let mut samples = Vec::with_capacity(n_per_ch * 2);
    for s in 0..n_per_ch {
        let phase_l = 2.0 * std::f64::consts::PI * 440.0 * s as f64 / 44_100.0;
        let phase_r = 2.0 * std::f64::consts::PI * 660.0 * s as f64 / 44_100.0;
        samples.push((phase_l.sin() * 12_000.0).round() as i32);
        samples.push((phase_r.sin() * 9_000.0).round() as i32);
    }
    let password = b"stereo multi-frame";
    let tta = encode_with_password(&samples, 2, 16, 44_100, password)
        .expect("multi-frame stereo format=2 encode should succeed");
    let (info, decoded) =
        decode_with_password(&tta, password).expect("stereo decode should succeed");
    assert_eq!(info.format, 2);
    assert_eq!(info.channels, 2);
    let (frame_count, _) = info.frame_geometry();
    assert!(frame_count >= 3);
    assert_eq!(decoded, samples);
}

#[test]
fn decode_with_password_format1_succeeds_with_clear_priming() {
    let n = 1_024;
    let samples = sine(n, 1, 44_100, 440.0, 8_000);
    let tta = encode(&samples, 1, 16, 44_100).expect("format=1 encode should succeed");
    let (info_plain, decoded_plain) = decode(&tta).expect("plain decode");
    let (info_pwd, decoded_pwd) =
        decode_with_password(&tta, b"any password").expect("password-aware decode of format=1");
    assert_eq!(info_plain.format, 1);
    assert_eq!(info_pwd.format, 1);
    assert_eq!(decoded_plain, samples);
    assert_eq!(decoded_pwd, samples);
    assert_eq!(decoded_plain, decoded_pwd);
}

#[test]
fn frame_iter_matches_decode_all_stereo_16bit() {
    let n = (44_100.0 * 0.4) as usize;
    let samples = pseudo_noise(n, 2, 0x7FFF, 0xDEAD_BEEF);
    let tta = encode(&samples, 2, 16, 44_100).expect("encode");

    let eager = decode(&tta).expect("eager decode").1;

    let dec = oxideav_tta::Decoder::new(&tta).expect("Decoder::new");
    let mut streaming = Vec::with_capacity(eager.len());
    for r in dec.frame_iter().drain() {
        streaming.extend_from_slice(&r.expect("frame_iter decode"));
    }
    assert_eq!(
        streaming, eager,
        "streaming frame_iter must produce bit-identical PCM to decode_all"
    );
}

#[test]
fn decode_frame_at_matches_decode_all_mono_24bit() {
    let n = (44_100.0 * 0.4) as usize;
    let samples = pseudo_noise(n, 1, 0x7F_FFFF, 0xC0FF_EE12);
    let tta = encode(&samples, 1, 24, 44_100).expect("encode");

    let eager = decode(&tta).expect("eager decode").1;

    let dec = oxideav_tta::Decoder::new(&tta).expect("Decoder::new");
    let mut cursor = 0usize;
    for (i, fd) in dec.frames.iter().enumerate() {
        let n_per_ch = fd.sample_count as usize;
        let frame_pcm = dec.decode_frame_at(i).expect("decode_frame_at");
        let expected = &eager[cursor..cursor + n_per_ch * dec.header.channels as usize];
        assert_eq!(
            frame_pcm, expected,
            "decode_frame_at({i}) must equal the slice of decode_all at sample cursor {cursor}; \
             if it does not, the per-frame state reset is being violated"
        );
        cursor += n_per_ch * dec.header.channels as usize;
    }
    assert_eq!(cursor, eager.len(), "frame loop must cover every sample");
}

#[test]
fn decode_frame_at_rejects_out_of_range_index() {
    let samples = sine(64, 1, 44_100, 440.0, 12_000);
    let tta = encode(&samples, 1, 16, 44_100).expect("encode");
    let dec = oxideav_tta::Decoder::new(&tta).expect("Decoder::new");
    let last = dec.frames.len();
    assert_eq!(
        dec.decode_frame_at(last),
        Err(oxideav_tta::Error::FrameIndexOutOfRange)
    );
}

#[test]
fn frame_iter_exact_size_matches_frames_len() {
    let n = (44_100.0 * 0.6) as usize;
    let samples = sine(n, 2, 44_100, 440.0, 8_000);
    let tta = encode(&samples, 2, 16, 44_100).expect("encode");
    let dec = oxideav_tta::Decoder::new(&tta).expect("Decoder::new");
    let it = dec.frame_iter();
    let expected = dec.frames.len();
    assert_eq!(
        it.len(),
        expected,
        "ExactSizeIterator::len() must match frames.len()"
    );
    let (low, high) = it.size_hint();
    assert_eq!(low, expected);
    assert_eq!(high, Some(expected));
}

#[test]
fn seek_to_sample_lands_in_right_frame() {
    let n = (44_100.0 * 0.6) as usize;
    let samples = sine(n, 1, 44_100, 660.0, 12_000);
    let tta = encode(&samples, 1, 16, 44_100).expect("encode");
    let dec = oxideav_tta::Decoder::new(&tta).expect("Decoder::new");
    let regular = dec.header.regular_frame_samples() as u64;
    assert!(regular > 0, "regular_frame_samples must be > 0");
    for &target in &[0u64, (n as u64) / 2, (n as u64) - 1] {
        let sp = dec
            .seek_to_sample(target)
            .unwrap_or_else(|e| panic!("seek_to_sample({target}) failed: {e:?}"));
        let frame_start = (sp.frame_index as u64) * regular;
        let frame_end = frame_start + dec.frames[sp.frame_index].sample_count as u64;
        assert!(
            target >= frame_start && target < frame_end,
            "target sample {target} fell outside frame {} [{frame_start}, {frame_end})",
            sp.frame_index
        );
        assert_eq!(
            sp.sample_offset_in_frame as u64,
            target - frame_start,
            "sample_offset_in_frame should equal target - frame_start"
        );
    }
}

#[test]
fn frame_iter_from_past_end_is_empty() {
    let samples = sine(128, 1, 44_100, 440.0, 12_000);
    let tta = encode(&samples, 1, 16, 44_100).expect("encode");
    let dec = oxideav_tta::Decoder::new(&tta).expect("Decoder::new");
    let past = dec.frames.len() + 5;
    let it = dec.frame_iter_from(past);
    assert_eq!(it.len(), 0);
    let collected: Vec<_> = dec.frame_iter_from(past).drain();
    assert!(collected.is_empty());
}

#[test]
fn seek_to_sample_rejects_at_or_past_total_samples() {
    let samples = sine(128, 1, 44_100, 440.0, 12_000);
    let tta = encode(&samples, 1, 16, 44_100).expect("encode");
    let dec = oxideav_tta::Decoder::new(&tta).expect("Decoder::new");
    let total = dec.header.total_samples as u64;
    assert_eq!(
        dec.seek_to_sample(total),
        Err(oxideav_tta::Error::SampleIndexOutOfRange)
    );
    assert_eq!(
        dec.seek_to_sample(total + 100),
        Err(oxideav_tta::Error::SampleIndexOutOfRange)
    );
}

#[test]
fn frame_iter_streaming_seek_and_resume_bit_exact() {
    let n = (44_100.0 * 0.5) as usize;
    let samples = pseudo_noise(n, 2, 0x7FFF, 0xFEED_FACE);
    let tta = encode(&samples, 2, 16, 44_100).expect("encode");

    let eager = decode(&tta).expect("eager").1;
    let nch = 2usize;

    let dec = oxideav_tta::Decoder::new(&tta).expect("Decoder::new");
    let target_sample = (n as u64) * 3 / 4;
    let sp = dec.seek_to_sample(target_sample).expect("seek");

    let mut got: Vec<i32> = Vec::new();
    let mut emitted_frames = 0usize;
    for (i_offset, r) in dec.frame_iter_from(sp.frame_index).drain().into_iter().enumerate() {
        let i = sp.frame_index + i_offset;
        let pcm = r.expect("decode frame");
        if i == sp.frame_index {
            let skip = sp.sample_offset_in_frame as usize * nch;
            got.extend_from_slice(&pcm[skip..]);
        } else {
            got.extend_from_slice(&pcm);
        }
        emitted_frames += 1;
    }
    assert!(
        emitted_frames >= 1,
        "should have decoded at least one frame from the seek point"
    );

    let cursor = (target_sample as usize) * nch;
    let expected_tail = &eager[cursor..];
    assert_eq!(
        got.len(),
        expected_tail.len(),
        "streaming-from-seek tail length must match eager tail"
    );
    assert_eq!(
        got, expected_tail,
        "streaming-from-seek must produce bit-identical PCM to the eager decode's tail"
    );
}

#[test]
fn new_with_password_format2_streaming_matches_eager_stereo_16bit() {
    let n = (44_100.0 * 2.0) as usize;
    let samples = pseudo_noise(n, 2, 0x7FFF, 0x5EED_DEAD_C0DE_F00D);
    let password = b"correct horse battery staple";
    let tta = encode_with_password(&samples, 2, 16, 44_100, password).expect("encode format=2");

    let (info, eager) = decode_with_password(&tta, password).expect("eager decode_with_password");
    assert_eq!(info.format, 2);

    let dec =
        oxideav_tta::Decoder::new_with_password(&tta, password).expect("Decoder::new_with_password");
    assert_eq!(dec.header.format, 2);
    assert!(
        dec.frames.len() >= 2,
        "test wants ≥ 2 frames so the multi-frame qm re-prime path \
         is exercised; got {}",
        dec.frames.len()
    );

    let mut streaming = Vec::with_capacity(eager.len());
    for r in dec.frame_iter().drain() {
        streaming.extend_from_slice(&r.expect("frame_iter decode"));
    }
    assert_eq!(
        streaming, eager,
        "frame_iter() PCM must equal decode_with_password() PCM bit-exactly \
         on format=2"
    );

    let nch = info.channels as usize;
    let mut cursor = 0usize;
    for (i, fd) in dec.frames.iter().enumerate() {
        let n_per_ch = fd.sample_count as usize;
        let frame_pcm = dec.decode_frame_at(i).expect("decode_frame_at format=2");
        let expected = &eager[cursor..cursor + n_per_ch * nch];
        assert_eq!(
            frame_pcm, expected,
            "decode_frame_at({i}) on format=2 must match eager slice at cursor {cursor}"
        );
        cursor += n_per_ch * nch;
    }

    let start = 1usize.min(dec.frames.len().saturating_sub(1));
    let preceding: usize = dec.frames[..start]
        .iter()
        .map(|f| f.sample_count as usize)
        .sum();
    let mut tail = Vec::new();
    for r in dec.frame_iter_from(start).drain() {
        tail.extend_from_slice(&r.expect("frame_iter_from decode"));
    }
    assert_eq!(
        tail,
        eager[preceding * nch..],
        "frame_iter_from(start) tail must match eager tail from the matching \
         sample boundary on format=2"
    );
}

#[test]
fn new_with_password_seek_to_sample_format2_lands_in_right_frame() {
    let n = (44_100.0 * 2.5) as usize;
    let samples = pseudo_noise(n, 2, 0x7FFF, 0x1234_5678_9ABC_DEF0);
    let password = b"hunter2";
    let tta = encode_with_password(&samples, 2, 16, 44_100, password).expect("encode format=2");

    let dec =
        oxideav_tta::Decoder::new_with_password(&tta, password).expect("Decoder::new_with_password");
    let regular = dec.header.regular_frame_samples() as u64;
    assert!(regular > 0);
    for &target in &[0u64, (n as u64) / 2, (n as u64) - 1] {
        let sp = dec.seek_to_sample(target).expect("seek_to_sample");
        let frame_start = (sp.frame_index as u64) * regular;
        let frame_end = frame_start + dec.frames[sp.frame_index].sample_count as u64;
        assert!(
            target >= frame_start && target < frame_end,
            "format=2 target sample {target} fell outside frame {} [{frame_start}, {frame_end})",
            sp.frame_index
        );
        assert_eq!(sp.sample_offset_in_frame as u64, target - frame_start);
    }
}

#[test]
fn new_with_password_format2_seek_and_resume_bit_exact() {
    let n = (44_100.0 * 2.5) as usize;
    let samples = pseudo_noise(n, 2, 0x7FFF, 0xCAFE_F00D_BEEF_DEAD);
    let password = b"correct horse battery staple";
    let tta = encode_with_password(&samples, 2, 16, 44_100, password).expect("encode format=2");

    let (info, eager) = decode_with_password(&tta, password).expect("eager");
    let nch = info.channels as usize;

    let dec =
        oxideav_tta::Decoder::new_with_password(&tta, password).expect("Decoder::new_with_password");
    let target_sample = (n as u64) * 3 / 4;
    let sp = dec.seek_to_sample(target_sample).expect("seek");

    let mut got: Vec<i32> = Vec::new();
    for (i_offset, r) in dec.frame_iter_from(sp.frame_index).drain().into_iter().enumerate() {
        let i = sp.frame_index + i_offset;
        let pcm = r.expect("decode frame");
        if i == sp.frame_index {
            let skip = sp.sample_offset_in_frame as usize * nch;
            got.extend_from_slice(&pcm[skip..]);
        } else {
            got.extend_from_slice(&pcm);
        }
    }
    let cursor = (target_sample as usize) * nch;
    let expected_tail = &eager[cursor..];
    assert_eq!(got.len(), expected_tail.len());
    assert_eq!(
        got, expected_tail,
        "format=2 streaming-from-seek must produce bit-identical PCM to the eager tail"
    );
}

#[test]
fn new_with_password_format1_stream_drops_unused_priming() {
    let samples = sine(8_192, 1, 44_100, 660.0, 12_000);
    let tta = encode(&samples, 1, 16, 44_100).expect("encode format=1");

    let dec_plain = oxideav_tta::Decoder::new(&tta).expect("Decoder::new");
    let dec_pw = oxideav_tta::Decoder::new_with_password(&tta, b"unused-password")
        .expect("Decoder::new_with_password on format=1");
    assert_eq!(dec_plain.header.format, 1);
    assert_eq!(dec_pw.header.format, 1);
    assert_eq!(
        dec_plain.decode_all().unwrap(),
        dec_pw.decode_all().unwrap()
    );

    let mut streamed = Vec::new();
    for r in dec_pw.frame_iter().drain() {
        streamed.extend_from_slice(&r.expect("frame"));
    }
    let eager_plain = dec_plain.decode_all().unwrap();
    assert_eq!(streamed, eager_plain);
}

#[test]
fn new_with_password_format2_wrong_password_decodes_but_corrupts() {
    let n = (44_100.0 * 0.2) as usize;
    let samples = pseudo_noise(n, 2, 0x7FFF, 0xABCD_EF01_2345_6789);
    let right = b"right-password-AbCdEf";
    let wrong = b"wrong-password-XyZ";
    let tta = encode_with_password(&samples, 2, 16, 44_100, right).expect("encode format=2");

    let dec_right =
        oxideav_tta::Decoder::new_with_password(&tta, right).expect("right password constructs");
    let pcm_right: Vec<i32> = dec_right
        .frame_iter()
        .drain()
        .into_iter()
        .flat_map(|r| r.expect("frame"))
        .collect();
    assert_eq!(pcm_right, samples);

    let dec_wrong = oxideav_tta::Decoder::new_with_password(&tta, wrong)
        .expect("wrong password must still construct");
    let pcm_wrong: Vec<i32> = dec_wrong
        .frame_iter()
        .drain()
        .into_iter()
        .flat_map(|r| r.expect("frame must still decode under wrong password"))
        .collect();
    assert_eq!(pcm_wrong.len(), pcm_right.len());
    assert_ne!(
        pcm_wrong, pcm_right,
        "wrong-password decode should produce different PCM to the right-password decode "
    );
}

#[test]
fn new_with_password_format2_out_of_range_index_errors() {
    let samples = sine(4_096, 1, 44_100, 440.0, 12_000);
    let password = b"x";
    let tta = encode_with_password(&samples, 1, 16, 44_100, password).expect("encode format=2");
    let dec =
        oxideav_tta::Decoder::new_with_password(&tta, password).expect("Decoder::new_with_password");
    let last = dec.frames.len();
    assert_eq!(
        dec.decode_frame_at(last),
        Err(oxideav_tta::Error::FrameIndexOutOfRange)
    );
    let total = dec.header.total_samples as u64;
    assert_eq!(
        dec.seek_to_sample(total),
        Err(oxideav_tta::Error::SampleIndexOutOfRange)
    );
}

#[test]
fn decode_from_sample_matches_eager_tail_mono16_format1() {
    let samples = pseudo_noise(2 * 44_100, 1, 0x7FFF, 0x0C0F_FEE5);
    let tta = encode(&samples, 1, 16, 44_100).expect("encode");
    let dec = oxideav_tta::Decoder::new(&tta).expect("Decoder::new");
    let eager = dec.decode_all().expect("decode_all");
    let nch = dec.header.channels as usize;

    for &target in &[0u64, 100, 23_000, 70_000, (eager.len() / nch) as u64 - 1] {
        let got = dec.decode_from_sample(target).expect("decode_from_sample");
        let cursor = (target as usize) * nch;
        let expected = &eager[cursor..];
        assert_eq!(
            got.len(),
            expected.len(),
            "decode_from_sample({target}) length must match eager tail"
        );
        assert_eq!(
            got, expected,
            "decode_from_sample({target}) must equal eager decode tail bit-exactly"
        );
    }
}

#[test]
fn decode_from_sample_matches_eager_tail_stereo16_format1() {
    let samples = pseudo_noise(2 * 44_100, 2, 0x7FFF, 0xD00D_BEEF);
    let tta = encode(&samples, 2, 16, 44_100).expect("encode");
    let dec = oxideav_tta::Decoder::new(&tta).expect("Decoder::new");
    let eager = dec.decode_all().expect("decode_all");
    let nch = dec.header.channels as usize;
    let total = dec.header.total_samples as u64;

    for &target in &[0u64, total / 4, total / 2, total * 3 / 4, total - 1] {
        let got = dec.decode_from_sample(target).expect("decode_from_sample");
        let cursor = (target as usize) * nch;
        assert_eq!(got, eager[cursor..]);
    }
}

#[test]
fn decode_from_sample_matches_eager_tail_stereo24_format1() {
    let samples = pseudo_noise(44_100, 2, 0x7F_FFFF, 0xFADE_FEED);
    let tta = encode(&samples, 2, 24, 44_100).expect("encode");
    let dec = oxideav_tta::Decoder::new(&tta).expect("Decoder::new");
    let eager = dec.decode_all().expect("decode_all");
    let nch = dec.header.channels as usize;
    let total = dec.header.total_samples as u64;

    for &target in &[1u64, total / 3, total - 1] {
        let got = dec.decode_from_sample(target).expect("decode_from_sample");
        let cursor = (target as usize) * nch;
        assert_eq!(got, eager[cursor..]);
    }
}

#[test]
fn decode_from_sample_matches_eager_tail_6ch16_format1() {
    let samples = pseudo_noise(20_000, 6, 0x7FFF, 0xBAAA_AAAD);
    let tta = encode(&samples, 6, 16, 44_100).expect("encode");
    let dec = oxideav_tta::Decoder::new(&tta).expect("Decoder::new");
    let eager = dec.decode_all().expect("decode_all");
    let nch = dec.header.channels as usize;
    let total = dec.header.total_samples as u64;

    for &target in &[0u64, total / 5, total - 1] {
        let got = dec.decode_from_sample(target).expect("decode_from_sample");
        let cursor = (target as usize) * nch;
        assert_eq!(got, eager[cursor..]);
    }
}

#[test]
fn decode_from_sample_matches_eager_tail_stereo16_format2() {
    let samples = pseudo_noise(44_100, 2, 0x7FFF, 0xACE_2026);
    let password = b"the-r209-target";
    let tta =
        encode_with_password(&samples, 2, 16, 44_100, password).expect("encode_with_password");
    let dec =
        oxideav_tta::Decoder::new_with_password(&tta, password).expect("Decoder::new_with_password");
    let eager = dec.decode_all().expect("decode_all");
    let nch = dec.header.channels as usize;
    let total = dec.header.total_samples as u64;

    for &target in &[0u64, total / 4, total / 2, total - 1] {
        let got = dec.decode_from_sample(target).expect("decode_from_sample");
        let cursor = (target as usize) * nch;
        assert_eq!(got, eager[cursor..]);
    }
}

#[test]
fn frame_iter_from_sample_concat_matches_eager_tail() {
    let samples = pseudo_noise(2 * 44_100, 2, 0x7FFF, 0x600D_F00D);
    let tta = encode(&samples, 2, 16, 44_100).expect("encode");
    let dec = oxideav_tta::Decoder::new(&tta).expect("Decoder::new");
    let eager = dec.decode_all().expect("decode_all");
    let nch = dec.header.channels as usize;

    let target_sample = (eager.len() / nch) as u64 * 3 / 4;
    let cursor = (target_sample as usize) * nch;
    let expected_tail = &eager[cursor..];

    let mut got: Vec<i32> = Vec::new();
    let mut emitted_frames = 0usize;
    for r in dec
        .frame_iter_from_sample(target_sample)
        .expect("frame_iter_from_sample")
        .drain()
    {
        let pcm = r.expect("frame decode");
        got.extend_from_slice(&pcm);
        emitted_frames += 1;
    }
    assert!(
        emitted_frames >= 1,
        "frame_iter_from_sample must yield at least one frame"
    );
    assert_eq!(got.len(), expected_tail.len());
    assert_eq!(got, expected_tail);

    let sp = dec.seek_to_sample(target_sample).expect("seek");
    let mut by_hand: Vec<i32> = Vec::new();
    for (offset, r) in dec.frame_iter_from(sp.frame_index).drain().into_iter().enumerate() {
        let pcm = r.expect("manual decode");
        if offset == 0 {
            by_hand.extend_from_slice(&pcm[sp.sample_offset_in_frame as usize * nch..]);
        } else {
            by_hand.extend_from_slice(&pcm);
        }
    }
    assert_eq!(
        by_hand, got,
        "frame_iter_from_sample must equal the by-hand seek_to_sample + \
         frame_iter_from + skip composition"
    );
}

#[test]
fn frame_iter_from_sample_zero_equals_full_decode() {
    let samples = pseudo_noise(3 * 44_100 / 2, 2, 0x7FFF, 0xBAD_F00D);
    let tta = encode(&samples, 2, 16, 44_100).expect("encode");
    let dec = oxideav_tta::Decoder::new(&tta).expect("Decoder::new");
    let eager = dec.decode_all().expect("decode_all");

    let mut got: Vec<i32> = Vec::new();
    for r in dec
        .frame_iter_from_sample(0)
        .expect("frame_iter_from_sample(0)")
        .drain()
    {
        got.extend_from_slice(&r.expect("decode"));
    }
    assert_eq!(got, eager);
}

#[test]
fn decode_from_sample_last_sample_returns_one_frame_of_one_sample() {
    let samples = pseudo_noise(44_100, 2, 0x7FFF, 0x00DE_ADBE_EF22);
    let tta = encode(&samples, 2, 16, 44_100).expect("encode");
    let dec = oxideav_tta::Decoder::new(&tta).expect("Decoder::new");
    let total = dec.header.total_samples as u64;
    let nch = dec.header.channels as usize;

    let got = dec
        .decode_from_sample(total - 1)
        .expect("decode_from_sample(total-1)");
    assert_eq!(got.len(), nch, "must return exactly `channels` entries");

    let eager = dec.decode_all().expect("decode_all");
    assert_eq!(&got[..], &eager[eager.len() - nch..]);
}

#[test]
fn decode_from_sample_rejects_out_of_range() {
    let samples = sine(4_096, 1, 44_100, 440.0, 12_000);
    let tta = encode(&samples, 1, 16, 44_100).expect("encode");
    let dec = oxideav_tta::Decoder::new(&tta).expect("Decoder::new");
    let total = dec.header.total_samples as u64;

    assert_eq!(
        dec.decode_from_sample(total),
        Err(oxideav_tta::Error::SampleIndexOutOfRange)
    );
    assert_eq!(
        dec.decode_from_sample(total + 1),
        Err(oxideav_tta::Error::SampleIndexOutOfRange)
    );
    assert!(dec.frame_iter_from_sample(total).is_err());
    assert!(dec.frame_iter_from_sample(u64::MAX).is_err());
}

#[test]
fn frame_iter_from_sample_format2_seek_and_resume_bit_exact() {
    let samples = pseudo_noise(2 * 44_100, 2, 0x7FFF, 0xACE_F00D);
    let password = b"f2-frame-iter-from-sample";
    let tta = encode_with_password(&samples, 2, 16, 44_100, password).expect("encode format=2");
    let dec =
        oxideav_tta::Decoder::new_with_password(&tta, password).expect("Decoder::new_with_password");
    let eager = dec.decode_all().expect("decode_all");
    let nch = dec.header.channels as usize;

    let target_sample = (eager.len() / nch) as u64 / 2;
    let cursor = (target_sample as usize) * nch;
    let expected_tail = &eager[cursor..];

    let mut got: Vec<i32> = Vec::new();
    for r in dec
        .frame_iter_from_sample(target_sample)
        .expect("frame_iter_from_sample (format=2)")
        .drain()
    {
        got.extend_from_slice(&r.expect("frame decode"));
    }
    assert_eq!(got, expected_tail);
}

#[test]
fn total_duration_matches_total_samples_over_sample_rate() {
    let samples = pseudo_noise(110_250, 2, 0x7FFF, 0xD0D0_BEEF);
    let tta = encode(&samples, 2, 16, 44_100).expect("encode");
    let dec = oxideav_tta::Decoder::new(&tta).expect("Decoder::new");

    assert_eq!(dec.total_duration(), Duration::from_millis(2_500));

    let samples2 = pseudo_noise(44_101, 1, 0x7FFF, 0xABCD_EF01);
    let tta2 = encode(&samples2, 1, 16, 44_100).expect("encode 44101");
    let dec2 = oxideav_tta::Decoder::new(&tta2).expect("Decoder::new 44101");
    let expected_ns = 1_000_000_000u128 + (1_000_000_000u128 / 44_100u128);
    assert_eq!(dec2.total_duration().as_nanos(), expected_ns);
}

#[test]
fn header_total_duration_matches_decoder_total_duration() {
    let cases: &[(u32, u16, u32)] = &[
        (44_100, 1, 44_100),
        (110_250, 2, 44_100),
        (48_000 * 3, 1, 48_000),
        (44_101, 1, 44_100),
        (1, 1, 192_000),
        (0, 1, 44_100),
    ];
    for &(total_samples, channels, sample_rate) in cases {
        if total_samples == 0 {
            let h = oxideav_tta::StreamHeader {
                format: 1,
                channels,
                bits_per_sample: 16,
                sample_rate,
                total_samples,
            };
            assert_eq!(h.total_duration(), core::time::Duration::ZERO);
            assert!(h.total_samples_typed().is_empty());
            continue;
        }
        let samples = pseudo_noise(
            total_samples as usize,
            channels,
            0x7FFF,
            0x1234_5678_u64.wrapping_mul(total_samples as u64),
        );
        let tta = encode(&samples, channels, 16, sample_rate).expect("encode");
        let dec = oxideav_tta::Decoder::new(&tta).expect("Decoder::new");
        let header_duration = dec.header.total_duration();
        let typed_duration = dec
            .header
            .total_samples_typed()
            .duration_at(dec.header.sample_rate);
        assert_eq!(header_duration, dec.total_duration());
        assert_eq!(typed_duration, dec.total_duration());
        assert_eq!(
            dec.header.total_samples_typed().count(),
            dec.header.total_samples
        );
    }
}

#[test]
fn seek_to_time_zero_lands_at_first_sample() {
    let samples = pseudo_noise(44_100, 1, 0x7FFF, 0xAACC_DDEE);
    let tta = encode(&samples, 1, 16, 44_100).expect("encode");
    let dec = oxideav_tta::Decoder::new(&tta).expect("Decoder::new");

    let sp = dec.seek_to_time(Duration::ZERO).expect("seek");
    assert_eq!(sp.frame_index, 0);
    assert_eq!(sp.sample_offset_in_frame, 0);
}

#[test]
fn seek_to_time_matches_seek_to_sample_at_equivalent_time() {
    let samples = pseudo_noise(88_200, 2, 0x7FFF, 0xBEEF_F00D);
    let tta = encode(&samples, 2, 16, 44_100).expect("encode");
    let dec = oxideav_tta::Decoder::new(&tta).expect("Decoder::new");

    for &(time_ms, expected_sample) in &[
        (0u64, 0u64),
        (500, 22_050),
        (1_000, 44_100),
        (1_500, 66_150),
    ] {
        let t = Duration::from_millis(time_ms);
        let from_time = dec.seek_to_time(t).expect("seek_to_time");
        let from_sample = dec.seek_to_sample(expected_sample).expect("seek_to_sample");
        assert_eq!(
            from_time, from_sample,
            "seek_to_time({time_ms} ms) must equal seek_to_sample({expected_sample})"
        );
    }
}

#[test]
fn seek_to_time_at_total_duration_rejects() {
    let samples = pseudo_noise(44_100, 1, 0x7FFF, 0xCAFE_F00D);
    let tta = encode(&samples, 1, 16, 44_100).expect("encode");
    let dec = oxideav_tta::Decoder::new(&tta).expect("Decoder::new");

    let td = dec.total_duration();
    assert_eq!(
        dec.seek_to_time(td),
        Err(oxideav_tta::Error::SampleIndexOutOfRange)
    );
    assert_eq!(
        dec.seek_to_time(td + Duration::from_secs(1)),
        Err(oxideav_tta::Error::SampleIndexOutOfRange)
    );
    assert_eq!(
        dec.seek_to_time(Duration::MAX),
        Err(oxideav_tta::Error::SampleIndexOutOfRange)
    );
}

#[test]
fn decode_from_time_matches_decode_from_sample_bit_exact() {
    let samples = pseudo_noise(88_200, 1, 0x7FFF, 0x600D_C00C);
    let tta = encode(&samples, 1, 16, 44_100).expect("encode");
    let dec = oxideav_tta::Decoder::new(&tta).expect("Decoder::new");

    for &time_ms in &[0u64, 250, 500, 750, 1_500] {
        let t = Duration::from_millis(time_ms);
        let from_time = dec.decode_from_time(t).expect("decode_from_time");
        let sample_index = time_ms * 44_100 / 1_000;
        let from_sample = dec
            .decode_from_sample(sample_index)
            .expect("decode_from_sample");
        assert_eq!(
            from_time, from_sample,
            "decode_from_time({time_ms} ms) must equal decode_from_sample({sample_index})"
        );
    }
}

#[test]
fn frame_iter_from_time_concat_matches_eager_tail() {
    let samples = pseudo_noise(88_200, 2, 0x7FFF, 0xC0DE_C0DE);
    let tta = encode(&samples, 2, 16, 44_100).expect("encode");
    let dec = oxideav_tta::Decoder::new(&tta).expect("Decoder::new");
    let eager = dec.decode_all().expect("decode_all");
    let nch = dec.header.channels as usize;

    let t = Duration::from_millis(1_000);
    let cursor = 44_100usize * nch;
    let expected_tail = &eager[cursor..];

    let mut got: Vec<i32> = Vec::new();
    for r in dec.frame_iter_from_time(t).expect("frame_iter_from_time").drain() {
        got.extend_from_slice(&r.expect("frame decode"));
    }
    assert_eq!(got, expected_tail);
}

#[test]
fn frame_iter_from_time_rejects_past_end() {
    let samples = pseudo_noise(44_100, 1, 0x7FFF, 0xACAB_F00D);
    let tta = encode(&samples, 1, 16, 44_100).expect("encode");
    let dec = oxideav_tta::Decoder::new(&tta).expect("Decoder::new");
    let td = dec.total_duration();
    assert!(dec.frame_iter_from_time(td).is_err());
    assert!(dec.decode_from_time(td).is_err());
}

#[test]
fn time_apis_format2_seek_and_resume_bit_exact() {
    let samples = pseudo_noise(2 * 44_100, 2, 0x7FFF, 0xACE_2150);
    let password = b"r215-duration-api";
    let tta = encode_with_password(&samples, 2, 16, 44_100, password).expect("encode format=2");
    let dec =
        oxideav_tta::Decoder::new_with_password(&tta, password).expect("Decoder::new_with_password");
    let eager = dec.decode_all().expect("decode_all");
    let nch = dec.header.channels as usize;

    let t = Duration::from_millis(1_000);
    let cursor = 44_100usize * nch;
    let expected_tail = &eager[cursor..];

    let from_time = dec.decode_from_time(t).expect("decode_from_time");
    assert_eq!(from_time.len(), expected_tail.len());
    assert_eq!(from_time, expected_tail);

    let mut got: Vec<i32> = Vec::new();
    for r in dec.frame_iter_from_time(t).expect("frame_iter_from_time").drain() {
        got.extend_from_slice(&r.expect("frame decode"));
    }
    assert_eq!(got, expected_tail);
}

#[test]
fn seek_to_time_sub_sample_period_resolves_to_same_sample() {
    let samples = pseudo_noise(48_000, 1, 0x7FFF, 0xD0D0_F00D);
    let tta = encode(&samples, 1, 16, 48_000).expect("encode");
    let dec = oxideav_tta::Decoder::new(&tta).expect("Decoder::new");

    let target_sample = 5_904u64;
    let target_sample_ns = (target_sample as u128) * 1_000_000_000u128 / 48_000u128;
    let at_boundary = Duration::from_nanos(target_sample_ns as u64);
    let at_boundary_sp = dec.seek_to_time(at_boundary).expect("seek boundary");
    let by_sample = dec.seek_to_sample(target_sample).expect("seek by sample");
    assert_eq!(at_boundary_sp, by_sample);

    let one_ns_later = at_boundary + Duration::from_nanos(1);
    let one_ns_sp = dec.seek_to_time(one_ns_later).expect("seek +1 ns");
    assert_eq!(at_boundary_sp, one_ns_sp);

    let next_sample_ns = ((target_sample + 1) as u128) * 1_000_000_000u128 / 48_000u128;
    let next_boundary = Duration::from_nanos(next_sample_ns as u64 + 1);
    let next_sp = dec.seek_to_time(next_boundary).expect("seek next boundary");
    let cross_sp = dec
        .seek_to_sample(target_sample + 1)
        .expect("seek by next sample");
    assert_eq!(next_sp, cross_sp);
    assert_ne!(next_sp, at_boundary_sp);
}

#[test]
fn decode_sample_range_matches_eager_slice_mono16_format1() {
    let samples = pseudo_noise(2 * 44_100, 1, 0x7FFF, 0x0219_C0DE_F00D_BEEF);
    let tta = encode(&samples, 1, 16, 44_100).expect("encode");
    let dec = oxideav_tta::Decoder::new(&tta).expect("Decoder::new");
    let eager = dec.decode_all().expect("decode_all");
    let nch = dec.header.channels as usize;
    let total = dec.header.total_samples as u64;

    for &(start, end) in &[
        (0u64, total),
        (0, total / 2),
        (total / 4, total * 3 / 4),
        (100, 200),
        (total - 1, total),
        (total, total),
        (0, 0),
    ] {
        let got = dec
            .decode_sample_range(start, end)
            .expect("decode_sample_range");
        let expected = &eager[(start as usize) * nch..(end as usize) * nch];
        assert_eq!(
            got.len(),
            expected.len(),
            "decode_sample_range({start},{end}) length mismatch"
        );
        assert_eq!(
            got, expected,
            "decode_sample_range({start},{end}) must equal eager slice bit-exactly"
        );
    }
}

#[test]
fn decode_sample_range_matches_eager_slice_stereo16_format1() {
    let samples = pseudo_noise(2 * 44_100, 2, 0x7FFF, 0x0219_DEAD_BEEF_CAFE);
    let tta = encode(&samples, 2, 16, 44_100).expect("encode");
    let dec = oxideav_tta::Decoder::new(&tta).expect("Decoder::new");
    let eager = dec.decode_all().expect("decode_all");
    let nch = dec.header.channels as usize;
    let total = dec.header.total_samples as u64;

    for &(start, end) in &[
        (0u64, total),
        (total / 4, total / 2),
        (total / 2, total),
        (1, total - 1),
    ] {
        let got = dec
            .decode_sample_range(start, end)
            .expect("decode_sample_range");
        let expected = &eager[(start as usize) * nch..(end as usize) * nch];
        assert_eq!(got, expected);
    }
}

#[test]
fn decode_sample_range_matches_eager_slice_stereo24_format1() {
    let samples = pseudo_noise(44_100, 2, 0x7F_FFFF, 0x0219_FADE_BAAD_F00D);
    let tta = encode(&samples, 2, 24, 44_100).expect("encode");
    let dec = oxideav_tta::Decoder::new(&tta).expect("Decoder::new");
    let eager = dec.decode_all().expect("decode_all");
    let nch = dec.header.channels as usize;
    let total = dec.header.total_samples as u64;

    for &(start, end) in &[(0u64, total), (100, total - 100), (total / 3, total / 2)] {
        let got = dec
            .decode_sample_range(start, end)
            .expect("decode_sample_range");
        let expected = &eager[(start as usize) * nch..(end as usize) * nch];
        assert_eq!(got, expected);
    }
}

#[test]
fn decode_sample_range_matches_eager_slice_6ch16_format1() {
    let samples = pseudo_noise(20_000, 6, 0x7FFF, 0x0219_BAAA_AAAD_FACE);
    let tta = encode(&samples, 6, 16, 44_100).expect("encode");
    let dec = oxideav_tta::Decoder::new(&tta).expect("Decoder::new");
    let eager = dec.decode_all().expect("decode_all");
    let nch = dec.header.channels as usize;
    let total = dec.header.total_samples as u64;

    for &(start, end) in &[
        (0u64, total),
        (500, total - 500),
        (total / 4, total * 3 / 4),
    ] {
        let got = dec
            .decode_sample_range(start, end)
            .expect("decode_sample_range");
        let expected = &eager[(start as usize) * nch..(end as usize) * nch];
        assert_eq!(got, expected);
    }
}

#[test]
fn decode_sample_range_matches_eager_slice_format2_password_stereo16() {
    let samples = pseudo_noise(44_100, 2, 0x7FFF, 0x0219_E2E2_2026);
    let password = b"the-r219-range-target";
    let tta =
        encode_with_password(&samples, 2, 16, 44_100, password).expect("encode_with_password");
    let dec =
        oxideav_tta::Decoder::new_with_password(&tta, password).expect("Decoder::new_with_password");
    let eager = dec.decode_all().expect("decode_all");
    let nch = dec.header.channels as usize;
    let total = dec.header.total_samples as u64;

    for &(start, end) in &[(0u64, total), (total / 4, total * 3 / 4), (1, total - 1)] {
        let got = dec
            .decode_sample_range(start, end)
            .expect("decode_sample_range");
        let expected = &eager[(start as usize) * nch..(end as usize) * nch];
        assert_eq!(got, expected, "format=2 range mismatch for ({start},{end})");
    }
}

#[test]
fn decode_sample_range_full_stream_equals_decode_all() {
    let samples = pseudo_noise(3 * 44_100, 2, 0x7FFF, 0x0219_F011_5774_2001);
    let tta = encode(&samples, 2, 16, 44_100).expect("encode");
    let dec = oxideav_tta::Decoder::new(&tta).expect("Decoder::new");
    let eager = dec.decode_all().expect("decode_all");
    let total = dec.header.total_samples as u64;

    let full = dec
        .decode_sample_range(0, total)
        .expect("decode_sample_range(0, total)");
    assert_eq!(full, eager);
}

#[test]
fn decode_sample_range_to_total_equals_decode_from_sample() {
    let samples = pseudo_noise(2 * 44_100, 2, 0x7FFF, 0x0219_77A1_7070_7070);
    let tta = encode(&samples, 2, 16, 44_100).expect("encode");
    let dec = oxideav_tta::Decoder::new(&tta).expect("Decoder::new");
    let total = dec.header.total_samples as u64;

    for &start in &[0u64, 1, total / 3, total / 2, total * 2 / 3, total - 1] {
        let range = dec
            .decode_sample_range(start, total)
            .expect("decode_sample_range(start, total)");
        let tail = dec
            .decode_from_sample(start)
            .expect("decode_from_sample(start)");
        assert_eq!(
            range, tail,
            "decode_sample_range({start}, total) must equal decode_from_sample({start})"
        );
    }
}

#[test]
fn decode_sample_range_empty_at_every_boundary() {
    let samples = pseudo_noise(44_100, 2, 0x7FFF, 0x0219_E007_DA7A);
    let tta = encode(&samples, 2, 16, 44_100).expect("encode");
    let dec = oxideav_tta::Decoder::new(&tta).expect("Decoder::new");
    let total = dec.header.total_samples as u64;

    for &s in &[0u64, 1, total / 2, total - 1, total] {
        let got = dec
            .decode_sample_range(s, s)
            .expect("decode_sample_range(s, s)");
        assert!(
            got.is_empty(),
            "decode_sample_range({s}, {s}) must be empty"
        );
    }
}

#[test]
fn frame_iter_sample_range_concat_matches_decode_sample_range() {
    let samples = pseudo_noise(2 * 44_100, 2, 0x7FFF, 0x0219_C0AC_CA70);
    let tta = encode(&samples, 2, 16, 44_100).expect("encode");
    let dec = oxideav_tta::Decoder::new(&tta).expect("Decoder::new");
    let total = dec.header.total_samples as u64;

    for &(start, end) in &[
        (0u64, total),
        (100, total - 100),
        (total / 4, total * 3 / 4),
        (total / 3, total / 2),
    ] {
        let eager = dec
            .decode_sample_range(start, end)
            .expect("decode_sample_range");
        let lazy: Vec<i32> = dec
            .frame_iter_sample_range(start, end)
            .expect("frame_iter_sample_range")
            .drain()
            .into_iter()
            .flat_map(|r| r.expect("frame decode"))
            .collect();
        assert_eq!(lazy, eager, "lazy concat must equal eager range");
    }
}

#[test]
fn frame_iter_sample_range_trailing_trim_lands_at_boundary() {
    let samples = pseudo_noise(3 * 44_100, 2, 0x7FFF, 0x0219_7A11_7E1A);
    let tta = encode(&samples, 2, 16, 44_100).expect("encode");
    let dec = oxideav_tta::Decoder::new(&tta).expect("Decoder::new");
    let nch = dec.header.channels as usize;
    let regular = dec.header.regular_frame_samples() as u64;
    let start = 100u64;
    let end = regular + 12_345;
    let frames: Vec<Vec<i32>> = dec
        .frame_iter_sample_range(start, end)
        .expect("frame_iter_sample_range")
        .drain()
        .into_iter()
        .map(|r| r.expect("frame decode"))
        .collect();
    assert_eq!(
        frames.len(),
        2,
        "expected 2 yielded frames (head-trim + tail-trim)"
    );
    let first_entries = (regular as usize - start as usize) * nch;
    assert_eq!(
        frames[0].len(),
        first_entries,
        "first frame must be head-trimmed to (regular - start) * channels"
    );
    let second_entries = (end as usize - regular as usize) * nch;
    assert_eq!(
        frames[1].len(),
        second_entries,
        "second frame must be tail-trimmed to (end - regular) * channels"
    );
    let total_entries: usize = frames.iter().map(|f| f.len()).sum();
    assert_eq!(total_entries, (end - start) as usize * nch);
}

#[test]
fn decode_time_range_matches_decode_sample_range_at_endpoints() {
    let samples = pseudo_noise(2 * 48_000, 2, 0x7FFF, 0x0219_71E3_AE0E);
    let tta = encode(&samples, 2, 16, 48_000).expect("encode");
    let dec = oxideav_tta::Decoder::new(&tta).expect("Decoder::new");
    let rate = dec.header.sample_rate as u64;
    let total = dec.header.total_samples as u64;
    assert_eq!(total, 2 * rate);

    for &(start_s, end_s) in &[
        (0u64, total),
        (0u64, rate),
        (rate, total),
        (rate / 2, rate),
    ] {
        let start_t =
            Duration::from_nanos(((start_s as u128) * 1_000_000_000u128 / (rate as u128)) as u64);
        let end_t =
            Duration::from_nanos(((end_s as u128) * 1_000_000_000u128 / (rate as u128)) as u64);
        let start_re = ((start_t.as_nanos() * rate as u128) / 1_000_000_000u128) as u64;
        let end_re = ((end_t.as_nanos() * rate as u128) / 1_000_000_000u128) as u64;
        if start_re != start_s || end_re != end_s {
            continue;
        }
        let time_got = dec
            .decode_time_range(start_t, end_t)
            .expect("decode_time_range");
        let sample_got = dec
            .decode_sample_range(start_s, end_s)
            .expect("decode_sample_range");
        assert_eq!(
            time_got, sample_got,
            "decode_time_range and decode_sample_range must agree at exact-round-trip boundaries ({start_s}, {end_s})"
        );
    }
}

#[test]
fn decode_time_range_full_duration_equals_decode_all() {
    let samples = pseudo_noise(44_100, 2, 0x7FFF, 0x0219_F011_D02E);
    let tta = encode(&samples, 2, 16, 44_100).expect("encode");
    let dec = oxideav_tta::Decoder::new(&tta).expect("Decoder::new");
    let eager = dec.decode_all().expect("decode_all");
    let dur = dec.total_duration();
    let got = dec
        .decode_time_range(Duration::ZERO, dur)
        .expect("decode_time_range(0, total_duration)");
    assert_eq!(got, eager);
}

#[test]
fn frame_iter_time_range_concat_matches_decode_time_range() {
    let samples = pseudo_noise(2 * 44_100, 2, 0x7FFF, 0x0219_F127_1E1E);
    let tta = encode(&samples, 2, 16, 44_100).expect("encode");
    let dec = oxideav_tta::Decoder::new(&tta).expect("Decoder::new");

    let start = Duration::from_millis(250);
    let end = Duration::from_millis(750);
    let eager = dec
        .decode_time_range(start, end)
        .expect("decode_time_range");
    let lazy: Vec<i32> = dec
        .frame_iter_time_range(start, end)
        .expect("frame_iter_time_range")
        .drain()
        .into_iter()
        .flat_map(|r| r.expect("frame decode"))
        .collect();
    assert_eq!(lazy, eager);
}

#[test]
fn decode_sample_range_rejects_start_greater_than_end() {
    let samples = pseudo_noise(44_100, 1, 0x7FFF, 0x0219_57A7_E2DE);
    let tta = encode(&samples, 1, 16, 44_100).expect("encode");
    let dec = oxideav_tta::Decoder::new(&tta).expect("Decoder::new");
    let total = dec.header.total_samples as u64;
    assert_eq!(
        dec.decode_sample_range(100, 50),
        Err(oxideav_tta::Error::SampleIndexOutOfRange),
        "start > end must reject"
    );
    assert_eq!(
        dec.decode_sample_range(total, total - 1),
        Err(oxideav_tta::Error::SampleIndexOutOfRange)
    );
    assert_eq!(
        dec.frame_iter_sample_range(100, 50)
            .err()
            .expect("must be Err"),
        oxideav_tta::Error::SampleIndexOutOfRange
    );
}

#[test]
fn decode_sample_range_rejects_end_past_total_samples() {
    let samples = pseudo_noise(44_100, 1, 0x7FFF, 0x0219_E2D0_0070);
    let tta = encode(&samples, 1, 16, 44_100).expect("encode");
    let dec = oxideav_tta::Decoder::new(&tta).expect("Decoder::new");
    let total = dec.header.total_samples as u64;
    assert_eq!(
        dec.decode_sample_range(0, total + 1),
        Err(oxideav_tta::Error::SampleIndexOutOfRange)
    );
    assert_eq!(
        dec.decode_sample_range(total - 1, total + 5),
        Err(oxideav_tta::Error::SampleIndexOutOfRange)
    );
    assert_eq!(
        dec.decode_sample_range(total + 1, total + 1),
        Err(oxideav_tta::Error::SampleIndexOutOfRange)
    );
}

#[test]
fn decode_time_range_rejects_end_past_total_duration() {
    let samples = pseudo_noise(44_100, 1, 0x7FFF, 0x0219_7103_00AE);
    let tta = encode(&samples, 1, 16, 44_100).expect("encode");
    let dec = oxideav_tta::Decoder::new(&tta).expect("Decoder::new");
    let rate = dec.header.sample_rate as u128;
    let total = dec.header.total_samples as u128;
    let past_ns = (((total + 1) * 1_000_000_000u128).div_ceil(rate)) + 1;
    let past = Duration::from_nanos(past_ns as u64);
    assert_eq!(
        dec.decode_time_range(Duration::ZERO, past),
        Err(oxideav_tta::Error::SampleIndexOutOfRange),
        "decode_time_range with end past total_duration must reject"
    );
    assert_eq!(
        dec.decode_time_range(Duration::from_secs(2), Duration::ZERO),
        Err(oxideav_tta::Error::SampleIndexOutOfRange),
        "decode_time_range with start > end must reject"
    );
}

#[test]
fn decode_sample_range_format2_password_seek_and_clip_bit_exact() {
    let samples = pseudo_noise(2 * 44_100, 2, 0x7FFF, 0x0219_F2F2_5E60);
    let password = b"r219-segment-key";
    let tta =
        encode_with_password(&samples, 2, 16, 44_100, password).expect("encode_with_password");
    let dec =
        oxideav_tta::Decoder::new_with_password(&tta, password).expect("Decoder::new_with_password");
    let eager = dec.decode_all().expect("decode_all");
    let nch = dec.header.channels as usize;
    let total = dec.header.total_samples as u64;
    let start = total / 5;
    let end = total * 4 / 5;
    let got = dec
        .decode_sample_range(start, end)
        .expect("decode_sample_range");
    let expected = &eager[(start as usize) * nch..(end as usize) * nch];
    assert_eq!(got, expected);
}

#[test]
fn frame_descriptor_typed_accessors_match_parsed_stream() {
    let cases: &[(u32, u16, u16, u32)] = &[
        (110_250, 1, 16, 44_100),
        (96_000, 2, 16, 48_000),
        (44_100, 1, 24, 44_100),
    ];
    for &(total_samples, channels, bits_per_sample, sample_rate) in cases {
        let samples = pseudo_noise(
            total_samples as usize,
            channels,
            (1i32 << (bits_per_sample - 1)) - 1,
            0xC0FF_EE00u64.wrapping_mul(total_samples as u64),
        );
        let tta = encode(&samples, channels, bits_per_sample, sample_rate).expect("encode");
        let dec = oxideav_tta::Decoder::new(&tta).expect("Decoder::new");
        let regular = dec.header.regular_frame_samples();
        let (expected_frame_count, expected_last_samples) = dec.header.frame_geometry();
        assert_eq!(dec.frames.len() as u32, expected_frame_count);

        for (idx, fd) in dec.frames.iter().enumerate() {
            let len = fd.disk_size_typed().expect("disk_size_typed");
            assert_eq!(len.total_size(), fd.disk_size);
            assert_eq!(len.body_size(), fd.body_size());
            assert!(len.total_size() >= 4, "disk_size_typed enforces >= 4");

            let sc = fd.sample_count_typed().expect("sample_count_typed");
            assert_eq!(sc.count(), fd.sample_count);
            assert!(
                sc.is_within_regular_bound(regular),
                "frame {idx} sample_count {} exceeds regular bound {regular}",
                sc.count()
            );

            if (idx as u32) + 1 == expected_frame_count {
                assert_eq!(sc.count(), expected_last_samples);
            } else {
                assert_eq!(sc.count(), regular);
            }
        }
    }
}

#[test]
fn frame_geometry_typed_matches_parsed_stream() {
    let cases: &[(u32, u16, u16, u32)] = &[
        (110_250, 1, 16, 44_100),
        (96_000, 2, 16, 48_000),
        (44_100, 1, 24, 44_100),
    ];
    for &(total_samples, channels, bits_per_sample, sample_rate) in cases {
        let samples = pseudo_noise(
            total_samples as usize,
            channels,
            (1i32 << (bits_per_sample - 1)) - 1,
            0xFEED_C0DE_u64.wrapping_mul(total_samples as u64),
        );
        let tta = encode(&samples, channels, bits_per_sample, sample_rate).expect("encode");
        let dec = oxideav_tta::Decoder::new(&tta).expect("Decoder::new");

        let g = dec.header.frame_geometry_typed();
        let (bare_count, bare_last) = dec.header.frame_geometry();
        assert_eq!(g.frame_count(), bare_count);
        assert_eq!(g.last_frame_samples(), bare_last);
        assert_eq!(
            g.regular_frame_samples(),
            dec.header.regular_frame_samples()
        );
        assert_eq!(dec.frames.len() as u32, g.frame_count());
        assert_eq!(g.total_samples(), dec.header.total_samples);
        assert_eq!(g.seek_table_size_bytes(), bare_count as usize * 4 + 4);
        let expected_exact = total_samples % dec.header.regular_frame_samples() == 0;
        assert_eq!(g.is_exact_multiple(), expected_exact);

        for (idx, fd) in dec.frames.iter().enumerate() {
            let want = g
                .frame_samples_at(idx as u32)
                .expect("frame_samples_at in range");
            assert_eq!(want, fd.sample_count);
        }
        assert_eq!(g.frame_samples_at(g.frame_count()), None);
    }
}

#[test]
fn typed_stream_header_matches_parsed_stream() {
    let cases: &[(u32, u16, u16, u32)] = &[
        (110_250, 1, 16, 44_100),
        (96_000, 2, 16, 48_000),
        (44_100, 1, 24, 44_100),
    ];
    for &(total_samples, channels, bits_per_sample, sample_rate) in cases {
        let samples = pseudo_noise(
            total_samples as usize,
            channels,
            (1i32 << (bits_per_sample - 1)) - 1,
            0xA66E_06A7_u64.wrapping_mul(total_samples as u64),
        );
        let tta = encode(&samples, channels, bits_per_sample, sample_rate).expect("encode");
        let dec = oxideav_tta::Decoder::new(&tta).expect("Decoder::new");
        let h = dec.header;
        let t = h.typed().expect("typed() on parsed header");

        assert_eq!(t.format().as_raw(), h.format);
        assert_eq!(t.channels().count(), h.channels);
        assert_eq!(t.bits_per_sample().bits(), h.bits_per_sample);
        assert_eq!(t.sample_rate().hz(), h.sample_rate);
        assert_eq!(t.total_samples().count(), h.total_samples);
        assert!(!t.requires_password(), "format=1 stream");

        assert_eq!(t.total_duration(), dec.total_duration());
        let g = t.frame_geometry();
        assert_eq!(g, h.frame_geometry_typed());
        assert_eq!(g.frame_count() as usize, dec.frames.len());
        assert_eq!(t.regular_frame_samples(), h.regular_frame_samples());

        assert_eq!(
            t.pcm_byte_len(),
            (samples.len() as u64) * (t.byte_depth() as u64)
        );

        assert_eq!(t.to_header(), h);
    }
}

#[test]
fn seek_point_typed_accessors_match_parsed_stream() {
    let cases: &[(u32, u16, u16, u32)] = &[
        (110_250, 1, 16, 44_100),
        (96_000, 2, 16, 48_000),
        (44_100, 1, 24, 44_100),
    ];
    for &(total_samples, channels, bits_per_sample, sample_rate) in cases {
        let samples = pseudo_noise(
            total_samples as usize,
            channels,
            (1i32 << (bits_per_sample - 1)) - 1,
            0xBADC_0FFE_u64.wrapping_mul(total_samples as u64),
        );
        let tta = encode(&samples, channels, bits_per_sample, sample_rate).expect("encode");
        let dec = oxideav_tta::Decoder::new(&tta).expect("Decoder::new");
        let frame_count = dec.frames.len();
        let regular = dec.header.regular_frame_samples();

        let mut probes: Vec<u64> = vec![0, total_samples as u64 - 1];
        for f in 0..frame_count {
            probes.push(f as u64 * regular as u64);
            if total_samples as u64 > f as u64 * regular as u64 + 17 {
                probes.push(f as u64 * regular as u64 + 17);
            }
        }
        probes.sort();
        probes.dedup();

        for sample_index in probes {
            let sp = dec.seek_to_sample(sample_index).expect("seek_to_sample");

            let fi = sp
                .frame_index_typed(frame_count)
                .expect("frame_index_typed");
            assert_eq!(fi.index(), sp.frame_index);
            assert_eq!(fi.is_last(frame_count), sp.frame_index + 1 == frame_count);

            let off = sp
                .sample_offset_typed(regular)
                .expect("sample_offset_typed");
            assert_eq!(off.offset(), sp.sample_offset_in_frame);
            assert_eq!(off.is_frame_boundary(), sp.sample_offset_in_frame == 0);

            assert_eq!(
                off.interleaved_skip(channels),
                (sp.sample_offset_in_frame as usize) * (channels as usize)
            );
        }

        let bad_fi = oxideav_tta::SeekPoint {
            frame_index: frame_count,
            sample_offset_in_frame: 0,
        };
        assert_eq!(
            bad_fi.frame_index_typed(frame_count),
            Err(oxideav_tta::Error::InvalidFrameIndex(frame_count))
        );
        let bad_off = oxideav_tta::SeekPoint {
            frame_index: 0,
            sample_offset_in_frame: regular,
        };
        assert_eq!(
            bad_off.sample_offset_typed(regular),
            Err(oxideav_tta::Error::InvalidInFrameSampleOffset(regular))
        );
    }
}

fn signed_amp(bps: u16) -> i32 {
    (1i32 << (bps - 1)) - 1
}

#[test]
fn roundtrip_mono_17bit_sine() {
    let n = (44_100.0 * 0.05) as usize;
    let samples = sine(n, 1, 44_100, 440.0, signed_amp(17) / 2);
    assert_roundtrip(&samples, 1, 17, 44_100);
}

#[test]
fn roundtrip_mono_20bit_sine() {
    let n = (44_100.0 * 0.05) as usize;
    let samples = sine(n, 1, 44_100, 440.0, signed_amp(20) / 2);
    assert_roundtrip(&samples, 1, 20, 44_100);
}

#[test]
fn roundtrip_mono_23bit_sine() {
    let n = (44_100.0 * 0.05) as usize;
    let samples = sine(n, 1, 44_100, 440.0, signed_amp(23) / 2);
    assert_roundtrip(&samples, 1, 23, 44_100);
}

#[test]
fn roundtrip_stereo_18bit_pseudo_noise() {
    let samples = pseudo_noise(
        2_048,
        2,
        signed_amp(18) | (signed_amp(18) >> 4),
        0xABCD_1234,
    );
    assert_roundtrip(&samples, 2, 18, 44_100);
}

#[test]
fn roundtrip_stereo_21bit_uncorrelated_sines() {
    let n_per_ch = (44_100.0 * 0.05) as usize;
    let amp_l = signed_amp(21) / 2;
    let amp_r = signed_amp(21) / 3;
    let mut samples = Vec::with_capacity(n_per_ch * 2);
    for s in 0..n_per_ch {
        let phase_l = 2.0 * std::f64::consts::PI * 440.0 * s as f64 / 44_100.0;
        let phase_r = 2.0 * std::f64::consts::PI * 660.0 * s as f64 / 44_100.0;
        samples.push((phase_l.sin() * amp_l as f64).round() as i32);
        samples.push((phase_r.sin() * amp_r as f64).round() as i32);
    }
    assert_roundtrip(&samples, 2, 21, 44_100);
}

#[test]
fn roundtrip_multi_frame_mono_19bit_44100() {
    let n = 110_250;
    let samples = sine(n, 1, 44_100, 440.0, signed_amp(19) / 2);
    assert_roundtrip(&samples, 1, 19, 44_100);
}

#[test]
fn roundtrip_full_scale_22bit_dc_and_impulse() {
    let amp = signed_amp(22);
    let mut samples = vec![amp / 4; 1024];
    samples[256] = amp;
    samples[768] = -amp;
    assert_roundtrip(&samples, 1, 22, 44_100);
}

fn multi_sine(n_per_ch: usize, nch: u16, bps: u16) -> Vec<i32> {
    let base_amp = signed_amp(bps) / 3;
    let mut out = Vec::with_capacity(n_per_ch * nch as usize);
    for s in 0..n_per_ch {
        for ch in 0..nch {
            let freq = 200.0 * (1.0 + 0.17 * ch as f64);
            let phase = 2.0 * std::f64::consts::PI * freq * s as f64 / 44_100.0;
            let amp = base_amp as f64 * (1.0 - 0.08 * ch as f64);
            out.push((phase.sin() * amp).round() as i32);
        }
    }
    out
}

#[test]
fn roundtrip_three_channel_16bit() {
    let samples = multi_sine(1_024, 3, 16);
    assert_roundtrip(&samples, 3, 16, 44_100);
}

#[test]
fn roundtrip_four_channel_16bit() {
    let samples = multi_sine(1_024, 4, 16);
    assert_roundtrip(&samples, 4, 16, 44_100);
}

#[test]
fn roundtrip_five_channel_16bit() {
    let samples = multi_sine(1_024, 5, 16);
    assert_roundtrip(&samples, 5, 16, 44_100);
}

#[test]
fn roundtrip_three_channel_24bit_pseudo_noise() {
    let n_per_ch = 1_536;
    let mut samples = Vec::with_capacity(n_per_ch * 3);
    let mask = signed_amp(24);
    let per_ch: Vec<Vec<i32>> = (0..3u64)
        .map(|c| pseudo_noise(n_per_ch, 1, mask, 0x5EED_0000 + c))
        .collect();
    for s in 0..n_per_ch {
        for ch in &per_ch {
            samples.push(ch[s]);
        }
    }
    assert_roundtrip(&samples, 3, 24, 44_100);
}

#[test]
fn roundtrip_five_channel_multi_frame_44100() {
    let samples = multi_sine(110_250, 5, 16);
    assert_roundtrip(&samples, 5, 16, 44_100);
}

fn assert_random_access_parity(samples: &[i32], channels: u16, bps: u16, sample_rate: u32) {
    let tta = encode(samples, channels, bps, sample_rate).expect("encode should succeed");
    let dec = oxideav_tta::Decoder::new(&tta).expect("Decoder::new");
    let eager = dec.decode_all().expect("decode_all");
    assert_eq!(eager, samples, "eager decode must match the encoder input");

    let n_frames = dec.frames.len();
    assert!(n_frames >= 2, "fixture must be multi-frame for this test");

    let mut streamed = Vec::new();
    for r in dec.frame_iter().drain() {
        streamed.extend_from_slice(&r.expect("frame_iter decode"));
    }
    assert_eq!(streamed, eager, "frame_iter must equal decode_all");

    let mut by_index = Vec::new();
    for i in 0..n_frames {
        by_index.extend_from_slice(&dec.decode_frame_at(i).expect("decode_frame_at"));
    }
    assert_eq!(
        by_index, eager,
        "decode_frame_at concat must equal decode_all"
    );

    let nch = channels as usize;
    let regular = ((sample_rate as u64) * 256 / 245) as usize;
    let total = samples.len() / nch;
    for &target in &[0usize, regular, regular + 1, regular * 2, total - 1] {
        if target >= total {
            continue;
        }
        let sp = dec.seek_to_sample(target as u64).expect("seek_to_sample");
        let frame_start = sp.frame_index * regular;
        let frame_pcm = dec
            .decode_frame_at(sp.frame_index)
            .expect("decode_frame_at after seek");
        let expected = &eager[frame_start * nch..frame_start * nch + frame_pcm.len()];
        assert_eq!(
            frame_pcm, expected,
            "seek_to_sample({target}) frame {} mismatch",
            sp.frame_index
        );
        assert!(
            (sp.sample_offset_in_frame as usize) < frame_pcm.len() / nch,
            "target {target} offset out of frame bounds"
        );
    }
}

#[test]
fn encoder_seek_table_random_access_three_channel_multi_frame() {
    let samples = multi_sine(110_250, 3, 16);
    assert_random_access_parity(&samples, 3, 16, 44_100);
}

#[test]
fn encoder_seek_table_random_access_19bit_mono_multi_frame() {
    let n = 110_250;
    let samples = sine(n, 1, 44_100, 440.0, signed_amp(19) / 2);
    assert_random_access_parity(&samples, 1, 19, 44_100);
}

#[test]
fn encoder_seek_table_random_access_five_channel_multi_frame() {
    let samples = multi_sine(110_250, 5, 16);
    assert_random_access_parity(&samples, 5, 16, 44_100);
}
