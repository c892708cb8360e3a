//! The library's laws, each on concrete values.

use core::time::Duration;
use oxideav_tta::bitreader::BitReader;
use oxideav_tta::bitwriter::BitWriter;
use oxideav_tta::crc32::{crc32, Crc32};
use oxideav_tta::decorr::{forward, inverse};
use oxideav_tta::lms::LmsState;
use oxideav_tta::password::{crc64_ecma182, derive_qm_priming};
use oxideav_tta::pcm::{pack_width, unpack_width};
use oxideav_tta::registry::{make_decoder, make_encoder, SampleLayout};
use oxideav_tta::rice::{decode_one, dezigzag, rice_encode_one, zigzag, RiceState, MAX_K};
use oxideav_tta::stage_b::StageBState;
use oxideav_tta::time::{duration_to_sample_index, samples_to_duration};
use oxideav_tta::trace::{decode_all_traced, TraceWriter};
use oxideav_tta::{
    decode, decode_with_password, encode, encode_with_password, pack_pcm, scan_trailers, Decoder,
    Error,
};

fn noise(n: usize, amplitude: i32, seed: u32) -> Vec<i32> {
    let mut x = seed | 1;
    let mut out = Vec::with_capacity(n);
    for _ in 0..n {
        x ^= x << 13;
        x ^= x >> 17;
        x ^= x << 5;
        out.push((x as i32 % amplitude).clamp(-amplitude, amplitude));
    }
    out
}

fn bitwise_crc32(data: &[u8]) -> u32 {
    let mut crc = !0u32;
    for &b in data {
        crc ^= b as u32;
        for _ in 0..8 {
            crc = if crc & 1 == 1 {
                (crc >> 1) ^ 0xEDB8_8320
            } else {
                crc >> 1
            };
        }
    }
    !crc
}

#[test]
fn written_fields_and_unary_codes_read_back() {
    let mut w = BitWriter::new();
    w.put_unary(0);
    w.put_bits(0x5, 3);
    w.put_unary(70);
    w.put_bits(0xDEAD_BEEF, 32);
    w.put_bits(0xFFFF_FFFF, 0);
    w.put_bits(0xFFFF_FFFF, 7);
    let bytes = w.finish_byte_aligned();
    assert_eq!(bytes.len(), (1 + 3 + 71 + 32 + 7 + 7) / 8);
    let mut r = BitReader::new(&bytes);
    assert_eq!(r.read_unary(), Ok(0));
    assert_eq!(r.read_bits(3), Ok(5));
    assert_eq!(r.read_unary(), Ok(70));
    assert_eq!(r.read_bits(32), Ok(0xDEAD_BEEF));
    assert_eq!(r.read_bits(7), Ok(0x7F));
    assert_eq!(r.read_bits(6), Ok(0));
    assert_eq!(r.read_bits(1), Err(Error::Truncated));
    assert_eq!(r.read_bits(0), Ok(0));
    assert_eq!(r.bytes_consumed(), bytes.len());
}

#[test]
fn a_unary_code_without_an_end_is_truncated() {
    let body = [0xFFu8; 20];
    let mut r = BitReader::new(&body);
    assert_eq!(r.read_unary(), Err(Error::Truncated));
    assert_eq!(r.read_bits(1), Err(Error::Truncated));
}

#[test]
fn whole_bytes_are_drawn_ahead_of_the_bits() {
    let mut body = vec![0xFFu8; 20];
    body.push(0x7F);
    body.extend_from_slice(&[0; 9]);
    let mut r = BitReader::new(&body);
    assert_eq!(r.bytes_consumed(), 0);
    assert_eq!(r.read_bits(0), Ok(0));
    assert_eq!(r.bytes_consumed(), 0);
    assert_eq!(r.read_bits(5), Ok(31));
    assert_eq!(r.bytes_consumed(), 7);
    assert_eq!(r.read_bits(32), Ok(u32::MAX));
    assert_eq!(r.bytes_consumed(), 7);
    assert_eq!(r.read_bits(32), Ok(u32::MAX));
    assert_eq!(r.bytes_consumed(), 12);
    assert_eq!(r.read_unary(), Ok(20 * 8 + 7 - 69));
    assert_eq!(r.bytes_consumed(), 26);
    assert_eq!(r.read_bits(32), Ok(0));
    assert_eq!(r.read_bits(32), Ok(0));
    assert_eq!(r.bytes_consumed(), 30);
    assert_eq!(r.read_bits(9), Err(Error::Truncated));
    assert_eq!(r.read_bits(8), Ok(0));
}

#[test]
fn a_codeword_that_breaks_off_leaves_what_follows_its_prefix() {
    let body = [0b1010_1011u8];
    let mut r = BitReader::new(&body);
    let mut state = RiceState::frame_init();
    assert_eq!(decode_one(&mut r, &mut state), Err(Error::Truncated));
    assert_eq!(state, RiceState::frame_init());
    assert_eq!(r.read_bits(5), Ok(0b1_0101));
    assert_eq!(r.read_bits(1), Err(Error::Truncated));

    let endless = [0xFFu8; 3];
    let mut r = BitReader::new(&endless);
    assert_eq!(decode_one(&mut r, &mut state), Err(Error::Truncated));
    assert_eq!(r.read_bits(1), Err(Error::Truncated));
}

#[test]
fn damage_and_truncation_never_decode() {
    let pcm = noise(300, 5_000, 3);
    let file = encode(&pcm, 2, 16, 44_100).expect("encode");
    assert_eq!(Decoder::new(&file).expect("parse").header_crc, crc32(&file[..18]));
    for i in 0..22 {
        for change in [0x01u8, 0x80, 0xFF, 0x3C] {
            let mut bad = file.clone();
            bad[i] ^= change;
            let expected = if i < 4 {
                Error::InvalidMagic
            } else {
                Error::Crc32Mismatch { region: "header" }
            };
            assert_eq!(decode(&bad), Err(expected));
        }
    }
    for n in 0..file.len() {
        assert!(decode(&file[..n]).is_err());
        assert!(decode_with_password(&file[..n], b"pw").is_err());
    }
}

#[test]
fn a_changed_byte_in_a_frame_stops_the_decoding() {
    let pcm = noise(2 * 300, 5_000, 41);
    let file = encode(&pcm, 2, 16, 245).expect("encode");
    let frames = Decoder::new(&file).expect("parse").frames;
    assert_eq!(frames.len(), 2);
    for fd in &frames {
        let from = fd.file_offset as usize;
        let end = from + fd.disk_size as usize;
        for at in from..end {
            let mut bad = file.clone();
            bad[at] ^= 0x10;
            let result = decode(&bad);
            if at >= end - 4 {
                assert_eq!(result, Err(Error::Crc32Mismatch { region: "frame" }));
            } else {
                assert!(matches!(
                    result,
                    Err(Error::Truncated) | Err(Error::Crc32Mismatch { region: "frame" })
                ));
            }
        }
    }
}

#[test]
fn a_changed_byte_in_the_seek_table_costs_random_access() {
    let pcm = noise(2 * 300, 5_000, 43);
    let file = encode(&pcm, 2, 16, 245).expect("encode");
    let good = Decoder::new(&file).expect("parse");
    for at in 22..34 {
        let mut bad = file.clone();
        bad[at] ^= 0x04;
        let dec = Decoder::new(&bad).expect("parse");
        assert_eq!(dec.header, good.header);
        assert!(!dec.is_seekable());
        for s in [0, 299, 300, u64::MAX] {
            assert_eq!(dec.seek_to_sample(s), Err(Error::SeekTableUnreliable));
            assert_eq!(dec.decode_from_sample(s), Err(Error::SeekTableUnreliable));
        }
        assert_eq!(dec.decode_sample_range(0, 300), Err(Error::SeekTableUnreliable));
        if at >= 30 {
            assert_eq!(dec.frames, good.frames);
            assert_eq!(dec.decode_all(), Ok(pcm.clone()));
            assert_eq!(dec.decode_frame_at(1), good.decode_frame_at(1));
        }
    }
}

#[test]
fn the_timeline_ends_with_the_last_sample() {
    let pcm = noise(12_000, 5_000, 47);
    let file = encode(&pcm, 1, 16, 8_000).expect("encode");
    let dec = Decoder::new(&file).expect("parse");
    let total = dec.total_duration();
    assert_eq!(total, Duration::from_millis(1_500));
    assert_eq!(dec.decode_time_range(Duration::ZERO, total), Ok(pcm.clone()));
    for t in [total, total + Duration::from_nanos(1), Duration::MAX] {
        assert_eq!(dec.seek_to_time(t), Err(Error::SampleIndexOutOfRange));
        assert_eq!(dec.decode_from_time(t), Err(Error::SampleIndexOutOfRange));
        assert!(matches!(
            dec.frame_iter_from_time(t),
            Err(Error::SampleIndexOutOfRange)
        ));
    }
    let last = total - Duration::from_nanos(1);
    assert_eq!(dec.decode_from_time(last), Ok(pcm[11_999..].to_vec()));

    let odd = encode(&pcm[..7], 1, 16, 44_100).expect("encode");
    let dec = Decoder::new(&odd).expect("parse");
    let past = dec.total_duration() + Duration::from_nanos(1);
    assert_eq!(dec.seek_to_time(past), Err(Error::SampleIndexOutOfRange));
}

#[test]
fn long_messages_have_the_same_crc_as_bit_by_bit() {
    let data: Vec<u8> = (0..1500u32).map(|i| (i.wrapping_mul(2_654_435_761) >> 13) as u8).collect();
    for len in [0, 1, 511, 512, 513, 519, 520, 521, 1024, 1499, 1500] {
        assert_eq!(crc32(&data[..len]), bitwise_crc32(&data[..len]), "length {len}");
        assert_eq!(oxideav_tta::crc::crc32(&data[..len]), bitwise_crc32(&data[..len]));
    }
    let mut split = Crc32::default();
    split.update(&data[..700]);
    split.update(&data[700..]);
    assert_eq!(split.finalize(), crc32(&data));
}

#[test]
fn zigzag_loses_only_the_most_negative_residual() {
    for e in [0, 1, -1, 2, -2, 1 << 30, -(1 << 30), i32::MAX, i32::MIN + 1] {
        assert_eq!(dezigzag(zigzag(e)), e);
    }
    assert_eq!(zigzag(i32::MIN), 0);
    assert_eq!(zigzag(i32::MAX), u32::MAX - 2);
    for v in [0, 1, 2, 3, 4, 0x8000_0000, u32::MAX - 2, u32::MAX - 1] {
        assert_eq!(zigzag(dezigzag(v)), v);
    }
    assert_eq!(dezigzag(u32::MAX), 0);
}

#[test]
fn rice_parameters_stay_in_step_and_below_their_ceiling() {
    let mut residuals: Vec<i32> = Vec::new();
    for shift in 0..31 {
        residuals.push(1 << shift);
        residuals.push(-(1 << shift));
    }
    for _ in 0..200 {
        residuals.push(0x3FFF_FFFF);
    }
    let mut w = BitWriter::new();
    let mut enc = RiceState::default();
    let mut states = Vec::new();
    for &e in &residuals {
        rice_encode_one(&mut w, &mut enc, e);
        assert!(enc.k0 <= MAX_K && enc.k1 <= MAX_K);
        states.push(enc);
    }
    let body = w.finish_byte_aligned();
    let mut r = BitReader::new(&body);
    let mut dec = RiceState::frame_init();
    for (i, &e) in residuals.iter().enumerate() {
        assert_eq!(decode_one(&mut r, &mut dec), Ok(e));
        assert_eq!(dec, states[i]);
    }
}

#[test]
fn predictors_undo_each_other() {
    let samples = noise(500, 1 << 20, 7);
    let mut enc = LmsState::frame_init(3);
    let mut dec = LmsState::frame_init(3);
    let mut b_enc = StageBState::frame_init();
    let mut b_dec = StageBState::default();
    for &s in &samples {
        let e = enc.step_encode(s);
        assert_eq!(dec.step(e), s);
        assert_eq!(enc, dec);
        let a = b_enc.step_encode(s);
        assert_eq!(b_dec.step(a), s);
        assert_eq!(b_enc, b_dec);
    }
}

#[test]
fn decorrelation_is_undone_at_the_extremes() {
    let cases: [&[i32]; 5] = [
        &[i32::MAX, i32::MIN],
        &[i32::MIN, i32::MAX, 0],
        &[0, -1, i32::MIN, 1],
        &[-7],
        &[],
    ];
    for pcm in cases {
        let mut v = pcm.to_vec();
        forward(&mut v);
        inverse(&mut v);
        assert_eq!(v, pcm);
        inverse(&mut v);
        forward(&mut v);
        assert_eq!(v, pcm);
    }
}

#[test]
fn samples_of_any_moderate_size_come_back() {
    let edge = 1 << 29;
    let mut pcm = vec![edge, -edge, edge, edge, -edge, -edge, 0, 1];
    pcm.extend(noise(4000, edge, 99));
    for channels in [1u16, 2, 4] {
        let file = encode(&pcm, channels, 24, 44_100).expect("encode");
        assert_eq!(decode(&file).expect("decode").1, pcm);
        let file = encode_with_password(&pcm, channels, 24, 44_100, b"pw").expect("encode");
        assert_eq!(decode_with_password(&file, b"pw").expect("decode").1, pcm);
    }
}

#[test]
fn the_one_sample_without_a_codeword_is_lost() {
    let file = encode(&[i32::MIN], 1, 16, 44_100).expect("encode");
    assert_eq!(decode(&file).expect("decode").1, vec![0]);
    let file = encode(&[i32::MIN + 1], 1, 16, 44_100).expect("encode");
    assert_eq!(decode(&file).expect("decode").1, vec![i32::MIN + 1]);
}

#[test]
fn a_stream_without_samples_is_a_file_of_26_bytes() {
    let file = encode(&[], 2, 16, 44_100).expect("encode");
    assert_eq!(file.len(), 26);
    let (info, pcm) = decode(&file).expect("decode");
    assert_eq!(info.total_samples, 0);
    assert!(pcm.is_empty());
    let dec = Decoder::new(&file).expect("parse");
    assert_eq!(dec.seek_to_sample(0), Err(Error::SampleIndexOutOfRange));
    assert_eq!(dec.decode_sample_range(0, 0), Ok(vec![]));
    assert!(scan_trailers(&file).expect("scan").is_empty());
}

#[test]
fn encoder_arguments_are_checked_in_order() {
    assert_eq!(encode(&[0], 0, 8, 0), Err(Error::UnsupportedChannelCount(0)));
    assert_eq!(encode(&[0], 7, 8, 0), Err(Error::UnsupportedChannelCount(7)));
    assert_eq!(encode(&[0], 2, 8, 0), Err(Error::UnsupportedBitDepth(8)));
    assert_eq!(encode(&[0], 2, 25, 0), Err(Error::UnsupportedBitDepth(25)));
    assert_eq!(encode(&[0], 2, 16, 0), Err(Error::UnsupportedSampleRate(0)));
    assert_eq!(
        encode(&[0], 2, 16, 0x80_0000),
        Err(Error::UnsupportedSampleRate(0x80_0000))
    );
    assert_eq!(encode(&[0], 2, 16, 8_000), Err(Error::InvalidSampleBuffer));
}

#[test]
fn an_empty_password_changes_format_and_crc_alone() {
    let pcm = noise(3_000, 9_000, 5);
    let plain = encode(&pcm, 2, 16, 44_100).expect("encode");
    let primed = encode_with_password(&pcm, 2, 16, 44_100, b"").expect("encode");
    assert_eq!(crc64_ecma182(b""), 0);
    assert_eq!(derive_qm_priming(b""), [0; 8]);
    assert_eq!(plain.len(), primed.len());
    assert_eq!(plain[..4], primed[..4]);
    assert_eq!((plain[4], primed[4]), (1, 2));
    assert_eq!(plain[6..18], primed[6..18]);
    assert_eq!(plain[22..], primed[22..]);
}

#[test]
fn passwords_change_sample_values_and_nothing_else() {
    let pcm = noise(2_000, 9_000, 11);
    let file = encode_with_password(&pcm, 2, 16, 44_100, b"right").expect("encode");
    assert_eq!(decode(&file), Err(Error::PasswordRequired));
    let (info, right) = decode_with_password(&file, b"right").expect("decode");
    let (other, wrong) = decode_with_password(&file, b"wrong").expect("decode");
    assert_eq!(right, pcm);
    assert_ne!(wrong, pcm);
    assert_eq!(wrong.len(), right.len());
    assert_eq!(info, other);

    let plain = encode(&pcm, 2, 16, 44_100).expect("encode");
    assert_eq!(decode_with_password(&plain, b"any"), decode(&plain));
}

#[test]
fn tags_on_either_side_leave_the_samples_alone() {
    let pcm = noise(12_000, 9_000, 17);
    let file = encode(&pcm, 1, 16, 8_000).expect("encode");
    let mut tagged = b"ID3\x04\x00\x10\x00\x00\x00\x03abc".to_vec();
    tagged.extend_from_slice(&[0; 10]);
    let prefix = tagged.len();
    tagged.extend_from_slice(&file);
    let end = tagged.len();
    tagged.extend_from_slice(b"TAG");
    tagged.extend_from_slice(&[b' '; 125]);
    assert_eq!(decode(&tagged).expect("decode").1, pcm);
    let info = scan_trailers(&tagged).expect("scan");
    assert_eq!(info.id3v1, Some((end, 128)));
    assert_eq!(info.combined_byte_range(), Some((end, 128)));
    let dec = Decoder::new(&tagged).expect("parse");
    assert_eq!(dec.frames[0].file_offset as usize, prefix + 22 + 4 * dec.frames.len() + 4);
    assert_eq!(dec.decode_from_sample(9_000).expect("tail"), pcm[9_000..]);
}

#[test]
fn seek_tables_are_structured_as_the_header_says() {
    let pcm = noise(2 * 20_001, 9_000, 23);
    let file = encode(&pcm, 2, 16, 8_000).expect("encode");
    let dec = Decoder::new(&file).expect("parse");
    let regular = dec.header.regular_frame_samples();
    assert_eq!(regular, 8_359);
    assert!(dec.is_seekable());
    let mut offset = (22 + 4 * dec.frames.len() + 4) as u64;
    let mut total = 0u32;
    for (i, fd) in dec.frames.iter().enumerate() {
        assert_eq!(fd.file_offset, offset);
        offset += fd.disk_size as u64;
        total += fd.sample_count;
        assert_eq!(fd.is_last, i + 1 == dec.frames.len());
        assert!(fd.sample_count == regular || fd.is_last);
    }
    assert_eq!(offset as usize, file.len());
    assert_eq!(total, dec.header.total_samples);

    let all = dec.decode_all().expect("all");
    for s in [0u64, 1, 8_358, 8_359, 16_718, 20_000] {
        let p = dec.seek_to_sample(s).expect("seek");
        assert_eq!(p.frame_index as u64 * regular as u64 + p.sample_offset_in_frame as u64, s);
        assert!(p.sample_offset_in_frame < dec.frames[p.frame_index].sample_count);
        assert_eq!(dec.decode_from_sample(s).expect("from"), all[2 * s as usize..]);
        assert_eq!(
            dec.decode_sample_range(s, 20_001).expect("range"),
            all[2 * s as usize..]
        );
    }
    assert_eq!(dec.decode_sample_range(8_000, 9_000).expect("range"), all[16_000..18_000]);
    assert_eq!(dec.decode_sample_range(0, 20_001).expect("range"), all);
}

#[test]
fn packed_samples_unpack_and_planes_pass_through_the_codec() {
    let pcm = [0, 1, -1, 0x7FFF, -0x8000, 0x1234];
    assert_eq!(unpack_width(&pack_pcm(&pcm, 16), false), pcm);
    let wide = [0x7F_FFFF, -0x80_0000, 5, -5];
    assert_eq!(unpack_width(&pack_pcm(&wide, 24), true), wide);
    for bits in 17..=23u16 {
        let top = 1 << (bits - 1);
        let fit = [0, 1, -1, top - 1, -top];
        let scaled: Vec<i32> = fit.iter().map(|s| s << (24 - bits)).collect();
        assert_eq!(unpack_width(&pack_pcm(&fit, bits), true), scaled);
    }
    assert_eq!(pack_pcm(&[1, -1], 20), vec![0x10, 0, 0, 0xF0, 0xFF, 0xFF]);

    let plane: Vec<u8> = (0..6_000u32).map(|i| (i.wrapping_mul(40_503) >> 7) as u8).collect();
    assert_eq!(pack_width(&unpack_width(&plane, true), true), plane);
    for (layout, channels) in [(SampleLayout::S16, 2u16), (SampleLayout::S24, 4)] {
        let mut enc = make_encoder(Some(layout), Some(channels), Some(8_000)).ok().expect("encoder");
        enc.ingest_frame(Some(&plane)).expect("ingest");
        enc.flush().expect("flush");
        let packet = enc.receive_packet().ok().expect("packet");
        let mut dec = make_decoder(Some(layout), Some(channels)).ok().expect("decoder");
        dec.send_packet(packet.data, Some(packet.pts)).expect("send");
        assert_eq!(dec.receive_frame().ok().expect("frame").data, plane);
    }
}

#[test]
fn times_and_samples_convert_within_one_sample() {
    for rate in [1u32, 3, 8_000, 44_100, 0x7F_FFFF] {
        for n in [0u64, 1, 2, 999, 123_456_789] {
            let t = samples_to_duration(n, rate);
            let back = duration_to_sample_index(t, rate);
            assert!(back == n || back + 1 == n);
            let next = samples_to_duration(n + 1, rate);
            let period = 1_000_000_000 / rate as u128;
            let step = (next - t).as_nanos();
            assert!(step == period || step == period + 1);
        }
    }
    assert_eq!(samples_to_duration(22_050, 44_100), Duration::from_millis(500));
    assert_eq!(duration_to_sample_index(Duration::from_millis(500), 44_100), 22_050);
    assert_eq!(duration_to_sample_index(Duration::MAX, u32::MAX), u64::MAX);
}

#[test]
fn recording_a_tape_changes_no_sample() {
    let pcm = noise(600, 9_000, 31);
    let mut file = encode(&pcm, 3, 16, 245).expect("encode");
    let dec = Decoder::new(&file).expect("parse");
    assert!(dec.frames.len() == 1);
    let mut tape = TraceWriter::new();
    assert_eq!(decode_all_traced(&dec, &mut tape), dec.decode_all());
    let lines: Vec<&str> = tape.text().lines().collect();
    assert_eq!(
        lines[0],
        "ev=FILE_HEADER\tmagic_ok=1\tformat=1\tnch=3\tbps=16\tsample_rate=245\tsamples_total=200"
    );
    assert_eq!(lines[2], "ev=SEEK_TABLE_BEGIN\tframe_count=1");
    assert_eq!(
        lines[3],
        format!("ev=SEEK_ENTRY\tframe_idx=0\tbyte_length={}\tcumulative_offset=30", file.len() - 30)
    );
    assert_eq!(lines[4], "ev=SEEK_TABLE_END\tcrc_ok=1");
    assert_eq!(lines[5], "ev=LMS_INIT\tframe_idx=-1\tchannel=0\tshift=9\tround=256");
    assert_eq!(
        lines[6],
        "ev=RICE_K_INIT\tframe_idx=-1\tchannel=0\tk0_init=10\tk1_init=10\tsum0_init=16384\tsum1_init=16384"
    );
    assert_eq!(lines[11], "ev=FRAME_BEGIN\tframe_idx=0\texpected_samples=200");
    assert_eq!(lines.len(), 12 + 200 * (3 * 6 + 3) + 1);
    assert!(lines.last().unwrap().ends_with("\tok=1"));

    let last = file.len() - 1;
    file[last] ^= 1;
    let dec = Decoder::new(&file).expect("parse");
    let mut tape = TraceWriter::new();
    assert_eq!(
        decode_all_traced(&dec, &mut tape),
        Err(Error::Crc32Mismatch { region: "frame" })
    );
    assert!(tape.text().ends_with("\tok=0\n"));
}

#[test]
fn lists_and_signs_on_the_tape() {
    let mut tape = TraceWriter::new();
    tape.ev_decorr_pre(1, 2, &[-3, 0, i32::MIN]);
    tape.ev_pcm_out(0, 0, &[]);
    tape.ev_header_crc(false, 0x00AB_CDEF);
    assert_eq!(
        tape.text(),
        "ev=DECORR_PRE\tframe_idx=1\tsample_idx=2\tnch=3\traw_per_channel=-3,0,-2147483648\n\
         ev=PCM_OUT\tframe_idx=0\tsample_idx=0\tnch=0\tfinal_per_channel=\n\
         ev=HEADER_CRC\tcrc_ok=0\tcomputed_crc=0x00abcdef\n"
    );
}

#[test]
fn errors_explain_themselves() {
    let cases = [
        (Error::Truncated, "oxideav-tta: stream truncated"),
        (Error::InvalidMagic, "oxideav-tta: invalid TTA1 magic"),
        (
            Error::Crc32Mismatch { region: "frame" },
            "oxideav-tta: CRC32 mismatch in frame",
        ),
        (Error::UnsupportedFormat(3), "oxideav-tta: unsupported format ID 3"),
        (
            Error::UnsupportedBitDepth(32),
            "oxideav-tta: unsupported bits_per_sample 32",
        ),
        (
            Error::UnsupportedChannelCount(65_535),
            "oxideav-tta: unsupported channel count 65535",
        ),
        (
            Error::UnsupportedSampleRate(0),
            "oxideav-tta: sample rate 0 exceeds policy ceiling 0x7FFFFF",
        ),
        (
            Error::PasswordRequired,
            "oxideav-tta: format=2 (encrypted) stream requires a password",
        ),
        (
            Error::InvalidSampleBuffer,
            "oxideav-tta: interleaved PCM length is not a multiple of channel count",
        ),
        (Error::FrameIndexOutOfRange, "oxideav-tta: frame index out of range"),
        (
            Error::SampleIndexOutOfRange,
            "oxideav-tta: sample index at or above total_samples",
        ),
        (
            Error::SeekTableUnreliable,
            "oxideav-tta: seek-table CRC32 failed; stream is decodable in linear mode only",
        ),
        (
            Error::InvalidFrameByteLength(3),
            "oxideav-tta: frame disk_size 3 is less than the 4-byte trailing CRC minimum",
        ),
        (
            Error::InvalidFrameSampleCount(0),
            "oxideav-tta: frame sample_count 0 is below the 1-sample-per-frame minimum",
        ),
        (
            Error::InvalidFrameIndex(10),
            "oxideav-tta: seek-point frame_index 10 is outside the 0..frame_count window",
        ),
        (
            Error::InvalidInFrameSampleOffset(46_080),
            "oxideav-tta: seek-point sample_offset_in_frame 46080 is at or above the regular per-frame sample count",
        ),
    ];
    for (e, text) in cases {
        assert_eq!(e.message(), text);
    }
    assert!(Error::InvalidId3v1Range(7, 127)
        .message()
        .starts_with("oxideav-tta: ID3v1 trailer range (start=7, len=127) "));
    assert!(Error::InvalidApeV2Range(7, 31)
        .message()
        .starts_with("oxideav-tta: APEv2 trailer range (start=7, len=31) "));
}

#[test]
fn headers_of_either_format_are_typed() {
    let file = encode_with_password(&[1, 2, 3, 4], 2, 20, 44_100, b"x").expect("encode");
    let dec = Decoder::new_with_password(&file, b"x").expect("parse");
    let t = dec.header.typed().expect("typed");
    assert!(t.requires_password());
    assert_eq!(t.byte_depth(), 3);
    assert_eq!(t.pcm_byte_len(), 12);
    assert_eq!(t.to_header(), dec.header);
    assert_eq!(dec.header.total_duration(), dec.total_duration());

    let mut bad = dec.header;
    bad.format = 3;
    bad.channels = 0;
    assert_eq!(bad.typed(), Err(Error::UnsupportedFormat(3)));
    bad.format = 1;
    assert_eq!(bad.typed(), Err(Error::UnsupportedChannelCount(0)));
    bad.channels = 1;
    bad.bits_per_sample = 25;
    bad.sample_rate = 0;
    assert_eq!(bad.typed(), Err(Error::UnsupportedBitDepth(25)));
    bad.bits_per_sample = 24;
    assert_eq!(bad.typed(), Err(Error::UnsupportedSampleRate(0)));

    let g = bad.frame_geometry_typed();
    assert_eq!((g.frame_count(), g.last_frame_samples()), (0, 0));
    assert!(!g.is_exact_multiple());
    assert_eq!(g.frame_samples_at(0), None);
    assert_eq!(g.seek_table_size_bytes(), 4);
}
