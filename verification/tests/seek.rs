//! Demuxing and seeking, one self-contained packet per frame.

use oxideav_tta::encode;
use oxideav_tta::registry::{make_decoder, open_demuxer, CallError, ErrorClass, TtaDemuxer};

struct Fixture {
    bytes: Vec<u8>,
    pcm: Vec<i32>,
    channels: u16,
    sample_rate: u32,
    regular_samples: u32,
    frame_count: u32,
}

fn make_multi_frame_fixture() -> Fixture {
    let sample_rate: u32 = 8_000;
    let channels: u16 = 2;
    let bps: u16 = 16;
    let regular_samples = ((sample_rate as u64) * 256 / 245) as u32;
    let full_frames = 4u32;
    let tail_samples = 1_000u32;
    let total_samples = regular_samples * full_frames + tail_samples;
    let nch = channels as usize;

    let mut pcm = vec![0i32; total_samples as usize * nch];
    for s in 0..(total_samples as usize) {
        for ch in 0..nch {
            let base = (s as i32).wrapping_mul(7) % 4096 - 2048;
            let phase = (ch as i32) * 311;
            pcm[s * nch + ch] = base.wrapping_add(phase);
        }
    }

    let bytes = encode(&pcm, channels, bps, sample_rate).expect("encode should succeed");
    Fixture {
        bytes,
        pcm,
        channels,
        sample_rate,
        regular_samples,
        frame_count: full_frames + 1,
    }
}

fn open(bytes: &[u8]) -> TtaDemuxer {
    match open_demuxer(bytes.to_vec()) {
        Ok(d) => d,
        Err(e) => panic!("open_demuxer: {e:?}"),
    }
}

fn decode_packet_to_pcm(fixture: &Fixture, data: &[u8]) -> Vec<i32> {
    let demuxer = open(&fixture.bytes);
    let mut dec = match make_decoder(Some(demuxer.layout), Some(demuxer.header.channels)) {
        Ok(d) => d,
        Err(e) => panic!("make_decoder: {e:?}"),
    };
    dec.send_packet(data.to_vec(), None).expect("send_packet");
    let block = match dec.receive_frame() {
        Ok(b) => b,
        Err(e) => panic!("receive_frame: {e:?}"),
    };
    let bytes = &block.data;
    assert_eq!(bytes.len() % 2, 0);
    let nch = fixture.channels as usize;
    let nsamples = bytes.len() / (2 * nch);
    assert_eq!(block.samples as usize, nsamples);
    let mut out = vec![0i32; nsamples * nch];
    for i in 0..(nsamples * nch) {
        let lo = bytes[2 * i] as i32;
        let hi = bytes[2 * i + 1] as i8 as i32;
        out[i] = (hi << 8) | lo;
    }
    out
}

#[test]
fn seek_to_zero_resets_to_first_frame() {
    let fix = make_multi_frame_fixture();
    let mut demuxer = open(&fix.bytes);
    let p0 = demuxer.next_packet().ok().expect("first packet");
    assert_eq!(p0.pts, 0);
    let p1 = demuxer.next_packet().ok().expect("second packet");
    assert_eq!(p1.pts, fix.regular_samples as i64);
    let landed = demuxer.seek_to(0, 0).expect("seek_to(0)");
    assert_eq!(landed, 0);
    let p0_again = demuxer.next_packet().ok().expect("post-seek next");
    assert_eq!(p0_again.pts, 0);
    assert_eq!(p0_again.data, p0.data);
}

#[test]
fn seek_at_frame_boundary_lands_exact() {
    let fix = make_multi_frame_fixture();
    let target = 2i64 * fix.regular_samples as i64;
    let mut demuxer = open(&fix.bytes);
    let landed = demuxer.seek_to(0, target).expect("seek_to(frame2_start)");
    assert_eq!(landed, target);
    let pkt = demuxer.next_packet().ok().expect("post-seek next_packet");
    assert_eq!(pkt.pts, target);
    assert_eq!(pkt.duration, fix.regular_samples as i64);
}

#[test]
fn seek_mid_frame_lands_at_containing_frame_start() {
    let fix = make_multi_frame_fixture();
    let frame_idx = 3i64;
    let frame_start = frame_idx * fix.regular_samples as i64;
    let mid = frame_start + (fix.regular_samples as i64) / 2;
    let mut demuxer = open(&fix.bytes);
    let landed = demuxer.seek_to(0, mid).expect("seek_to(mid-of-frame3)");
    assert_eq!(
        landed, frame_start,
        "seek_to MUST snap to the containing frame's first sample"
    );
    let pkt = demuxer.next_packet().ok().expect("post-seek next_packet");
    assert_eq!(pkt.pts, frame_start);
}

#[test]
fn seek_past_end_clamps_to_last_frame() {
    let fix = make_multi_frame_fixture();
    let huge = (fix.frame_count as i64 + 100) * fix.regular_samples as i64;
    let mut demuxer = open(&fix.bytes);
    let landed = demuxer.seek_to(0, huge).expect("seek_to past-end");
    let last_frame_pts = ((fix.frame_count - 1) as i64) * fix.regular_samples as i64;
    assert_eq!(landed, last_frame_pts);
    let pkt = demuxer.next_packet().ok().expect("post-seek last frame");
    assert_eq!(pkt.pts, last_frame_pts);
    assert!(
        matches!(demuxer.next_packet(), Err(CallError::Eof)),
        "expected Eof after clamped past-end seek"
    );
}

#[test]
fn seek_pts_matches_decoder_output_after_seek() {
    let fix = make_multi_frame_fixture();
    let target_frame = 2u32;
    let target_pts = (target_frame as i64) * (fix.regular_samples as i64);
    let mut demuxer = open(&fix.bytes);
    let landed = demuxer.seek_to(0, target_pts).expect("seek_to");
    assert_eq!(landed, target_pts);
    let pkt = demuxer.next_packet().ok().expect("post-seek packet");
    let decoded = decode_packet_to_pcm(&fix, &pkt.data);
    let nch = fix.channels as usize;
    let start = (target_frame as usize) * (fix.regular_samples as usize) * nch;
    let end = start + (fix.regular_samples as usize) * nch;
    let expected = &fix.pcm[start..end];
    assert_eq!(
        decoded.len(),
        expected.len(),
        "decoded sample count must match expected slice length"
    );
    for (i, (g, e)) in decoded.iter().zip(expected.iter()).enumerate() {
        assert_eq!(
            g, e,
            "post-seek PCM mismatch at i={i} (target_frame={target_frame}, target_pts={target_pts})"
        );
    }

    let huge = (fix.frame_count as i64) * fix.regular_samples as i64;
    let mut demuxer2 = open(&fix.bytes);
    let _ = demuxer2.seek_to(0, huge).expect("seek past end");
    let pkt_last = demuxer2.next_packet().ok().expect("last-frame packet");
    let decoded_last = decode_packet_to_pcm(&fix, &pkt_last.data);
    let tail_per_channel =
        fix.pcm.len() / nch - (fix.frame_count as usize - 1) * fix.regular_samples as usize;
    assert_eq!(decoded_last.len(), tail_per_channel * nch);
    let tail_start = (fix.frame_count as usize - 1) * fix.regular_samples as usize * nch;
    assert_eq!(decoded_last, fix.pcm[tail_start..]);

    assert_eq!(demuxer2.header.sample_rate, fix.sample_rate);
}

#[test]
fn malformed_seek_table_oversize_disk_size_is_rejected_not_panic() {
    let samples = vec![0i32; 100_000];
    let mut bytes = encode(&samples, 1, 16, 44_100).expect("encode should succeed");
    let st_off = 22;
    bytes[st_off..st_off + 4].copy_from_slice(&0xFFFF_FFF0u32.to_le_bytes());

    match open_demuxer(bytes) {
        Err(e) => {
            assert_eq!(e, CallError::FrameOutsideFile(0));
            assert_eq!(e.class(), ErrorClass::Invalid);
        }
        Ok(_) => panic!("oversize seek-table disk_size must be rejected at open time"),
    }
}

#[test]
fn malformed_seek_table_last_frame_one_byte_overrun_is_rejected() {
    let samples = vec![0i32; 100_000];
    let mut bytes = encode(&samples, 1, 16, 44_100).expect("encode should succeed");
    let st_off = 22 + 8;
    let orig = u32::from_le_bytes(bytes[st_off..st_off + 4].try_into().unwrap());
    let inflated = orig.saturating_add(1).max(orig + 1);
    let big = inflated.saturating_add(1_000);
    bytes[st_off..st_off + 4].copy_from_slice(&big.to_le_bytes());

    match open_demuxer(bytes) {
        Err(e) => {
            assert_eq!(e, CallError::FrameOutsideFile(2));
            assert_eq!(e.class(), ErrorClass::Invalid);
        }
        Ok(_) => panic!("last-frame overrun must be rejected at open time"),
    }
}

#[test]
fn an_overrun_by_exactly_one_byte_is_rejected() {
    let samples = vec![7i32; 100_000];
    let mut bytes = encode(&samples, 1, 16, 44_100).expect("encode");
    assert!(open_demuxer(bytes.clone()).is_ok());
    bytes.pop();
    assert!(matches!(
        open_demuxer(bytes),
        Err(CallError::FrameOutsideFile(2))
    ));
}

#[test]
fn seeks_outside_the_stream_are_refused() {
    let fix = make_multi_frame_fixture();
    let mut demuxer = open(&fix.bytes);
    assert_eq!(demuxer.seek_to(1, 0), Err(CallError::NoSuchStream(1)));
    assert_eq!(demuxer.seek_to(0, -5), Ok(0));

    let empty = encode(&[], 1, 16, 44_100).expect("encode");
    let mut none = open(&empty);
    assert_eq!(none.seek_to(0, 0), Err(CallError::NothingToSeek));
    assert!(matches!(none.next_packet(), Err(CallError::Eof)));
    assert_eq!(none.duration_micros(), 0);
}

#[test]
fn packets_cover_the_stream_in_order() {
    let fix = make_multi_frame_fixture();
    let mut demuxer = open(&fix.bytes);
    let micros = (fix.pcm.len() / 2) as i64 * 1_000_000 / 8_000;
    assert_eq!(demuxer.duration_micros(), micros);
    let mut all = Vec::new();
    let mut pts = 0i64;
    while let Ok(p) = demuxer.next_packet() {
        assert_eq!(p.pts, pts);
        pts += p.duration;
        all.extend_from_slice(&decode_packet_to_pcm(&fix, &p.data));
    }
    assert_eq!(all, fix.pcm);
}
