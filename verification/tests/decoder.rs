//! Time conversion and validated seek positions.

use core::time::Duration;
use oxideav_tta::decoder::{FrameIndex, InFrameSampleOffset, SeekPoint};
use oxideav_tta::time::{duration_to_sample_index, samples_to_duration};
use oxideav_tta::Error;

#[test]
fn duration_zero_maps_to_sample_zero() {
    assert_eq!(duration_to_sample_index(Duration::ZERO, 44_100), 0);
}

#[test]
fn one_second_at_44100_hz_is_44100_samples() {
    assert_eq!(
        duration_to_sample_index(Duration::from_secs(1), 44_100),
        44_100
    );
}

#[test]
fn duration_truncates_to_nearest_sample_boundary_below() {
    let half_period = Duration::from_nanos(1_000_000_000 / 44_100 / 2);
    assert_eq!(duration_to_sample_index(half_period, 44_100), 0);

    let one_and_half =
        Duration::from_nanos((1_000_000_000u64 / 44_100) + (1_000_000_000u64 / 44_100 / 2));
    assert_eq!(duration_to_sample_index(one_and_half, 44_100), 1);
}

#[test]
fn duration_is_monotone_nondecreasing() {
    let mut prev = 0u64;
    for ms in 0..200u64 {
        let cur = duration_to_sample_index(Duration::from_millis(ms), 48_000);
        assert!(cur >= prev, "monotonicity at {ms} ms: {cur} < {prev}");
        prev = cur;
    }
}

#[test]
fn sample_rate_zero_yields_zero() {
    assert_eq!(duration_to_sample_index(Duration::from_secs(10), 0), 0);
}

#[test]
fn samples_to_duration_round_trip_within_one_sample_period() {
    for rate in [44_100u32, 48_000, 96_000, 0x7FFFFF] {
        for n in [0u64, 1, 2, rate as u64, (rate as u64) * 5 + 17] {
            let d = samples_to_duration(n, rate);
            let back = duration_to_sample_index(d, rate);
            assert!(
                back == n || back + 1 == n,
                "round-trip out-of-range at rate={rate} n={n}: dur={d:?} back={back}"
            );
            let plus_one_ns = d + core::time::Duration::from_nanos(1);
            let back_plus = duration_to_sample_index(plus_one_ns, rate);
            assert!(
                back_plus >= back,
                "+1ns must be monotone at rate={rate} n={n}"
            );
        }
    }
}

#[test]
fn samples_to_duration_unit_period_matches_nanos() {
    let one_sample = samples_to_duration(1, 44_100);
    let expected_ns = 1_000_000_000u128 / 44_100u128;
    assert_eq!(one_sample.as_nanos(), expected_ns);
}

#[test]
fn samples_to_duration_sample_rate_zero_is_zero() {
    assert_eq!(samples_to_duration(123, 0), Duration::ZERO);
}

#[test]
fn frame_index_typed_boundary() {
    assert_eq!(FrameIndex::from_raw(0, 0), Err(Error::InvalidFrameIndex(0)));
    assert_eq!(
        FrameIndex::from_raw(usize::MAX, 0),
        Err(Error::InvalidFrameIndex(usize::MAX))
    );

    let fi = FrameIndex::from_raw(0, 1).unwrap();
    assert_eq!(fi.index(), 0);
    assert!(fi.is_last(1));
    assert_eq!(FrameIndex::from_raw(1, 1), Err(Error::InvalidFrameIndex(1)));

    for i in 0..3 {
        let fi = FrameIndex::from_raw(i, 3).unwrap();
        assert_eq!(fi.index(), i);
        assert_eq!(fi.is_last(3), i == 2);
    }
    assert_eq!(FrameIndex::from_raw(3, 3), Err(Error::InvalidFrameIndex(3)));

    assert_eq!(
        FrameIndex::from_raw(usize::MAX, 1_000_000),
        Err(Error::InvalidFrameIndex(usize::MAX))
    );
}

#[test]
fn in_frame_sample_offset_typed_boundary() {
    assert_eq!(
        InFrameSampleOffset::from_raw(0, 0),
        Err(Error::InvalidInFrameSampleOffset(0))
    );

    let zero = InFrameSampleOffset::from_raw(0, 46_080).unwrap();
    assert_eq!(zero.offset(), 0);
    assert!(zero.is_frame_boundary());
    let mid = InFrameSampleOffset::from_raw(23_039, 46_080).unwrap();
    assert_eq!(mid.offset(), 23_039);
    assert!(!mid.is_frame_boundary());
    let last_in = InFrameSampleOffset::from_raw(46_079, 46_080).unwrap();
    assert_eq!(last_in.offset(), 46_079);
    assert!(!last_in.is_frame_boundary());
    assert_eq!(
        InFrameSampleOffset::from_raw(46_080, 46_080),
        Err(Error::InvalidInFrameSampleOffset(46_080))
    );
    assert_eq!(
        InFrameSampleOffset::from_raw(u32::MAX, 46_080),
        Err(Error::InvalidInFrameSampleOffset(u32::MAX))
    );
}

#[test]
fn in_frame_sample_offset_interleaved_skip() {
    let off = InFrameSampleOffset::from_raw(100, 46_080).unwrap();
    assert_eq!(off.interleaved_skip(1), 100);
    assert_eq!(off.interleaved_skip(2), 200);
    assert_eq!(off.interleaved_skip(6), 600);
    assert_eq!(off.interleaved_skip(0), 0);

    let zero = InFrameSampleOffset::from_raw(0, 46_080).unwrap();
    assert_eq!(zero.interleaved_skip(6), 0);

    let near_max = InFrameSampleOffset::from_raw(46_079, 46_080).unwrap();
    let skip = near_max.interleaved_skip(6);
    assert_eq!(skip, 46_079 * 6);
}

#[test]
fn seek_point_typed_accessors_match_raw() {
    let sp = SeekPoint {
        frame_index: 1,
        sample_offset_in_frame: 12_345,
    };
    let fi = sp.frame_index_typed(3).unwrap();
    assert_eq!(fi.index(), 1);
    assert!(!fi.is_last(3));
    let off = sp.sample_offset_typed(46_080).unwrap();
    assert_eq!(off.offset(), 12_345);
    assert!(!off.is_frame_boundary());

    let bad_fi = SeekPoint {
        frame_index: 5,
        sample_offset_in_frame: 0,
    };
    assert_eq!(
        bad_fi.frame_index_typed(3),
        Err(Error::InvalidFrameIndex(5))
    );

    let bad_off = SeekPoint {
        frame_index: 0,
        sample_offset_in_frame: 46_080,
    };
    assert_eq!(
        bad_off.sample_offset_typed(46_080),
        Err(Error::InvalidInFrameSampleOffset(46_080))
    );
}

#[test]
fn seek_point_frame_boundary_zero_offset() {
    let sp = SeekPoint {
        frame_index: 2,
        sample_offset_in_frame: 0,
    };
    let off = sp.sample_offset_typed(46_080).unwrap();
    assert!(off.is_frame_boundary());
    assert_eq!(off.interleaved_skip(2), 0);
}
