//! Random access agrees with decoding from start to end.

use crate::decoder::{parse_stream, time_index, trimmed, SeekPoint, StreamModel};
use crate::encoder::{frame_entry, frame_samples, lemma_frame_fits};
use crate::error::Error;
use crate::frame::{initial_channels, lemma_instants_len};
use crate::header::{byte_width, regular_samples};
use crate::time::{duration_nanos, nanos_of};
use crate::time::{law_sample_time_round_trip, law_time_to_sample_monotone};
use vstd::prelude::*;

verus! {

/// Whether the frames are cut the way the header says.
pub open spec fn well_cut(m: StreamModel) -> bool {
    &&& m.frames.len() == m.header.geometry().0
    &&& forall|i: int|
        0 <= i < m.frames.len() ==> (#[trigger] m.frames[i]).sample_count == frame_samples(
            m.header,
            i,
        )
}

/// The seek table of every parsed stream is well cut: only the last frame
/// may be short, and the frames' sample counts add up to the stream's.
pub proof fn law_parsed_streams_are_well_cut(bytes: Seq<u8>, password: Option<Seq<u8>>)
    ensures
        match parse_stream(bytes, password) {
            Ok(m) => {
                &&& well_cut(m)
                &&& m.header.in_scope()
                &&& m.wf()
                &&& m.bytes == bytes
                &&& m.frames.len() > 0 ==> (m.frames.len() - 1) * regular_samples(
                    m.header.sample_rate,
                ) + m.frames.last().sample_count == m.header.total_samples
                &&& m.frames.len() == 0 ==> m.header.total_samples == 0
            },
            Err(_) => true,
        },
{
    match parse_stream(bytes, password) {
        Ok(m) => {
            let h = m.header;
            assert(m.wf());
            assert(regular_samples(h.sample_rate) >= 1);
            if h.total_samples > 0 {
                crate::encoder::lemma_geometry_sum(
                    h.total_samples,
                    regular_samples(h.sample_rate),
                );
            }
        },
        Err(_) => {},
    }
}

/// A decoded frame has as many samples as its descriptor says.
pub proof fn law_frame_length(m: StreamModel, i: int)
    ensures
        match m.frame(i) {
            Ok(pcm) => pcm.len() == m.frames[i].sample_count * m.header.channels,
            Err(_) => true,
        },
{
    let fd = m.frames[i];
    let end = fd.file_offset + fd.disk_size;
    if end <= m.bytes.len() && fd.disk_size >= 4 {
        let bytes = m.bytes.subrange(fd.file_offset as int, end);
        let body = bytes.take(fd.disk_size - 4);
        lemma_instants_len(
            crate::bits::stream_bits(body),
            initial_channels(
                m.header.channels as nat,
                byte_width(m.header.bits_per_sample),
                m.prime,
            ),
            fd.sample_count as int,
        );
    }
}

/// Decoding from frame `i` on gives the tail of the whole stream: walking the
/// frames one by one, from any frame, agrees with decoding everything.
pub proof fn law_run_is_suffix(m: StreamModel, i: int)
    requires
        well_cut(m),
        0 <= i < m.frames.len(),
        m.all() is Ok,
    ensures
        m.all()->Ok_0.len() == m.header.total_samples * m.header.channels,
        0 <= frame_entry(m.header, i) <= m.all()->Ok_0.len(),
        m.run_from(i) == Ok::<Seq<i32>, Error>(m.all()->Ok_0.skip(frame_entry(m.header, i))),
{
    lemma_run_len(m, 0);
    assert(frame_entry(m.header, 0) == 0) by (nonlinear_arith);
    lemma_frame_fits(m.header, i);
    lemma_run_suffix(m, i);
}

/// A run that decodes has the length the header leaves for it.
proof fn lemma_run_len(m: StreamModel, i: int)
    requires
        well_cut(m),
        0 <= i < m.frames.len(),
        m.run_from(i) is Ok,
    ensures
        m.run_from(i)->Ok_0.len() == m.header.total_samples * m.header.channels - frame_entry(
            m.header,
            i,
        ),
    decreases m.frames.len() - i,
{
    law_frame_length(m, i);
    lemma_frame_fits(m.header, i);
    if i + 1 < m.frames.len() {
        lemma_run_len(m, i + 1);
    } else {
        assert(m.run_from(i + 1) == Ok::<Seq<i32>, Error>(Seq::empty()));
    }
}

proof fn lemma_run_suffix(m: StreamModel, i: int)
    requires
        well_cut(m),
        0 <= i < m.frames.len(),
        m.run_from(0) is Ok,
    ensures
        m.run_from(i) == Ok::<Seq<i32>, Error>(m.run_from(0)->Ok_0.skip(frame_entry(m.header, i))),
    decreases i,
{
    let all = m.run_from(0)->Ok_0;
    if i == 0 {
        assert(frame_entry(m.header, 0) == 0) by (nonlinear_arith);
        assert(all.skip(0) =~= all);
    } else {
        lemma_run_suffix(m, i - 1);
        law_frame_length(m, i - 1);
        lemma_frame_fits(m.header, i - 1);
        lemma_run_len(m, 0);
        assert(frame_entry(m.header, 0) == 0) by (nonlinear_arith);
        let p = m.frame(i - 1)->Ok_0;
        let q = m.run_from(i)->Ok_0;
        let e = frame_entry(m.header, i - 1);
        assert(all.skip(e) == p + q);
        assert(q =~= (p + q).skip(p.len() as int));
        assert(all.skip(e).skip(p.len() as int) =~= all.skip(e + p.len()));
    }
}

/// Decoding one frame by its index gives that frame's slice of the whole
/// stream.
pub proof fn law_frame_is_slice(m: StreamModel, i: int)
    requires
        well_cut(m),
        0 <= i < m.frames.len(),
        m.all() is Ok,
    ensures
        0 <= frame_entry(m.header, i),
        frame_entry(m.header, i) + frame_samples(m.header, i) * m.header.channels
            <= m.all()->Ok_0.len(),
        m.frame(i) == Ok::<Seq<i32>, Error>(
            m.all()->Ok_0.subrange(
                frame_entry(m.header, i),
                frame_entry(m.header, i) + frame_samples(m.header, i) * m.header.channels,
            ),
        ),
{
    law_run_is_suffix(m, i);
    law_frame_length(m, i);
    lemma_frame_fits(m.header, i);
    let all = m.all()->Ok_0;
    let e = frame_entry(m.header, i);
    let p = m.frame(i)->Ok_0;
    let q = m.run_from(i + 1)->Ok_0;
    assert(all.skip(e) == p + q);
    assert(p =~= (p + q).take(p.len() as int));
    assert(all.skip(e).take(p.len() as int) =~= all.subrange(e, e + p.len()));
}

/// A seek lands on the frame that holds the sample, at the right offset
/// inside it.
pub proof fn law_seek_finds_sample(m: StreamModel, sample: nat)
    requires
        well_cut(m),
        m.seekable,
        regular_samples(m.header.sample_rate) > 0,
        sample < m.header.total_samples,
        m.frames.len() <= usize::MAX,
    ensures
        match m.seek(sample) {
            Ok(p) => {
                &&& p.frame_index < m.frames.len()
                &&& p.sample_offset_in_frame < m.frames[p.frame_index as int].sample_count
                &&& p.sample_offset_in_frame < regular_samples(m.header.sample_rate)
                &&& p.frame_index * regular_samples(m.header.sample_rate)
                    + p.sample_offset_in_frame == sample
                &&& frame_entry(m.header, p.frame_index as int) + p.sample_offset_in_frame
                    * m.header.channels == sample * m.header.channels
            },
            Err(_) => false,
        },
{
    let total = m.header.total_samples as int;
    let regular = regular_samples(m.header.sample_rate) as int;
    let nch = m.header.channels as int;
    let n = m.frames.len() as int;
    let q = sample as int / regular;
    let r = sample as int % regular;
    crate::encoder::lemma_geometry_sum(
        m.header.total_samples,
        regular_samples(m.header.sample_rate),
    );
    let last = m.header.geometry().1 as int;
    assert((n - 1) * regular + last == total);
    vstd::arithmetic::div_mod::lemma_fundamental_div_mod(sample as int, regular);
    assert(regular * q == q * regular) by (nonlinear_arith);
    assert(q < n) by (nonlinear_arith)
        requires
            q * regular + r == sample,
            0 <= r,
            sample < total,
            (n - 1) * regular + last == total,
            last <= regular,
            regular > 0,
    ;
    assert(q >= 0) by (nonlinear_arith)
        requires
            q == sample as int / regular,
            sample >= 0,
            regular > 0,
    ;
    if q == n - 1 {
        assert(r < last) by (nonlinear_arith)
            requires
                q * regular + r == sample,
                sample < total,
                (n - 1) * regular + last == total,
                q == n - 1,
        ;
    }
    assert(frame_entry(m.header, q) == (q * regular) * nch);
    assert((q * regular) * nch + r * nch == sample * nch) by (nonlinear_arith)
        requires
            q * regular + r == sample,
    ;
}

/// Decoding from a sample on gives exactly the tail of the whole stream that
/// starts at that sample.
pub proof fn law_from_sample_is_suffix(m: StreamModel, sample: nat)
    requires
        well_cut(m),
        m.seekable,
        regular_samples(m.header.sample_rate) > 0,
        sample < m.header.total_samples,
        m.frames.len() <= usize::MAX,
        m.all() is Ok,
    ensures
        sample * m.header.channels <= m.all()->Ok_0.len(),
        m.from_sample(sample) == Ok::<Seq<i32>, Error>(
            m.all()->Ok_0.skip(sample * m.header.channels),
        ),
{
    law_seek_finds_sample(m, sample);
    let p = m.seek(sample)->Ok_0;
    let i = p.frame_index as int;
    let nch = m.header.channels as int;
    let skip = p.sample_offset_in_frame * nch;
    law_run_is_suffix(m, i);
    law_frame_length(m, i);
    let all = m.all()->Ok_0;
    let e = frame_entry(m.header, i);
    let first = m.frame(i)->Ok_0;
    let rest = m.run_from(i + 1)->Ok_0;
    assert(0 <= skip <= first.len()) by (nonlinear_arith)
        requires
            skip == p.sample_offset_in_frame * nch,
            first.len() == m.frames[i].sample_count * nch,
            p.sample_offset_in_frame < m.frames[i].sample_count,
            nch >= 0,
    ;
    lemma_frame_fits(m.header, i);
    assert(all.skip(e) == first + rest);
    assert(trimmed(first, skip, first.len() as int) =~= first.skip(skip));
    assert(first.skip(skip) + rest =~= (first + rest).skip(skip));
    assert(all.skip(e).skip(skip) =~= all.skip(e + skip));
}

/// A range stops reading at its limit; where the whole tail decodes, it is
/// that tail cut to length.
proof fn lemma_range_is_cut(m: StreamModel, i: int, skip: int, limit: int)
    requires
        0 <= i,
        0 <= skip,
        0 <= limit,
        m.skip_from(i, skip) is Ok,
        limit <= m.skip_from(i, skip)->Ok_0.len(),
    ensures
        m.range_from(i, skip, limit) == Ok::<Seq<i32>, Error>(
            m.skip_from(i, skip)->Ok_0.take(limit),
        ),
    decreases m.frames.len() - i,
{
    let whole = m.skip_from(i, skip)->Ok_0;
    if limit == 0 || i >= m.frames.len() {
        assert(whole.take(limit) =~= Seq::<i32>::empty());
    } else {
        let p = m.frame(i)->Ok_0;
        let head = trimmed(p, skip, p.len() as int);
        let t = trimmed(p, skip, limit);
        let rest = m.run_from(i + 1)->Ok_0;
        assert(whole == head + rest);
        assert(m.skip_from(i + 1, 0) == m.run_from(i + 1)) by {
            if i + 1 < m.frames.len() {
                match m.frame(i + 1) {
                    Ok(next) => {
                        assert(trimmed(next, 0, next.len() as int) =~= next);
                    },
                    Err(_) => {},
                }
            }
        }
        if limit <= head.len() {
            assert(t =~= head.take(limit));
            lemma_range_is_cut(m, i + 1, 0, 0);
            assert(m.range_from(i + 1, 0, limit - t.len()) == Ok::<Seq<i32>, Error>(Seq::empty()));
            assert(t + Seq::<i32>::empty() =~= whole.take(limit));
        } else {
            assert(t =~= head);
            lemma_range_is_cut(m, i + 1, 0, limit - head.len());
            assert(head + rest.take(limit - head.len()) =~= whole.take(limit));
        }
    }
}

/// Decoding a range gives exactly its slice of the whole stream.
pub proof fn law_range_is_slice(m: StreamModel, start: nat, end: nat)
    requires
        well_cut(m),
        m.seekable,
        regular_samples(m.header.sample_rate) > 0,
        start <= end <= m.header.total_samples,
        m.frames.len() <= usize::MAX,
        m.all() is Ok,
    ensures
        start * m.header.channels <= end * m.header.channels <= m.all()->Ok_0.len(),
        m.range(start, end) == Ok::<Seq<i32>, Error>(
            m.all()->Ok_0.subrange(start * m.header.channels, end * m.header.channels),
        ),
{
    let all = m.all()->Ok_0;
    let nch = m.header.channels as int;
    let total = m.header.total_samples as int;
    lemma_all_len(m);
    assert(start * nch <= end * nch && end * nch <= total * nch && (end - start) * nch == end * nch
        - start * nch) by (nonlinear_arith)
        requires
            start <= end <= total,
            nch >= 0,
    ;
    if start == end {
        assert(all.subrange(start * nch, end * nch) =~= Seq::<i32>::empty());
    } else {
        law_seek_finds_sample(m, start);
        law_from_sample_is_suffix(m, start);
        let p = m.seek(start)->Ok_0;
        let i = p.frame_index as int;
        let skip = p.sample_offset_in_frame * nch;
        let limit = (end - start) * nch;
        assert(0 <= skip) by (nonlinear_arith)
            requires
                skip == p.sample_offset_in_frame * nch,
                nch >= 0,
        ;
        lemma_range_is_cut(m, i, skip, limit);
        assert(all.skip(start * nch).take(limit) =~= all.subrange(start * nch, end * nch));
    }
}

proof fn lemma_all_len(m: StreamModel)
    requires
        well_cut(m),
        regular_samples(m.header.sample_rate) > 0,
        m.all() is Ok,
    ensures
        m.all()->Ok_0.len() == m.header.total_samples * m.header.channels,
{
    if m.frames.len() > 0 {
        law_run_is_suffix(m, 0);
    } else {
        if m.header.total_samples > 0 {
            crate::header::lemma_frames_exist(
                m.header.total_samples,
                regular_samples(m.header.sample_rate),
            );
        }
        assert(0 * m.header.channels == 0) by (nonlinear_arith);
    }
}

/// The full range is the whole stream, and a range running to the end is
/// what decoding from its first sample gives.
pub proof fn law_full_and_open_ranges(m: StreamModel, start: nat)
    requires
        well_cut(m),
        m.seekable,
        regular_samples(m.header.sample_rate) > 0,
        start < m.header.total_samples,
        m.frames.len() <= usize::MAX,
        m.all() is Ok,
    ensures
        m.range(0, m.header.total_samples as nat) == m.all(),
        m.range(start, m.header.total_samples as nat) == m.from_sample(start),
{
    let total = m.header.total_samples as nat;
    let all = m.all()->Ok_0;
    lemma_all_len(m);
    law_range_is_slice(m, 0, total);
    law_range_is_slice(m, start, total);
    law_from_sample_is_suffix(m, start);
    assert(0 * m.header.channels == 0) by (nonlinear_arith);
    assert(all.subrange(0, all.len() as int) =~= all);
    assert(all.subrange(start * m.header.channels, all.len() as int) =~= all.skip(
        start * m.header.channels,
    ));
}

/// An empty range inside the stream holds nothing, whether or not the stream
/// can be entered at a sample.
pub proof fn law_empty_range(m: StreamModel, at: nat)
    requires
        at <= m.header.total_samples,
    ensures
        m.range(at, at) == Ok::<Seq<i32>, Error>(Seq::empty()),
{
}

/// A stream whose seek table is damaged refuses every entry at a sample, and
/// decodes from start to end as if the table were intact.
pub proof fn law_damaged_seek_table(m: StreamModel, start: nat, end: nat)
    requires
        !m.seekable,
    ensures
        m.seek(start) == Err::<SeekPoint, Error>(Error::SeekTableUnreliable),
        m.from_sample(start) == Err::<Seq<i32>, Error>(Error::SeekTableUnreliable),
        start < end <= m.header.total_samples ==> m.range(start, end) == Err::<Seq<i32>, Error>(
            Error::SeekTableUnreliable,
        ),
        m.all() == (StreamModel { seekable: true, ..m }).all(),
{
    lemma_run_ignores_seekable(m, 0);
}

proof fn lemma_run_ignores_seekable(m: StreamModel, i: int)
    ensures
        m.run_from(i) == (StreamModel { seekable: true, ..m }).run_from(i),
    decreases m.frames.len() - i,
{
    if i < m.frames.len() {
        lemma_run_ignores_seekable(m, i + 1);
    }
}

/// Seeking to the time at which a sample starts lands on that sample, or on
/// the one before it where the start was rounded down.
pub proof fn law_seek_to_start_of_sample(time: core::time::Duration, n: u64, sample_rate: u32)
    requires
        0 < sample_rate <= 1_000_000_000,
        duration_nanos(time) == nanos_of(n as nat, sample_rate),
    ensures
        n - 1 <= time_index(time, sample_rate) <= n,
{
    law_sample_time_round_trip(n as nat, sample_rate);
}

/// Times in order select sample ranges in order: a range between two times
/// is never inverted.
pub proof fn law_time_ranges_are_ordered(
    start: core::time::Duration,
    end: core::time::Duration,
    sample_rate: u32,
)
    requires
        duration_nanos(start) <= duration_nanos(end),
    ensures
        time_index(start, sample_rate) <= time_index(end, sample_rate),
{
    law_time_to_sample_monotone(duration_nanos(start), duration_nanos(end), sample_rate);
}

/// A time past the stream's playing time, or equal to it where it is a whole
/// number of nanoseconds, is past the last sample: every entry at such a time
/// is refused.
pub proof fn law_times_past_the_end_are_refused(m: StreamModel, time: core::time::Duration)
    requires
        m.seekable,
        m.header.sample_rate > 0,
        duration_nanos(time) > nanos_of(m.header.total_samples as nat, m.header.sample_rate) || (
        duration_nanos(time) == nanos_of(m.header.total_samples as nat, m.header.sample_rate)
            && (m.header.total_samples * 1_000_000_000) % m.header.sample_rate as int == 0),
    ensures
        time_index(time, m.header.sample_rate) >= m.header.total_samples,
        m.seek(time_index(time, m.header.sample_rate)) == Err::<SeekPoint, Error>(
            Error::SampleIndexOutOfRange,
        ),
        m.from_sample(time_index(time, m.header.sample_rate)) == Err::<Seq<i32>, Error>(
            Error::SampleIndexOutOfRange,
        ),
{
    lemma_end_of_timeline(
        duration_nanos(time) as int,
        m.header.total_samples as int,
        m.header.sample_rate as int,
    );
}

/// Where the playing time is a whole number of nanoseconds, the range from
/// the start to it is the whole stream.
pub proof fn law_full_time_range(
    m: StreamModel,
    start: core::time::Duration,
    end: core::time::Duration,
)
    requires
        well_cut(m),
        m.seekable,
        regular_samples(m.header.sample_rate) > 0,
        m.frames.len() <= usize::MAX,
        m.all() is Ok,
        duration_nanos(start) == 0,
        duration_nanos(end) == nanos_of(m.header.total_samples as nat, m.header.sample_rate),
        (m.header.total_samples * 1_000_000_000) % m.header.sample_rate as int == 0,
    ensures
        time_index(start, m.header.sample_rate) == 0,
        time_index(end, m.header.sample_rate) == m.header.total_samples,
        m.range(
            time_index(start, m.header.sample_rate),
            time_index(end, m.header.sample_rate),
        ) == m.all(),
{
    let total = m.header.total_samples as nat;
    let all = m.all()->Ok_0;
    assert(m.header.sample_rate > 0);
    lemma_end_of_timeline(
        duration_nanos(end) as int,
        total as int,
        m.header.sample_rate as int,
    );
    assert(0 * m.header.sample_rate as int == 0) by (nonlinear_arith);
    lemma_all_len(m);
    law_range_is_slice(m, 0, total);
    assert(0 * m.header.channels == 0) by (nonlinear_arith);
    assert(all.subrange(0, all.len() as int) =~= all);
}

/// The sample playing `t` nanoseconds in, at and past the end.
proof fn lemma_end_of_timeline(t: int, total: int, rate: int)
    requires
        0 <= total,
        0 < rate,
    ensures
        t > total * 1_000_000_000 / rate ==> t * rate / 1_000_000_000 >= total,
        t == total * 1_000_000_000 / rate && (total * 1_000_000_000) % rate == 0 ==> t * rate
            / 1_000_000_000 == total,
{
    let k = 1_000_000_000int;
    let p = total * k;
    let q = p / rate;
    vstd::arithmetic::div_mod::lemma_fundamental_div_mod(p, rate);
    assert(0 <= p % rate < rate);
    if t > q {
        assert(t * rate >= p) by (nonlinear_arith)
            requires
                t >= q + 1,
                p == rate * q + p % rate,
                p % rate < rate,
                rate > 0,
        ;
        vstd::arithmetic::div_mod::lemma_div_is_ordered(p, t * rate, k);
        vstd::arithmetic::div_mod::lemma_div_multiples_vanish(total, k);
    }
    if t == q && p % rate == 0 {
        assert(t * rate == p) by (nonlinear_arith)
            requires
                t == q,
                p == rate * q,
        ;
        vstd::arithmetic::div_mod::lemma_div_multiples_vanish(total, k);
    }
}

} // verus!
