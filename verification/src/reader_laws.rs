//! What reading a stream comes to: which part of a file is taken for what,
//! which requests are refused and how, and where a seek lands.

use crate::access_laws::law_frame_length;
use crate::channel::prime_or_zero;
use crate::crc32::crc32_spec;
use crate::decoder::{decodable, frame_result};
use crate::decoder::{parse_stream, parsed_header_crc, same_pcm, time_index, trimmed, StreamModel};
use crate::encoder::{frame_entry, frame_samples};
use crate::error::Error;
use crate::frame::decode_block;
use crate::header::{byte_width, id3v2_skip, parse_header, regular_samples, seek_crc_ok, seek_frames};
use crate::header::{law_frames_cover_stream, FrameDescriptor, StreamHeader};
use crate::layout::{file_of, sizes_fit};
use crate::password::priming_spec;
use crate::stream_laws::law_scan_starts_after_file;
use crate::time::{duration_nanos, sample_at};
use crate::trailers::{law_id3v1_is_found, trailers};
use crate::{decode_spec, end_of_stream};
use vstd::prelude::*;

verus! {

/// A file is read as a tag to skip, a header of 22 bytes, a seek table of
/// four bytes for each frame and four more, and then the frames. The first
/// thing wrong with it, in that order, is the error; a primed stream without
/// a password is refused once its header has been read. A password primes
/// primed streams alone.
pub proof fn law_stream_is_tag_header_table(bytes: Seq<u8>, password: Option<Seq<u8>>)
    requires
        bytes.len() <= u64::MAX,
    ensures
        match id3v2_skip(bytes) {
            Err(e) => parse_stream(bytes, password) == Err::<StreamModel, Error>(e),
            Ok(skip) => match parse_header(bytes.skip(skip)) {
                Err(e) => parse_stream(bytes, password) == Err::<StreamModel, Error>(e),
                Ok(h) => {
                    let n = h.geometry().0 as int;
                    let start = skip + 22 + 4 * n + 4;
                    match parse_stream(bytes, password) {
                        Err(e) => if h.format == 2 && password is None {
                            e == Error::PasswordRequired
                        } else {
                            bytes.len() < start && e == Error::Truncated
                        },
                        Ok(m) => {
                            let table = bytes.skip(skip).skip(22);
                            &&& h.format != 2 || password is Some
                            &&& start <= bytes.len()
                            &&& m.header == h
                            &&& m.bytes == bytes
                            &&& m.frames == seek_frames(table, h, start as u64)
                            &&& m.seekable == seek_crc_ok(table, h)
                            &&& m.prime == if h.format == 2 {
                                priming_spec(password->0)
                            } else {
                                seq![0i32, 0i32, 0i32, 0i32, 0i32, 0i32, 0i32, 0i32]
                            }
                        },
                    }
                },
            },
        },
{
    assert(crate::lms::zero_taps() =~= seq![0i32, 0i32, 0i32, 0i32, 0i32, 0i32, 0i32, 0i32]);
    match id3v2_skip(bytes) {
        Ok(skip) => {
            assert(0 <= skip <= bytes.len());
            crate::header::law_parse_header_reads_fields(bytes.skip(skip));
        },
        Err(_) => {},
    }
}

/// A frame is decoded from its own window of the file, with the stream's
/// weights, and is cut short where that window runs past the end.
pub proof fn law_frame_is_its_window(m: StreamModel, i: int)
    requires
        0 <= i < m.frames.len(),
    ensures
        ({
            let from = m.frames[i].file_offset as int;
            let to = from + m.frames[i].disk_size;
            if to > m.bytes.len() {
                m.frame(i) == Err::<Seq<i32>, Error>(Error::Truncated)
            } else {
                m.frame(i) == decode_block(
                    m.bytes.subrange(from, to),
                    to - from,
                    m.header.channels as nat,
                    byte_width(m.header.bits_per_sample),
                    m.prime,
                    m.frames[i].sample_count as nat,
                )
            }
        }),
{
}

/// A run of frames is the first of them followed by the run behind it; the
/// first frame that fails decides.
pub proof fn law_run_is_frames_in_order(m: StreamModel, i: int)
    requires
        0 <= i <= m.frames.len(),
    ensures
        i == m.frames.len() ==> m.run_from(i) == Ok::<Seq<i32>, Error>(Seq::empty()),
        i < m.frames.len() ==> match (m.frame(i), m.run_from(i + 1)) {
            (Err(e), _) => m.run_from(i) == Err::<Seq<i32>, Error>(e),
            (Ok(_), Err(e)) => m.run_from(i) == Err::<Seq<i32>, Error>(e),
            (Ok(p), Ok(q)) => m.run_from(i) == Ok::<Seq<i32>, Error>(p + q),
        },
        m.all() == m.run_from(0),
{
}

/// Decoding a file gives the header it was parsed with and all of its frames'
/// samples, or the error of whichever failed.
pub proof fn law_decoding_is_parsing_and_running(bytes: Seq<u8>, password: Option<Seq<u8>>)
    ensures
        match parse_stream(bytes, password) {
            Err(e) => decode_spec(bytes, password) == Err::<(StreamHeader, Seq<i32>), Error>(e),
            Ok(m) => match m.run_from(0) {
                Err(e) => decode_spec(bytes, password) == Err::<(StreamHeader, Seq<i32>), Error>(e),
                Ok(pcm) => decode_spec(bytes, password) == Ok::<(StreamHeader, Seq<i32>), Error>(
                    (m.header, pcm),
                ),
            },
        },
{
    reveal(decode_spec);
}

/// A seek is refused where the seek table cannot be trusted, and then where
/// there is no such sample; every other seek succeeds, and its frame and
/// offset add up to the sample.
pub proof fn law_seek_adds_up(m: StreamModel, sample: nat)
    requires
        m.frames.len() == m.header.geometry().0,
        regular_samples(m.header.sample_rate) > 0,
        m.frames.len() <= usize::MAX,
    ensures
        ({
            let regular = regular_samples(m.header.sample_rate) as int;
            match m.seek(sample) {
                Err(e) => if !m.seekable {
                    e == Error::SeekTableUnreliable
                } else {
                    sample >= m.header.total_samples && e == Error::SampleIndexOutOfRange
                },
                Ok(p) => {
                    &&& m.seekable
                    &&& sample < m.header.total_samples
                    &&& p.frame_index < m.frames.len()
                    &&& p.sample_offset_in_frame < regular
                    &&& p.frame_index * regular + p.sample_offset_in_frame == sample
                },
            }
        }),
{
    let regular = regular_samples(m.header.sample_rate) as int;
    let total = m.header.total_samples as int;
    if m.seekable && sample < total {
        law_frames_cover_stream(m.header);
        let (count, last) = m.header.geometry();
        let q = sample as int / regular;
        let r = sample as int % regular;
        vstd::arithmetic::div_mod::lemma_fundamental_div_mod(sample as int, regular);
        vstd::arithmetic::mul::lemma_mul_is_commutative(regular, q);
        assert(0 <= q < count) by (nonlinear_arith)
            requires
                q * regular + r == sample,
                0 <= r < regular,
                0 <= sample < total,
                (count - 1) * regular + last == total,
                last <= regular,
                regular > 0,
        ;
    }
}

/// A range is refused where it is turned round or runs past the end, whatever
/// the seek table is like. An empty range is granted anywhere else, and any
/// other is granted where the seek to its start is.
pub proof fn law_range_refusals(m: StreamModel, start: nat, end: nat)
    ensures
        start > end || end > m.header.total_samples ==> m.range(start, end) == Err::<
            Seq<i32>,
            Error,
        >(Error::SampleIndexOutOfRange),
        start == end && end <= m.header.total_samples ==> m.range(start, end) == Ok::<
            Seq<i32>,
            Error,
        >(Seq::empty()),
        start < end <= m.header.total_samples && !m.seekable ==> m.range(start, end) == Err::<
            Seq<i32>,
            Error,
        >(Error::SeekTableUnreliable),
        !m.seekable ==> m.from_sample(start) == Err::<Seq<i32>, Error>(Error::SeekTableUnreliable),
        m.seekable && start >= m.header.total_samples ==> m.from_sample(start) == Err::<
            Seq<i32>,
            Error,
        >(Error::SampleIndexOutOfRange),
{
}

/// A clock time stands for the sample playing then, held at the 64-bit limit.
pub proof fn law_time_index_is_held(time: core::time::Duration, sample_rate: u32)
    ensures
        ({
            let n = sample_at(duration_nanos(time), sample_rate);
            &&& n <= u64::MAX ==> time_index(time, sample_rate) == n
            &&& n > u64::MAX ==> time_index(time, sample_rate) == u64::MAX
        }),
{
}

/// Tags are looked for behind the last frame, or behind the seek table where
/// there are no frames.
pub proof fn law_stream_ends_with_last_frame(bytes: Seq<u8>, password: Option<Seq<u8>>)
    ensures
        match (id3v2_skip(bytes), parse_stream(bytes, password)) {
            (Ok(skip), Ok(m)) => {
                &&& m.frames.len() == 0 ==> end_of_stream(bytes, m) == skip + 26
                &&& m.frames.len() > 0 ==> ({
                    let last = m.frames[m.frames.len() - 1];
                    &&& last.file_offset + last.disk_size <= u64::MAX ==> end_of_stream(bytes, m)
                        == last.file_offset + last.disk_size
                    &&& last.file_offset + last.disk_size > u64::MAX ==> end_of_stream(bytes, m)
                        == u64::MAX
                })
            },
            _ => true,
        },
{
}

/// Reading on from a sample decodes the frame it is in, drops what comes
/// before it there, and goes on with the frames behind; no earlier frame is
/// looked at.
pub proof fn law_from_sample_starts_in_its_frame(m: StreamModel, sample: nat, i: int)
    requires
        m.seekable,
        m.frames.len() == m.header.geometry().0,
        m.frames.len() <= usize::MAX,
        sample < m.header.total_samples,
        ({
            let regular = regular_samples(m.header.sample_rate) as int;
            i * regular <= sample < i * regular + regular
        }),
        0 <= i < m.frames.len(),
        m.frames[i].sample_count > sample - i * regular_samples(m.header.sample_rate),
    ensures
        ({
            let from = (sample - i * regular_samples(m.header.sample_rate)) * m.header.channels;
            match (m.frame(i), m.run_from(i + 1)) {
                (Err(e), _) => m.from_sample(sample) == Err::<Seq<i32>, Error>(e),
                (Ok(_), Err(e)) => m.from_sample(sample) == Err::<Seq<i32>, Error>(e),
                (Ok(p), Ok(q)) => {
                    &&& 0 <= from <= p.len()
                    &&& m.from_sample(sample) == Ok::<Seq<i32>, Error>(p.skip(from) + q)
                },
            }
        }),
{
    let regular = regular_samples(m.header.sample_rate) as int;
    let ch = m.header.channels as int;
    lemma_seek_point(m, sample, i);
    let r = sample - i * regular;
    let count = m.frames[i].sample_count as int;
    assert(0 <= r * ch <= count * ch) by (nonlinear_arith)
        requires
            0 <= r < count,
            ch >= 0,
    ;
    law_frame_length(m, i);
    match m.frame(i) {
        Ok(p) => {
            let from = r * ch;
            let t = trimmed(p, from, p.len() as int);
            assert(t =~= p.skip(from));
        },
        Err(_) => {},
    }
}

/// A range is read frame by frame: within one frame it is a slice of that
/// frame, and otherwise it is the rest of the first frame followed by the
/// range from the next frame on. No frame outside the range is looked at, and
/// the first one inside it that fails decides.
#[verifier::rlimit(60)]
pub proof fn law_range_goes_frame_by_frame(m: StreamModel, start: nat, end: nat, i: int)
    requires
        m.seekable,
        m.frames.len() == m.header.geometry().0,
        m.frames.len() <= usize::MAX,
        m.header.channels > 0,
        start < end <= m.header.total_samples,
        ({
            let regular = regular_samples(m.header.sample_rate) as int;
            &&& i * regular <= start < i * regular + regular
            &&& m.frames[i].sample_count == if i == m.frames.len() - 1 {
                m.header.geometry().1 as int
            } else {
                regular
            }
        }),
        0 <= i < m.frames.len(),
    ensures
        ({
            let regular = regular_samples(m.header.sample_rate) as int;
            let next = i * regular + regular;
            let ch = m.header.channels as int;
            let from = (start - i * regular) * ch;
            let to = (end - i * regular) * ch;
            match m.frame(i) {
                Err(e) => m.range(start, end) == Err::<Seq<i32>, Error>(e),
                Ok(p) => if end <= next {
                    &&& 0 <= from <= to <= p.len()
                    &&& m.range(start, end) == Ok::<Seq<i32>, Error>(p.subrange(from, to))
                } else {
                    match m.range(next as nat, end) {
                        Err(e) => m.range(start, end) == Err::<Seq<i32>, Error>(e),
                        Ok(q) => {
                            &&& 0 <= from <= p.len()
                            &&& m.range(start, end) == Ok::<Seq<i32>, Error>(p.skip(from) + q)
                        },
                    }
                },
            }
        }),
{
    let regular = regular_samples(m.header.sample_rate) as int;
    let next = i * regular + regular;
    let ch = m.header.channels as int;
    let from = (start - i * regular) * ch;
    let to = (end - i * regular) * ch;
    let limit = (end - start) * ch;
    let count = m.frames[i].sample_count as int;
    let total = m.header.total_samples as int;
    lemma_seek_point(m, start, i);
    law_frames_cover_stream(m.header);
    let n = m.frames.len() as int;
    let last = m.header.geometry().1 as int;
    law_frame_length(m, i);
    assert(limit > 0 && to == from + limit && 0 <= from) by (nonlinear_arith)
        requires
            from == (start - i * regular) * ch,
            to == (end - i * regular) * ch,
            limit == (end - start) * ch,
            i * regular <= start < end,
            ch > 0,
    ;
    assert(i == n - 1 ==> i * regular + count == total);
    assert(m.range(start, end) == m.range_from(i, from, limit));
    if end <= next {
        assert(to <= count * ch) by (nonlinear_arith)
            requires
                to == (end - i * regular) * ch,
                end - i * regular <= count,
                ch > 0,
        ;
        match m.frame(i) {
            Ok(p) => {
                let t = trimmed(p, from, limit);
                assert(t =~= p.subrange(from, to));
                assert(t.len() == limit);
                assert(m.range_from(i + 1, 0, limit - t.len()) == Ok::<Seq<i32>, Error>(
                    Seq::empty(),
                ));
                assert(t + Seq::<i32>::empty() =~= t);
            },
            Err(_) => {},
        }
    } else {
        assert(i < n - 1) by (nonlinear_arith)
            requires
                i * regular + regular < total,
                (n - 1) * regular + last == total,
                last <= regular,
                0 <= i < n,
                regular > 0,
        ;
        assert((i + 1) * regular == next) by (nonlinear_arith)
            requires
                next == i * regular + regular,
        ;
        assert(0 <= next) by (nonlinear_arith)
            requires
                next == i * regular + regular,
                0 <= i,
                0 <= regular,
        ;
        lemma_seek_point(m, next as nat, i + 1);
        assert(0 * ch == 0) by (nonlinear_arith);
        assert(count * ch - from == (next - start) * ch && limit - (count * ch - from) == (end
            - next) * ch && from <= count * ch && count * ch - from <= limit) by (nonlinear_arith)
            requires
                count == regular,
                from == (start - i * regular) * ch,
                limit == (end - start) * ch,
                next == i * regular + regular,
                start < next < end,
                ch > 0,
        ;
        match m.frame(i) {
            Ok(p) => {
                let t = trimmed(p, from, limit);
                assert(t =~= p.skip(from));
                assert(m.range(next as nat, end) == m.range_from(i + 1, 0, (end - next) * ch));
            },
            Err(_) => {},
        }
    }
}

proof fn lemma_seek_point(m: StreamModel, sample: nat, i: int)
    requires
        m.seekable,
        m.frames.len() <= usize::MAX,
        sample < m.header.total_samples,
        ({
            let regular = regular_samples(m.header.sample_rate) as int;
            i * regular <= sample < i * regular + regular
        }),
        0 <= i < m.frames.len(),
    ensures
        match m.seek(sample) {
            Ok(p) => p.frame_index == i && p.sample_offset_in_frame == sample - i
                * regular_samples(m.header.sample_rate),
            Err(_) => false,
        },
{
    let regular = regular_samples(m.header.sample_rate) as int;
    vstd::arithmetic::div_mod::lemma_fundamental_div_mod_converse(
        sample as int,
        regular,
        i,
        sample - i * regular,
    );
}

/// A decoding result agrees with its description only where it is that very
/// result: the same samples, or the same error.
pub proof fn law_same_pcm_is_equality(
    r: core::result::Result<Vec<i32>, Error>,
    described: core::result::Result<Seq<i32>, Error>,
)
    ensures
        same_pcm(r, described) <==> match (r, described) {
            (Ok(pcm), Ok(d)) => pcm@ == d,
            (Err(e), Err(f)) => e == f,
            _ => false,
        },
{
}

/// Cutting a frame drops that many entries in front, all of them where it has
/// no more, and keeps at most that many of the others.
pub proof fn law_trimmed_is_slice(p: Seq<i32>, skip: int, limit: int)
    requires
        0 <= skip,
        0 <= limit,
    ensures
        skip >= p.len() ==> trimmed(p, skip, limit) == Seq::<i32>::empty(),
        skip <= p.len() && skip + limit >= p.len() ==> trimmed(p, skip, limit) == p.skip(skip),
        skip + limit <= p.len() ==> trimmed(p, skip, limit) == p.subrange(skip, skip + limit),
{
}

/// A range is refused by the same rules whether it is decoded at once or
/// walked.
pub proof fn law_range_error_is_range_refusal(m: StreamModel, start: nat, end: nat)
    ensures
        start > end || end > m.header.total_samples ==> m.range_error(start, end) == Some(
            Error::SampleIndexOutOfRange,
        ),
        start == end && end <= m.header.total_samples ==> m.range_error(start, end) is None,
        start < end <= m.header.total_samples ==> match m.seek(start) {
            Ok(_) => m.range_error(start, end) is None,
            Err(e) => m.range_error(start, end) == Some(e),
        },
{
}

/// Without a given set of weights a frame starts from eight zeros.
pub proof fn law_prime_defaults_to_zero(prime: [i32; 8])
    ensures
        prime_or_zero(Some(prime)) == prime@,
        prime_or_zero(None) == seq![0i32, 0i32, 0i32, 0i32, 0i32, 0i32, 0i32, 0i32],
{
    assert(crate::lms::zero_taps() =~= seq![0i32, 0i32, 0i32, 0i32, 0i32, 0i32, 0i32, 0i32]);
}

/// The CRC recorded of a header is that of its first 18 bytes behind any tag.
pub proof fn law_header_crc_is_of_18_bytes(bytes: Seq<u8>)
    ensures
        match id3v2_skip(bytes) {
            Ok(skip) => parsed_header_crc(bytes) == Some(crc32_spec(bytes.skip(skip).take(18))),
            Err(_) => parsed_header_crc(bytes) is None,
        },
{
}

/// Every ID3v1 tag behind a file is found there: the file's length is where
/// it starts.
pub proof fn law_tag_behind_file_is_found(h: StreamHeader, blocks: Seq<Seq<u8>>, content: Seq<u8>)
    requires
        h.in_scope(),
        blocks.len() == h.geometry().0,
        sizes_fit(h, blocks),
        content.len() == 125,
        file_of(h, blocks).len() + 128 <= usize::MAX,
    ensures
        ({
            let file = file_of(h, blocks);
            let all = file + seq![0x54u8, 0x41u8, 0x47u8] + content;
            match parse_stream(all, Some(Seq::empty())) {
                Ok(m) => trailers(all, end_of_stream(all, m)).id3v1 == Some(
                    (file.len() as usize, 128usize),
                ),
                Err(_) => false,
            }
        }),
{
    let file = file_of(h, blocks);
    let tag = seq![0x54u8, 0x41u8, 0x47u8] + content;
    let all = file + seq![0x54u8, 0x41u8, 0x47u8] + content;
    assert(file + tag =~= all);
    law_scan_starts_after_file(h, blocks, tag);
    law_id3v1_is_found(file, content, file.len() as int);
}

/// A block decodes under a header by its channels and byte width, and a
/// descriptor by its size and sample count.
pub proof fn law_frame_result_is_block(
    h: StreamHeader,
    fd: FrameDescriptor,
    bytes: Seq<u8>,
    prime: Seq<i32>,
)
    ensures
        frame_result(h, fd, bytes, prime) == decode_block(
            bytes,
            fd.disk_size as int,
            h.channels as nat,
            byte_width(h.bits_per_sample),
            prime,
            fd.sample_count as nat,
        ),
        decodable(h) <==> h.channels == 0 || 1 <= h.bits_per_sample <= 24,
{
}

/// Frame `i` starts `i` regular frames into the stream, counted in samples of
/// all channels, and is regular unless it is the last.
pub proof fn law_frame_places(h: StreamHeader, i: int)
    ensures
        frame_entry(h, i) == i * regular_samples(h.sample_rate) * h.channels,
        i == h.geometry().0 - 1 ==> frame_samples(h, i) == h.geometry().1,
        i != h.geometry().0 - 1 ==> frame_samples(h, i) == regular_samples(h.sample_rate),
{
}

} // verus!
