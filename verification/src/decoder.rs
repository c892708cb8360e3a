//! Decoder: a complete TTA1 file in, interleaved samples out, eagerly, frame
//! by frame, or from any sample on.

use crate::bitreader::BitReader;
use crate::bits::stream_bits;
use crate::bytes::read_le32;
use crate::channel::{channel_views, init_channels, prime_or_zero, ChannelState};
use crate::crc32::{crc32, crc32_spec};
use crate::decorr::inverse;
use crate::error::{Error, Result};
use crate::frame::{decode_block, decode_instant, decode_instants, initial_channels};
use crate::header::{byte_width, id3v2_skip, parse_header, regular_samples, seek_crc_ok};
use crate::header::{parse_seek_table, parse_stream_header_with_crc, skip_id3v2_prefix};
use crate::header::{seek_frames, seek_table_len, FrameDescriptor, StreamHeader, HEADER_LEN};
use crate::password::{derive_qm_priming, priming_spec};
use crate::time::{duration_nanos, duration_to_sample_index, nanos_of, sample_at};
use crate::time::samples_to_duration;
use vstd::prelude::*;
use vstd::slice::slice_subrange;

verus! {

/// Whether the decoder has a predictor for this header: any stream with a
/// channel needs a sample width of one to three bytes.
pub open spec fn decodable(h: StreamHeader) -> bool {
    h.channels > 0 ==> 1 <= h.bits_per_sample <= 24
}

/// What decoding one frame block gives.
pub open spec fn frame_result(
    h: StreamHeader,
    fd: FrameDescriptor,
    frame_bytes: Seq<u8>,
    prime: Seq<i32>,
) -> core::result::Result<Seq<i32>, Error> {
    decode_block(
        frame_bytes,
        fd.disk_size as int,
        h.channels as nat,
        byte_width(h.bits_per_sample),
        prime,
        fd.sample_count as nat,
    )
}

/// Whether an executable result is the one described.
pub open spec fn same_pcm(
    r: Result<Vec<i32>>,
    described: core::result::Result<Seq<i32>, Error>,
) -> bool {
    match r {
        Ok(pcm) => described == Ok::<Seq<i32>, Error>(pcm@),
        Err(e) => described == Err::<Seq<i32>, Error>(e),
    }
}

/// Decode a single frame of an unprimed stream from its block (body and
/// trailing CRC) into interleaved samples.
pub fn decode_frame(
    header: &StreamHeader,
    descriptor: &FrameDescriptor,
    frame_bytes: &[u8],
) -> (r: Result<Vec<i32>>)
    requires
        decodable(*header),
    ensures
        same_pcm(
            r,
            frame_result(*header, *descriptor, frame_bytes@, crate::lms::zero_taps()),
        ),
{
    decode_frame_inner(header, descriptor, frame_bytes, None)
}

fn decode_frame_inner(
    header: &StreamHeader,
    descriptor: &FrameDescriptor,
    frame_bytes: &[u8],
    qm_priming: Option<[i32; 8]>,
) -> (r: Result<Vec<i32>>)
    requires
        decodable(*header),
    ensures
        same_pcm(
            r,
            frame_result(*header, *descriptor, frame_bytes@, prime_or_zero(qm_priming)),
        ),
{
    let disk: usize = descriptor.disk_size as usize;
    if frame_bytes.len() < disk || disk < 4 {
        return Err(Error::Truncated);
    }
    let body_len: usize = disk - 4;
    let body = slice_subrange(frame_bytes, 0, body_len);
    let stored_crc: u32 = read_le32(frame_bytes, body_len);
    let nch: usize = header.channels as usize;
    let bytes_per_sample: usize = header.bytes_per_sample();
    let mut reader = BitReader::new(body);
    let mut chans: Vec<ChannelState> = init_channels(nch, bytes_per_sample, qm_priming);
    let ghost start = channel_views(chans@);
    let ghost bits = stream_bits(body@);
    assert(start == initial_channels(
        nch as nat,
        bytes_per_sample as int,
        prime_or_zero(qm_priming),
    ));
    assert(body@ =~= frame_bytes@.take(body_len as int));
    let mut out: Vec<i32> = Vec::new();
    let mut scratch: Vec<i32> = Vec::new();
    let mut s: u32 = 0;
    while s < descriptor.sample_count
        invariant
            s <= descriptor.sample_count,
            reader.wf(),
            start.len() == nch,
            chans@.len() == nch,
            forall|i: int| 0 <= i < nch ==> (#[trigger] chans@[i])@.wf(),
            decode_instants(bits, start, s as int) == Some(
                (out@, channel_views(chans@), reader@),
            ),
            bits == stream_bits(body@),
            start == initial_channels(
                nch as nat,
                bytes_per_sample as int,
                prime_or_zero(qm_priming),
            ),
            body@ == frame_bytes@.take(body_len as int),
            body_len == descriptor.disk_size - 4,
            disk == descriptor.disk_size,
            disk <= frame_bytes@.len(),
            nch == header.channels,
            bytes_per_sample == byte_width(header.bits_per_sample),
        decreases descriptor.sample_count - s,
    {
        let ghost pcm0 = out@;
        let ok = decode_tuple(&mut reader, &mut chans, &mut scratch);
        if !ok {
            proof {
                lemma_instants_stop(bits, start, s + 1, descriptor.sample_count as int);
            }
            return Err(Error::Truncated);
        }
        inverse(scratch.as_mut_slice());
        out.extend_from_slice(scratch.as_slice());
        assert(out@ =~= pcm0 + scratch@);
        s = s + 1;
    }
    if crc32(body) != stored_crc {
        return Err(Error::Crc32Mismatch { region: "frame" });
    }
    Ok(out)
}

/// Once the bits have run out they stay run out.
proof fn lemma_instants_stop(
    bits: Seq<bool>,
    chans: Seq<crate::channel::ChannelModel>,
    n: int,
    m: int,
)
    requires
        n <= m,
        decode_instants(bits, chans, n) is None,
    ensures
        decode_instants(bits, chans, m) is None,
    decreases m - n,
{
    if n < m {
        lemma_instants_stop(bits, chans, n, m - 1);
    }
}

/// Once the bits have run out within an instant they stay run out.
proof fn lemma_instant_stop(
    bits: Seq<bool>,
    chans: Seq<crate::channel::ChannelModel>,
    n: int,
    m: int,
)
    requires
        n <= m,
        decode_instant(bits, chans, n) is None,
    ensures
        decode_instant(bits, chans, m) is None,
    decreases m - n,
{
    if n < m {
        lemma_instant_stop(bits, chans, n, m - 1);
    }
}

/// Decode the values of one instant, channel by channel, into `scratch`.
/// `false` where the bits run out.
fn decode_tuple(
    reader: &mut BitReader<'_>,
    chans: &mut Vec<ChannelState>,
    scratch: &mut Vec<i32>,
) -> (ok: bool)
    requires
        old(reader).wf(),
        forall|i: int| 0 <= i < old(chans)@.len() ==> (#[trigger] old(chans)@[i])@.wf(),
    ensures
        final(reader).wf(),
        final(chans)@.len() == old(chans)@.len(),
        forall|i: int| 0 <= i < final(chans)@.len() ==> (#[trigger] final(chans)@[i])@.wf(),
        ok ==> decode_instant(
            old(reader)@,
            channel_views(old(chans)@),
            old(chans)@.len() as int,
        ) == Some((final(scratch)@, channel_views(final(chans)@), final(reader)@)),
        !ok ==> decode_instant(
            old(reader)@,
            channel_views(old(chans)@),
            old(chans)@.len() as int,
        ) is None,
{
    let ghost bits = reader@;
    let ghost start = channel_views(chans@);
    scratch.clear();
    let mut ch: usize = 0;
    while ch < chans.len()
        invariant
            ch <= chans@.len(),
            bits == old(reader)@,
            start == channel_views(old(chans)@),
            reader.wf(),
            start.len() == chans@.len(),
            forall|i: int| 0 <= i < chans@.len() ==> (#[trigger] chans@[i])@.wf(),
            decode_instant(bits, start, ch as int) == Some(
                (scratch@, channel_views(chans@), reader@),
            ),
        decreases chans@.len() - ch,
    {
        let ghost mid = channel_views(chans@);
        match chans[ch].decode(reader) {
            Ok(v) => {
                scratch.push(v);
                assert(channel_views(chans@) =~= mid.update(ch as int, chans@[ch as int]@));
            },
            Err(_) => {
                proof {
                    assert(decode_instant(bits, start, ch + 1) is None);
                    lemma_instant_stop(bits, start, ch + 1, start.len() as int);
                }
                return false;
            },
        }
        ch = ch + 1;
    }
    true
}

/// A parsed stream as mathematics.
pub struct StreamModel {
    pub header: StreamHeader,
    pub frames: Seq<FrameDescriptor>,
    pub seekable: bool,
    pub bytes: Seq<u8>,
    pub prime: Seq<i32>,
}

/// `p` in front of what `r` holds.
pub open spec fn prepend(
    p: Seq<i32>,
    r: core::result::Result<Seq<i32>, Error>,
) -> core::result::Result<Seq<i32>, Error> {
    match r {
        Ok(q) => Ok(p + q),
        Err(e) => Err(e),
    }
}

/// `p` without its first `skip` entries, cut off after `limit` more.
pub open spec fn trimmed(p: Seq<i32>, skip: int, limit: int) -> Seq<i32> {
    let head = if skip < p.len() {
        p.skip(skip)
    } else {
        Seq::empty()
    };
    if limit < head.len() {
        head.take(limit)
    } else {
        head
    }
}

impl StreamModel {
    /// Whether the stream has a predictor.
    pub open spec fn wf(self) -> bool {
        decodable(self.header)
    }

    /// What decoding frame `i` gives.
    pub open spec fn frame(self, i: int) -> core::result::Result<Seq<i32>, Error> {
        let fd = self.frames[i];
        let end = fd.file_offset + fd.disk_size;
        if end > self.bytes.len() {
            Err(Error::Truncated)
        } else {
            frame_result(
                self.header,
                fd,
                self.bytes.subrange(fd.file_offset as int, end),
                self.prime,
            )
        }
    }

    /// All samples from frame `i` on, or the first error on the way.
    pub open spec fn run_from(self, i: int) -> core::result::Result<Seq<i32>, Error>
        decreases self.frames.len() - i,
    {
        if i >= self.frames.len() {
            Ok(Seq::empty())
        } else {
            match self.frame(i) {
                Ok(p) => prepend(p, self.run_from(i + 1)),
                Err(e) => Err(e),
            }
        }
    }

    /// All samples from frame `i` on without that frame's first `skip`
    /// entries, or the first error on the way.
    pub open spec fn skip_from(self, i: int, skip: int) -> core::result::Result<Seq<i32>, Error> {
        if i >= self.frames.len() {
            Ok(Seq::empty())
        } else {
            match self.frame(i) {
                Ok(p) => prepend(trimmed(p, skip, p.len() as int), self.run_from(i + 1)),
                Err(e) => Err(e),
            }
        }
    }

    /// The first `limit` entries of `skip_from`; frames past the limit are
    /// not looked at.
    pub open spec fn range_from(
        self,
        i: int,
        skip: int,
        limit: int,
    ) -> core::result::Result<Seq<i32>, Error>
        decreases self.frames.len() - i,
    {
        if limit <= 0 || i >= self.frames.len() {
            Ok(Seq::empty())
        } else {
            match self.frame(i) {
                Ok(p) => {
                    let t = trimmed(p, skip, limit);
                    prepend(t, self.range_from(i + 1, 0, limit - t.len()))
                },
                Err(e) => Err(e),
            }
        }
    }

    /// The whole stream's samples, or the first error.
    pub open spec fn all(self) -> core::result::Result<Seq<i32>, Error> {
        self.run_from(0)
    }

    /// The frame and in-frame offset of a per-channel sample index. Only a
    /// stream with an intact seek table can be entered at a sample.
    pub open spec fn seek(self, sample_index: nat) -> core::result::Result<SeekPoint, Error> {
        let regular = regular_samples(self.header.sample_rate);
        if !self.seekable {
            Err(Error::SeekTableUnreliable)
        } else if sample_index >= self.header.total_samples || regular == 0 {
            Err(Error::SampleIndexOutOfRange)
        } else if sample_index / regular as nat >= self.frames.len() {
            Err(Error::SampleIndexOutOfRange)
        } else {
            Ok(
                SeekPoint {
                    frame_index: (sample_index / regular as nat) as usize,
                    sample_offset_in_frame: (sample_index % regular as nat) as u32,
                },
            )
        }
    }

    /// All samples from a per-channel sample index on.
    pub open spec fn from_sample(self, sample_index: nat) -> core::result::Result<
        Seq<i32>,
        Error,
    > {
        match self.seek(sample_index) {
            Ok(p) => self.skip_from(
                p.frame_index as int,
                p.sample_offset_in_frame * self.header.channels,
            ),
            Err(e) => Err(e),
        }
    }

    /// Why a range of per-channel sample indices cannot be entered, if so.
    pub open spec fn range_error(self, start: nat, end: nat) -> Option<Error> {
        if start > end || end > self.header.total_samples {
            Some(Error::SampleIndexOutOfRange)
        } else if start == end {
            None
        } else {
            match self.seek(start) {
                Ok(_) => None,
                Err(e) => Some(e),
            }
        }
    }

    /// The samples of the half-open range `start..end`.
    pub open spec fn range(self, start: nat, end: nat) -> core::result::Result<Seq<i32>, Error> {
        match self.range_error(start, end) {
            Some(e) => Err(e),
            None => if start == end {
                Ok(Seq::empty())
            } else {
                match self.seek(start) {
                    Ok(p) => self.range_from(
                        p.frame_index as int,
                        p.sample_offset_in_frame * self.header.channels,
                        (end - start) * self.header.channels,
                    ),
                    Err(e) => Err(e),
                }
            },
        }
    }
}

/// The initial weights of a stream: the password's for a primed stream,
/// zeros for a plain one.
pub open spec fn stream_prime(format: u16, password: Option<Seq<u8>>) -> Seq<i32> {
    match password {
        Some(p) => if format == 1 {
            crate::lms::zero_taps()
        } else {
            priming_spec(p)
        },
        None => crate::lms::zero_taps(),
    }
}

/// Parse a file: ID3v2 prefix, header, password check, seek table.
pub open spec fn parse_stream(
    bytes: Seq<u8>,
    password: Option<Seq<u8>>,
) -> core::result::Result<StreamModel, Error> {
    match id3v2_skip(bytes) {
        Err(e) => Err(e),
        Ok(skip) => {
            let after = bytes.skip(skip);
            match parse_header(after) {
                Err(e) => Err(e),
                Ok(h) => {
                    let table = after.skip(HEADER_LEN as int);
                    if h.format == 2 && password is None {
                        Err(Error::PasswordRequired)
                    } else if table.len() < seek_table_len(h) {
                        Err(Error::Truncated)
                    } else {
                        Ok(
                            StreamModel {
                                header: h,
                                frames: seek_frames(
                                    table,
                                    h,
                                    (skip + HEADER_LEN + seek_table_len(h)) as u64,
                                ),
                                seekable: seek_crc_ok(table, h),
                                bytes,
                                prime: stream_prime(h.format, password),
                            },
                        )
                    }
                },
            }
        },
    }
}

/// The CRC-32 of a file's 18 header bytes, behind the ID3v2 prefix.
pub open spec fn parsed_header_crc(bytes: Seq<u8>) -> Option<u32> {
    match id3v2_skip(bytes) {
        Ok(skip) => Some(crc32_spec(bytes.skip(skip).take(18))),
        Err(_) => None,
    }
}

/// A parsed stream, ready to be decoded.
#[derive(Debug, Clone)]
pub struct Decoder<'a> {
    pub header: StreamHeader,
    pub frames: Vec<FrameDescriptor>,
    /// Whether the seek table's CRC matched.
    pub seek_table_crc_ok: bool,
    pub bytes: &'a [u8],
    /// Initial weights of a primed stream; `None` for a plain one.
    pub qm_priming: Option<[i32; 8]>,
    /// CRC-32 of the header bytes, as computed and verified at parse time.
    pub header_crc: u32,
}

impl<'a> View for Decoder<'a> {
    type V = StreamModel;

    open spec fn view(&self) -> StreamModel {
        StreamModel {
            header: self.header,
            frames: self.frames@,
            seekable: self.seek_table_crc_ok,
            bytes: self.bytes@,
            prime: prime_or_zero(self.qm_priming),
        }
    }
}

impl<'a> Decoder<'a> {
    /// Parse a file of the plain format.
    pub fn new(bytes: &'a [u8]) -> (r: Result<Self>)
        ensures
            match r {
                Ok(d) => {
                    &&& d@.wf()
                    &&& parse_stream(bytes@, None) == Ok::<StreamModel, Error>(d@)
                    &&& Some(d.header_crc) == parsed_header_crc(bytes@)
                },
                Err(e) => parse_stream(bytes@, None) == Err::<StreamModel, Error>(e),
            },
    {
        Self::new_with_priming(bytes, None, Ghost(None))
    }

    /// Parse a file of either format. The password primes the predictor of a
    /// primed stream and is ignored on a plain one.
    pub fn new_with_password(bytes: &'a [u8], password: &[u8]) -> (r: Result<Self>)
        ensures
            match r {
                Ok(d) => {
                    &&& d@.wf()
                    &&& parse_stream(bytes@, Some(password@)) == Ok::<StreamModel, Error>(d@)
                    &&& Some(d.header_crc) == parsed_header_crc(bytes@)
                },
                Err(e) => parse_stream(bytes@, Some(password@)) == Err::<StreamModel, Error>(e),
            },
    {
        let priming = derive_qm_priming(password);
        Self::new_with_priming(bytes, Some(priming), Ghost(Some(password@)))
    }

    fn new_with_priming(
        bytes: &'a [u8],
        qm_priming: Option<[i32; 8]>,
        Ghost(password): Ghost<Option<Seq<u8>>>,
    ) -> (r: Result<Self>)
        requires
            match (qm_priming, password) {
                (Some(w), Some(p)) => w@ == priming_spec(p),
                (None, None) => true,
                _ => false,
            },
        ensures
            match r {
                Ok(d) => {
                    &&& d@.wf()
                    &&& parse_stream(bytes@, password) == Ok::<StreamModel, Error>(d@)
                    &&& Some(d.header_crc) == parsed_header_crc(bytes@)
                },
                Err(e) => parse_stream(bytes@, password) == Err::<StreamModel, Error>(e),
            },
    {
        let id3_skip: usize = match skip_id3v2_prefix(bytes) {
            Ok(n) => n,
            Err(e) => {
                return Err(e);
            },
        };
        let after_id3 = slice_subrange(bytes, id3_skip, bytes.len());
        assert(after_id3@ =~= bytes@.skip(id3_skip as int));
        let (header, hdr_len, header_crc) = match parse_stream_header_with_crc(after_id3) {
            Ok(parsed) => parsed,
            Err(e) => {
                return Err(e);
            },
        };
        if header.format == 2 && qm_priming.is_none() {
            return Err(Error::PasswordRequired);
        }
        let table = slice_subrange(after_id3, hdr_len, after_id3.len());
        assert(table@ =~= after_id3@.skip(HEADER_LEN as int));
        let (frame_count, _) = header.frame_geometry();
        let frame_data_start: u64 = id3_skip as u64 + hdr_len as u64 + (frame_count as u64 * 4 + 4);
        let seek_table = match parse_seek_table(table, &header, frame_data_start) {
            Ok((t, _)) => t,
            Err(e) => {
                return Err(e);
            },
        };
        let qm_priming: Option<[i32; 8]> = if header.format == 1 {
            None
        } else {
            qm_priming
        };
        Ok(
            Decoder {
                header,
                frames: seek_table.frames,
                seek_table_crc_ok: seek_table.crc_ok,
                bytes,
                qm_priming,
                header_crc,
            },
        )
    }

    /// Whether random access is possible: the seek table's CRC matched.
    pub fn is_seekable(&self) -> (r: bool)
        ensures
            r == self@.seekable,
    {
        self.seek_table_crc_ok
    }

    /// Decode the whole stream.
    pub fn decode_all(&self) -> (r: Result<Vec<i32>>)
        requires
            self@.wf(),
        ensures
            same_pcm(r, self@.all()),
    {
        let mut out: Vec<i32> = Vec::new();
        let mut i: usize = 0;
        assert(prepend(Seq::empty(), self@.run_from(0)) == self@.all()) by {
            match self@.run_from(0) {
                Ok(q) => {
                    assert(Seq::<i32>::empty() + q =~= q);
                },
                Err(_) => {},
            }
        }
        while i < self.frames.len()
            invariant
                i <= self.frames@.len(),
                self@.wf(),
                prepend(out@, self@.run_from(i as int)) == self@.all(),
            decreases self.frames@.len() - i,
        {
            match self.decode_frame_at(i) {
                Ok(pcm) => {
                    let mut pcm = pcm;
                    proof {
                        lemma_prepend_assoc(out@, pcm@, self@.run_from(i + 1));
                    }
                    out.append(&mut pcm);
                },
                Err(e) => {
                    return Err(e);
                },
            }
            i = i + 1;
        }
        assert(out@ + Seq::<i32>::empty() =~= out@);
        Ok(out)
    }

    /// Decode one frame by its index. Frames carry no state over, so any
    /// frame can be decoded on its own.
    pub fn decode_frame_at(&self, index: usize) -> (r: Result<Vec<i32>>)
        requires
            self@.wf(),
        ensures
            index < self@.frames.len() ==> same_pcm(r, self@.frame(index as int)),
            index >= self@.frames.len() ==> r == Err::<Vec<i32>, Error>(
                Error::FrameIndexOutOfRange,
            ),
    {
        if index >= self.frames.len() {
            return Err(Error::FrameIndexOutOfRange);
        }
        let frame = self.frames[index];
        let file_len: u64 = self.bytes.len() as u64;
        let end: u64 = match frame.file_offset.checked_add(frame.disk_size as u64) {
            Some(end) => end,
            None => {
                return Err(Error::Truncated);
            },
        };
        if end > file_len {
            return Err(Error::Truncated);
        }
        let frame_bytes = slice_subrange(self.bytes, frame.file_offset as usize, end as usize);
        decode_frame_inner(&self.header, &frame, frame_bytes, self.qm_priming)
    }

    /// Walk the frames lazily from the first on.
    pub fn frame_iter(&self) -> (r: FrameIter<'_, 'a>)
        ensures
            r.stream() == self@,
            r.position() == 0,
    {
        FrameIter { decoder: self, next_idx: 0 }
    }

    /// Walk the frames lazily from frame `start_index` on.
    pub fn frame_iter_from(&self, start_index: usize) -> (r: FrameIter<'_, 'a>)
        ensures
            r.stream() == self@,
            r.position() == if start_index <= self@.frames.len() {
                start_index as int
            } else {
                self@.frames.len() as int
            },
    {
        let n: usize = self.frames.len();
        let next_idx: usize = if start_index <= n {
            start_index
        } else {
            n
        };
        FrameIter { decoder: self, next_idx }
    }

    /// Samples per channel in the stream.
    pub fn total_samples(&self) -> (r: u32)
        ensures
            r == self@.header.total_samples,
    {
        self.header.total_samples
    }

    /// Find the frame holding a per-channel sample index.
    pub fn seek_to_sample(&self, sample_index: u64) -> (r: Result<SeekPoint>)
        ensures
            r == self@.seek(sample_index as nat),
    {
        if !self.seek_table_crc_ok {
            return Err(Error::SeekTableUnreliable);
        }
        if sample_index >= self.header.total_samples as u64 {
            return Err(Error::SampleIndexOutOfRange);
        }
        let regular: u64 = self.header.regular_frame_samples() as u64;
        if regular == 0 {
            return Err(Error::SampleIndexOutOfRange);
        }
        let frame_index: u64 = sample_index / regular;
        if frame_index >= self.frames.len() as u64 {
            return Err(Error::SampleIndexOutOfRange);
        }
        Ok(
            SeekPoint {
                frame_index: frame_index as usize,
                sample_offset_in_frame: (sample_index % regular) as u32,
            },
        )
    }

    /// Walk the frames lazily, starting exactly at a per-channel sample.
    pub fn frame_iter_from_sample(&self, sample_index: u64) -> (r: Result<SampleSkipIter<'_, 'a>>)
        ensures
            match r {
                Ok(it) => match self@.seek(sample_index as nat) {
                    Ok(p) => {
                        &&& it.stream() == self@
                        &&& it.position() == p.frame_index
                        &&& it.skip() == p.sample_offset_in_frame * self@.header.channels
                    },
                    Err(_) => false,
                },
                Err(e) => self@.seek(sample_index as nat) == Err::<SeekPoint, Error>(e),
            },
    {
        let seek = match self.seek_to_sample(sample_index) {
            Ok(p) => p,
            Err(e) => {
                return Err(e);
            },
        };
        let inner = self.frame_iter_from(seek.frame_index);
        let offset: u64 = seek.sample_offset_in_frame as u64;
        let channels: u64 = self.header.channels as u64;
        proof {
            lemma_product_fits(offset as int, channels as int);
        }
        Ok(SampleSkipIter { inner, prefix_to_skip: offset * channels })
    }

    /// Decode everything from a per-channel sample on.
    pub fn decode_from_sample(&self, sample_index: u64) -> (r: Result<Vec<i32>>)
        requires
            self@.wf(),
        ensures
            same_pcm(r, self@.from_sample(sample_index as nat)),
    {
        let mut iter = match self.frame_iter_from_sample(sample_index) {
            Ok(it) => it,
            Err(e) => {
                return Err(e);
            },
        };
        let mut out: Vec<i32> = Vec::new();
        let ghost goal = self@.from_sample(sample_index as nat);
        assert(prepend(Seq::empty(), goal) == goal) by {
            match goal {
                Ok(q) => {
                    assert(Seq::<i32>::empty() + q =~= q);
                },
                Err(_) => {},
            }
        }
        loop
            invariant
                self@.wf(),
                goal == self@.from_sample(sample_index as nat),
                iter.stream() == self@,
                0 <= iter.position() <= self@.frames.len(),
                0 <= iter.skip(),
                prepend(out@, self@.skip_from(iter.position(), iter.skip())) == goal,
            decreases self@.frames.len() - iter.position(),
        {
            let ghost i = iter.position();
            let ghost skip = iter.skip();
            match iter.next() {
                None => {
                    assert(out@ + Seq::<i32>::empty() =~= out@);
                    return Ok(out);
                },
                Some(Err(e)) => {
                    return Err(e);
                },
                Some(Ok(pcm)) => {
                    let mut pcm = pcm;
                    proof {
                        lemma_prepend_assoc(out@, pcm@, self@.run_from(i + 1));
                        lemma_no_skip(self@, i + 1);
                    }
                    out.append(&mut pcm);
                },
            }
        }
    }

    /// Playing time of the stream.
    pub fn total_duration(&self) -> (r: core::time::Duration)
        ensures
            duration_nanos(r) == nanos_of(
                self@.header.total_samples as nat,
                self@.header.sample_rate,
            ),
    {
        samples_to_duration(self.header.total_samples as u64, self.header.sample_rate)
    }

    /// Find the frame holding the sample that plays at a time.
    pub fn seek_to_time(&self, time: core::time::Duration) -> (r: Result<SeekPoint>)
        ensures
            r == self@.seek(time_index(time, self@.header.sample_rate)),
    {
        self.seek_to_sample(duration_to_sample_index(time, self.header.sample_rate))
    }

    /// Walk the frames lazily, starting at the sample that plays at a time.
    pub fn frame_iter_from_time(&self, time: core::time::Duration) -> (r: Result<
        SampleSkipIter<'_, 'a>,
    >)
        ensures
            match r {
                Ok(it) => match self@.seek(time_index(time, self@.header.sample_rate)) {
                    Ok(p) => {
                        &&& it.stream() == self@
                        &&& it.position() == p.frame_index
                        &&& it.skip() == p.sample_offset_in_frame * self@.header.channels
                    },
                    Err(_) => false,
                },
                Err(e) => self@.seek(time_index(time, self@.header.sample_rate)) == Err::<
                    SeekPoint,
                    Error,
                >(e),
            },
    {
        self.frame_iter_from_sample(duration_to_sample_index(time, self.header.sample_rate))
    }

    /// Decode everything from the sample that plays at a time on.
    pub fn decode_from_time(&self, time: core::time::Duration) -> (r: Result<Vec<i32>>)
        requires
            self@.wf(),
        ensures
            same_pcm(r, self@.from_sample(time_index(time, self@.header.sample_rate))),
    {
        self.decode_from_sample(duration_to_sample_index(time, self.header.sample_rate))
    }

    /// Decode the samples of the half-open range `start..end`.
    pub fn decode_sample_range(&self, start: u64, end: u64) -> (r: Result<Vec<i32>>)
        requires
            self@.wf(),
        ensures
            same_pcm(r, self@.range(start as nat, end as nat)),
    {
        let mut iter = match self.frame_iter_sample_range(start, end) {
            Ok(it) => it,
            Err(e) => {
                return Err(e);
            },
        };
        let mut out: Vec<i32> = Vec::new();
        let ghost goal = self@.range(start as nat, end as nat);
        assert(start == end ==> (end - start) * self@.header.channels == 0) by (nonlinear_arith);
        assert(prepend(Seq::empty(), goal) == goal) by {
            match goal {
                Ok(q) => {
                    assert(Seq::<i32>::empty() + q =~= q);
                },
                Err(_) => {},
            }
        }
        loop
            invariant
                self@.wf(),
                goal == self@.range(start as nat, end as nat),
                iter.stream() == self@,
                0 <= iter.position() <= self@.frames.len(),
                0 <= iter.skip(),
                prepend(
                    out@,
                    self@.range_from(iter.position(), iter.skip(), iter.remaining() as int),
                ) == goal,
            decreases self@.frames.len() - iter.position(),
        {
            let ghost i = iter.position();
            match iter.next() {
                None => {
                    assert(out@ + Seq::<i32>::empty() =~= out@);
                    return Ok(out);
                },
                Some(Err(e)) => {
                    return Err(e);
                },
                Some(Ok(pcm)) => {
                    let mut pcm = pcm;
                    proof {
                        lemma_prepend_assoc(
                            out@,
                            pcm@,
                            self@.range_from(i + 1, 0, iter.remaining() as int),
                        );
                    }
                    out.append(&mut pcm);
                },
            }
        }
    }

    /// Walk the frames lazily, covering exactly the half-open range
    /// `start..end` of per-channel samples.
    pub fn frame_iter_sample_range(&self, start: u64, end: u64) -> (r: Result<
        SampleRangeIter<'_, 'a>,
    >)
        ensures
            match r {
                Ok(it) => {
                    &&& self@.range_error(start as nat, end as nat) is None
                    &&& it.stream() == self@
                    &&& it.remaining() == (end - start) * self@.header.channels
                    &&& 0 <= it.position() <= self@.frames.len()
                    &&& 0 <= it.skip()
                    &&& if start == end {
                        it.position() == self@.frames.len() && it.skip() == 0
                    } else {
                        match self@.seek(start as nat) {
                            Ok(p) => it.position() == p.frame_index && it.skip()
                                == p.sample_offset_in_frame * self@.header.channels,
                            Err(_) => false,
                        }
                    }
                },
                Err(e) => self@.range_error(start as nat, end as nat) == Some(e),
            },
    {
        if start > end {
            return Err(Error::SampleIndexOutOfRange);
        }
        if end > self.header.total_samples as u64 {
            return Err(Error::SampleIndexOutOfRange);
        }
        let channels: u64 = self.header.channels as u64;
        if start == end {
            assert(0 == 0 * self@.header.channels) by (nonlinear_arith);
            let n: usize = self.frames.len();
            let inner = FrameIter { decoder: self, next_idx: n };
            return Ok(
                SampleRangeIter {
                    inner: SampleSkipIter { inner, prefix_to_skip: 0 },
                    remaining_entries: 0,
                },
            );
        }
        let inner = match self.frame_iter_from_sample(start) {
            Ok(it) => it,
            Err(e) => {
                return Err(e);
            },
        };
        let count: u64 = end - start;
        proof {
            lemma_product_fits(count as int, channels as int);
        }
        Ok(SampleRangeIter { inner, remaining_entries: count * channels })
    }

    /// Decode the samples between two times.
    pub fn decode_time_range(&self, start: core::time::Duration, end: core::time::Duration) -> (r:
        Result<Vec<i32>>)
        requires
            self@.wf(),
        ensures
            same_pcm(
                r,
                self@.range(
                    time_index(start, self@.header.sample_rate),
                    time_index(end, self@.header.sample_rate),
                ),
            ),
    {
        let rate: u32 = self.header.sample_rate;
        let start_sample: u64 = duration_to_sample_index(start, rate);
        let end_sample: u64 = duration_to_sample_index(end, rate);
        self.decode_sample_range(start_sample, end_sample)
    }

    /// Walk the frames lazily, covering the samples between two times.
    pub fn frame_iter_time_range(
        &self,
        start: core::time::Duration,
        end: core::time::Duration,
    ) -> (r: Result<SampleRangeIter<'_, 'a>>)
        ensures
            ({
                let from = time_index(start, self@.header.sample_rate);
                let to = time_index(end, self@.header.sample_rate);
                match r {
                    Ok(it) => {
                        &&& self@.range_error(from, to) is None
                        &&& it.stream() == self@
                        &&& it.remaining() == (to - from) * self@.header.channels
                        &&& 0 <= it.position() <= self@.frames.len()
                        &&& 0 <= it.skip()
                        &&& if from == to {
                            it.position() == self@.frames.len() && it.skip() == 0
                        } else {
                            match self@.seek(from) {
                                Ok(p) => it.position() == p.frame_index && it.skip()
                                    == p.sample_offset_in_frame * self@.header.channels,
                                Err(_) => false,
                            }
                        }
                    },
                    Err(e) => self@.range_error(from, to) == Some(e),
                }
            }),
    {
        let rate: u32 = self.header.sample_rate;
        let start_sample: u64 = duration_to_sample_index(start, rate);
        let end_sample: u64 = duration_to_sample_index(end, rate);
        self.frame_iter_sample_range(start_sample, end_sample)
    }
}

/// The sample index a clock time stands for, held at `u64::MAX`.
pub open spec fn time_index(time: core::time::Duration, sample_rate: u32) -> nat {
    if sample_at(duration_nanos(time), sample_rate) > u64::MAX {
        u64::MAX as nat
    } else {
        sample_at(duration_nanos(time), sample_rate)
    }
}

proof fn lemma_product_fits(a: int, b: int)
    requires
        0 <= a <= 0xFFFF_FFFF,
        0 <= b <= 0xFFFF,
    ensures
        0 <= a * b <= u64::MAX,
{
    assert(0 <= a * b <= 0xFFFF_FFFF * 0xFFFF) by (nonlinear_arith)
        requires
            0 <= a <= 0xFFFF_FFFF,
            0 <= b <= 0xFFFF,
    ;
}

/// Putting two pieces in front one after the other.
pub proof fn lemma_prepend_assoc(
    a: Seq<i32>,
    b: Seq<i32>,
    r: core::result::Result<Seq<i32>, Error>,
)
    ensures
        prepend(a, prepend(b, r)) == prepend(a + b, r),
{
    match r {
        Ok(c) => {
            assert(a + (b + c) =~= (a + b) + c);
        },
        Err(_) => {},
    }
}

proof fn lemma_no_skip(m: StreamModel, i: int)
    ensures
        m.skip_from(i, 0) == m.run_from(i),
{
    if i < m.frames.len() {
        match m.frame(i) {
            Ok(p) => {
                assert(trimmed(p, 0, p.len() as int) =~= p);
            },
            Err(_) => {},
        }
    }
}

/// A position in the stream: a frame and a per-channel offset within it.
#[derive(Debug, Clone, Copy, PartialEq, Eq, Structural)]
pub struct SeekPoint {
    /// Index of the frame.
    pub frame_index: usize,
    /// Per-channel offset within the frame.
    pub sample_offset_in_frame: u32,
}

/// A frame index within a stream.
#[derive(Debug, Clone, Copy, PartialEq, Eq, Hash)]
pub struct FrameIndex(usize);

impl View for FrameIndex {
    type V = usize;

    closed spec fn view(&self) -> usize {
        self.0
    }
}

impl FrameIndex {
    /// Lift a raw index into a stream of `frame_count` frames.
    pub fn from_raw(value: usize, frame_count: usize) -> (r: Result<Self>)
        ensures
            match r {
                Ok(i) => value < frame_count && i@ == value,
                Err(e) => value >= frame_count && e == Error::InvalidFrameIndex(value),
            },
    {
        if value >= frame_count {
            Err(Error::InvalidFrameIndex(value))
        } else {
            Ok(FrameIndex(value))
        }
    }

    /// The index.
    pub fn index(&self) -> (r: usize)
        ensures
            r == self@,
    {
        self.0
    }

    /// Whether this is the final frame of a stream of `frame_count` frames.
    pub fn is_last(&self, frame_count: usize) -> (r: bool)
        ensures
            r == (self@ + 1 == frame_count),
    {
        self.0 < frame_count && frame_count - self.0 == 1
    }
}

/// A per-channel sample offset within a frame.
#[derive(Debug, Clone, Copy, PartialEq, Eq, Hash)]
pub struct InFrameSampleOffset(u32);

impl View for InFrameSampleOffset {
    type V = u32;

    closed spec fn view(&self) -> u32 {
        self.0
    }
}

impl InFrameSampleOffset {
    /// Lift a raw offset, which must be below the regular frame length.
    pub fn from_raw(value: u32, regular_frame_samples: u32) -> (r: Result<Self>)
        ensures
            match r {
                Ok(o) => value < regular_frame_samples && o@ == value,
                Err(e) => value >= regular_frame_samples && e == Error::InvalidInFrameSampleOffset(
                    value,
                ),
            },
    {
        if value >= regular_frame_samples {
            Err(Error::InvalidInFrameSampleOffset(value))
        } else {
            Ok(InFrameSampleOffset(value))
        }
    }

    /// The offset.
    pub fn offset(&self) -> (r: u32)
        ensures
            r == self@,
    {
        self.0
    }

    /// Whether the offset is the frame's first sample.
    pub fn is_frame_boundary(&self) -> (r: bool)
        ensures
            r == (self@ == 0),
    {
        self.0 == 0
    }

    /// How many interleaved entries precede the offset, held at
    /// `usize::MAX`.
    pub fn interleaved_skip(&self, channels: u16) -> (r: usize)
        ensures
            r == if self@ * channels > usize::MAX {
                usize::MAX as int
            } else {
                self@ * channels
            },
    {
        match (self.0 as usize).checked_mul(channels as usize) {
            Some(n) => n,
            None => usize::MAX,
        }
    }
}

impl SeekPoint {
    /// The frame index, validated against the stream's frame count.
    pub fn frame_index_typed(&self, frame_count: usize) -> (r: Result<FrameIndex>)
        ensures
            match r {
                Ok(i) => self.frame_index < frame_count && i@ == self.frame_index,
                Err(e) => self.frame_index >= frame_count && e == Error::InvalidFrameIndex(
                    self.frame_index,
                ),
            },
    {
        FrameIndex::from_raw(self.frame_index, frame_count)
    }

    /// The offset, validated against the regular frame length.
    pub fn sample_offset_typed(&self, regular_frame_samples: u32) -> (r: Result<
        InFrameSampleOffset,
    >)
        ensures
            match r {
                Ok(o) => self.sample_offset_in_frame < regular_frame_samples && o@
                    == self.sample_offset_in_frame,
                Err(e) => self.sample_offset_in_frame >= regular_frame_samples && e
                    == Error::InvalidInFrameSampleOffset(self.sample_offset_in_frame),
            },
    {
        InFrameSampleOffset::from_raw(self.sample_offset_in_frame, regular_frame_samples)
    }
}

/// Lazy walk over the frames. An error is handed out once and ends the walk.
pub struct FrameIter<'d, 'a> {
    decoder: &'d Decoder<'a>,
    next_idx: usize,
}

impl<'d, 'a> FrameIter<'d, 'a> {
    /// The stream being walked.
    pub closed spec fn stream(&self) -> StreamModel {
        self.decoder@
    }

    /// Index of the next frame.
    pub closed spec fn position(&self) -> int {
        self.next_idx as int
    }

    /// Decode the next frame; `None` when all have been handed out.
    pub fn next(&mut self) -> (r: Option<Result<Vec<i32>>>)
        requires
            old(self).stream().wf(),
        ensures
            final(self).stream() == old(self).stream(),
            match r {
                None => {
                    &&& old(self).position() >= old(self).stream().frames.len()
                    &&& final(self).position() == old(self).position()
                },
                Some(res) => {
                    &&& 0 <= old(self).position() < old(self).stream().frames.len()
                    &&& same_pcm(res, old(self).stream().frame(old(self).position()))
                    &&& final(self).position() == if res is Ok {
                        old(self).position() + 1
                    } else {
                        old(self).stream().frames.len() as int
                    }
                },
            },
    {
        let n: usize = self.decoder.frames.len();
        if self.next_idx >= n {
            return None;
        }
        let idx: usize = self.next_idx;
        match self.decoder.decode_frame_at(idx) {
            Ok(pcm) => {
                self.next_idx = idx + 1;
                Some(Ok(pcm))
            },
            Err(e) => {
                self.next_idx = n;
                Some(Err(e))
            },
        }
    }

    /// How many frames are left.
    pub fn len(&self) -> (r: usize)
        ensures
            r == if self.position() >= self.stream().frames.len() {
                0
            } else {
                self.stream().frames.len() - self.position()
            },
    {
        self.decoder.frames.len().saturating_sub(self.next_idx)
    }

    /// Bounds on the number of items left, which here are exact.
    pub fn size_hint(&self) -> (r: (usize, Option<usize>))
        ensures
            r.0 == if self.position() >= self.stream().frames.len() {
                0
            } else {
                self.stream().frames.len() - self.position()
            },
            r.1 == Some(r.0),
    {
        let remaining: usize = self.len();
        (remaining, Some(remaining))
    }
}

/// Lazy walk that leaves out the first entries of its first frame.
pub struct SampleSkipIter<'d, 'a> {
    inner: FrameIter<'d, 'a>,
    prefix_to_skip: u64,
}

impl<'d, 'a> SampleSkipIter<'d, 'a> {
    /// The stream being walked.
    pub closed spec fn stream(&self) -> StreamModel {
        self.inner.stream()
    }

    /// Index of the next frame.
    pub closed spec fn position(&self) -> int {
        self.inner.position()
    }

    /// How many entries of the next frame are left out.
    pub closed spec fn skip(&self) -> int {
        self.prefix_to_skip as int
    }

    /// Decode the next frame; `None` when all have been handed out.
    pub fn next(&mut self) -> (r: Option<Result<Vec<i32>>>)
        requires
            old(self).stream().wf(),
        ensures
            final(self).stream() == old(self).stream(),
            0 <= final(self).skip(),
            match r {
                None => {
                    &&& old(self).position() >= old(self).stream().frames.len()
                    &&& final(self).position() == old(self).position()
                    &&& final(self).skip() == old(self).skip()
                },
                Some(res) => {
                    &&& 0 <= old(self).position() < old(self).stream().frames.len()
                    &&& final(self).skip() == 0
                    &&& final(self).position() == if res is Ok {
                        old(self).position() + 1
                    } else {
                        old(self).stream().frames.len() as int
                    }
                    &&& match old(self).stream().frame(old(self).position()) {
                        Ok(p) => same_pcm(
                            res,
                            Ok(trimmed(p, old(self).skip(), p.len() as int)),
                        ),
                        Err(e) => same_pcm(res, Err(e)),
                    }
                },
            },
    {
        let nxt = match self.inner.next() {
            None => {
                return None;
            },
            Some(nxt) => nxt,
        };
        let skip: u64 = self.prefix_to_skip;
        self.prefix_to_skip = 0;
        match nxt {
            Ok(pcm) => {
                let ghost p = pcm@;
                let mut pcm = pcm;
                let tail: Vec<i32> = if skip >= pcm.len() as u64 {
                    Vec::new()
                } else {
                    pcm.split_off(skip as usize)
                };
                assert(tail@ =~= trimmed(p, skip as int, p.len() as int));
                Some(Ok(tail))
            },
            Err(e) => Some(Err(e)),
        }
    }

    /// How many frames are left.
    pub fn len(&self) -> (r: usize)
        ensures
            r == if self.position() >= self.stream().frames.len() {
                0
            } else {
                self.stream().frames.len() - self.position()
            },
    {
        self.inner.len()
    }

    /// Bounds on the number of items left, which here are exact.
    pub fn size_hint(&self) -> (r: (usize, Option<usize>))
        ensures
            r.0 == if self.position() >= self.stream().frames.len() {
                0
            } else {
                self.stream().frames.len() - self.position()
            },
            r.1 == Some(r.0),
    {
        self.inner.size_hint()
    }
}

/// Lazy walk over a range of samples, cut to size at both ends.
pub struct SampleRangeIter<'d, 'a> {
    inner: SampleSkipIter<'d, 'a>,
    remaining_entries: u64,
}

impl<'d, 'a> SampleRangeIter<'d, 'a> {
    /// The stream being walked.
    pub closed spec fn stream(&self) -> StreamModel {
        self.inner.stream()
    }

    /// Index of the next frame.
    pub closed spec fn position(&self) -> int {
        self.inner.position()
    }

    /// How many entries of the next frame are left out.
    pub closed spec fn skip(&self) -> int {
        self.inner.skip()
    }

    /// How many entries are still to come.
    pub closed spec fn remaining(&self) -> int {
        self.remaining_entries as int
    }

    /// Decode the next piece; `None` when the range has been covered.
    pub fn next(&mut self) -> (r: Option<Result<Vec<i32>>>)
        requires
            old(self).stream().wf(),
        ensures
            final(self).stream() == old(self).stream(),
            0 <= final(self).remaining(),
            match r {
                None => {
                    &&& old(self).remaining() == 0 || old(self).position() >= old(
                        self,
                    ).stream().frames.len()
                    &&& final(self).position() == old(self).position()
                    &&& final(self).skip() == old(self).skip()
                    &&& final(self).remaining() == old(self).remaining()
                },
                Some(res) => {
                    &&& old(self).remaining() > 0
                    &&& 0 <= old(self).position() < old(self).stream().frames.len()
                    &&& final(self).skip() == 0
                    &&& final(self).position() == if res is Ok {
                        old(self).position() + 1
                    } else {
                        old(self).stream().frames.len() as int
                    }
                    &&& match old(self).stream().frame(old(self).position()) {
                        Ok(p) => {
                            &&& same_pcm(
                                res,
                                Ok(trimmed(p, old(self).skip(), old(self).remaining())),
                            )
                            &&& final(self).remaining() == old(self).remaining() - trimmed(
                                p,
                                old(self).skip(),
                                old(self).remaining(),
                            ).len()
                        },
                        Err(e) => same_pcm(res, Err(e)) && final(self).remaining() == 0,
                    }
                },
            },
    {
        if self.remaining_entries == 0 {
            return None;
        }
        let ghost stream = self.stream();
        let ghost i = self.position();
        let ghost skip = self.skip();
        let nxt = match self.inner.next() {
            None => {
                return None;
            },
            Some(nxt) => nxt,
        };
        match nxt {
            Ok(pcm) => {
                let mut pcm = pcm;
                let limit: u64 = self.remaining_entries;
                if pcm.len() as u64 > limit {
                    pcm.truncate(limit as usize);
                }
                self.remaining_entries = limit - pcm.len() as u64;
                assert(pcm@ =~= trimmed(stream.frame(i)->Ok_0, skip, limit as int));
                Some(Ok(pcm))
            },
            Err(e) => {
                self.remaining_entries = 0;
                Some(Err(e))
            },
        }
    }

    /// Bounds on the number of items left: an error may end the walk early,
    /// and there are at most as many pieces as frames.
    pub fn size_hint(&self) -> (r: (usize, Option<usize>))
        ensures
            r.0 == 0,
            r.1 == Some(
                if self.position() >= self.stream().frames.len() {
                    0usize
                } else {
                    (self.stream().frames.len() - self.position()) as usize
                },
            ),
    {
        let (_, upper) = self.inner.size_hint();
        (0, upper)
    }
}

} // verus!
