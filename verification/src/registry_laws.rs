//! What the packet interface promises: which files a probe knows, which
//! parameters and packets are refused and how, what a flush hands out, and
//! where a seek lands.

use crate::decode_spec;
use crate::decoder::{parse_stream, StreamModel};
use crate::encoder::{file_bytes, file_header};
use crate::error::Error;
use crate::header::{id3v2_skip, parse_header, StreamHeader};
use crate::layout::file_of;
use crate::pcm::packed;
use crate::registry::{decoder_error, demux_error, encoder_error, first_outside, flushed};
use crate::registry::{lemma_probed_size, packet_result, probe_score, seek_frame};
use crate::registry::{CallError, ErrorClass, SampleLayout, Side, TtaDemuxer, TtaEncoder};
use crate::text::decimal;
use vstd::prelude::*;

verus! {

/// A probe knows every file that starts with the magic.
pub proof fn law_probe_knows_magic(rest: Seq<u8>)
    ensures
        probe_score(seq![0x54u8, 0x54u8, 0x41u8, 0x31u8] + rest) == 100,
{
    let buf = seq![0x54u8, 0x54u8, 0x41u8, 0x31u8] + rest;
    assert(buf[0] == 0x54 && buf[1] == 0x54 && buf[2] == 0x41 && buf[3] == 0x31);
}

/// A probe knows every file that has the magic behind an ID3v2 tag, whatever
/// the tag holds, up to 28 bits of length.
#[verifier::rlimit(60)]
pub proof fn law_probe_sees_past_tags(
    version: u8,
    revision: u8,
    flags: u8,
    content: Seq<u8>,
    rest: Seq<u8>,
)
    requires
        content.len() < 0x1000_0000,
    ensures
        ({
            let n = content.len() as int;
            let head = seq![
                0x49u8,
                0x44u8,
                0x33u8,
                version,
                revision,
                flags,
                (n / 0x20_0000) as u8,
                (n / 0x4000 % 128) as u8,
                (n / 0x80 % 128) as u8,
                (n % 128) as u8,
            ];
            probe_score(head + content + seq![0x54u8, 0x54u8, 0x41u8, 0x31u8] + rest) == 100
        }),
{
    let n = content.len() as int;
    let head = seq![
        0x49u8,
        0x44u8,
        0x33u8,
        version,
        revision,
        flags,
        (n / 0x20_0000) as u8,
        (n / 0x4000 % 128) as u8,
        (n / 0x80 % 128) as u8,
        (n % 128) as u8,
    ];
    let magic = seq![0x54u8, 0x54u8, 0x41u8, 0x31u8];
    let front = head + content;
    let buf = front + magic + rest;
    assert(buf[0] == head[0] && buf[1] == head[1] && buf[2] == head[2] && buf[6] == head[6]
        && buf[7] == head[7] && buf[8] == head[8] && buf[9] == head[9]);
    law_probe_score(buf, n);
    let at = 10 + n;
    assert(front.len() == at);
    assert(buf[at] == magic[0] && buf[at + 1] == magic[1] && buf[at + 2] == magic[2] && buf[at + 3]
        == magic[3]);
}

/// A probe is sure or it is not, and it is sure of nothing but the magic at
/// the start or right behind a tag whose size bytes spell `n` in digits of
/// seven bits.
#[verifier::rlimit(60)]
pub proof fn law_probe_score(buf: Seq<u8>, n: int)
    requires
        0 <= n < 0x1000_0000,
        buf.len() >= 10 ==> buf[6] == n / 0x20_0000 && buf[7] == n / 0x4000 % 128 && buf[8] == n
            / 0x80 % 128 && buf[9] == n % 128,
    ensures
        ({
            let plain = buf.len() >= 4 && buf[0] == 0x54 && buf[1] == 0x54 && buf[2] == 0x41
                && buf[3] == 0x31;
            let at = 10 + n;
            let tagged = buf.len() >= at + 4 && buf[0] == 0x49 && buf[1] == 0x44 && buf[2] == 0x33
                && buf[at] == 0x54 && buf[at + 1] == 0x54 && buf[at + 2] == 0x41 && buf[at + 3]
                == 0x31;
            probe_score(buf) == if plain || tagged {
                100int
            } else {
                0int
            }
        }),
{
    if buf.len() >= 10 {
        lemma_probed_size(buf[6] as u32, buf[7] as u32, buf[8] as u32, buf[9] as u32);
        assert(n == 0x20_0000 * (n / 0x20_0000) + 0x4000 * (n / 0x4000 % 128) + 0x80 * (n / 0x80
            % 128) + n % 128);
    }
}

/// A file without the magic at the start and without a tag in front is not
/// known.
pub proof fn law_probe_knows_nothing_else(buf: Seq<u8>)
    requires
        !(buf.len() >= 4 && buf[0] == 0x54 && buf[1] == 0x54 && buf[2] == 0x41 && buf[3] == 0x31),
        !(buf.len() >= 14 && buf[0] == 0x49 && buf[1] == 0x44 && buf[2] == 0x33),
    ensures
        probe_score(buf) == 0,
{
}

/// Whatever parses as a stream header in front of everything else, a probe
/// knows.
pub proof fn law_probe_knows_headers(buf: Seq<u8>)
    requires
        parse_header(buf) is Ok,
    ensures
        probe_score(buf) == 100,
{
    crate::header::law_parse_header_reads_fields(buf);
}

/// A decoder needs a layout it can write and a channel count, and nothing
/// else is refused.
pub proof fn law_decoder_parameters(layout: Option<SampleLayout>, channels: Option<u16>)
    ensures
        layout is None ==> decoder_error(layout, channels) == Some(CallError::MissingSampleLayout),
        layout == Some(SampleLayout::Other) ==> decoder_error(layout, channels) == Some(
            CallError::UnsupportedSampleLayout(Side::Decoder),
        ),
        (layout == Some(SampleLayout::S16) || layout == Some(SampleLayout::S24)) && channels is None
            ==> decoder_error(layout, channels) == Some(CallError::MissingChannels(Side::Decoder)),
        (layout == Some(SampleLayout::S16) || layout == Some(SampleLayout::S24)) && channels is Some
            ==> decoder_error(layout, channels) is None,
{
}

/// An encoder needs a layout it can read, or none; one to six channels; and a
/// rate that a header can hold. The first that fails, in that order, is the
/// error.
pub proof fn law_encoder_parameters(
    layout: Option<SampleLayout>,
    channels: Option<u16>,
    sample_rate: Option<u32>,
)
    ensures
        ({
            let e = encoder_error(layout, channels, sample_rate);
            if layout == Some(SampleLayout::Other) {
                e == Some(CallError::UnsupportedSampleLayout(Side::Encoder))
            } else if channels is None {
                e == Some(CallError::MissingChannels(Side::Encoder))
            } else if channels->0 == 0 || channels->0 > 6 {
                e == Some(CallError::ChannelsOutOfRange(channels->0))
            } else if sample_rate is None {
                e == Some(CallError::MissingSampleRate)
            } else if sample_rate->0 == 0 || sample_rate->0 > 0x7F_FFFF {
                e == Some(CallError::SampleRateOutOfRange(sample_rate->0))
            } else {
                e is None
            }
        }),
{
}

/// Samples of 16 bits take two bytes, those of 24 bits three.
pub proof fn law_layout_widths()
    ensures
        SampleLayout::S16.width() == 2,
        SampleLayout::S16.bits() == 16,
        SampleLayout::S24.width() == 3,
        SampleLayout::S24.bits() == 24,
{
}

/// A packet decodes as the file it is, and its samples come out packed by the
/// decoder's layout. A packet that does not decode, has another number of
/// channels or another bit depth is refused, in that order.
pub proof fn law_packet_decodes_as_file(
    data: Seq<u8>,
    layout: SampleLayout,
    channels: u16,
    bits_per_sample: u16,
)
    requires
        layout == SampleLayout::S16 || layout == SampleLayout::S24,
    ensures
        ({
            let r = packet_result(data, layout, channels, bits_per_sample);
            match decode_spec(data, None) {
                Err(e) => r == Err::<(u32, Seq<u8>), CallError>(CallError::Decode(e)),
                Ok((h, pcm)) => if h.channels != channels {
                    r == Err::<(u32, Seq<u8>), CallError>(
                        CallError::ChannelMismatch { stream: h.channels, configured: channels },
                    )
                } else if h.bits_per_sample != bits_per_sample {
                    r == Err::<(u32, Seq<u8>), CallError>(
                        CallError::BitDepthMismatch {
                            stream: h.bits_per_sample,
                            configured: bits_per_sample,
                        },
                    )
                } else {
                    r == Ok::<(u32, Seq<u8>), CallError>(
                        (
                            h.total_samples,
                            packed(
                                pcm,
                                if layout == SampleLayout::S16 {
                                    2
                                } else {
                                    3
                                },
                            ),
                        ),
                    )
                },
            }
        }),
{
}

/// What a flush comes to. Without samples nothing changes; samples that are
/// no whole number of instants are refused and kept; and all others leave the
/// buffer as one more packet behind those waiting: a plain file of them,
/// presented when the packets before it end and lasting as long as it has
/// instants. Times are held at the 64-bit limit.
pub proof fn law_flush_hands_out_file(
    before: TtaEncoder,
    after: TtaEncoder,
    r: core::result::Result<(), CallError>,
)
    requires
        flushed(before, after, r),
        before.channels > 0,
        before.next_pts >= 0,
    ensures
        ({
            let n = before.interleaved@.len() as int;
            let c = before.channels as int;
            let instants = n / c;
            let k = before.pending@.len() as int;
            let kept = after.interleaved@ == before.interleaved@ && after.pending@
                == before.pending@ && after.next_pts == before.next_pts;
            &&& n == 0 ==> r is Ok && kept
            &&& n > 0 && n % c != 0 ==> r == Err::<(), CallError>(CallError::RaggedSamples) && kept
            &&& n > 0 && n % c == 0 ==> {
                &&& r is Ok
                &&& after.interleaved@ == Seq::<i32>::empty()
                &&& after.pending@.len() == k + 1
                &&& after.pending@.take(k) == before.pending@
                &&& after.pending@[k].pts == before.next_pts
                &&& instants <= i64::MAX ==> after.pending@[k].duration == instants
                &&& before.next_pts + instants <= i64::MAX ==> after.next_pts == before.next_pts
                    + instants
                &&& before.next_pts + instants > i64::MAX ==> after.next_pts == i64::MAX
                &&& after.pending@[k].data@ == file_bytes(
                    before.interleaved@,
                    file_header(1, n, before.channels, before.bits_per_sample, before.sample_rate),
                    seq![0i32, 0i32, 0i32, 0i32, 0i32, 0i32, 0i32, 0i32],
                )
            }
        }),
{
    let k = before.pending@.len() as int;
    let n = before.interleaved@.len() as int;
    let c = before.channels as int;
    assert(n / c >= 0) by (nonlinear_arith)
        requires
            n >= 0,
            c > 0,
    ;
    assert(crate::lms::zero_taps() =~= seq![0i32, 0i32, 0i32, 0i32, 0i32, 0i32, 0i32, 0i32]);
    if n > 0 && n % c == 0 {
        assert(after.pending@.take(k) =~= after.pending@.drop_last());
        assert(after.interleaved@ =~= Seq::<i32>::empty());
    }
}

/// What makes a file unfit for cutting into packets: a header that does not
/// parse, with or without its tag, then a seek table that is cut short, then
/// the first frame that does not lie within the file. No password is asked
/// for.
pub proof fn law_demuxer_refusals(bytes: Seq<u8>, i: int)
    ensures
        match parse_stream(bytes, Some(Seq::empty())) {
            Err(e) => match id3v2_skip(bytes) {
                Err(_) => demux_error(bytes) == Some(CallError::Header(e)),
                Ok(skip) => if parse_header(bytes.skip(skip)) is Ok {
                    demux_error(bytes) == Some(CallError::SeekTable(e))
                } else {
                    demux_error(bytes) == Some(CallError::Header(e))
                },
            },
            Ok(m) => {
                let inside = |j: int|
                    m.frames[j].file_offset + m.frames[j].disk_size <= bytes.len();
                &&& (forall|j: int| 0 <= j < m.frames.len() ==> #[trigger] inside(j))
                    ==> demux_error(bytes) is None
                &&& 0 <= i < m.frames.len() && !inside(i) && (forall|j: int|
                    0 <= j < i ==> #[trigger] inside(j)) ==> demux_error(bytes) == Some(
                    CallError::FrameOutsideFile(i as usize),
                )
            },
        },
{
    match parse_stream(bytes, Some(Seq::empty())) {
        Ok(m) => {
            let inside = |j: int| m.frames[j].file_offset + m.frames[j].disk_size <= bytes.len();
            if forall|j: int| 0 <= j < m.frames.len() ==> #[trigger] inside(j) {
                lemma_none_outside(m, 0);
            }
            if 0 <= i < m.frames.len() && !inside(i) && (forall|j: int|
                0 <= j < i ==> #[trigger] inside(j)) {
                lemma_first_outside(m, 0, i);
            }
        },
        Err(_) => {},
    }
}

proof fn lemma_none_outside(m: StreamModel, k: int)
    requires
        0 <= k <= m.frames.len(),
        ({
            let inside = |j: int| m.frames[j].file_offset + m.frames[j].disk_size <= m.bytes.len();
            forall|j: int| 0 <= j < m.frames.len() ==> #[trigger] inside(j)
        }),
    ensures
        first_outside(m, k) is None,
    decreases m.frames.len() - k,
{
    let inside = |j: int| m.frames[j].file_offset + m.frames[j].disk_size <= m.bytes.len();
    if k < m.frames.len() {
        assert(inside(k));
        lemma_none_outside(m, k + 1);
    }
}

proof fn lemma_first_outside(m: StreamModel, k: int, i: int)
    requires
        0 <= k <= i < m.frames.len(),
        ({
            let inside = |j: int| m.frames[j].file_offset + m.frames[j].disk_size <= m.bytes.len();
            &&& !inside(i)
            &&& forall|j: int| 0 <= j < i ==> #[trigger] inside(j)
        }),
    ensures
        first_outside(m, k) == Some(i),
    decreases i - k,
{
    let inside = |j: int| m.frames[j].file_offset + m.frames[j].disk_size <= m.bytes.len();
    if k < i {
        assert(inside(k));
        lemma_first_outside(m, k + 1, i);
    }
}

/// A packet is a file of the one block that its frame has in the stream,
/// under the stream's header with the frame's sample count.
pub proof fn law_packet_is_file_of_its_frame(d: TtaDemuxer, i: int)
    requires
        0 <= i < d.frames@.len(),
    ensures
        ({
            let fd = d.frames@[i];
            let h = StreamHeader {
                format: d.header.format,
                channels: d.header.channels,
                bits_per_sample: d.header.bits_per_sample,
                sample_rate: d.header.sample_rate,
                total_samples: fd.sample_count,
            };
            d.packet_data(i) == file_of(
                h,
                seq![d.all@.subrange(fd.file_offset as int, fd.file_offset + fd.disk_size)],
            )
        }),
{
}

/// A seek lands on the frame that holds the time, on the first frame for a
/// time before the start, and on the last one for a time past the end.
pub proof fn law_seek_lands_on_frame(pts: int, regular: int, frames: int)
    requires
        regular > 0,
        frames > 0,
    ensures
        ({
            let i = seek_frame(pts, regular, frames);
            &&& 0 <= i < frames
            &&& pts < 0 ==> i == 0
            &&& 0 <= pts < frames * regular ==> i * regular <= pts < i * regular + regular
            &&& pts >= frames * regular ==> i == frames - 1
        }),
{
    if pts >= 0 {
        let q = pts / regular;
        let r = pts % regular;
        vstd::arithmetic::div_mod::lemma_fundamental_div_mod(pts, regular);
        vstd::arithmetic::mul::lemma_mul_is_commutative(regular, q);
        assert(q >= 0 && (pts < frames * regular <==> q < frames)) by (nonlinear_arith)
            requires
                pts == q * regular + r,
                0 <= r < regular,
                pts >= 0,
                frames > 0,
        ;
    } else {
        assert(0int / regular == 0) by (nonlinear_arith)
            requires
                regular > 0,
        ;
    }
}

/// Which errors ask for more input, which end a stream, which say that a
/// request is not supported, and which that the input is wrong.
pub proof fn law_error_classes(e: CallError)
    ensures
        e.class_spec() == ErrorClass::NeedMore <==> e == CallError::NeedMore,
        e.class_spec() == ErrorClass::Eof <==> e == CallError::Eof,
        e.class_spec() == ErrorClass::Unsupported <==> e is UnsupportedSampleLayout || e
            == CallError::NothingToSeek,
        e.class_spec() == ErrorClass::Other <==> e == CallError::PacketPending || e is Encode,
{
}

/// A message about an error from below carries that error's own message, and
/// one about numbers spells them in decimal.
pub proof fn law_call_messages(e: Error, v: u16, w: u16, n: u32, i: usize)
    ensures
        CallError::Decode(e).message_spec() == "oxideav-tta: "@ + e.message_spec(),
        CallError::Encode(e).message_spec() == "oxideav-tta encoder: "@ + e.message_spec(),
        CallError::Header(e).message_spec() == "oxideav-tta demuxer: "@ + e.message_spec(),
        CallError::SeekTable(e).message_spec() == "oxideav-tta demuxer: seek-table: "@
            + e.message_spec(),
        CallError::ChannelsOutOfRange(v).message_spec()
            == "oxideav-tta encoder: channels must be 1..=6 (got "@ + decimal(v as nat) + ")"@,
        CallError::SampleRateOutOfRange(n).message_spec() == "oxideav-tta encoder: sample_rate "@
            + decimal(n as nat) + " outside 1..=0x7FFFFF"@,
        (CallError::ChannelMismatch { stream: v, configured: w }).message_spec()
            == "oxideav-tta: stream has "@ + decimal(v as nat)
            + " channels but decoder configured for "@ + decimal(w as nat),
        (CallError::BitDepthMismatch { stream: v, configured: w }).message_spec()
            == "oxideav-tta: stream has "@ + decimal(v as nat)
            + " bps but decoder configured for "@ + decimal(w as nat),
        CallError::FrameOutsideFile(i).message_spec() == "oxideav-tta demuxer: frame "@ + decimal(
            i as nat,
        ) + " does not lie within the file"@,
        CallError::NoSuchStream(n).message_spec() == "oxideav-tta: stream index "@ + decimal(
            n as nat,
        ) + " out of range (only stream 0 exists)"@,
{
}

/// What a working encoder's parameters are, and what no operation on it
/// changes.
pub proof fn law_encoder_setup(a: TtaEncoder, b: TtaEncoder)
    ensures
        a.wf() <==> {
            &&& a.layout == SampleLayout::S16 && a.bits_per_sample == 16 || a.layout
                == SampleLayout::S24 && a.bits_per_sample == 24
            &&& 1 <= a.channels <= 6
            &&& 1 <= a.sample_rate <= 0x7F_FFFF
            &&& a.next_pts >= 0
        },
        a.same_setup(&b) <==> a.layout == b.layout && a.channels == b.channels
            && a.bits_per_sample == b.bits_per_sample && a.sample_rate == b.sample_rate,
{
}

/// What an open demuxer keeps: a header in scope, all of its frames within
/// the file, and a clock that counts regular frames.
pub proof fn law_demuxer_keeps(d: TtaDemuxer, i: int)
    requires
        d.wf(),
        0 <= i < d.frames@.len(),
    ensures
        d.header.format == 1 || d.header.format == 2,
        1 <= d.header.channels <= 6,
        16 <= d.header.bits_per_sample <= 24,
        1 <= d.header.sample_rate <= 0x7F_FFFF,
        d.frames@[i].file_offset + d.frames@[i].disk_size <= d.all@.len(),
        d.current_frame <= d.frames@.len(),
        245 * d.regular_samples <= 256 * d.header.sample_rate < 245 * d.regular_samples + 245,
        d.next_pts == d.current_frame * d.regular_samples,
        i < d.frames@.len() - 1 ==> d.frames@[i].sample_count == d.regular_samples,
        i == d.frames@.len() - 1 ==> i * d.regular_samples + d.frames@[i].sample_count
            == d.header.total_samples,
{
    crate::header::law_regular_frame_is_256_245_of_rate(d.header.sample_rate);
    crate::header::law_frames_cover_stream(d.header);
}

} // verus!
