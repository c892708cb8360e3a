//! Framework-facing codec and demuxer logic, on plain values.
//!
//! A host framework hands in packets, audio planes and whole files as bytes
//! and takes bytes back. What is decided in between stands here: which
//! parameters are acceptable, how samples are packed, how a file is cut into
//! one self-contained packet per frame, and where a seek lands.

use crate::bytes::{push_le32, push_slice};
use crate::crc32::crc32;
use crate::decode_spec;
use crate::decoder::{parse_stream, stream_prime, Decoder, StreamModel};
use crate::encoder::{encode, file_bytes, file_header};
use crate::error::Error;
use crate::header::{geometry, id3v2_skip, push_header, regular_samples};
use crate::header::{FrameDescriptor, StreamHeader, MAX_NCH, MAX_SAMPLE_RATE};
use crate::layout::{entries, file_of, joined, law_file_parses, lemma_block_window, parsed_file};
use crate::layout::sizes_fit;
use crate::lms::zero_taps;
use crate::pcm::{fits_width, law_unpack_round_trip, pack_width, packed, unpack_width, unpacked};
use crate::text::{decimal, push_decimal};
use std::collections::VecDeque;
use vstd::prelude::*;
use vstd::slice::slice_subrange;
use vstd::string::*;

verus! {

/// The codec id the framework knows this codec by.
pub const CODEC_ID_STR: &'static str = "tta";

/// Sample layouts the codec handles; anything else is `Other`.
#[derive(Debug, Clone, Copy, PartialEq, Eq, Structural)]
pub enum SampleLayout {
    /// Signed 16-bit little-endian.
    S16,
    /// Signed 24-bit little-endian, three bytes.
    S24,
    /// Any other layout.
    Other,
}

impl SampleLayout {
    /// Bytes per sample.
    pub open spec fn width(self) -> int {
        match self {
            SampleLayout::S16 => 2,
            _ => 3,
        }
    }

    /// Bits per sample.
    pub open spec fn bits(self) -> u16 {
        match self {
            SampleLayout::S16 => 16,
            _ => 24,
        }
    }
}

/// Which half of the codec an error comes from.
#[derive(Debug, Clone, Copy, PartialEq, Eq, Structural)]
pub enum Side {
    Decoder,
    Encoder,
}

/// Why a framework call failed.
#[derive(Debug, Clone, PartialEq, Eq)]
pub enum CallError {
    /// No packet is waiting; more input is needed.
    NeedMore,
    /// The stream has ended.
    Eof,
    /// The stream parameters carry no sample layout.
    MissingSampleLayout,
    /// The sample layout is not one the codec handles.
    UnsupportedSampleLayout(Side),
    /// The stream parameters carry no channel count.
    MissingChannels(Side),
    /// The channel count is outside `1..=6`.
    ChannelsOutOfRange(u16),
    /// The stream parameters carry no sample rate.
    MissingSampleRate,
    /// The sample rate is outside `1..=0x7FFFFF`.
    SampleRateOutOfRange(u32),
    /// A packet is already waiting to be decoded.
    PacketPending,
    /// The packet does not decode.
    Decode(Error),
    /// The packet's channel count is not the configured one.
    ChannelMismatch {
        /// The packet's channel count.
        stream: u16,
        /// The decoder's.
        configured: u16,
    },
    /// The packet's sample width is not the configured one.
    BitDepthMismatch {
        /// The packet's sample width.
        stream: u16,
        /// The decoder's.
        configured: u16,
    },
    /// An audio frame without a data plane.
    EmptyAudioFrame,
    /// A data plane that is not a whole number of samples of this width.
    RaggedPlane(usize),
    /// Buffered samples that are not a whole number of instants.
    RaggedSamples,
    /// The buffered samples do not encode.
    Encode(Error),
    /// The file's header does not parse.
    Header(Error),
    /// The file's seek table does not parse.
    SeekTable(Error),
    /// A frame's block does not lie within the file.
    FrameOutsideFile(usize),
    /// A stream index other than zero.
    NoSuchStream(u32),
    /// A seek in a stream without frames.
    NothingToSeek,
}

/// How the framework is to class an error.
#[derive(Debug, Clone, Copy, PartialEq, Eq, Structural)]
pub enum ErrorClass {
    /// More input is needed.
    NeedMore,
    /// The stream has ended.
    Eof,
    /// The data or the parameters are wrong.
    Invalid,
    /// The data or the parameters are right but not handled.
    Unsupported,
    /// Anything else.
    Other,
}

impl CallError {
    /// The class of an error.
    pub open spec fn class_spec(self) -> ErrorClass {
        match self {
            CallError::NeedMore => ErrorClass::NeedMore,
            CallError::Eof => ErrorClass::Eof,
            CallError::UnsupportedSampleLayout(_) => ErrorClass::Unsupported,
            CallError::NothingToSeek => ErrorClass::Unsupported,
            CallError::PacketPending => ErrorClass::Other,
            CallError::Encode(_) => ErrorClass::Other,
            _ => ErrorClass::Invalid,
        }
    }

    /// The class of this error.
    pub fn class(&self) -> (r: ErrorClass)
        ensures
            r == self.class_spec(),
    {
        match self {
            CallError::NeedMore => ErrorClass::NeedMore,
            CallError::Eof => ErrorClass::Eof,
            CallError::UnsupportedSampleLayout(_) => ErrorClass::Unsupported,
            CallError::NothingToSeek => ErrorClass::Unsupported,
            CallError::PacketPending => ErrorClass::Other,
            CallError::Encode(_) => ErrorClass::Other,
            _ => ErrorClass::Invalid,
        }
    }
}

impl CallError {
    /// The message for an error. A framework that knows the name of an
    /// unsupported sample layout appends it.
    pub open spec fn message_spec(self) -> Seq<char> {
        match self {
            CallError::NeedMore => "oxideav-tta: need more input"@,
            CallError::Eof => "oxideav-tta: end of stream"@,
            CallError::MissingSampleLayout => "oxideav-tta: sample_format missing on stream"@,
            CallError::UnsupportedSampleLayout(Side::Decoder) =>
                "oxideav-tta: unsupported output sample format "@,
            CallError::UnsupportedSampleLayout(Side::Encoder) =>
                "oxideav-tta encoder: unsupported sample format "@,
            CallError::MissingChannels(Side::Decoder) =>
                "oxideav-tta: channels missing on stream"@,
            CallError::MissingChannels(Side::Encoder) => "oxideav-tta encoder: missing channels"@,
            CallError::ChannelsOutOfRange(v) =>
                "oxideav-tta encoder: channels must be 1..=6 (got "@ + decimal(v as nat) + ")"@,
            CallError::MissingSampleRate => "oxideav-tta encoder: missing sample_rate"@,
            CallError::SampleRateOutOfRange(v) => "oxideav-tta encoder: sample_rate "@ + decimal(
                v as nat,
            ) + " outside 1..=0x7FFFFF"@,
            CallError::PacketPending =>
                "oxideav-tta: receive_frame must be called before sending another packet"@,
            CallError::Decode(e) => "oxideav-tta: "@ + e.message_spec(),
            CallError::ChannelMismatch { stream, configured } => "oxideav-tta: stream has "@
                + decimal(stream as nat) + " channels but decoder configured for "@ + decimal(
                configured as nat,
            ),
            CallError::BitDepthMismatch { stream, configured } => "oxideav-tta: stream has "@
                + decimal(stream as nat) + " bps but decoder configured for "@ + decimal(
                configured as nat,
            ),
            CallError::EmptyAudioFrame => "oxideav-tta encoder: empty audio frame"@,
            CallError::RaggedPlane(width) => if width == 2 {
                "oxideav-tta encoder: S16 buffer length is not a multiple of 2"@
            } else {
                "oxideav-tta encoder: S24 buffer length is not a multiple of 3"@
            },
            CallError::RaggedSamples =>
                "oxideav-tta encoder: accumulated PCM not a multiple of channel count"@,
            CallError::Encode(e) => "oxideav-tta encoder: "@ + e.message_spec(),
            CallError::Header(e) => "oxideav-tta demuxer: "@ + e.message_spec(),
            CallError::SeekTable(e) => "oxideav-tta demuxer: seek-table: "@ + e.message_spec(),
            CallError::FrameOutsideFile(i) => "oxideav-tta demuxer: frame "@ + decimal(i as nat)
                + " does not lie within the file"@,
            CallError::NoSuchStream(i) => "oxideav-tta: stream index "@ + decimal(i as nat)
                + " out of range (only stream 0 exists)"@,
            CallError::NothingToSeek => "oxideav-tta: cannot seek in a zero-frame stream"@,
        }
    }

    /// The message for this error.
    pub fn message(&self) -> (r: String)
        ensures
            r@ == self.message_spec(),
    {
        match self {
            CallError::NeedMore => String::from_str("oxideav-tta: need more input"),
            CallError::Eof => String::from_str("oxideav-tta: end of stream"),
            CallError::MissingSampleLayout => String::from_str(
                "oxideav-tta: sample_format missing on stream",
            ),
            CallError::UnsupportedSampleLayout(Side::Decoder) => String::from_str(
                "oxideav-tta: unsupported output sample format ",
            ),
            CallError::UnsupportedSampleLayout(Side::Encoder) => String::from_str(
                "oxideav-tta encoder: unsupported sample format ",
            ),
            CallError::MissingChannels(Side::Decoder) => String::from_str(
                "oxideav-tta: channels missing on stream",
            ),
            CallError::MissingChannels(Side::Encoder) => String::from_str(
                "oxideav-tta encoder: missing channels",
            ),
            CallError::ChannelsOutOfRange(v) => numbered(
                "oxideav-tta encoder: channels must be 1..=6 (got ",
                *v as u64,
                ")",
            ),
            CallError::MissingSampleRate => String::from_str(
                "oxideav-tta encoder: missing sample_rate",
            ),
            CallError::SampleRateOutOfRange(v) => numbered(
                "oxideav-tta encoder: sample_rate ",
                *v as u64,
                " outside 1..=0x7FFFFF",
            ),
            CallError::PacketPending => String::from_str(
                "oxideav-tta: receive_frame must be called before sending another packet",
            ),
            CallError::Decode(e) => String::from_str("oxideav-tta: ").concat(
                e.message().as_str(),
            ),
            CallError::ChannelMismatch { stream, configured } => {
                let mut out = numbered(
                    "oxideav-tta: stream has ",
                    *stream as u64,
                    " channels but decoder configured for ",
                );
                push_decimal(&mut out, *configured as u64);
                out
            },
            CallError::BitDepthMismatch { stream, configured } => {
                let mut out = numbered(
                    "oxideav-tta: stream has ",
                    *stream as u64,
                    " bps but decoder configured for ",
                );
                push_decimal(&mut out, *configured as u64);
                out
            },
            CallError::EmptyAudioFrame => String::from_str(
                "oxideav-tta encoder: empty audio frame",
            ),
            CallError::RaggedPlane(width) => if *width == 2 {
                String::from_str("oxideav-tta encoder: S16 buffer length is not a multiple of 2")
            } else {
                String::from_str("oxideav-tta encoder: S24 buffer length is not a multiple of 3")
            },
            CallError::RaggedSamples => String::from_str(
                "oxideav-tta encoder: accumulated PCM not a multiple of channel count",
            ),
            CallError::Encode(e) => String::from_str("oxideav-tta encoder: ").concat(
                e.message().as_str(),
            ),
            CallError::Header(e) => String::from_str("oxideav-tta demuxer: ").concat(
                e.message().as_str(),
            ),
            CallError::SeekTable(e) => String::from_str("oxideav-tta demuxer: seek-table: ").concat(
                e.message().as_str(),
            ),
            CallError::FrameOutsideFile(i) => numbered(
                "oxideav-tta demuxer: frame ",
                *i as u64,
                " does not lie within the file",
            ),
            CallError::NoSuchStream(i) => numbered(
                "oxideav-tta: stream index ",
                *i as u64,
                " out of range (only stream 0 exists)",
            ),
            CallError::NothingToSeek => String::from_str(
                "oxideav-tta: cannot seek in a zero-frame stream",
            ),
        }
    }
}

/// `head`, a number, and `tail`.
fn numbered(head: &str, n: u64, tail: &str) -> (r: String)
    ensures
        r@ == head@ + decimal(n as nat) + tail@,
{
    let mut out = String::from_str(head);
    push_decimal(&mut out, n);
    out.append(tail);
    out
}

/// Pack samples for a layout; a layout that is not handled is refused.
pub fn pcm_pack_for_format(samples: &[i32], layout: SampleLayout) -> (r: core::result::Result<
    Vec<u8>,
    CallError,
>)
    ensures
        match r {
            Ok(bytes) => layout != SampleLayout::Other && bytes@ == packed(
                samples@,
                layout.width(),
            ),
            Err(e) => layout == SampleLayout::Other && e == CallError::UnsupportedSampleLayout(
                Side::Decoder,
            ),
        },
{
    match layout {
        SampleLayout::S16 => Ok(pack_width(samples, false)),
        SampleLayout::S24 => Ok(pack_width(samples, true)),
        SampleLayout::Other => Err(CallError::UnsupportedSampleLayout(Side::Decoder)),
    }
}

/// A packet waiting to be decoded.
pub struct PendingPacket {
    /// A complete TTA1 file.
    pub data: Vec<u8>,
    /// Its presentation time.
    pub pts: Option<i64>,
}

/// A decoded packet.
pub struct AudioBlock {
    /// Samples per channel.
    pub samples: u32,
    /// The packet's presentation time.
    pub pts: Option<i64>,
    /// Packed interleaved samples.
    pub data: Vec<u8>,
}

/// Packet decoder: takes one packet at a time and hands out its samples.
pub struct TtaDecoder {
    /// Layout of the decoded samples.
    pub layout: SampleLayout,
    /// Expected channel count.
    pub channels: u16,
    /// Expected sample width.
    pub bits_per_sample: u16,
    /// The packet to decode next.
    pub pending: Option<PendingPacket>,
    /// Whether the end of input has been signalled.
    pub eof: bool,
}

/// Why a decoder cannot be made from these parameters, if so.
pub open spec fn decoder_error(layout: Option<SampleLayout>, channels: Option<u16>) -> Option<
    CallError,
> {
    match layout {
        None => Some(CallError::MissingSampleLayout),
        Some(SampleLayout::Other) => Some(CallError::UnsupportedSampleLayout(Side::Decoder)),
        Some(_) => match channels {
            None => Some(CallError::MissingChannels(Side::Decoder)),
            Some(_) => None,
        },
    }
}

/// Make a packet decoder from stream parameters.
pub fn make_decoder(layout: Option<SampleLayout>, channels: Option<u16>) -> (r:
    core::result::Result<TtaDecoder, CallError>)
    ensures
        match r {
            Ok(d) => {
                &&& decoder_error(layout, channels) is None
                &&& Some(d.layout) == layout
                &&& Some(d.channels) == channels
                &&& d.bits_per_sample == d.layout.bits()
                &&& d.pending is None
                &&& !d.eof
            },
            Err(e) => decoder_error(layout, channels) == Some(e),
        },
{
    let layout = match layout {
        Some(l) => l,
        None => {
            return Err(CallError::MissingSampleLayout);
        },
    };
    let bits_per_sample: u16 = match layout {
        SampleLayout::S16 => 16,
        SampleLayout::S24 => 24,
        SampleLayout::Other => {
            return Err(CallError::UnsupportedSampleLayout(Side::Decoder));
        },
    };
    let channels: u16 = match channels {
        Some(c) => c,
        None => {
            return Err(CallError::MissingChannels(Side::Decoder));
        },
    };
    Ok(TtaDecoder { layout, channels, bits_per_sample, pending: None, eof: false })
}

/// What a decoder hands out for a packet.
pub open spec fn packet_result(
    data: Seq<u8>,
    layout: SampleLayout,
    channels: u16,
    bits_per_sample: u16,
) -> core::result::Result<(u32, Seq<u8>), CallError> {
    match decode_spec(data, None) {
        Err(e) => Err(CallError::Decode(e)),
        Ok((h, pcm)) => if h.channels != channels {
            Err(CallError::ChannelMismatch { stream: h.channels, configured: channels })
        } else if h.bits_per_sample != bits_per_sample {
            Err(
                CallError::BitDepthMismatch {
                    stream: h.bits_per_sample,
                    configured: bits_per_sample,
                },
            )
        } else if layout == SampleLayout::Other {
            Err(CallError::UnsupportedSampleLayout(Side::Decoder))
        } else {
            Ok((h.total_samples, packed(pcm, layout.width())))
        },
    }
}

impl TtaDecoder {
    /// Hand in a packet. Refused while another one waits.
    pub fn send_packet(&mut self, data: Vec<u8>, pts: Option<i64>) -> (r: core::result::Result<
        (),
        CallError,
    >)
        ensures
            match old(self).pending {
                Some(_) => r == Err::<(), CallError>(CallError::PacketPending) && *final(self)
                    == *old(self),
                None => r is Ok && *final(self) == (TtaDecoder {
                    pending: Some(PendingPacket { data, pts }),
                    ..*old(self)
                }),
            },
    {
        if self.pending.is_some() {
            return Err(CallError::PacketPending);
        }
        self.pending = Some(PendingPacket { data, pts });
        Ok(())
    }

    /// Decode the waiting packet.
    pub fn receive_frame(&mut self) -> (r: core::result::Result<AudioBlock, CallError>)
        ensures
            *final(self) == (TtaDecoder { pending: None, ..*old(self) }),
            match old(self).pending {
                None => r == Err::<AudioBlock, CallError>(
                    if old(self).eof {
                        CallError::Eof
                    } else {
                        CallError::NeedMore
                    },
                ),
                Some(packet) => match r {
                    Ok(block) => {
                        &&& packet_result(
                            packet.data@,
                            old(self).layout,
                            old(self).channels,
                            old(self).bits_per_sample,
                        ) == Ok::<(u32, Seq<u8>), CallError>((block.samples, block.data@))
                        &&& block.pts == packet.pts
                    },
                    Err(e) => packet_result(
                        packet.data@,
                        old(self).layout,
                        old(self).channels,
                        old(self).bits_per_sample,
                    ) == Err::<(u32, Seq<u8>), CallError>(e),
                },
            },
    {
        let packet = match self.pending.take() {
            Some(p) => p,
            None => {
                return if self.eof {
                    Err(CallError::Eof)
                } else {
                    Err(CallError::NeedMore)
                };
            },
        };
        let (info, samples) = match crate::decode(packet.data.as_slice()) {
            Ok(decoded) => decoded,
            Err(e) => {
                return Err(CallError::Decode(e));
            },
        };
        if info.channels != self.channels {
            return Err(
                CallError::ChannelMismatch { stream: info.channels, configured: self.channels },
            );
        }
        if info.bits_per_sample != self.bits_per_sample {
            return Err(
                CallError::BitDepthMismatch {
                    stream: info.bits_per_sample,
                    configured: self.bits_per_sample,
                },
            );
        }
        match pcm_pack_for_format(samples.as_slice(), self.layout) {
            Ok(data) => Ok(AudioBlock { samples: info.total_samples, pts: packet.pts, data }),
            Err(e) => Err(e),
        }
    }

    /// Signal the end of input.
    pub fn flush(&mut self)
        ensures
            *final(self) == (TtaDecoder { eof: true, ..*old(self) }),
    {
        self.eof = true;
    }
}

/// A packet made by the encoder or cut out by the demuxer.
pub struct MediaPacket {
    /// A complete TTA1 file.
    pub data: Vec<u8>,
    /// Presentation time, in samples.
    pub pts: i64,
    /// Samples per channel.
    pub duration: i64,
}

/// Packet encoder: buffers samples and makes one file of them at the end.
pub struct TtaEncoder {
    /// Layout of the incoming samples.
    pub layout: SampleLayout,
    pub channels: u16,
    pub bits_per_sample: u16,
    pub sample_rate: u32,
    /// Buffered interleaved samples.
    pub interleaved: Vec<i32>,
    /// Packets ready to be handed out.
    pub pending: VecDeque<MediaPacket>,
    /// Presentation time of the next packet.
    pub next_pts: i64,
    /// Whether the end of input has been dealt with.
    pub eof: bool,
}

/// Why an encoder cannot be made from these parameters, if so. Without a
/// layout, 16-bit samples are taken.
pub open spec fn encoder_error(
    layout: Option<SampleLayout>,
    channels: Option<u16>,
    sample_rate: Option<u32>,
) -> Option<CallError> {
    if layout == Some(SampleLayout::Other) {
        Some(CallError::UnsupportedSampleLayout(Side::Encoder))
    } else {
        match channels {
            None => Some(CallError::MissingChannels(Side::Encoder)),
            Some(c) => if !(1 <= c <= MAX_NCH) {
                Some(CallError::ChannelsOutOfRange(c))
            } else {
                match sample_rate {
                    None => Some(CallError::MissingSampleRate),
                    Some(s) => if !(1 <= s <= MAX_SAMPLE_RATE) {
                        Some(CallError::SampleRateOutOfRange(s))
                    } else {
                        None
                    },
                }
            },
        }
    }
}

/// Make a packet encoder from stream parameters.
pub fn make_encoder(
    layout: Option<SampleLayout>,
    channels: Option<u16>,
    sample_rate: Option<u32>,
) -> (r: core::result::Result<TtaEncoder, CallError>)
    ensures
        match r {
            Ok(e) => {
                &&& encoder_error(layout, channels, sample_rate) is None
                &&& e.wf()
                &&& e.layout == match layout {
                    Some(l) => l,
                    None => SampleLayout::S16,
                }
                &&& Some(e.channels) == channels
                &&& Some(e.sample_rate) == sample_rate
                &&& e.interleaved@.len() == 0
                &&& e.pending@.len() == 0
                &&& e.next_pts == 0
                &&& !e.eof
            },
            Err(e) => encoder_error(layout, channels, sample_rate) == Some(e),
        },
{
    let layout = match layout {
        Some(l) => l,
        None => SampleLayout::S16,
    };
    let bits_per_sample: u16 = match layout {
        SampleLayout::S16 => 16,
        SampleLayout::S24 => 24,
        SampleLayout::Other => {
            return Err(CallError::UnsupportedSampleLayout(Side::Encoder));
        },
    };
    let channels: u16 = match channels {
        Some(c) => c,
        None => {
            return Err(CallError::MissingChannels(Side::Encoder));
        },
    };
    if channels == 0 || channels > MAX_NCH {
        return Err(CallError::ChannelsOutOfRange(channels));
    }
    let sample_rate: u32 = match sample_rate {
        Some(s) => s,
        None => {
            return Err(CallError::MissingSampleRate);
        },
    };
    if sample_rate == 0 || sample_rate > MAX_SAMPLE_RATE {
        return Err(CallError::SampleRateOutOfRange(sample_rate));
    }
    Ok(
        TtaEncoder {
            layout,
            channels,
            bits_per_sample,
            sample_rate,
            interleaved: Vec::new(),
            pending: VecDeque::new(),
            next_pts: 0,
            eof: false,
        },
    )
}

/// A length held at the largest presentation time.
pub open spec fn clamp_pts(n: int) -> int {
    if n > i64::MAX {
        i64::MAX as int
    } else {
        n
    }
}

impl TtaEncoder {
    /// The parameters are the ones `make_encoder` accepts.
    pub open spec fn wf(&self) -> bool {
        &&& self.layout != SampleLayout::Other
        &&& self.bits_per_sample == self.layout.bits()
        &&& 1 <= self.channels <= MAX_NCH
        &&& 1 <= self.sample_rate <= MAX_SAMPLE_RATE
        &&& self.next_pts >= 0
    }

    /// Everything but the sample buffer and the packet queue is unchanged.
    pub open spec fn same_setup(&self, other: &TtaEncoder) -> bool {
        &&& self.layout == other.layout
        &&& self.channels == other.channels
        &&& self.bits_per_sample == other.bits_per_sample
        &&& self.sample_rate == other.sample_rate
    }

    /// Buffer the samples of an audio frame's data plane.
    pub fn ingest_frame(&mut self, plane: Option<&[u8]>) -> (r: core::result::Result<
        (),
        CallError,
    >)
        requires
            old(self).wf(),
        ensures
            final(self).wf(),
            final(self).same_setup(old(self)),
            final(self).pending == old(self).pending,
            final(self).next_pts == old(self).next_pts,
            final(self).eof == old(self).eof,
            match plane {
                None => {
                    &&& r == Err::<(), CallError>(CallError::EmptyAudioFrame)
                    &&& final(self).interleaved == old(self).interleaved
                },
                Some(data) => if data@.len() as int % old(self).layout.width() != 0 {
                    &&& r == Err::<(), CallError>(
                        CallError::RaggedPlane(old(self).layout.width() as usize),
                    )
                    &&& final(self).interleaved == old(self).interleaved
                } else {
                    &&& r is Ok
                    &&& final(self).interleaved@ == old(self).interleaved@ + unpacked(
                        data@,
                        old(self).layout.width(),
                    )
                },
            },
    {
        let data = match plane {
            Some(d) => d,
            None => {
                return Err(CallError::EmptyAudioFrame);
            },
        };
        let three = match self.layout {
            SampleLayout::S16 => false,
            _ => true,
        };
        let width: usize = if three {
            3
        } else {
            2
        };
        if data.len() % width != 0 {
            return Err(CallError::RaggedPlane(width));
        }
        let mut samples: Vec<i32> = unpack_width(data, three);
        self.interleaved.append(&mut samples);
        Ok(())
    }

    /// Encode the buffered samples into one packet.
    fn flush_to_packet(&mut self) -> (r: core::result::Result<(), CallError>)
        requires
            old(self).wf(),
        ensures
            final(self).wf(),
            final(self).same_setup(old(self)),
            final(self).eof == old(self).eof,
            flushed(*old(self), *final(self), r),
    {
        if self.interleaved.len() == 0 {
            return Ok(());
        }
        let nch: usize = self.channels as usize;
        if self.interleaved.len() % nch != 0 {
            return Err(CallError::RaggedSamples);
        }
        let per_channel: usize = self.interleaved.len() / nch;
        let duration: i64 = if per_channel as u64 > i64::MAX as u64 {
            i64::MAX
        } else {
            per_channel as i64
        };
        let data: Vec<u8> = match encode(
            self.interleaved.as_slice(),
            self.channels,
            self.bits_per_sample,
            self.sample_rate,
        ) {
            Ok(data) => data,
            Err(e) => {
                return Err(CallError::Encode(e));
            },
        };
        self.pending.push_back(MediaPacket { data, pts: self.next_pts, duration });
        assert(self.pending@.drop_last() =~= old(self).pending@);
        self.next_pts = match self.next_pts.checked_add(duration) {
            Some(next) => next,
            None => i64::MAX,
        };
        self.interleaved.clear();
        Ok(())
    }

    /// Hand out the next packet.
    pub fn receive_packet(&mut self) -> (r: core::result::Result<MediaPacket, CallError>)
        ensures
            final(self).same_setup(old(self)),
            final(self).interleaved == old(self).interleaved,
            final(self).next_pts == old(self).next_pts,
            final(self).eof == old(self).eof,
            if old(self).pending@.len() == 0 {
                &&& final(self).pending@ == old(self).pending@
                &&& r == Err::<MediaPacket, CallError>(
                    if old(self).eof {
                        CallError::Eof
                    } else {
                        CallError::NeedMore
                    },
                )
            } else {
                &&& r == Ok::<MediaPacket, CallError>(old(self).pending@[0])
                &&& final(self).pending@ == old(self).pending@.skip(1)
            },
    {
        match self.pending.pop_front() {
            Some(packet) => {
                assert(self.pending@ =~= old(self).pending@.skip(1));
                Ok(packet)
            },
            None => if self.eof {
                Err(CallError::Eof)
            } else {
                Err(CallError::NeedMore)
            },
        }
    }

    /// Deal with the end of input: encode what is buffered, once.
    pub fn flush(&mut self) -> (r: core::result::Result<(), CallError>)
        requires
            old(self).wf(),
        ensures
            final(self).wf(),
            final(self).same_setup(old(self)),
            if old(self).eof {
                r is Ok && *final(self) == *old(self)
            } else {
                &&& flushed(*old(self), *final(self), r)
                &&& final(self).eof == (r is Ok)
            },
    {
        if !self.eof {
            match self.flush_to_packet() {
                Ok(_) => {
                    self.eof = true;
                },
                Err(e) => {
                    return Err(e);
                },
            }
        }
        Ok(())
    }
}

/// What flushing an encoder does: nothing without samples, an error for a
/// ragged buffer, and otherwise one packet holding the encoded file.
pub open spec fn flushed(
    before: TtaEncoder,
    after: TtaEncoder,
    r: core::result::Result<(), CallError>,
) -> bool {
    let len = before.interleaved@.len() as int;
    let per_channel = clamp_pts(len / before.channels as int);
    if len == 0 {
        &&& r is Ok
        &&& after.interleaved@ == before.interleaved@
        &&& after.pending@ == before.pending@
        &&& after.next_pts == before.next_pts
    } else if len % before.channels as int != 0 {
        &&& r == Err::<(), CallError>(CallError::RaggedSamples)
        &&& after.interleaved@ == before.interleaved@
        &&& after.pending@ == before.pending@
        &&& after.next_pts == before.next_pts
    } else {
        &&& r is Ok
        &&& after.interleaved@.len() == 0
        &&& after.pending@.len() == before.pending@.len() + 1
        &&& after.pending@.drop_last() == before.pending@
        &&& after.pending@.last().data@ == file_bytes(
            before.interleaved@,
            file_header(
                1,
                len,
                before.channels,
                before.bits_per_sample,
                before.sample_rate,
            ),
            zero_taps(),
        )
        &&& after.pending@.last().pts == before.next_pts
        &&& after.pending@.last().duration == per_channel
        &&& after.next_pts == clamp_pts(before.next_pts + per_channel)
    }
}

/// Whether the four bytes at `at` spell the stream magic.
pub open spec fn magic_at(buf: Seq<u8>, at: int) -> bool {
    &&& at + 4 <= buf.len()
    &&& buf[at] == 0x54
    &&& buf[at + 1] == 0x54
    &&& buf[at + 2] == 0x41
    &&& buf[at + 3] == 0x31
}

/// The tag size a probe reads: the four size bytes at seven bits' distance.
pub open spec fn probe_tag_size(buf: Seq<u8>) -> u32 {
    ((buf[6] as u32) << 21) | ((buf[7] as u32) << 14) | ((buf[8] as u32) << 7) | (buf[9] as u32)
}

/// How sure a probe is that the bytes start a TTA1 file.
pub open spec fn probe_score(buf: Seq<u8>) -> u8 {
    if magic_at(buf, 0) {
        100
    } else if buf.len() >= 14 && buf[0] == 0x49 && buf[1] == 0x44 && buf[2] == 0x33 && magic_at(
        buf,
        10 + probe_tag_size(buf),
    ) {
        100
    } else {
        0
    }
}

fn is_magic_at(buf: &[u8], at: usize) -> (r: bool)
    requires
        at <= 0x8000_0000,
    ensures
        r == magic_at(buf@, at as int),
{
    at + 4 <= buf.len() && buf[at] == 0x54 && buf[at + 1] == 0x54 && buf[at + 2] == 0x41 && buf[at
        + 3] == 0x31
}

/// Score the first bytes of a file: 100 where they start a TTA1 file, with or
/// without an ID3v2 tag in front, and 0 otherwise.
pub fn probe(buf: &[u8]) -> (r: u8)
    ensures
        r == probe_score(buf@),
{
    if is_magic_at(buf, 0) {
        return 100;
    }
    if buf.len() >= 14 && buf[0] == 0x49 && buf[1] == 0x44 && buf[2] == 0x33 {
        let b6: u32 = buf[6] as u32;
        let b7: u32 = buf[7] as u32;
        let b8: u32 = buf[8] as u32;
        let b9: u32 = buf[9] as u32;
        let size: u32 = (b6 << 21) | (b7 << 14) | (b8 << 7) | b9;
        proof {
            lemma_probed_size(b6, b7, b8, b9);
        }
        if is_magic_at(buf, 10 + size as usize) {
            return 100;
        }
    }
    0
}

/// The size a probe reads is bounded, and where no size byte has its top bit
/// set it is the number of seven-bit digits that they spell.
pub proof fn lemma_probed_size(b6: u32, b7: u32, b8: u32, b9: u32)
    requires
        b6 < 256,
        b7 < 256,
        b8 < 256,
        b9 < 256,
    ensures
        (b6 << 21) | (b7 << 14) | (b8 << 7) | b9 < 0x2000_0000,
        b6 < 128 && b7 < 128 && b8 < 128 && b9 < 128 ==> (b6 << 21) | (b7 << 14) | (b8 << 7) | b9
            == 0x20_0000 * b6 + 0x4000 * b7 + 0x80 * b8 + b9,
{
    assert((b6 << 21) | (b7 << 14) | (b8 << 7) | b9 < 0x2000_0000 && (b6 < 128 && b7 < 128 && b8
        < 128 && b9 < 128 ==> (b6 << 21) | (b7 << 14) | (b8 << 7) | b9 == 0x20_0000 * b6 + 0x4000
        * b7 + 0x80 * b8 + b9)) by (bit_vector)
        requires
            b6 < 256,
            b7 < 256,
            b8 < 256,
            b9 < 256,
    ;
}

/// Demuxer: cuts a file into one self-contained packet per frame.
pub struct TtaDemuxer {
    /// The whole file.
    pub all: Vec<u8>,
    pub header: StreamHeader,
    pub frames: Vec<FrameDescriptor>,
    /// Layout of the stream's samples.
    pub layout: SampleLayout,
    /// Samples per channel in every frame but possibly the last.
    pub regular_samples: i64,
    /// Index of the next frame.
    pub current_frame: usize,
    /// Presentation time of the next packet, in samples.
    pub next_pts: i64,
    /// Playing time in microseconds, rounded down.
    pub duration_micros: i64,
}

/// The first frame, from frame `i` on, whose block does not lie within the
/// file.
pub open spec fn first_outside(m: StreamModel, i: int) -> Option<int>
    decreases m.frames.len() - i,
{
    if i >= m.frames.len() {
        None
    } else if m.frames[i].file_offset + m.frames[i].disk_size > m.bytes.len() {
        Some(i)
    } else {
        first_outside(m, i + 1)
    }
}

/// Why a file cannot be demuxed, if so. No password is asked for.
pub open spec fn demux_error(bytes: Seq<u8>) -> Option<CallError> {
    match parse_stream(bytes, Some(Seq::empty())) {
        Err(e) => if header_parses(bytes) {
            Some(CallError::SeekTable(e))
        } else {
            Some(CallError::Header(e))
        },
        Ok(m) => match first_outside(m, 0) {
            Some(i) => Some(CallError::FrameOutsideFile(i as usize)),
            None => None,
        },
    }
}

/// Whether the file has a valid stream header.
pub open spec fn header_parses(bytes: Seq<u8>) -> bool {
    match id3v2_skip(bytes) {
        Ok(skip) => crate::header::parse_header(bytes.skip(skip)) is Ok,
        Err(_) => false,
    }
}

/// The header of a packet holding one frame.
pub open spec fn packet_header(h: StreamHeader, fd: FrameDescriptor) -> StreamHeader {
    StreamHeader { total_samples: fd.sample_count, ..h }
}

impl TtaDemuxer {
    /// The stream as parsed, with no password.
    pub open spec fn stream(&self) -> StreamModel {
        StreamModel {
            header: self.header,
            frames: self.frames@,
            seekable: false,
            bytes: self.all@,
            prime: zero_taps(),
        }
    }

    /// The frames are cut as the header says and lie within the file, and the
    /// presentation time belongs to the next frame.
    pub open spec fn wf(&self) -> bool {
        &&& self.header.in_scope()
        &&& self.regular_samples == regular_samples(self.header.sample_rate)
        &&& self.frames@.len() == self.header.geometry().0
        &&& self.current_frame <= self.frames@.len()
        &&& self.next_pts == self.current_frame * self.regular_samples
        &&& forall|i: int|
            0 <= i < self.frames@.len() ==> {
                let fd = #[trigger] self.frames@[i];
                &&& fd.file_offset + fd.disk_size <= self.all@.len()
                &&& fd.sample_count == crate::encoder::frame_samples(self.header, i)
            }
    }

    /// The packet for a frame: a file with the same parameters that holds
    /// that frame alone, byte for byte.
    pub open spec fn packet_data(&self, i: int) -> Seq<u8> {
        let fd = self.frames@[i];
        file_of(
            packet_header(self.header, fd),
            seq![self.all@.subrange(fd.file_offset as int, fd.file_offset + fd.disk_size)],
        )
    }

    fn build_single_frame_file(&self, frame_idx: usize) -> (out: Vec<u8>)
        requires
            self.wf(),
            frame_idx < self.frames@.len(),
        ensures
            out@ == self.packet_data(frame_idx as int),
    {
        let frame = self.frames[frame_idx];
        assert(frame.file_offset + frame.disk_size <= self.all.len());
        let from: usize = frame.file_offset as usize;
        let to: usize = (frame.file_offset + frame.disk_size as u64) as usize;
        let frame_bytes = slice_subrange(self.all.as_slice(), from, to);
        let ghost blocks = seq![frame_bytes@];
        let header = StreamHeader { total_samples: frame.sample_count, ..self.header };
        let mut out: Vec<u8> = Vec::new();
        push_header(&mut out, &header);
        let mut table: Vec<u8> = Vec::new();
        push_le32(&mut table, frame.disk_size);
        proof {
            lemma_single_block(frame_bytes@);
            assert(table@ =~= crate::bytes::le32_bytes(frame.disk_size));
        }
        let seek_crc: u32 = crc32(table.as_slice());
        push_le32(&mut table, seek_crc);
        out.append(&mut table);
        push_slice(&mut out, frame_bytes);
        assert(out@ =~= file_of(header, blocks));
        out
    }

    /// Cut out the next frame.
    pub fn next_packet(&mut self) -> (r: core::result::Result<MediaPacket, CallError>)
        requires
            old(self).wf(),
        ensures
            final(self).wf(),
            final(self).stream() == old(self).stream(),
            final(self).layout == old(self).layout,
            final(self).duration_micros == old(self).duration_micros,
            if old(self).current_frame >= old(self).frames@.len() {
                r == Err::<MediaPacket, CallError>(CallError::Eof) && *final(self) == *old(self)
            } else {
                &&& r matches Ok(p)
                &&& p.data@ == old(self).packet_data(old(self).current_frame as int)
                &&& p.pts == old(self).next_pts
                &&& p.duration == old(self).frames@[old(self).current_frame as int].sample_count
                &&& final(self).current_frame == old(self).current_frame + 1
                &&& final(self).next_pts == old(self).next_pts + old(self).regular_samples
            },
    {
        if self.current_frame >= self.frames.len() {
            return Err(CallError::Eof);
        }
        let idx: usize = self.current_frame;
        let duration: i64 = self.frames[idx].sample_count as i64;
        let data: Vec<u8> = self.build_single_frame_file(idx);
        let pts: i64 = self.next_pts;
        proof {
            lemma_pts_bound(self.header, idx + 1);
            assert((idx + 1) * self.regular_samples == idx * self.regular_samples
                + self.regular_samples) by (nonlinear_arith);
        }
        self.current_frame = idx + 1;
        self.next_pts = pts + self.regular_samples;
        Ok(MediaPacket { data, pts, duration })
    }

    /// Go to the frame that holds a presentation time: times before the
    /// start go to the first frame, times past the end to the last. Returns
    /// the time of that frame's first sample.
    pub fn seek_to(&mut self, stream_index: u32, pts: i64) -> (r: core::result::Result<
        i64,
        CallError,
    >)
        requires
            old(self).wf(),
        ensures
            final(self).wf(),
            final(self).stream() == old(self).stream(),
            final(self).layout == old(self).layout,
            final(self).duration_micros == old(self).duration_micros,
            if stream_index != 0 {
                &&& r == Err::<i64, CallError>(CallError::NoSuchStream(stream_index))
                &&& *final(self) == *old(self)
            } else if old(self).frames@.len() == 0 {
                r == Err::<i64, CallError>(CallError::NothingToSeek) && *final(self) == *old(self)
            } else {
                &&& r == Ok::<i64, CallError>(final(self).next_pts)
                &&& final(self).current_frame == seek_frame(
                    pts as int,
                    old(self).regular_samples as int,
                    old(self).frames@.len() as int,
                )
                &&& final(self).next_pts == final(self).current_frame
                    * old(self).regular_samples
            },
    {
        if stream_index != 0 {
            return Err(CallError::NoSuchStream(stream_index));
        }
        let n: usize = self.frames.len();
        if n == 0 || self.regular_samples == 0 {
            return Err(CallError::NothingToSeek);
        }
        let wanted: u64 = if pts < 0 {
            0
        } else {
            pts as u64
        };
        let frame: u64 = wanted / (self.regular_samples as u64);
        let target: usize = if frame >= n as u64 {
            n - 1
        } else {
            frame as usize
        };
        proof {
            lemma_pts_bound(self.header, target as int);
        }
        let landed: i64 = target as i64 * self.regular_samples;
        self.current_frame = target;
        self.next_pts = landed;
        Ok(landed)
    }

    /// Playing time in microseconds, rounded down.
    pub fn duration_micros(&self) -> (r: i64)
        ensures
            r == self.duration_micros,
    {
        self.duration_micros
    }
}

/// The frame a presentation time falls into, clamped to the stream.
pub open spec fn seek_frame(pts: int, regular: int, frames: int) -> int {
    let wanted = if pts < 0 {
        0
    } else {
        pts
    };
    if wanted / regular >= frames {
        frames - 1
    } else {
        wanted / regular
    }
}

/// Presentation times stay far below the 64-bit limit.
proof fn lemma_pts_bound(h: StreamHeader, i: int)
    requires
        h.in_scope(),
        0 <= i <= h.geometry().0,
    ensures
        0 <= i * regular_samples(h.sample_rate) <= 0x2_0000_0000,
        i <= 0xFFFF_FFFF,
{
    let regular = regular_samples(h.sample_rate) as int;
    let total = h.total_samples as int;
    let n = h.geometry().0 as int;
    assert(regular >= 1);
    if total == 0 {
        assert(i * regular == 0) by (nonlinear_arith)
            requires
                i == 0,
        ;
    } else {
        crate::encoder::lemma_geometry_sum(h.total_samples, regular_samples(h.sample_rate));
        let last = h.geometry().1 as int;
        assert(0 <= i * regular <= 0x2_0000_0000) by (nonlinear_arith)
            requires
                0 <= i <= n,
                (n - 1) * regular + last == total,
                0 < last,
                total <= 0xFFFF_FFFF,
                1 <= regular <= 0xFFFF_FFFF,
        ;
    }
}

/// The table and the content of a file with a single block.
proof fn lemma_single_block(block: Seq<u8>)
    requires
        block.len() <= u32::MAX,
    ensures
        entries(seq![block], 1) == crate::bytes::le32_bytes(block.len() as u32),
        joined(seq![block], 1) == block,
{
    let blocks = seq![block];
    assert(entries(blocks, 0) =~= Seq::<u8>::empty());
    assert(joined(blocks, 0) =~= Seq::<u8>::empty());
    assert(block.len() % 0x1_0000_0000 == block.len());
    assert(entries(blocks, 1) =~= crate::bytes::le32_bytes(block.len() as u32));
    assert(joined(blocks, 1) =~= block);
}

/// Open a file for demuxing. Every frame's block must lie within the file.
pub fn open_demuxer(all: Vec<u8>) -> (r: core::result::Result<TtaDemuxer, CallError>)
    ensures
        match r {
            Ok(d) => {
                &&& demux_error(all@) is None
                &&& d.wf()
                &&& d.all == all
                &&& match parse_stream(all@, Some(Seq::empty())) {
                    Ok(m) => d.header == m.header && d.frames@ == m.frames,
                    Err(_) => false,
                }
                &&& d.layout == if d.header.bits_per_sample == 16 {
                    SampleLayout::S16
                } else {
                    SampleLayout::S24
                }
                &&& d.current_frame == 0
                &&& d.next_pts == 0
                &&& d.duration_micros == d.header.total_samples * 1_000_000
                    / d.header.sample_rate as int
            },
            Err(e) => demux_error(all@) == Some(e),
        },
{
    let bytes = all.as_slice();
    let no_password = slice_subrange(bytes, 0, 0);
    assert(no_password@ =~= Seq::<u8>::empty());
    let skip: usize = match crate::header::skip_id3v2_prefix(bytes) {
        Ok(skip) => skip,
        Err(e) => {
            return Err(CallError::Header(e));
        },
    };
    let after = slice_subrange(bytes, skip, bytes.len());
    assert(after@ =~= bytes@.skip(skip as int));
    match crate::header::parse_stream_header_any_format(after) {
        Ok(_) => {},
        Err(e) => {
            return Err(CallError::Header(e));
        },
    }
    let parsed = match Decoder::new_with_password(bytes, no_password) {
        Ok(d) => d,
        Err(e) => {
            return Err(CallError::SeekTable(e));
        },
    };
    let header = parsed.header;
    let frames: Vec<FrameDescriptor> = parsed.frames;
    let ghost m = parse_stream(all@, Some(Seq::empty()))->Ok_0;
    proof {
        crate::access_laws::law_parsed_streams_are_well_cut(all@, Some(Seq::empty()));
    }
    let len: u64 = bytes.len() as u64;
    let mut i: usize = 0;
    while i < frames.len()
        invariant
            i <= frames@.len(),
            frames@ == m.frames,
            m.bytes == all@,
            len == all@.len(),
            parse_stream(all@, Some(Seq::empty())) == Ok::<StreamModel, Error>(m),
            first_outside(m, 0) == first_outside(m, i as int),
            forall|j: int|
                0 <= j < i ==> (#[trigger] frames@[j]).file_offset + frames@[j].disk_size
                    <= all@.len(),
        decreases frames@.len() - i,
    {
        let fd = frames[i];
        let inside = match fd.file_offset.checked_add(fd.disk_size as u64) {
            Some(end) => end <= len,
            None => false,
        };
        if !inside {
            return Err(CallError::FrameOutsideFile(i));
        }
        i = i + 1;
    }
    let layout = if header.bits_per_sample == 16 {
        SampleLayout::S16
    } else {
        SampleLayout::S24
    };
    let micros: u64 = header.total_samples as u64 * 1_000_000 / header.sample_rate as u64;
    proof {
        let t = header.total_samples as int * 1_000_000;
        let s = header.sample_rate as int;
        assert(t / s <= t) by (nonlinear_arith)
            requires
                t >= 0,
                s >= 1,
        ;
        assert(0 * regular_samples(header.sample_rate) == 0) by (nonlinear_arith);
    }
    Ok(
        TtaDemuxer {
            header,
            frames,
            layout,
            regular_samples: header.regular_frame_samples() as i64,
            current_frame: 0,
            next_pts: 0,
            duration_micros: micros as i64,
            all,
        },
    )
}

/// A demuxed packet is a file in its own right, and decodes to exactly the
/// samples its frame has in the stream it was cut from.
#[verifier::rlimit(60)]
pub proof fn law_packet_decodes_to_frame(d: TtaDemuxer, i: int, password: Option<Seq<u8>>)
    requires
        d.wf(),
        0 <= i < d.frames@.len(),
        d.header.format == 2 ==> password is Some,
    ensures
        ({
            let m = StreamModel { prime: stream_prime(d.header.format, password), ..d.stream() };
            decode_spec(d.packet_data(i), password) == match m.frame(i) {
                Ok(pcm) => Ok::<(StreamHeader, Seq<i32>), Error>(
                    (packet_header(d.header, d.frames@[i]), pcm),
                ),
                Err(e) => Err::<(StreamHeader, Seq<i32>), Error>(e),
            }
        }),
{
    reveal(decode_spec);
    let fd = d.frames@[i];
    let prime = stream_prime(d.header.format, password);
    let m = StreamModel { prime, ..d.stream() };
    let h = packet_header(d.header, fd);
    let block = d.all@.subrange(fd.file_offset as int, fd.file_offset + fd.disk_size);
    let blocks = seq![block];
    let regular = regular_samples(h.sample_rate);
    crate::encoder::lemma_frame_fits(d.header, i);
    lemma_one_frame(fd.sample_count, regular);
    assert(h.geometry() == (1u32, fd.sample_count));
    lemma_single_block(block);
    crate::header::law_header_round_trip(h, Seq::empty());
    assert(file_of(h, blocks).len() == 30 + block.len());
    assert(sizes_fit(h, blocks));
    law_file_parses(h, blocks, password);
    lemma_block_window(h, blocks, 0);
    let p = parsed_file(h, blocks, prime);
    assert(p.frame(0) == m.frame(i));
    assert(p.run_from(1) == Ok::<Seq<i32>, Error>(Seq::empty()));
    match m.frame(i) {
        Ok(pcm) => {
            assert(pcm + Seq::<i32>::empty() =~= pcm);
        },
        Err(_) => {},
    }
}

/// A stream of at most one regular frame's samples has one frame.
proof fn lemma_one_frame(count: u32, regular: u32)
    requires
        0 < count <= regular,
    ensures
        geometry(count, regular) == (1u32, count),
{
    if count == regular {
        assert(count % regular == 0 && count / regular == 1) by (nonlinear_arith)
            requires
                count == regular,
                0 < count,
        ;
    } else {
        assert(count % regular == count && count / regular == 0) by (nonlinear_arith)
            requires
                0 < count < regular,
        ;
    }
}

/// A seek lands on the frame whose samples hold the presentation time.
pub proof fn law_demuxer_seek_contains(d: TtaDemuxer, pts: int)
    requires
        d.wf(),
        0 <= pts < d.header.total_samples,
    ensures
        ({
            let regular = d.regular_samples as int;
            let i = seek_frame(pts, regular, d.frames@.len() as int);
            &&& 0 <= i < d.frames@.len()
            &&& i * regular <= pts < i * regular + d.frames@[i].sample_count
        }),
{
    let regular = d.regular_samples as int;
    let n = d.frames@.len() as int;
    let q = pts / regular;
    crate::encoder::lemma_geometry_sum(
        d.header.total_samples,
        regular_samples(d.header.sample_rate),
    );
    let last = d.header.geometry().1 as int;
    let total = d.header.total_samples as int;
    vstd::arithmetic::div_mod::lemma_fundamental_div_mod(pts, regular);
    assert(q * regular <= pts < q * regular + regular && 0 <= q) by (nonlinear_arith)
        requires
            pts == regular * q + pts % regular,
            0 <= pts % regular < regular,
            0 <= pts,
            regular > 0,
            q == pts / regular,
    ;
    assert(q < n) by (nonlinear_arith)
        requires
            q * regular <= pts,
            pts < total,
            (n - 1) * regular + last == total,
            last <= regular,
            regular > 0,
    ;
    if q == n - 1 {
        assert(pts < q * regular + last);
    }
}

/// Where the whole stream decodes, the packets cut from it decode to its
/// successive pieces: packet `i` holds the samples of frame `i` and no
/// others.
pub proof fn law_packets_cover_stream(d: TtaDemuxer, i: int, password: Option<Seq<u8>>)
    requires
        d.wf(),
        0 <= i < d.frames@.len(),
        d.header.format == 2 ==> password is Some,
        (StreamModel {
            prime: stream_prime(d.header.format, password),
            ..d.stream()
        }).all() is Ok,
    ensures
        ({
            let m = StreamModel { prime: stream_prime(d.header.format, password), ..d.stream() };
            let from = crate::encoder::frame_entry(d.header, i);
            let to = from + crate::encoder::frame_samples(d.header, i) * d.header.channels;
            &&& 0 <= from <= to <= m.all()->Ok_0.len()
            &&& decode_spec(d.packet_data(i), password) == Ok::<(StreamHeader, Seq<i32>), Error>(
                (packet_header(d.header, d.frames@[i]), m.all()->Ok_0.subrange(from, to)),
            )
        }),
{
    let m = StreamModel { prime: stream_prime(d.header.format, password), ..d.stream() };
    assert(crate::access_laws::well_cut(m));
    law_packet_decodes_to_frame(d, i, password);
    crate::access_laws::law_frame_is_slice(m, i);
    crate::encoder::lemma_frame_fits(d.header, i);
}

/// Bytes in, bytes out: the packet an encoder makes of a data plane is
/// decoded to that very plane, as long as the encoded sizes fit.
pub proof fn law_codec_preserves_plane(
    plane: Seq<u8>,
    layout: SampleLayout,
    channels: u16,
    sample_rate: u32,
)
    requires
        layout != SampleLayout::Other,
        1 <= channels <= MAX_NCH,
        1 <= sample_rate <= MAX_SAMPLE_RATE,
        plane.len() as int % layout.width() == 0,
        unpacked(plane, layout.width()).len() as int % channels as int == 0,
        unpacked(plane, layout.width()).len() as int / channels as int <= u32::MAX,
        ({
            let samples = unpacked(plane, layout.width());
            let h = file_header(
                1,
                samples.len() as int,
                channels,
                layout.bits(),
                sample_rate,
            );
            sizes_fit(h, crate::encoder::file_block_list(samples, h, zero_taps()))
        }),
    ensures
        ({
            let samples = unpacked(plane, layout.width());
            let h = file_header(
                1,
                samples.len() as int,
                channels,
                layout.bits(),
                sample_rate,
            );
            packet_result(
                file_bytes(samples, h, zero_taps()),
                layout,
                channels,
                layout.bits(),
            ) == Ok::<(u32, Seq<u8>), CallError>(
                ((samples.len() as int / channels as int) as u32, plane),
            )
        }),
{
    let width = layout.width();
    let samples = unpacked(plane, width);
    let h = file_header(1, samples.len() as int, channels, layout.bits(), sample_rate);
    law_unpack_round_trip(plane, width);
    crate::round_trip::lemma_header_covers(samples.len() as int, h);
    lemma_width_is_moderate(samples, width);
    crate::round_trip::law_moderate_files_encodable(samples, h, zero_taps());
    crate::round_trip::law_plain_round_trip(samples, channels, layout.bits(), sample_rate);
    lemma_packet_result(file_bytes(samples, h, zero_taps()), layout, h, samples);
}

proof fn lemma_width_is_moderate(samples: Seq<i32>, width: int)
    requires
        forall|i: int| 0 <= i < samples.len() ==> fits_width(#[trigger] samples[i], width),
    ensures
        forall|i: int|
            0 <= i < samples.len() ==> -0x2000_0000 <= #[trigger] samples[i] <= 0x2000_0000,
{
    assert forall|i: int| 0 <= i < samples.len() implies -0x2000_0000 <= #[trigger] samples[i]
        <= 0x2000_0000 by {
        assert(fits_width(samples[i], width));
    }
}

/// What a packet that decodes and matches the configuration is turned into.
proof fn lemma_packet_result(
    data: Seq<u8>,
    layout: SampleLayout,
    h: StreamHeader,
    samples: Seq<i32>,
)
    requires
        decode_spec(data, None) == Ok::<(StreamHeader, Seq<i32>), Error>((h, samples)),
        layout != SampleLayout::Other,
    ensures
        packet_result(data, layout, h.channels, h.bits_per_sample) == Ok::<
            (u32, Seq<u8>),
            CallError,
        >((h.total_samples, packed(samples, layout.width()))),
{
}

} // verus!
