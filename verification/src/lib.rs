//! TTA1 lossless audio: encoder and decoder with machine-checked contracts.
//!
//! Decoding undoes encoding sample for sample. A stream is cut into frames
//! that decode on their own; within a frame each channel runs through
//! adaptive Rice coding, an adaptive predictor (Stage A) and a fixed one
//! (Stage B), and the channels of one instant are decorrelated together.

pub mod access_laws;
pub mod bitreader;
pub mod bits;
pub mod bitwriter;
pub mod bytes;
pub mod channel;
pub mod crc;
pub mod crc32;
pub mod damage_laws;
pub mod decoder;
pub mod decorr;
pub mod encoder;
pub mod error;
pub mod format_laws;
pub mod frame;
pub mod header;
pub mod layout;
pub mod lms;
pub mod password;
pub mod pcm;
pub mod reader_laws;
pub mod registry;
pub mod registry_laws;
pub mod rice;
pub mod round_trip;
pub mod stage_b;
pub mod stream_laws;
pub mod tables;
pub mod text;
pub mod time;
pub mod trace;
pub mod trace_laws;
pub mod trailers;

pub use crate::decoder::{decode_frame, Decoder, FrameIter, SeekPoint};
pub use crate::encoder::{encode, encode_with_password};
pub use crate::error::{Error, Result};
pub use crate::header::{FrameDescriptor, StreamHeader};
pub use crate::pcm::pack_pcm;
pub use crate::trailers::{detect_trailers, ApeV2Range, Id3v1Range, TrailerInfo};

use crate::decoder::{parse_stream, StreamModel};
use crate::header::{id3v2_skip, seek_table_len, HEADER_LEN};
use crate::trailers::trailers;
use vstd::prelude::*;
use vstd::slice::slice_subrange;

verus! {

/// The parsed stream header under its reader-facing name.
pub type StreamInfo = StreamHeader;

/// What decoding a whole file gives: its header and samples, or the first
/// error.
#[verifier::opaque]
pub open spec fn decode_spec(bytes: Seq<u8>, password: Option<Seq<u8>>) -> core::result::Result<
    (StreamHeader, Seq<i32>),
    Error,
> {
    match parse_stream(bytes, password) {
        Ok(m) => match m.all() {
            Ok(pcm) => Ok((m.header, pcm)),
            Err(e) => Err(e),
        },
        Err(e) => Err(e),
    }
}

/// Decode a whole file of the plain format into its header and interleaved
/// samples (`c0_s0, c1_s0, ..., c0_s1, c1_s1, ...`).
pub fn decode(bytes: &[u8]) -> (r: Result<(StreamInfo, Vec<i32>)>)
    ensures
        match r {
            Ok((info, pcm)) => decode_spec(bytes@, None) == Ok::<(StreamHeader, Seq<i32>), Error>(
                (info, pcm@),
            ),
            Err(e) => decode_spec(bytes@, None) == Err::<(StreamHeader, Seq<i32>), Error>(e),
        },
{
    proof {
        reveal(decode_spec);
    }
    let dec = match Decoder::new(bytes) {
        Ok(d) => d,
        Err(e) => {
            return Err(e);
        },
    };
    match dec.decode_all() {
        Ok(pcm) => Ok((dec.header, pcm)),
        Err(e) => Err(e),
    }
}

/// Decode a whole file of either format. On a plain file the password has no
/// effect.
pub fn decode_with_password(bytes: &[u8], password: &[u8]) -> (r: Result<(StreamInfo, Vec<i32>)>)
    ensures
        match r {
            Ok((info, pcm)) => decode_spec(bytes@, Some(password@)) == Ok::<
                (StreamHeader, Seq<i32>),
                Error,
            >((info, pcm@)),
            Err(e) => decode_spec(bytes@, Some(password@)) == Err::<
                (StreamHeader, Seq<i32>),
                Error,
            >(e),
        },
{
    proof {
        reveal(decode_spec);
    }
    let dec = match Decoder::new_with_password(bytes, password) {
        Ok(d) => d,
        Err(e) => {
            return Err(e);
        },
    };
    match dec.decode_all() {
        Ok(pcm) => Ok((dec.header, pcm)),
        Err(e) => Err(e),
    }
}

/// Where a parsed stream's last frame ends, held at the 64-bit limit; without
/// frames, where the seek table ends.
pub open spec fn end_of_stream(bytes: Seq<u8>, m: StreamModel) -> int {
    if m.frames.len() == 0 {
        match id3v2_skip(bytes) {
            Ok(skip) => skip + HEADER_LEN + seek_table_len(m.header),
            Err(_) => 0,
        }
    } else {
        let last = m.frames.last();
        last.file_offset.saturating_add(last.disk_size as u64) as int
    }
}

/// Find the tags after a file's last frame. Fails only where the header or
/// the seek table does not parse; no password is needed.
pub fn scan_trailers(bytes: &[u8]) -> (r: Result<TrailerInfo>)
    ensures
        match r {
            Ok(info) => match parse_stream(bytes@, Some(Seq::empty())) {
                Ok(m) => info == trailers(bytes@, end_of_stream(bytes@, m)),
                Err(_) => false,
            },
            Err(e) => parse_stream(bytes@, Some(Seq::empty())) == Err::<StreamModel, Error>(e),
        },
{
    let no_password = slice_subrange(bytes, 0, 0);
    assert(no_password@ =~= Seq::<u8>::empty());
    let dec = match Decoder::new_with_password(bytes, no_password) {
        Ok(d) => d,
        Err(e) => {
            return Err(e);
        },
    };
    let n: usize = dec.frames.len();
    if n == 0 {
        let id3_skip: usize = match crate::header::skip_id3v2_prefix(bytes) {
            Ok(skip) => skip,
            Err(e) => {
                return Err(e);
            },
        };
        return Ok(detect_trailers(bytes, id3_skip + HEADER_LEN + 4));
    }
    let last = dec.frames[n - 1];
    let eos: u64 = last.file_offset.saturating_add(last.disk_size as u64);
    if eos > bytes.len() as u64 {
        return Ok(TrailerInfo::default());
    }
    Ok(detect_trailers(bytes, eos as usize))
}

} // verus!
