//! What a frame and a file are made of, one step at a time: how a sample
//! becomes a codeword, how codewords line up in a frame, and how frames line
//! up in a file.

use crate::bits::{law_packed_bits_read_back, pack_bits, padding, stream_bits, zero_bits};
use crate::bytes::le32_bytes;
use crate::channel::ChannelModel;
use crate::crc32::crc32_spec;
use crate::decorr::{forward_spec, inverse_spec};
use crate::encoder::{file_block, file_block_list, file_bytes, file_header, frame_pcm};
use crate::encoder::encode_error;
use crate::error::Error;
use crate::frame::{decode_block, decode_instant, decode_instants};
use crate::frame::{encode_block, encode_body, encode_instant, encode_instants};
use crate::frame::{encoded_instant, encoded_instants, initial_channels};
use crate::header::{byte_width, header_bytes, regular_samples, StreamHeader};
use crate::layout::{entries, file_of, joined};
use crate::lms::LmsModel;
use crate::rice::{codeword, decode_step, encode_advanced};
use crate::stage_b::stage_b_prediction;
use vstd::prelude::*;

verus! {

/// A channel starts a frame with fresh parameters, a fresh filter over the
/// given weights, and no previous sample.
pub proof fn law_channel_start(bytes_per_sample: int, prime: Seq<i32>)
    ensures
        ({
            let c = ChannelModel::initial(bytes_per_sample, prime);
            &&& c.rice.k0 == 10 && c.rice.k1 == 10
            &&& c.rice.sum0 == 0x4000 && c.rice.sum1 == 0x4000
            &&& c.lms == LmsModel::initial(bytes_per_sample, prime)
            &&& c.prev == 0
        }),
{
}

/// A sample is its residual and the two predictions together, wrapping, and
/// its codeword is that of the residual under the channel's parameters.
pub proof fn law_residual_completes_predictions(c: ChannelModel, s: i32)
    ensures
        (c.residual(s) + c.lms.prediction() + stage_b_prediction(c.prev) - s) % 0x1_0000_0000 == 0,
        c.encode(s) == codeword(c.rice, c.residual(s)),
        c.encoded(s).prev == s,
        c.encoded(s).rice == encode_advanced(c.rice, c.residual(s)),
        c.encoded(s).lms == c.lms.advanced(
            c.residual(s),
            c.residual(s).wrapping_add(c.lms.prediction()),
        ),
{
    let mid = s.wrapping_sub(stage_b_prediction(c.prev));
    let e = c.residual(s);
    assert(e == mid.wrapping_sub(c.lms.prediction()));
    assert(e.wrapping_add(c.lms.prediction()) == mid);
}

/// Decoding takes one codeword off the bits and adds both predictions to its
/// residual, wrapping; the channel moves on from what was decoded.
pub proof fn law_sample_adds_predictions(c: ChannelModel, bits: Seq<bool>)
    ensures
        match decode_step(bits, c.rice) {
            None => c.decode(bits) is None,
            Some((trace, after)) => match c.decode(bits) {
                None => false,
                Some((s, post, rest)) => {
                    let e = trace.residual_signed;
                    &&& (e + c.lms.prediction() + stage_b_prediction(c.prev) - s) % 0x1_0000_0000
                        == 0
                    &&& rest == after
                    &&& post.prev == s
                    &&& post.rice.k0 == trace.k0_post && post.rice.k1 == trace.k1_post
                    &&& post.rice.sum0 == trace.sum0_post && post.rice.sum1 == trace.sum1_post
                    &&& post.lms == c.lms.advanced(e, e.wrapping_add(c.lms.prediction()))
                },
            },
        },
{
}

/// Every channel of every frame starts alike.
pub proof fn law_frame_starts_afresh(nch: nat, bytes_per_sample: int, prime: Seq<i32>, i: int)
    requires
        0 <= i < nch,
    ensures
        initial_channels(nch, bytes_per_sample, prime).len() == nch,
        initial_channels(nch, bytes_per_sample, prime)[i] == ChannelModel::initial(
            bytes_per_sample,
            prime,
        ),
{
}

/// An instant is read channel by channel, the first channel first: channel
/// `n` decodes what the channels before it left, from its own state, and the
/// channels after it stay as they were.
pub proof fn law_instant_is_read_in_channel_order(
    bits: Seq<bool>,
    chans: Seq<ChannelModel>,
    n: int,
)
    requires
        0 <= n < chans.len(),
    ensures
        decode_instant(bits, chans, 0) == Some((Seq::<i32>::empty(), chans, bits)),
        match decode_instant(bits, chans, n) {
            None => decode_instant(bits, chans, n + 1) is None,
            Some((values, mid, rest)) => {
                &&& values.len() == n
                &&& mid.len() == chans.len()
                &&& forall|j: int| n <= j < chans.len() ==> #[trigger] mid[j] == chans[j]
                &&& match chans[n].decode(rest) {
                    None => decode_instant(bits, chans, n + 1) is None,
                    Some((v, c, after)) => decode_instant(bits, chans, n + 1) == Some(
                        (values.push(v), mid.update(n, c), after),
                    ),
                }
            },
        },
    decreases n,
{
    if n > 0 {
        law_instant_is_read_in_channel_order(bits, chans, n - 1);
    }
}

/// A frame is read instant by instant: each decodes what the ones before it
/// left, with the channels as they left them, and adds its recovered samples
/// at the end.
pub proof fn law_frame_is_read_in_time_order(bits: Seq<bool>, chans: Seq<ChannelModel>, n: int)
    requires
        0 <= n,
    ensures
        decode_instants(bits, chans, 0) == Some((Seq::<i32>::empty(), chans, bits)),
        match decode_instants(bits, chans, n) {
            None => decode_instants(bits, chans, n + 1) is None,
            Some((pcm, mid, rest)) => {
                &&& mid.len() == chans.len()
                &&& match decode_instant(rest, mid, chans.len() as int) {
                    None => decode_instants(bits, chans, n + 1) is None,
                    Some((values, post, after)) => decode_instants(bits, chans, n + 1) == Some(
                        (pcm + inverse_spec(values), post, after),
                    ),
                }
            },
        },
    decreases n,
{
    if n > 0 {
        law_frame_is_read_in_time_order(bits, chans, n - 1);
        match decode_instants(bits, chans, n - 1) {
            Some((_, mid, rest)) => {
                lemma_decoded_channels(rest, mid, mid.len() as int);
            },
            None => {},
        }
    }
}

proof fn lemma_decoded_channels(bits: Seq<bool>, chans: Seq<ChannelModel>, n: int)
    requires
        0 <= n <= chans.len(),
    ensures
        match decode_instant(bits, chans, n) {
            None => true,
            Some((_, post, _)) => post.len() == chans.len(),
        },
    decreases n,
{
    if n > 0 {
        lemma_decoded_channels(bits, chans, n - 1);
    }
}

/// An instant is written channel by channel, the first channel first: channel
/// `n` adds the codeword of its value at the end and moves its own state on,
/// and the channels after it stay as they were.
pub proof fn law_instant_is_written_in_channel_order(
    chans: Seq<ChannelModel>,
    values: Seq<i32>,
    n: int,
)
    requires
        0 <= n < chans.len(),
    ensures
        encode_instant(chans, values, 0) == Seq::<bool>::empty(),
        encoded_instant(chans, values, 0) == chans,
        encode_instant(chans, values, n + 1) == encode_instant(chans, values, n) + chans[n].encode(
            values[n],
        ),
        encoded_instant(chans, values, n + 1) == encoded_instant(chans, values, n).update(
            n,
            chans[n].encoded(values[n]),
        ),
        encoded_instant(chans, values, n).len() == chans.len(),
        forall|j: int|
            n <= j < chans.len() ==> #[trigger] encoded_instant(chans, values, n)[j] == chans[j],
    decreases n,
{
    if n > 0 {
        law_instant_is_written_in_channel_order(chans, values, n - 1);
    }
}

/// A frame is written instant by instant: each adds the codewords of its
/// decorrelated samples at the end, with the channels as the instants before
/// it left them.
pub proof fn law_frame_is_written_in_time_order(
    chans: Seq<ChannelModel>,
    pcm: Seq<i32>,
    n: int,
)
    requires
        0 <= n,
        (n + 1) * chans.len() <= pcm.len(),
    ensures
        encode_instants(chans, pcm, 0) == Seq::<bool>::empty(),
        encoded_instants(chans, pcm, 0) == chans,
        ({
            let k = chans.len() as int;
            let values = forward_spec(pcm.subrange(n * k, (n + 1) * k));
            let mid = encoded_instants(chans, pcm, n);
            &&& encode_instants(chans, pcm, n + 1) == encode_instants(chans, pcm, n)
                + encode_instant(mid, values, k)
            &&& encoded_instants(chans, pcm, n + 1) == encoded_instant(mid, values, k)
        }),
{
    let k = chans.len() as int;
    assert((n + 1) * k == n * k + k) by (nonlinear_arith);
}

/// A frame's block is its codewords from fresh channels, packed into bytes
/// and filled up with zero bits, and the CRC of those bytes, lowest byte
/// first.
pub proof fn law_block_is_codewords_and_crc(
    pcm: Seq<i32>,
    nch: nat,
    bytes_per_sample: int,
    prime: Seq<i32>,
)
    ensures
        ({
            let block = encode_block(pcm, nch, bytes_per_sample, prime);
            let bits = encode_instants(
                initial_channels(nch, bytes_per_sample, prime),
                pcm,
                pcm.len() as int / nch as int,
            );
            let n = block.len() - 4;
            let body = block.take(n);
            &&& n >= 0
            &&& bits.len() <= 8 * n < bits.len() + 8
            &&& stream_bits(body).len() == 8 * n
            &&& stream_bits(body).take(bits.len() as int) == bits
            &&& forall|i: int| bits.len() <= i < 8 * n ==> !#[trigger] stream_bits(body)[i]
            &&& block[n] + 0x100 * block[n + 1] + 0x1_0000 * block[n + 2] + 0x100_0000 * block[n
                + 3] == crc32_spec(body)
        }),
{
    let bits = encode_instants(
        initial_channels(nch, bytes_per_sample, prime),
        pcm,
        pcm.len() as int / nch as int,
    );
    assert(encode_body(pcm, nch, bytes_per_sample, prime) == pack_bits(bits));
    lemma_packed_block(bits);
}

proof fn lemma_packed_block(bits: Seq<bool>)
    ensures
        ({
            let block = pack_bits(bits) + le32_bytes(crc32_spec(pack_bits(bits)));
            let n = block.len() - 4;
            let body = block.take(n);
            &&& n >= 0
            &&& bits.len() <= 8 * n < bits.len() + 8
            &&& stream_bits(body).len() == 8 * n
            &&& stream_bits(body).take(bits.len() as int) == bits
            &&& forall|i: int| bits.len() <= i < 8 * n ==> !#[trigger] stream_bits(body)[i]
            &&& block[n] + 0x100 * block[n + 1] + 0x1_0000 * block[n + 2] + 0x100_0000 * block[n
                + 3] == crc32_spec(body)
        }),
{
    let body = pack_bits(bits);
    let tail = le32_bytes(crc32_spec(body));
    let block = body + tail;
    let n = body.len() as int;
    assert(block.take(n) =~= body);
    lemma_word_behind(body, crc32_spec(body));
    lemma_packed_tail(bits);
}

proof fn lemma_packed_tail(bits: Seq<bool>)
    ensures
        ({
            let body = pack_bits(bits);
            &&& bits.len() <= 8 * body.len() < bits.len() + 8
            &&& stream_bits(body).len() == 8 * body.len()
            &&& stream_bits(body).take(bits.len() as int) == bits
            &&& forall|i: int|
                bits.len() <= i < 8 * body.len() ==> !#[trigger] stream_bits(body)[i]
        }),
{
    let body = pack_bits(bits);
    law_packed_bits_read_back(bits);
    let padded = bits + zero_bits(padding(bits.len()));
    assert(stream_bits(body) == padded);
    assert(padded.take(bits.len() as int) =~= bits);
}

proof fn lemma_word_behind(a: Seq<u8>, v: u32)
    ensures
        (a + le32_bytes(v)).len() == a.len() + 4,
        ({
            let s = a + le32_bytes(v);
            let n = a.len() as int;
            s[n] + 0x100 * s[n + 1] + 0x1_0000 * s[n + 2] + 0x100_0000 * s[n + 3] == v
        }),
{
    let t = le32_bytes(v);
    let s = a + t;
    let n = a.len() as int;
    assert(s[n] == t[0] && s[n + 1] == t[1] && s[n + 2] == t[2] && s[n + 3] == t[3]);
}

/// What a block decodes to: its samples from fresh channels where all of them
/// are there and the four bytes behind the body are its CRC; a block that is
/// too short, or whose codewords run out, is cut short; and otherwise the CRC
/// is wrong.
pub proof fn law_block_decodes_by_codewords_and_crc(
    bytes: Seq<u8>,
    disk_size: int,
    nch: nat,
    bytes_per_sample: int,
    prime: Seq<i32>,
    sample_count: nat,
)
    ensures
        ({
            let r = decode_block(bytes, disk_size, nch, bytes_per_sample, prime, sample_count);
            let n = disk_size - 4;
            if n < 0 || bytes.len() < disk_size {
                r == Err::<Seq<i32>, Error>(Error::Truncated)
            } else {
                let body = bytes.take(n);
                let stored = bytes[n] + 0x100 * bytes[n + 1] + 0x1_0000 * bytes[n + 2] + 0x100_0000
                    * bytes[n + 3];
                match decode_instants(
                    stream_bits(body),
                    initial_channels(nch, bytes_per_sample, prime),
                    sample_count as int,
                ) {
                    None => r == Err::<Seq<i32>, Error>(Error::Truncated),
                    Some((pcm, _, _)) => if stored == crc32_spec(body) {
                        r == Ok::<Seq<i32>, Error>(pcm)
                    } else {
                        r == Err::<Seq<i32>, Error>(Error::Crc32Mismatch { region: "frame" })
                    },
                }
            }
        }),
{
    let n = disk_size - 4;
    if n >= 0 && bytes.len() >= disk_size {
        assert(crate::bytes::le32(bytes, n) == bytes[n] + 0x100 * bytes[n + 1] + 0x1_0000 * bytes[n
            + 2] + 0x100_0000 * bytes[n + 3]);
    }
}

/// The samples are cut into frames in order: frame `i` holds the instants
/// from `i` regular frames on, up to the next frame or the end.
#[verifier::rlimit(60)]
pub proof fn law_samples_are_cut_in_order(
    samples: Seq<i32>,
    h: StreamHeader,
    prime: Seq<i32>,
    i: int,
)
    requires
        0 <= i < h.geometry().0,
        h.total_samples * h.channels == samples.len(),
    ensures
        file_block_list(samples, h, prime).len() == h.geometry().0,
        ({
            let regular = regular_samples(h.sample_rate) as int;
            let from = i * regular;
            let to = if (i + 1) * regular < h.total_samples {
                (i + 1) * regular
            } else {
                h.total_samples as int
            };
            &&& from < to
            &&& file_block_list(samples, h, prime)[i] == encode_block(
                samples.subrange(from * h.channels, to * h.channels),
                h.channels as nat,
                byte_width(h.bits_per_sample),
                prime,
            )
        }),
{
    reveal(file_block);
    crate::header::law_frames_cover_stream(h);
    let regular = regular_samples(h.sample_rate) as int;
    let (count, last) = h.geometry();
    let total = h.total_samples as int;
    let from = i * regular;
    assert((i + 1) * regular == i * regular + regular) by (nonlinear_arith);
    assert(i < count - 1 ==> (i + 1) * regular < total) by (nonlinear_arith)
        requires
            (count - 1) * regular + last == total,
            last >= 1,
            regular >= 1,
            0 <= i < count,
    ;
    let to = if (i + 1) * regular < total {
        (i + 1) * regular
    } else {
        total
    };
    let ch = h.channels as int;
    let len = crate::encoder::frame_samples(h, i);
    assert(to == from + len);
    assert(to * ch == from * ch + len * ch) by (nonlinear_arith)
        requires
            to == from + len,
    ;
    assert(frame_pcm(samples, h, i) =~= samples.subrange(from * ch, to * ch));
}

/// The blocks stand one behind the other.
pub proof fn law_blocks_are_joined_in_order(blocks: Seq<Seq<u8>>, n: int)
    requires
        0 <= n < blocks.len(),
    ensures
        joined(blocks, 0) == Seq::<u8>::empty(),
        joined(blocks, n + 1) == joined(blocks, n) + blocks[n],
{
}

/// The seek table has one entry for each block, in order: its length, lowest
/// byte first.
pub proof fn law_entries_are_block_lengths(blocks: Seq<Seq<u8>>, n: int)
    requires
        0 <= n < blocks.len(),
        blocks[n].len() <= u32::MAX,
    ensures
        entries(blocks, 0) == Seq::<u8>::empty(),
        entries(blocks, n + 1).len() == entries(blocks, n).len() + 4,
        entries(blocks, n + 1).take(entries(blocks, n).len() as int) == entries(blocks, n),
        ({
            let e = entries(blocks, n + 1);
            let k = entries(blocks, n).len() as int;
            e[k] + 0x100 * e[k + 1] + 0x1_0000 * e[k + 2] + 0x100_0000 * e[k + 3]
                == blocks[n].len()
        }),
{
    let before = entries(blocks, n);
    let v = (blocks[n].len() % 0x1_0000_0000) as u32;
    lemma_word_behind(before, v);
    assert((before + le32_bytes(v)).take(before.len() as int) =~= before);
}

/// A file is its header, the seek table's entries, their CRC, lowest byte
/// first, and the blocks, with nothing between, before or after.
pub proof fn law_file_is_header_table_blocks(h: StreamHeader, blocks: Seq<Seq<u8>>)
    ensures
        ({
            let file = file_of(h, blocks);
            let e = entries(blocks, blocks.len() as int);
            let at = header_bytes(h).len() + e.len() as int;
            let data = joined(blocks, blocks.len() as int);
            &&& file.len() == at + 4 + data.len()
            &&& file.take(header_bytes(h).len() as int) == header_bytes(h)
            &&& file.subrange(header_bytes(h).len() as int, at) == e
            &&& file[at] + 0x100 * file[at + 1] + 0x1_0000 * file[at + 2] + 0x100_0000 * file[at
                + 3] == crc32_spec(e)
            &&& file.skip(at + 4) == data
        }),
{
    let head = header_bytes(h);
    let e = entries(blocks, blocks.len() as int);
    let data = joined(blocks, blocks.len() as int);
    lemma_three_parts(head, e, crc32_spec(e), data);
}

#[verifier::rlimit(60)]
proof fn lemma_three_parts(head: Seq<u8>, e: Seq<u8>, v: u32, data: Seq<u8>)
    ensures
        ({
            let file = head + ((e + le32_bytes(v)) + data);
            let at = head.len() + e.len() as int;
            &&& file.len() == at + 4 + data.len()
            &&& file.take(head.len() as int) == head
            &&& file.subrange(head.len() as int, at) == e
            &&& file[at] + 0x100 * file[at + 1] + 0x1_0000 * file[at + 2] + 0x100_0000 * file[at
                + 3] == v
            &&& file.skip(at + 4) == data
        }),
{
    let t = le32_bytes(v);
    let file = head + ((e + t) + data);
    let at = head.len() + e.len() as int;
    lemma_word_behind(head + e, v);
    let front = (head + e) + t;
    assert(file =~= front + data);
    assert(file.take(head.len() as int) =~= head);
    assert(file.subrange(head.len() as int, at) =~= e);
    assert(file.skip(at + 4) =~= data);
    assert(file[at] == front[at] && file[at + 1] == front[at + 1] && file[at + 2] == front[at + 2]
        && file[at + 3] == front[at + 3]);
}

/// An encoded file is laid out from its own header and blocks, and the header
/// repeats what was asked for, with the samples counted per channel.
pub proof fn law_encoded_file_layout(
    samples: Seq<i32>,
    format: u16,
    channels: u16,
    bits_per_sample: u16,
    sample_rate: u32,
    prime: Seq<i32>,
)
    requires
        channels > 0,
        samples.len() as int / channels as int <= u32::MAX,
        samples.len() as int % channels as int == 0,
    ensures
        ({
            let h = file_header(
                format,
                samples.len() as int,
                channels,
                bits_per_sample,
                sample_rate,
            );
            &&& h.format == format && h.channels == channels
            &&& h.bits_per_sample == bits_per_sample && h.sample_rate == sample_rate
            &&& h.total_samples * channels == samples.len()
            &&& file_bytes(samples, h, prime) == file_of(h, file_block_list(samples, h, prime))
        }),
{
    vstd::arithmetic::div_mod::lemma_fundamental_div_mod(samples.len() as int, channels as int);
    vstd::arithmetic::mul::lemma_mul_is_commutative(
        channels as int,
        samples.len() as int / channels as int,
    );
    assert(0 <= samples.len() as int / channels as int) by (nonlinear_arith)
        requires
            channels > 0,
    ;
    vstd::arithmetic::div_mod::lemma_small_mod(
        (samples.len() as int / channels as int) as nat,
        0x1_0000_0000,
    );
}

/// What is wrong with an encoding request, in the order channels, bit depth,
/// rate and sample count; nothing is wrong with any other.
pub proof fn law_encoder_refuses_what_no_header_holds(
    len: int,
    channels: u16,
    bits_per_sample: u16,
    sample_rate: u32,
)
    ensures
        ({
            let e = encode_error(len, channels, bits_per_sample, sample_rate);
            if channels == 0 || channels > 6 {
                e == Some(Error::UnsupportedChannelCount(channels))
            } else if bits_per_sample < 16 || bits_per_sample > 24 {
                e == Some(Error::UnsupportedBitDepth(bits_per_sample))
            } else if sample_rate == 0 || sample_rate > 0x7F_FFFF {
                e == Some(Error::UnsupportedSampleRate(sample_rate))
            } else if len % channels as int != 0 {
                e == Some(Error::InvalidSampleBuffer)
            } else {
                e is None
            }
        }),
{
}

} // verus!
