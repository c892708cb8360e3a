//! What a frame is, and why decoding undoes encoding.
//!
//! A frame body is the codewords of its samples, instant by instant and
//! within an instant channel by channel, padded to a byte boundary. The body
//! is followed by its CRC-32. Every frame starts from fresh channel state.

use crate::bits::{law_packed_bits_read_back, pack_bits, padding, stream_bits, zero_bits};
use crate::bytes::{le32, le32_bytes, lemma_le32_round_trip};
use crate::channel::{law_channel_round_trip, lemma_moderate_residual, ChannelModel};
use crate::crc32::{crc32_spec, law_crc32_finds_changed_byte};
use crate::decorr::{forward_spec, inverse_spec};
use crate::decorr::{law_forward_undoes_inverse, law_inverse_undoes_forward};
use crate::error::Error;
use vstd::prelude::*;

verus! {

/// All channels at the start of a frame.
pub open spec fn initial_channels(nch: nat, bytes_per_sample: int, prime: Seq<i32>) -> Seq<
    ChannelModel,
> {
    Seq::new(nch, |i: int| ChannelModel::initial(bytes_per_sample, prime))
}

/// Decode the first `n` channels of one instant: their values, the channels
/// after, the bits after.
pub open spec fn decode_instant(bits: Seq<bool>, chans: Seq<ChannelModel>, n: int) -> Option<
    (Seq<i32>, Seq<ChannelModel>, Seq<bool>),
>
    decreases n,
{
    if n <= 0 {
        Some((Seq::empty(), chans, bits))
    } else {
        match decode_instant(bits, chans, n - 1) {
            Some((values, mid, rest)) => match mid[n - 1].decode(rest) {
                Some((v, c, after)) => Some((values.push(v), mid.update(n - 1, c), after)),
                None => None,
            },
            None => None,
        }
    }
}

/// Decode `n` instants: their interleaved samples, the channels after, the
/// bits after.
pub open spec fn decode_instants(bits: Seq<bool>, chans: Seq<ChannelModel>, n: int) -> Option<
    (Seq<i32>, Seq<ChannelModel>, Seq<bool>),
>
    decreases n,
{
    if n <= 0 {
        Some((Seq::empty(), chans, bits))
    } else {
        match decode_instants(bits, chans, n - 1) {
            Some((pcm, mid, rest)) => match decode_instant(rest, mid, mid.len() as int) {
                Some((values, post, after)) => Some((pcm + inverse_spec(values), post, after)),
                None => None,
            },
            None => None,
        }
    }
}

/// The samples a frame body stands for; `None` where it is too short.
pub open spec fn decode_body(
    body: Seq<u8>,
    nch: nat,
    bytes_per_sample: int,
    prime: Seq<i32>,
    sample_count: nat,
) -> Option<Seq<i32>> {
    match decode_instants(
        stream_bits(body),
        initial_channels(nch, bytes_per_sample, prime),
        sample_count as int,
    ) {
        Some((pcm, _, _)) => Some(pcm),
        None => None,
    }
}

/// Decode the frame block that takes up the first `disk_size` bytes of
/// `bytes`.
pub open spec fn decode_block(
    bytes: Seq<u8>,
    disk_size: int,
    nch: nat,
    bytes_per_sample: int,
    prime: Seq<i32>,
    sample_count: nat,
) -> core::result::Result<Seq<i32>, Error> {
    if bytes.len() < disk_size || disk_size < 4 {
        Err(Error::Truncated)
    } else {
        let body = bytes.take(disk_size - 4);
        match decode_body(body, nch, bytes_per_sample, prime, sample_count) {
            None => Err(Error::Truncated),
            Some(pcm) => if crc32_spec(body) == le32(bytes, disk_size - 4) {
                Ok(pcm)
            } else {
                Err(Error::Crc32Mismatch { region: "frame" })
            },
        }
    }
}

/// The channels after the first `n` of `values` have been encoded.
pub open spec fn encoded_instant(chans: Seq<ChannelModel>, values: Seq<i32>, n: int) -> Seq<
    ChannelModel,
>
    decreases n,
{
    if n <= 0 {
        chans
    } else {
        let mid = encoded_instant(chans, values, n - 1);
        mid.update(n - 1, mid[n - 1].encoded(values[n - 1]))
    }
}

/// The bits of the first `n` of `values`.
pub open spec fn encode_instant(chans: Seq<ChannelModel>, values: Seq<i32>, n: int) -> Seq<bool>
    decreases n,
{
    if n <= 0 {
        Seq::empty()
    } else {
        let mid = encoded_instant(chans, values, n - 1);
        encode_instant(chans, values, n - 1) + mid[n - 1].encode(values[n - 1])
    }
}

/// The samples of instant `i`, all channels.
pub open spec fn instant(pcm: Seq<i32>, nch: int, i: int) -> Seq<i32> {
    pcm.subrange(i * nch, i * nch + nch)
}

/// The channels after the first `n` instants of `pcm` have been encoded.
pub open spec fn encoded_instants(chans: Seq<ChannelModel>, pcm: Seq<i32>, n: int) -> Seq<
    ChannelModel,
>
    decreases n,
{
    if n <= 0 {
        chans
    } else {
        let mid = encoded_instants(chans, pcm, n - 1);
        encoded_instant(
            mid,
            forward_spec(instant(pcm, chans.len() as int, n - 1)),
            chans.len() as int,
        )
    }
}

/// The bits of the first `n` instants of `pcm`.
pub open spec fn encode_instants(chans: Seq<ChannelModel>, pcm: Seq<i32>, n: int) -> Seq<bool>
    decreases n,
{
    if n <= 0 {
        Seq::empty()
    } else {
        let mid = encoded_instants(chans, pcm, n - 1);
        encode_instants(chans, pcm, n - 1) + encode_instant(
            mid,
            forward_spec(instant(pcm, chans.len() as int, n - 1)),
            chans.len() as int,
        )
    }
}

/// The body of a frame holding `pcm`.
pub open spec fn encode_body(
    pcm: Seq<i32>,
    nch: nat,
    bytes_per_sample: int,
    prime: Seq<i32>,
) -> Seq<u8> {
    pack_bits(
        encode_instants(
            initial_channels(nch, bytes_per_sample, prime),
            pcm,
            pcm.len() as int / nch as int,
        ),
    )
}

/// The block of a frame holding `pcm`: its body and the body's CRC-32.
pub open spec fn encode_block(
    pcm: Seq<i32>,
    nch: nat,
    bytes_per_sample: int,
    prime: Seq<i32>,
) -> Seq<u8> {
    let body = encode_body(pcm, nch, bytes_per_sample, prime);
    body + le32_bytes(crc32_spec(body))
}

/// None of the first `n` of `values` leaves the residual `i32::MIN`.
pub open spec fn instant_encodable(chans: Seq<ChannelModel>, values: Seq<i32>, n: int) -> bool
    decreases n,
{
    n <= 0 || {
        &&& instant_encodable(chans, values, n - 1)
        &&& encoded_instant(chans, values, n - 1)[n - 1].residual(values[n - 1]) != i32::MIN
    }
}

/// No sample of the first `n` instants leaves the residual `i32::MIN`, the
/// one residual without a codeword of its own.
pub open spec fn instants_encodable(chans: Seq<ChannelModel>, pcm: Seq<i32>, n: int) -> bool
    decreases n,
{
    n <= 0 || {
        &&& instants_encodable(chans, pcm, n - 1)
        &&& instant_encodable(
            encoded_instants(chans, pcm, n - 1),
            forward_spec(instant(pcm, chans.len() as int, n - 1)),
            chans.len() as int,
        )
    }
}

/// Every sample of the frame has a residual with a codeword of its own.
pub open spec fn frame_encodable(
    pcm: Seq<i32>,
    nch: nat,
    bytes_per_sample: int,
    prime: Seq<i32>,
) -> bool {
    instants_encodable(
        initial_channels(nch, bytes_per_sample, prime),
        pcm,
        pcm.len() as int / nch as int,
    )
}

/// Every channel's state is in its valid range.
pub open spec fn channels_wf(chans: Seq<ChannelModel>) -> bool {
    forall|i: int| 0 <= i < chans.len() ==> (#[trigger] chans[i]).wf()
}

pub proof fn lemma_encoded_instant_wf(chans: Seq<ChannelModel>, values: Seq<i32>, n: int)
    requires
        channels_wf(chans),
        n <= chans.len(),
    ensures
        encoded_instant(chans, values, n).len() == chans.len(),
        channels_wf(encoded_instant(chans, values, n)),
    decreases n,
{
    if n > 0 {
        lemma_encoded_instant_wf(chans, values, n - 1);
    }
}

pub proof fn lemma_encoded_instants_wf(chans: Seq<ChannelModel>, pcm: Seq<i32>, n: int)
    requires
        channels_wf(chans),
    ensures
        encoded_instants(chans, pcm, n).len() == chans.len(),
        channels_wf(encoded_instants(chans, pcm, n)),
    decreases n,
{
    if n > 0 {
        lemma_encoded_instants_wf(chans, pcm, n - 1);
        lemma_encoded_instant_wf(
            encoded_instants(chans, pcm, n - 1),
            forward_spec(instant(pcm, chans.len() as int, n - 1)),
            chans.len() as int,
        );
    }
}

/// Decoding an instant's bits gives back its values and leaves the decoding
/// channels in the encoding channels' state.
pub proof fn lemma_instant_round_trip(
    chans: Seq<ChannelModel>,
    values: Seq<i32>,
    n: int,
    rest: Seq<bool>,
)
    requires
        channels_wf(chans),
        0 <= n <= chans.len(),
        n <= values.len(),
        instant_encodable(chans, values, n),
    ensures
        decode_instant(encode_instant(chans, values, n) + rest, chans, n) == Some(
            (values.take(n), encoded_instant(chans, values, n), rest),
        ),
    decreases n,
{
    let bits = encode_instant(chans, values, n) + rest;
    if n == 0 {
        assert(bits =~= rest);
        assert(values.take(0) =~= Seq::<i32>::empty());
    } else {
        let mid = encoded_instant(chans, values, n - 1);
        let word = mid[n - 1].encode(values[n - 1]);
        assert(bits =~= encode_instant(chans, values, n - 1) + (word + rest));
        lemma_instant_round_trip(chans, values, n - 1, word + rest);
        lemma_encoded_instant_wf(chans, values, n - 1);
        law_channel_round_trip(mid[n - 1], values[n - 1], rest);
        assert(values.take(n - 1).push(values[n - 1]) =~= values.take(n));
    }
}

/// Decoding a run of instants gives back its samples.
pub proof fn lemma_instants_round_trip(
    chans: Seq<ChannelModel>,
    pcm: Seq<i32>,
    n: int,
    rest: Seq<bool>,
)
    requires
        channels_wf(chans),
        0 <= n,
        n * chans.len() <= pcm.len(),
        instants_encodable(chans, pcm, n),
    ensures
        decode_instants(encode_instants(chans, pcm, n) + rest, chans, n) == Some(
            (pcm.take(n * chans.len()), encoded_instants(chans, pcm, n), rest),
        ),
    decreases n,
{
    let bits = encode_instants(chans, pcm, n) + rest;
    let nch = chans.len() as int;
    if n == 0 {
        assert(bits =~= rest);
        assert(n * nch == 0) by (nonlinear_arith)
            requires
                n == 0,
        ;
        assert(pcm.take(0) =~= Seq::<i32>::empty());
    } else {
        assert((n - 1) * nch + nch == n * nch && (n - 1) * nch >= 0) by (nonlinear_arith)
            requires
                n >= 1,
                nch >= 0,
        ;
        let mid = encoded_instants(chans, pcm, n - 1);
        let tuple = instant(pcm, nch, n - 1);
        let values = forward_spec(tuple);
        let head = encode_instants(chans, pcm, n - 1);
        let word = encode_instant(mid, values, nch);
        lemma_concat_assoc(head, word, rest);
        assert(bits == head + (word + rest));
        lemma_instants_round_trip(chans, pcm, n - 1, word + rest);
        lemma_encoded_instants_wf(chans, pcm, n - 1);
        assert(instant_encodable(mid, values, nch));
        assert(values.len() == nch);
        lemma_instant_round_trip(mid, values, nch, rest);
        lemma_take_all(values);
        law_inverse_undoes_forward(tuple);
        lemma_take_instant(pcm, nch, n - 1);
    }
}

proof fn lemma_concat_assoc(a: Seq<bool>, b: Seq<bool>, c: Seq<bool>)
    ensures
        (a + b) + c == a + (b + c),
{
    assert((a + b) + c =~= a + (b + c));
}

proof fn lemma_take_all(s: Seq<i32>)
    ensures
        s.take(s.len() as int) == s,
{
    assert(s.take(s.len() as int) =~= s);
}

proof fn lemma_take_instant(pcm: Seq<i32>, nch: int, i: int)
    requires
        0 <= nch,
        0 <= i * nch,
        i * nch + nch <= pcm.len(),
    ensures
        pcm.take(i * nch) + instant(pcm, nch, i) == pcm.take(i * nch + nch),
{
    assert(pcm.take(i * nch) + instant(pcm, nch, i) =~= pcm.take(i * nch + nch));
}

/// A frame's body decodes to the samples it was made from.
pub proof fn lemma_body_round_trip(
    pcm: Seq<i32>,
    nch: nat,
    bytes_per_sample: int,
    prime: Seq<i32>,
)
    requires
        nch > 0,
        pcm.len() % nch == 0,
        frame_encodable(pcm, nch, bytes_per_sample, prime),
    ensures
        decode_body(
            encode_body(pcm, nch, bytes_per_sample, prime),
            nch,
            bytes_per_sample,
            prime,
            pcm.len() / nch,
        ) == Some(pcm),
{
    let chans = initial_channels(nch, bytes_per_sample, prime);
    let n = pcm.len() as int / nch as int;
    let bits = encode_instants(chans, pcm, n);
    assert(n * nch == pcm.len()) by (nonlinear_arith)
        requires
            n == pcm.len() as int / nch as int,
            nch > 0,
            pcm.len() % nch == 0,
    ;
    law_packed_bits_read_back(bits);
    lemma_instants_round_trip(chans, pcm, n, zero_bits(padding(bits.len())));
    assert(pcm.take(n * nch) =~= pcm);
}

/// A frame's block decodes to the samples it was made from, wherever in a
/// longer byte string it stands first.
pub proof fn law_frame_round_trip(
    pcm: Seq<i32>,
    nch: nat,
    bytes_per_sample: int,
    prime: Seq<i32>,
    after: Seq<u8>,
)
    requires
        nch > 0,
        pcm.len() % nch == 0,
        frame_encodable(pcm, nch, bytes_per_sample, prime),
    ensures
        decode_block(
            encode_block(pcm, nch, bytes_per_sample, prime) + after,
            encode_block(pcm, nch, bytes_per_sample, prime).len() as int,
            nch,
            bytes_per_sample,
            prime,
            pcm.len() / nch,
        ) == Ok::<Seq<i32>, Error>(pcm),
{
    let body = encode_body(pcm, nch, bytes_per_sample, prime);
    let block = encode_block(pcm, nch, bytes_per_sample, prime);
    let bytes = block + after;
    let at = body.len() as int;
    lemma_body_round_trip(pcm, nch, bytes_per_sample, prime);
    assert(bytes.take(block.len() - 4) =~= body);
    assert(bytes.subrange(at, at + 4) =~= le32_bytes(crc32_spec(body)));
    lemma_le32_round_trip(bytes, at, crc32_spec(body));
}

/// Samples of at most 2^29 in magnitude, which covers every bit depth the
/// format carries, always have residuals with codewords of their own.
pub proof fn law_moderate_samples_encodable(
    pcm: Seq<i32>,
    nch: nat,
    bytes_per_sample: int,
    prime: Seq<i32>,
)
    requires
        nch > 0,
        forall|i: int|
            0 <= i < pcm.len() ==> -0x2000_0000 <= #[trigger] pcm[i] <= 0x2000_0000,
    ensures
        frame_encodable(pcm, nch, bytes_per_sample, prime),
{
    let n = pcm.len() as int / nch as int;
    assert(n * nch <= pcm.len()) by (nonlinear_arith)
        requires
            n == pcm.len() as int / nch as int,
            nch > 0,
    ;
    lemma_moderate_instants(initial_channels(nch, bytes_per_sample, prime), pcm, n);
}

proof fn lemma_moderate_instants(chans: Seq<ChannelModel>, pcm: Seq<i32>, n: int)
    requires
        channels_wf(chans),
        chans.len() > 0,
        n * chans.len() <= pcm.len(),
        forall|i: int|
            0 <= i < pcm.len() ==> -0x2000_0000 <= #[trigger] pcm[i] <= 0x2000_0000,
    ensures
        instants_encodable(chans, pcm, n),
    decreases n,
{
    if n > 0 {
        let nch = chans.len() as int;
        assert((n - 1) * nch + nch == n * nch && (n - 1) * nch >= 0) by (nonlinear_arith)
            requires
                n >= 1,
                nch >= 0,
        ;
        lemma_moderate_instants(chans, pcm, n - 1);
        let mid = encoded_instants(chans, pcm, n - 1);
        let tuple = instant(pcm, nch, n - 1);
        let values = forward_spec(tuple);
        lemma_encoded_instants_wf(chans, pcm, n - 1);
        assert forall|k: int| 0 <= k < nch implies -0x2000_0000 <= #[trigger] tuple[k]
            <= 0x2000_0000 by {
            assert(tuple[k] == pcm[(n - 1) * nch + k]);
        }
        assert forall|k: int| 0 <= k < nch implies -0x4000_0000 <= #[trigger] values[k]
            <= 0x4000_0000 by {
            if nch >= 2 {
                let m: int = if k + 1 < nch { k } else { nch - 2 };
                assert(-0x2000_0000 <= tuple[m] <= 0x2000_0000);
                assert(-0x2000_0000 <= tuple[m + 1] <= 0x2000_0000);
            }
        }
        lemma_moderate_instant(mid, values, nch);
    }
}

proof fn lemma_moderate_instant(chans: Seq<ChannelModel>, values: Seq<i32>, n: int)
    requires
        channels_wf(chans),
        n <= chans.len() <= values.len(),
        forall|k: int|
            0 <= k < chans.len() ==> -0x4000_0000 <= #[trigger] values[k] <= 0x4000_0000,
    ensures
        instant_encodable(chans, values, n),
    decreases n,
{
    if n > 0 {
        lemma_moderate_instant(chans, values, n - 1);
        lemma_encoded_instant_wf(chans, values, n - 1);
        lemma_moderate_residual(encoded_instant(chans, values, n - 1)[n - 1], values[n - 1]);
    }
}

/// An instant decodes to one value per channel.
pub proof fn lemma_instant_len(bits: Seq<bool>, chans: Seq<ChannelModel>, n: int)
    requires
        0 <= n <= chans.len(),
    ensures
        match decode_instant(bits, chans, n) {
            Some((values, post, _)) => values.len() == n && post.len() == chans.len(),
            None => true,
        },
    decreases n,
{
    if n > 0 {
        lemma_instant_len(bits, chans, n - 1);
    }
}

/// Instants decode to one sample per channel each.
pub proof fn lemma_instants_len(bits: Seq<bool>, chans: Seq<ChannelModel>, n: int)
    requires
        0 <= n,
    ensures
        match decode_instants(bits, chans, n) {
            Some((pcm, post, _)) => pcm.len() == n * chans.len() && post.len() == chans.len(),
            None => true,
        },
    decreases n,
{
    if n > 0 {
        lemma_instants_len(bits, chans, n - 1);
        match decode_instants(bits, chans, n - 1) {
            Some((pcm, mid, rest)) => {
                lemma_instant_len(rest, mid, mid.len() as int);
                assert(n * chans.len() == (n - 1) * chans.len() + chans.len()) by (nonlinear_arith);
            },
            None => {},
        }
    } else {
        assert(n * chans.len() == 0) by (nonlinear_arith)
            requires
                n == 0,
        ;
    }
}

/// The codeword of the residual `i32::MIN` is that of zero, so the decoder
/// gets a different sample.
proof fn lemma_lost_sample(c: ChannelModel, s: i32, rest: Seq<bool>)
    requires
        c.rice.wf(),
        c.residual(s) == i32::MIN,
    ensures
        match c.decode(c.encode(s) + rest) {
            Some((v, _, _)) => v != s,
            None => true,
        },
{
    crate::rice::law_rice_round_trip(c.rice, 0, rest);
    assert(c.encode(s) == crate::rice::codeword(c.rice, 0));
}

proof fn lemma_lost_instant(chans: Seq<ChannelModel>, values: Seq<i32>, n: int, rest: Seq<bool>)
    requires
        channels_wf(chans),
        0 <= n <= chans.len(),
        n <= values.len(),
        !instant_encodable(chans, values, n),
    ensures
        match decode_instant(encode_instant(chans, values, n) + rest, chans, n) {
            Some((v, _, _)) => v != values.take(n),
            None => true,
        },
    decreases n,
{
    let bits = encode_instant(chans, values, n) + rest;
    let mid = encoded_instant(chans, values, n - 1);
    let word = mid[n - 1].encode(values[n - 1]);
    assert(bits =~= encode_instant(chans, values, n - 1) + (word + rest));
    lemma_instant_len(bits, chans, n - 1);
    if !instant_encodable(chans, values, n - 1) {
        lemma_lost_instant(chans, values, n - 1, word + rest);
        match decode_instant(bits, chans, n) {
            Some((v, _, _)) => {
                let w = v.drop_last();
                let (u, _, _) = decode_instant(bits, chans, n - 1)->0;
                assert(w =~= u);
                if v == values.take(n) {
                    assert(w =~= values.take(n - 1));
                }
            },
            None => {},
        }
    } else {
        lemma_instant_round_trip(chans, values, n - 1, word + rest);
        lemma_encoded_instant_wf(chans, values, n - 1);
        lemma_lost_sample(mid[n - 1], values[n - 1], rest);
        match decode_instant(bits, chans, n) {
            Some((v, _, _)) => {
                assert(v[n - 1] != values[n - 1]);
                assert(values.take(n)[n - 1] == values[n - 1]);
            },
            None => {},
        }
    }
}

proof fn lemma_lost_instants(chans: Seq<ChannelModel>, pcm: Seq<i32>, n: int, rest: Seq<bool>)
    requires
        channels_wf(chans),
        0 <= n,
        n * chans.len() <= pcm.len(),
        !instants_encodable(chans, pcm, n),
    ensures
        match decode_instants(encode_instants(chans, pcm, n) + rest, chans, n) {
            Some((p, _, _)) => p != pcm.take(n * chans.len()),
            None => true,
        },
    decreases n,
{
    let bits = encode_instants(chans, pcm, n) + rest;
    let nch = chans.len() as int;
    assert((n - 1) * nch + nch == n * nch && (n - 1) * nch >= 0) by (nonlinear_arith)
        requires
            n >= 1,
            nch >= 0,
    ;
    let mid = encoded_instants(chans, pcm, n - 1);
    let tuple = instant(pcm, nch, n - 1);
    let values = forward_spec(tuple);
    let head = encode_instants(chans, pcm, n - 1);
    let word = encode_instant(mid, values, nch);
    lemma_concat_assoc(head, word, rest);
    assert(bits == head + (word + rest));
    lemma_instants_len(bits, chans, n - 1);
    if !instants_encodable(chans, pcm, n - 1) {
        lemma_lost_instants(chans, pcm, n - 1, word + rest);
        match decode_instants(bits, chans, n) {
            Some((p, _, _)) => {
                let (q, c, r) = decode_instants(bits, chans, n - 1)->0;
                if p == pcm.take(n * nch) {
                    assert(q =~= p.take((n - 1) * nch));
                    assert(q =~= pcm.take((n - 1) * nch));
                }
            },
            None => {},
        }
    } else {
        lemma_instants_round_trip(chans, pcm, n - 1, word + rest);
        lemma_encoded_instants_wf(chans, pcm, n - 1);
        lemma_lost_instant(mid, values, nch, rest);
        lemma_instant_len(word + rest, mid, nch);
        lemma_take_all(values);
        match decode_instants(bits, chans, n) {
            Some((p, _, _)) => {
                let (v, c, r) = decode_instant(word + rest, mid, nch)->0;
                let front = pcm.take((n - 1) * nch);
                assert(p == front + inverse_spec(v));
                if p == pcm.take(n * nch) {
                    assert(inverse_spec(v) =~= p.skip((n - 1) * nch));
                    assert(tuple =~= pcm.take(n * nch).skip((n - 1) * nch));
                    law_forward_undoes_inverse(v);
                    assert(v == values);
                }
            },
            None => {},
        }
    }
}

/// The residual `i32::MIN` is exactly what stands in the way: a frame with a
/// sample that leaves it does not decode to its samples.
pub proof fn law_lost_residual_is_the_only_loss(
    pcm: Seq<i32>,
    nch: nat,
    bytes_per_sample: int,
    prime: Seq<i32>,
)
    requires
        nch > 0,
        pcm.len() % nch == 0,
    ensures
        frame_encodable(pcm, nch, bytes_per_sample, prime) <==> decode_body(
            encode_body(pcm, nch, bytes_per_sample, prime),
            nch,
            bytes_per_sample,
            prime,
            pcm.len() / nch,
        ) == Some(pcm),
{
    if frame_encodable(pcm, nch, bytes_per_sample, prime) {
        lemma_body_round_trip(pcm, nch, bytes_per_sample, prime);
    } else {
        let chans = initial_channels(nch, bytes_per_sample, prime);
        let n = pcm.len() as int / nch as int;
        let bits = encode_instants(chans, pcm, n);
        assert(n * nch == pcm.len()) by (nonlinear_arith)
            requires
                n == pcm.len() as int / nch as int,
                nch > 0,
                pcm.len() % nch == 0,
        ;
        law_packed_bits_read_back(bits);
        lemma_lost_instants(chans, pcm, n, zero_bits(padding(bits.len())));
        lemma_take_all(pcm);
    }
}

/// Changing any one byte of a block's CRC makes a block that decodes fail with
/// a CRC mismatch.
pub proof fn law_damaged_frame_crc(
    bytes: Seq<u8>,
    disk_size: int,
    nch: nat,
    bytes_per_sample: int,
    prime: Seq<i32>,
    sample_count: nat,
    at: int,
    b: u8,
)
    requires
        decode_block(bytes, disk_size, nch, bytes_per_sample, prime, sample_count) is Ok,
        disk_size - 4 <= at < disk_size,
        b != bytes[at],
    ensures
        decode_block(
            bytes.update(at, b),
            disk_size,
            nch,
            bytes_per_sample,
            prime,
            sample_count,
        ) == Err::<Seq<i32>, Error>(Error::Crc32Mismatch { region: "frame" }),
{
    let changed = bytes.update(at, b);
    assert(changed.take(disk_size - 4) =~= bytes.take(disk_size - 4));
    assert(le32(changed, disk_size - 4) != le32(bytes, disk_size - 4));
}

/// Changing any one byte of a block's body makes a block that decodes fail:
/// either the bits run out, or the CRC does not match.
pub proof fn law_damaged_frame_body(
    bytes: Seq<u8>,
    disk_size: int,
    nch: nat,
    bytes_per_sample: int,
    prime: Seq<i32>,
    sample_count: nat,
    at: int,
    b: u8,
)
    requires
        decode_block(bytes, disk_size, nch, bytes_per_sample, prime, sample_count) is Ok,
        0 <= at < disk_size - 4,
        b != bytes[at],
    ensures
        decode_block(
            bytes.update(at, b),
            disk_size,
            nch,
            bytes_per_sample,
            prime,
            sample_count,
        ) == if decode_body(
            bytes.update(at, b).take(disk_size - 4),
            nch,
            bytes_per_sample,
            prime,
            sample_count,
        ) is None {
            Err::<Seq<i32>, Error>(Error::Truncated)
        } else {
            Err::<Seq<i32>, Error>(Error::Crc32Mismatch { region: "frame" })
        },
{
    let changed = bytes.update(at, b);
    let body = bytes.take(disk_size - 4);
    assert(changed.take(disk_size - 4) =~= body.update(at, b));
    assert(body[at] == bytes[at]);
    law_crc32_finds_changed_byte(body, at, b);
    assert(le32(changed, disk_size - 4) == le32(bytes, disk_size - 4));
}

} // verus!
