//! Decoding undoes encoding, file by file.

use crate::decode_spec;
use crate::decoder::{stream_prime, StreamModel};
use crate::encoder::{encode_error, file_block, file_block_list, file_bytes, file_header};
use crate::encoder::{frame_entry, frame_pcm, frame_samples, lemma_frame_fits};
use crate::error::Error;
use crate::frame::{decode_block, encode_block, frame_encodable, law_frame_round_trip};
use crate::frame::law_moderate_samples_encodable;
use crate::header::{byte_width, regular_samples, StreamHeader};
use crate::layout::{law_file_parses, lemma_block_window, parsed_file, sizes_fit};
use crate::lms::zero_taps;
use crate::password::priming_spec;
use vstd::prelude::*;

verus! {

/// What a file needs to be decodable again: every sample's residual has a
/// codeword of its own, every block's size fits its seek-table entry, and
/// the file's length fits 64 bits.
pub open spec fn file_encodable(samples: Seq<i32>, h: StreamHeader, prime: Seq<i32>) -> bool {
    &&& forall|i: int|
        0 <= i < h.geometry().0 ==> frame_encodable(
            #[trigger] frame_pcm(samples, h, i),
            h.channels as nat,
            byte_width(h.bits_per_sample),
            prime,
        )
    &&& sizes_fit(h, file_block_list(samples, h, prime))
}

/// Frame `i` of an encoded file decodes to its own samples.
proof fn lemma_encoded_frame(samples: Seq<i32>, h: StreamHeader, prime: Seq<i32>, i: int)
    requires
        h.in_scope(),
        file_encodable(samples, h, prime),
        samples.len() == h.total_samples * h.channels,
        0 <= i < h.geometry().0,
    ensures
        parsed_file(h, file_block_list(samples, h, prime), prime).frame(i) == Ok::<Seq<i32>, Error>(
            frame_pcm(samples, h, i),
        ),
{
    let blocks = file_block_list(samples, h, prime);
    let m = parsed_file(h, blocks, prime);
    let nch = h.channels as nat;
    let width = byte_width(h.bits_per_sample);
    let pcm = frame_pcm(samples, h, i);
    let block = file_block(samples, h, prime, i);
    lemma_block_window(h, blocks, i);
    lemma_frame_by_window(m, i, block);
    lemma_frame_pcm_len(samples, h, i);
    lemma_block_decodes(pcm, nch, width, prime);
    assert(block == encode_block(pcm, nch, width, prime)) by {
        reveal(file_block);
    }
    assert(m.frames[i].sample_count as nat == pcm.len() / nch);
}

proof fn lemma_frame_pcm_len(samples: Seq<i32>, h: StreamHeader, i: int)
    requires
        h.channels > 0,
        samples.len() == h.total_samples * h.channels,
        0 <= i < h.geometry().0,
    ensures
        frame_pcm(samples, h, i).len() / h.channels as nat == frame_samples(h, i),
        frame_pcm(samples, h, i).len() % h.channels as nat == 0,
{
    let count = frame_samples(h, i);
    let nch = h.channels as int;
    lemma_frame_fits(h, i);
    assert(frame_pcm(samples, h, i).len() == count * nch);
    vstd::arithmetic::div_mod::lemma_div_multiples_vanish(count, nch);
    vstd::arithmetic::div_mod::lemma_mod_multiples_basic(count, nch);
}

/// A frame is decoded from the bytes of its window.
proof fn lemma_frame_by_window(m: StreamModel, i: int, block: Seq<u8>)
    requires
        m.frames[i].file_offset + m.frames[i].disk_size <= m.bytes.len(),
        m.frames[i].disk_size == block.len(),
        m.bytes.subrange(
            m.frames[i].file_offset as int,
            m.frames[i].file_offset + m.frames[i].disk_size,
        ) == block,
    ensures
        m.frame(i) == decode_block(
            block,
            block.len() as int,
            m.header.channels as nat,
            byte_width(m.header.bits_per_sample),
            m.prime,
            m.frames[i].sample_count as nat,
        ),
{
}

proof fn lemma_block_decodes(pcm: Seq<i32>, nch: nat, width: int, prime: Seq<i32>)
    requires
        nch > 0,
        pcm.len() % nch == 0,
        frame_encodable(pcm, nch, width, prime),
    ensures
        decode_block(
            encode_block(pcm, nch, width, prime),
            encode_block(pcm, nch, width, prime).len() as int,
            nch,
            width,
            prime,
            pcm.len() / nch,
        ) == Ok::<Seq<i32>, Error>(pcm),
{
    let block = encode_block(pcm, nch, width, prime);
    assert(block + Seq::<u8>::empty() =~= block);
    law_frame_round_trip(pcm, nch, width, prime, Seq::empty());
}

proof fn lemma_encoded_run(samples: Seq<i32>, h: StreamHeader, prime: Seq<i32>, i: int)
    requires
        h.in_scope(),
        file_encodable(samples, h, prime),
        samples.len() == h.total_samples * h.channels,
        0 <= i < h.geometry().0,
    ensures
        parsed_file(h, file_block_list(samples, h, prime), prime).run_from(i) == Ok::<
            Seq<i32>,
            Error,
        >(samples.skip(frame_entry(h, i))),
    decreases h.geometry().0 - i,
{
    let m = parsed_file(h, file_block_list(samples, h, prime), prime);
    let e = frame_entry(h, i);
    let p = frame_pcm(samples, h, i);
    lemma_encoded_frame(samples, h, prime, i);
    lemma_frame_fits(h, i);
    if i + 1 < h.geometry().0 {
        lemma_encoded_run(samples, h, prime, i + 1);
        lemma_frame_fits(h, i + 1);
        assert(p + samples.skip(frame_entry(h, i + 1)) =~= samples.skip(e));
    } else {
        assert(m.run_from(i + 1) == Ok::<Seq<i32>, Error>(Seq::empty()));
        assert(p + Seq::<i32>::empty() =~= samples.skip(e));
    }
}

/// A file holding `samples` decodes to them, for every header in scope and
/// every password.
#[verifier::rlimit(60)]
pub proof fn law_file_round_trip(samples: Seq<i32>, h: StreamHeader, password: Option<Seq<u8>>)
    requires
        h.in_scope(),
        h.format == 2 ==> password is Some,
        samples.len() == h.total_samples * h.channels,
        file_encodable(samples, h, stream_prime(h.format, password)),
    ensures
        decode_spec(file_bytes(samples, h, stream_prime(h.format, password)), password) == Ok::<
            (StreamHeader, Seq<i32>),
            Error,
        >((h, samples)),
{
    reveal(decode_spec);
    let prime = stream_prime(h.format, password);
    let blocks = file_block_list(samples, h, prime);
    law_file_parses(h, blocks, password);
    let m = parsed_file(h, blocks, prime);
    if h.geometry().0 == 0 {
        if h.total_samples > 0 {
            crate::header::lemma_frames_exist(h.total_samples, regular_samples(h.sample_rate));
        }
        assert(0 * h.channels == 0) by (nonlinear_arith);
        assert(samples =~= Seq::<i32>::empty());
        assert(m.run_from(0) == Ok::<Seq<i32>, Error>(Seq::empty()));
    } else {
        lemma_encoded_run(samples, h, prime, 0);
        assert(0 * regular_samples(h.sample_rate) * h.channels == 0) by (nonlinear_arith);
        assert(samples.skip(0) =~= samples);
    }
}

/// Whatever the plain encoder accepts, decoding its file gives the samples
/// back, as long as the residuals have codewords and the counts fit.
pub proof fn law_plain_round_trip(
    samples: Seq<i32>,
    channels: u16,
    bits_per_sample: u16,
    sample_rate: u32,
)
    requires
        encode_error(samples.len() as int, channels, bits_per_sample, sample_rate) is None,
        samples.len() as int / channels as int <= u32::MAX,
        file_encodable(
            samples,
            file_header(1, samples.len() as int, channels, bits_per_sample, sample_rate),
            zero_taps(),
        ),
    ensures
        ({
            let h = file_header(
                1,
                samples.len() as int,
                channels,
                bits_per_sample,
                sample_rate,
            );
            decode_spec(file_bytes(samples, h, zero_taps()), None) == Ok::<
                (StreamHeader, Seq<i32>),
                Error,
            >((h, samples))
        }),
{
    let h = file_header(1, samples.len() as int, channels, bits_per_sample, sample_rate);
    lemma_header_covers(samples.len() as int, h);
    law_file_round_trip(samples, h, None);
}

/// Whatever the password encoder accepts, decoding its file with the same
/// password gives the samples back, as long as the residuals have codewords
/// and the counts fit.
pub proof fn law_password_round_trip(
    samples: Seq<i32>,
    channels: u16,
    bits_per_sample: u16,
    sample_rate: u32,
    password: Seq<u8>,
)
    requires
        encode_error(samples.len() as int, channels, bits_per_sample, sample_rate) is None,
        samples.len() as int / channels as int <= u32::MAX,
        file_encodable(
            samples,
            file_header(2, samples.len() as int, channels, bits_per_sample, sample_rate),
            priming_spec(password),
        ),
    ensures
        ({
            let h = file_header(
                2,
                samples.len() as int,
                channels,
                bits_per_sample,
                sample_rate,
            );
            decode_spec(file_bytes(samples, h, priming_spec(password)), Some(password)) == Ok::<
                (StreamHeader, Seq<i32>),
                Error,
            >((h, samples))
        }),
{
    let h = file_header(2, samples.len() as int, channels, bits_per_sample, sample_rate);
    lemma_header_covers(samples.len() as int, h);
    law_file_round_trip(samples, h, Some(password));
}

/// The header's sample count times its channels is the whole buffer.
pub proof fn lemma_header_covers(len: int, h: StreamHeader)
    requires
        0 <= len,
        1 <= h.channels,
        len % h.channels as int == 0,
        len / h.channels as int <= u32::MAX,
        h.total_samples == ((len / h.channels as int) % 0x1_0000_0000) as u32,
    ensures
        h.total_samples * h.channels == len,
{
    let c = h.channels as int;
    vstd::arithmetic::div_mod::lemma_fundamental_div_mod(len, c);
    let q = len / c;
    assert(q >= 0) by (nonlinear_arith)
        requires
            q == len / c,
            len >= 0,
            c >= 1,
    ;
    assert(q * c == c * q) by (nonlinear_arith);
}

/// Samples of at most 2^29 in magnitude always have codewords: for every
/// signal of 16 to 24 bits, the block sizes are all there is to ask for.
pub proof fn law_moderate_files_encodable(samples: Seq<i32>, h: StreamHeader, prime: Seq<i32>)
    requires
        h.in_scope(),
        samples.len() == h.total_samples * h.channels,
        sizes_fit(h, file_block_list(samples, h, prime)),
        forall|i: int|
            0 <= i < samples.len() ==> -0x2000_0000 <= #[trigger] samples[i] <= 0x2000_0000,
    ensures
        file_encodable(samples, h, prime),
{
    assert forall|i: int| 0 <= i < h.geometry().0 implies frame_encodable(
        #[trigger] frame_pcm(samples, h, i),
        h.channels as nat,
        byte_width(h.bits_per_sample),
        prime,
    ) by {
        let pcm = frame_pcm(samples, h, i);
        lemma_frame_fits(h, i);
        assert forall|k: int| 0 <= k < pcm.len() implies -0x2000_0000 <= #[trigger] pcm[k]
            <= 0x2000_0000 by {
            assert(pcm[k] == samples[frame_entry(h, i) + k]);
        }
        law_moderate_samples_encodable(
            pcm,
            h.channels as nat,
            byte_width(h.bits_per_sample),
            prime,
        );
    }
}

/// The codec is lossless: samples of at most 2^29 in magnitude, which covers
/// every signal of 16 to 24 bits, come back unchanged from the plain format,
/// and from the primed one under the password they were encoded with. All
/// that is asked for is that counts and block sizes fit their fields.
pub proof fn law_lossless(
    samples: Seq<i32>,
    channels: u16,
    bits_per_sample: u16,
    sample_rate: u32,
    password: Option<Seq<u8>>,
)
    requires
        encode_error(samples.len() as int, channels, bits_per_sample, sample_rate) is None,
        samples.len() as int / channels as int <= u32::MAX,
        forall|i: int|
            0 <= i < samples.len() ==> -0x2000_0000 <= #[trigger] samples[i] <= 0x2000_0000,
        ({
            let format: u16 = if password is Some {
                2
            } else {
                1
            };
            let h = file_header(
                format,
                samples.len() as int,
                channels,
                bits_per_sample,
                sample_rate,
            );
            sizes_fit(h, file_block_list(samples, h, stream_prime(format, password)))
        }),
    ensures
        ({
            let format: u16 = if password is Some {
                2
            } else {
                1
            };
            let h = file_header(
                format,
                samples.len() as int,
                channels,
                bits_per_sample,
                sample_rate,
            );
            decode_spec(file_bytes(samples, h, stream_prime(format, password)), password) == Ok::<
                (StreamHeader, Seq<i32>),
                Error,
            >((h, samples))
        }),
{
    let format: u16 = if password is Some {
        2
    } else {
        1
    };
    let h = file_header(format, samples.len() as int, channels, bits_per_sample, sample_rate);
    lemma_header_covers(samples.len() as int, h);
    law_moderate_files_encodable(samples, h, stream_prime(format, password));
    law_file_round_trip(samples, h, password);
}

} // verus!
