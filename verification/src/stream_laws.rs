//! What passwords and tags in front of a stream do and do not change.

use crate::access_laws::law_frame_length;
use crate::bits::stream_bits;
use crate::bytes::le32;
use crate::channel::ChannelModel;
use crate::damage_laws::lemma_frame_decodes;
use crate::decode_spec;
use crate::decoder::{parse_stream, stream_prime, StreamModel};
use crate::encoder::{file_block, file_block_list, file_bytes, frame_pcm};
use crate::error::Error;
use crate::frame::{decode_instant, decode_instants, initial_channels};
use crate::header::{byte_width, frame_at, frame_offset, has_id3v2, header_bytes, header_prefix};
use crate::header::{id3v2_len, id3v2_skip, parse_header, seek_frames, seek_table_len};
use crate::header::{law_header_damage_is_refused, law_header_round_trip, lemma_prefix_layout};
use crate::header::{StreamHeader, HEADER_LEN};
use crate::end_of_stream;
use crate::layout::{block_descriptor, file_of, law_file_parses, lemma_block_window};
use crate::layout::{joined, lemma_file_len, lemma_first_byte, seek_table_bytes, sizes_fit};
use crate::lms::zero_taps;
use crate::password::{law_empty_password_primes_zero, priming_spec};
use vstd::prelude::*;

verus! {

/// Unless the stream asks for a password, giving one changes nothing.
pub proof fn law_password_ignored_on_plain_streams(bytes: Seq<u8>, password: Seq<u8>)
    requires
        decode_spec(bytes, None) != Err::<(StreamHeader, Seq<i32>), Error>(Error::PasswordRequired),
    ensures
        parse_stream(bytes, Some(password)) == parse_stream(bytes, None),
        decode_spec(bytes, Some(password)) == decode_spec(bytes, None),
{
    reveal(decode_spec);
}

/// A primed stream without a password is refused.
pub proof fn law_primed_streams_need_a_password(bytes: Seq<u8>, password: Seq<u8>)
    ensures
        match parse_stream(bytes, Some(password)) {
            Ok(m) => m.header.format == 2 ==> decode_spec(bytes, None) == Err::<
                (StreamHeader, Seq<i32>),
                Error,
            >(Error::PasswordRequired),
            Err(_) => true,
        },
{
    reveal(decode_spec);
}

/// Encoding with the empty password gives the plain file but for the format
/// field and the header CRC.
pub proof fn law_empty_password_file(samples: Seq<i32>, h: StreamHeader)
    requires
        h.format == 1,
    ensures
        ({
            let plain = file_bytes(samples, h, zero_taps());
            let primed = file_bytes(
                samples,
                StreamHeader { format: 2, ..h },
                priming_spec(Seq::empty()),
            );
            &&& plain.len() == primed.len()
            &&& plain.subrange(0, 4) == primed.subrange(0, 4)
            &&& plain.subrange(6, 18) == primed.subrange(6, 18)
            &&& plain.skip(HEADER_LEN as int) == primed.skip(HEADER_LEN as int)
        }),
{
    let h2 = StreamHeader { format: 2, ..h };
    law_empty_password_primes_zero();
    let prime = zero_taps();
    let blocks = file_block_list(samples, h, prime);
    let blocks2 = file_block_list(samples, h2, prime);
    assert(blocks =~= blocks2) by {
        assert forall|i: int| 0 <= i < blocks.len() implies blocks[i] == blocks2[i] by {
            reveal(file_block);
            assert(frame_pcm(samples, h, i) == frame_pcm(samples, h2, i));
        }
    }
    let tail = crate::layout::seek_table_bytes(blocks) + crate::layout::joined(
        blocks,
        blocks.len() as int,
    );
    let plain = header_bytes(h) + tail;
    let primed = header_bytes(h2) + tail;
    lemma_prefix_layout(h);
    lemma_prefix_layout(h2);
    let p = header_prefix(h);
    let q = header_prefix(h2);
    assert(p.subrange(6, 18) =~= q.subrange(6, 18)) by {
        assert forall|k: int| 6 <= k < 18 implies p[k] == q[k] by {
            if k < 8 {
                assert(p.subrange(6, 8)[k - 6] == q.subrange(6, 8)[k - 6]);
            } else if k < 10 {
                assert(p.subrange(8, 10)[k - 8] == q.subrange(8, 10)[k - 8]);
            } else if k < 14 {
                assert(p.subrange(10, 14)[k - 10] == q.subrange(10, 14)[k - 10]);
            } else {
                assert(p.subrange(14, 18)[k - 14] == q.subrange(14, 18)[k - 14]);
            }
        }
    }
    assert(plain.subrange(0, 4) =~= p.subrange(0, 4));
    assert(primed.subrange(0, 4) =~= q.subrange(0, 4));
    assert(plain.subrange(6, 18) =~= p.subrange(6, 18));
    assert(primed.subrange(6, 18) =~= q.subrange(6, 18));
    assert(plain.skip(22) =~= tail);
    assert(primed.skip(22) =~= tail);
}

/// Channels that agree on everything the bit stream is read by.
spec fn same_rice(a: Seq<ChannelModel>, b: Seq<ChannelModel>) -> bool {
    &&& a.len() == b.len()
    &&& forall|i: int| 0 <= i < a.len() ==> (#[trigger] a[i]).rice == b[i].rice
}

proof fn lemma_instant_shape(
    bits: Seq<bool>,
    a: Seq<ChannelModel>,
    b: Seq<ChannelModel>,
    n: int,
)
    requires
        same_rice(a, b),
        0 <= n <= a.len(),
    ensures
        match (decode_instant(bits, a, n), decode_instant(bits, b, n)) {
            (Some((va, pa, ra)), Some((vb, pb, rb))) => {
                &&& ra == rb
                &&& same_rice(pa, pb)
                &&& pa.len() == a.len()
            },
            (None, None) => true,
            _ => false,
        },
    decreases n,
{
    if n > 0 {
        lemma_instant_shape(bits, a, b, n - 1);
    }
}

proof fn lemma_instants_shape(
    bits: Seq<bool>,
    a: Seq<ChannelModel>,
    b: Seq<ChannelModel>,
    n: int,
)
    requires
        same_rice(a, b),
        0 <= n,
    ensures
        match (decode_instants(bits, a, n), decode_instants(bits, b, n)) {
            (Some((va, pa, ra)), Some((vb, pb, rb))) => {
                &&& ra == rb
                &&& same_rice(pa, pb)
                &&& pa.len() == a.len()
            },
            (None, None) => true,
            _ => false,
        },
    decreases n,
{
    if n > 0 {
        lemma_instants_shape(bits, a, b, n - 1);
        match (decode_instants(bits, a, n - 1), decode_instants(bits, b, n - 1)) {
            (Some((va, pa, ra)), Some((vb, pb, rb))) => {
                lemma_instant_shape(ra, pa, pb, pa.len() as int);
            },
            _ => {},
        }
    }
}

/// Whether two results are the same error, or samples of the same number.
pub open spec fn same_shape(
    a: core::result::Result<Seq<i32>, Error>,
    b: core::result::Result<Seq<i32>, Error>,
) -> bool {
    match (a, b) {
        (Ok(p), Ok(q)) => p.len() == q.len(),
        (Err(e), Err(f)) => e == f,
        _ => false,
    }
}

proof fn lemma_frame_shape(m: StreamModel, prime: Seq<i32>, i: int)
    ensures
        same_shape(m.frame(i), (StreamModel { prime, ..m }).frame(i)),
{
    let other = StreamModel { prime, ..m };
    let fd = m.frames[i];
    let end = fd.file_offset + fd.disk_size;
    law_frame_length(m, i);
    law_frame_length(other, i);
    if end <= m.bytes.len() && fd.disk_size >= 4 {
        let body = m.bytes.subrange(fd.file_offset as int, end).take(fd.disk_size - 4);
        let nch = m.header.channels as nat;
        let width = byte_width(m.header.bits_per_sample);
        lemma_instants_shape(
            stream_bits(body),
            initial_channels(nch, width, m.prime),
            initial_channels(nch, width, prime),
            fd.sample_count as int,
        );
    }
}

proof fn lemma_run_shape(m: StreamModel, prime: Seq<i32>, i: int)
    ensures
        same_shape(m.run_from(i), (StreamModel { prime, ..m }).run_from(i)),
    decreases m.frames.len() - i,
{
    if i < m.frames.len() {
        lemma_frame_shape(m, prime, i);
        lemma_run_shape(m, prime, i + 1);
    }
}

/// A wrong password never turns a stream that decodes into one that does not,
/// nor the other way round: it changes sample values and nothing else.
pub proof fn law_wrong_password_keeps_shape(bytes: Seq<u8>, right: Seq<u8>, wrong: Seq<u8>)
    ensures
        match (decode_spec(bytes, Some(right)), decode_spec(bytes, Some(wrong))) {
            (Ok((h, p)), Ok((g, q))) => h == g && p.len() == q.len(),
            (Err(e), Err(f)) => e == f,
            _ => false,
        },
{
    reveal(decode_spec);
    match parse_stream(bytes, Some(right)) {
        Ok(m) => {
            let prime = stream_prime(m.header.format, Some(wrong));
            assert(parse_stream(bytes, Some(wrong)) == Ok::<StreamModel, Error>(
                StreamModel { prime, ..m },
            ));
            lemma_run_shape(m, prime, 0);
        },
        Err(_) => {},
    }
}

/// A cumulative offset is the start plus the sizes before it, held at the
/// 64-bit limit.
spec fn size_sum(table: Seq<u8>, i: int) -> int
    decreases i,
{
    if i <= 0 {
        0
    } else {
        size_sum(table, i - 1) + le32(table, 4 * (i - 1))
    }
}

proof fn lemma_offset_sum(table: Seq<u8>, start: u64, i: int)
    requires
        0 <= i,
    ensures
        size_sum(table, i) >= 0,
        frame_offset(table, start, i) == if start + size_sum(table, i) > u64::MAX {
            u64::MAX as int
        } else {
            start + size_sum(table, i)
        },
    decreases i,
{
    if i > 0 {
        lemma_offset_sum(table, start, i - 1);
    }
}

/// Whether `tag` is exactly one ID3v2 tag.
pub open spec fn is_id3v2_tag(tag: Seq<u8>) -> bool {
    has_id3v2(tag) && id3v2_len(tag) == tag.len()
}

/// Putting an ID3v2 tag in front of a stream changes nothing about what it
/// decodes to.
#[verifier::rlimit(60)]
pub proof fn law_id3v2_prefix_is_transparent(
    tag: Seq<u8>,
    file: Seq<u8>,
    password: Option<Seq<u8>>,
)
    requires
        tag.len() >= 10 && tag[0] == 0x49 && tag[1] == 0x44 && tag[2] == 0x33,
        ({
            let n = tag.len() - 10 - if tag[5] & 0x10 != 0 {
                10int
            } else {
                0int
            };
            &&& 0 <= n < 0x1000_0000
            &&& tag[6] % 128 == n / 0x20_0000 && tag[7] % 128 == n / 0x4000 % 128
            &&& tag[8] % 128 == n / 0x80 % 128 && tag[9] % 128 == n % 128
        }),
        !(file.len() >= 10 && file[0] == 0x49 && file[1] == 0x44 && file[2] == 0x33),
        tag.len() + file.len() < u64::MAX,
    ensures
        decode_spec(tag + file, password) == decode_spec(file, password),
{
    assert(id3v2_len(tag) == tag.len());
    lemma_tag_is_transparent(tag, file, password);
}

proof fn lemma_tag_is_transparent(tag: Seq<u8>, file: Seq<u8>, password: Option<Seq<u8>>)
    requires
        is_id3v2_tag(tag),
        !has_id3v2(file),
        tag.len() + file.len() < u64::MAX,
    ensures
        decode_spec(tag + file, password) == decode_spec(file, password),
{
    reveal(decode_spec);
    let both = tag + file;
    let t = tag.len() as int;
    lemma_tag_is_skipped(tag, file);
    assert(file.skip(0) =~= file);
    match parse_stream(file, password) {
        Ok(m) => {
            let h = m.header;
            let table = file.skip(HEADER_LEN as int);
            let s1 = (HEADER_LEN + seek_table_len(h)) as u64;
            let s2 = (t + HEADER_LEN + seek_table_len(h)) as u64;
            let m2 = StreamModel { frames: seek_frames(table, h, s2), bytes: both, ..m };
            assert(m.frames == seek_frames(table, h, s1));
            assert(parse_stream(both, password) == Ok::<StreamModel, Error>(m2));
            assert forall|i: int| 0 <= i < m.frames.len() implies #[trigger] m.frame(i) == m2.frame(
                i,
            ) by {
                lemma_shifted_frame(m, m2, tag, table, s1, s2, i);
            }
            lemma_same_runs(m, m2, 0);
        },
        Err(_) => {},
    }
}

/// A file behind a tag built around any content decodes as the file alone
/// does: the content's length goes into the tag seven bits at a time, and
/// where the footer bit is set ten bytes of footer follow the content.
#[verifier::rlimit(60)]
pub proof fn law_id3v2_content_is_transparent(
    version: u8,
    revision: u8,
    flags: u8,
    content: Seq<u8>,
    footer: Seq<u8>,
    file: Seq<u8>,
    password: Option<Seq<u8>>,
)
    requires
        content.len() < 0x1000_0000,
        footer.len() == if flags & 0x10 != 0 {
            10int
        } else {
            0int
        },
        !(file.len() >= 10 && file[0] == 0x49 && file[1] == 0x44 && file[2] == 0x33),
        file.len() < 0xFFFF_FFFF_0000_0000,
    ensures
        ({
            let n = content.len() as int;
            let head = seq![
                0x49u8,
                0x44u8,
                0x33u8,
                version,
                revision,
                flags,
                (n / 0x20_0000) as u8,
                (n / 0x4000 % 128) as u8,
                (n / 0x80 % 128) as u8,
                (n % 128) as u8,
            ];
            decode_spec(head + content + footer + file, password) == decode_spec(file, password)
        }),
{
    let n = content.len() as int;
    let head = seq![
        0x49u8,
        0x44u8,
        0x33u8,
        version,
        revision,
        flags,
        (n / 0x20_0000) as u8,
        (n / 0x4000 % 128) as u8,
        (n / 0x80 % 128) as u8,
        (n % 128) as u8,
    ];
    let tag = head + content + footer;
    assert(tag[0] == head[0] && tag[1] == head[1] && tag[2] == head[2] && tag[5] == head[5]
        && tag[6] == head[6] && tag[7] == head[7] && tag[8] == head[8] && tag[9] == head[9]);
    law_id3v2_prefix_is_transparent(tag, file, password);
}

/// The parser finds the end of the tag.
proof fn lemma_tag_is_skipped(tag: Seq<u8>, file: Seq<u8>)
    requires
        is_id3v2_tag(tag),
    ensures
        id3v2_skip(tag + file) == Ok::<int, Error>(tag.len() as int),
        (tag + file).skip(tag.len() as int) == file,
{
    let both = tag + file;
    assert(both[0] == tag[0] && both[1] == tag[1] && both[2] == tag[2] && both[5] == tag[5]
        && both[6] == tag[6] && both[7] == tag[7] && both[8] == tag[8] && both[9] == tag[9]);
    assert(id3v2_len(both) == tag.len());
    assert(both.skip(tag.len() as int) =~= file);
}

/// A frame behind a tag has the same bytes as without the tag.
proof fn lemma_shifted_frame(
    m: StreamModel,
    m2: StreamModel,
    tag: Seq<u8>,
    table: Seq<u8>,
    s1: u64,
    s2: u64,
    i: int,
)
    requires
        m.frames == seek_frames(table, m.header, s1),
        m2 == (StreamModel {
            frames: seek_frames(table, m.header, s2),
            bytes: tag + m.bytes,
            ..m
        }),
        s2 == s1 + tag.len(),
        tag.len() + m.bytes.len() < u64::MAX,
        0 <= i < m.frames.len(),
    ensures
        m.frame(i) == m2.frame(i),
{
    let t = tag.len() as int;
    lemma_offset_sum(table, s1, i);
    lemma_offset_sum(table, s2, i);
    let a = m.frames[i];
    let b = m2.frames[i];
    assert(a == frame_at(table, m.header, s1, i));
    assert(b == frame_at(table, m.header, s2, i));
    if a.file_offset + a.disk_size <= m.bytes.len() {
        assert(b.file_offset == a.file_offset + t);
        assert(m2.bytes.subrange(b.file_offset as int, b.file_offset + b.disk_size)
            =~= m.bytes.subrange(a.file_offset as int, a.file_offset + a.disk_size));
    }
}

/// Streams whose frames decode alike decode alike.
pub proof fn lemma_same_runs(m: StreamModel, m2: StreamModel, i: int)
    requires
        0 <= i,
        m.frames.len() == m2.frames.len(),
        forall|k: int| 0 <= k < m.frames.len() ==> #[trigger] m.frame(k) == m2.frame(k),
    ensures
        m.run_from(i) == m2.run_from(i),
    decreases m.frames.len() - i,
{
    if i < m.frames.len() {
        lemma_same_runs(m, m2, i + 1);
    }
}

/// Bytes after the last frame, tags or not, change nothing about what a
/// stream decodes to.
pub proof fn law_trailing_bytes_are_ignored(
    file: Seq<u8>,
    tail: Seq<u8>,
    password: Option<Seq<u8>>,
)
    requires
        decode_spec(file, password) is Ok,
    ensures
        decode_spec(file + tail, password) == decode_spec(file, password),
{
    reveal(decode_spec);
    let m = parse_stream(file, password)->Ok_0;
    let m2 = StreamModel { bytes: file + tail, ..m };
    lemma_parse_extends(file, tail, password);
    assert forall|i: int| 0 <= i < m.frames.len() && m.frame(i) is Ok implies #[trigger] m.frame(i)
        == m2.frame(i) by {
        lemma_frame_extends(m, tail, i);
    }
    lemma_run_extends(m, m2, 0);
}

/// What parses stays parsed the same way with more bytes behind it.
pub proof fn lemma_parse_extends(file: Seq<u8>, tail: Seq<u8>, password: Option<Seq<u8>>)
    requires
        parse_stream(file, password) is Ok,
    ensures
        parse_stream(file + tail, password) == Ok::<StreamModel, Error>(
            StreamModel { bytes: file + tail, ..parse_stream(file, password)->Ok_0 },
        ),
{
    let both = file + tail;
    let skip = id3v2_skip(file)->Ok_0;
    assert(0 <= skip <= file.len());
    lemma_skip_extends(file, tail);
    let after = file.skip(skip);
    let after2 = both.skip(skip);
    assert(after2 =~= after + tail);
    let h = parse_header(after)->Ok_0;
    lemma_header_extends(after, tail);
    let table = after.skip(HEADER_LEN as int);
    let table2 = after2.skip(HEADER_LEN as int);
    assert(table2 =~= table + tail);
    let n = h.geometry().0 as int;
    let start = (skip + HEADER_LEN + seek_table_len(h)) as u64;
    assert(table2.take(4 * n) =~= table.take(4 * n));
    lemma_le32_prefix(table, tail, 4 * n);
    assert forall|i: int| 0 <= i < n implies frame_at(table, h, start, i) == frame_at(
        table2,
        h,
        start,
        i,
    ) by {
        lemma_le32_prefix(table, tail, 4 * i);
        lemma_offsets_extend(table, tail, start, i);
    }
    assert(seek_frames(table2, h, start) =~= seek_frames(table, h, start));
}

proof fn lemma_skip_extends(file: Seq<u8>, tail: Seq<u8>)
    requires
        id3v2_skip(file) is Ok,
        file.len() >= 10,
    ensures
        id3v2_skip(file + tail) == id3v2_skip(file),
{
    let both = file + tail;
    assert(both[0] == file[0] && both[1] == file[1] && both[2] == file[2] && both[5] == file[5]
        && both[6] == file[6] && both[7] == file[7] && both[8] == file[8] && both[9] == file[9]);
}

proof fn lemma_header_extends(after: Seq<u8>, tail: Seq<u8>)
    requires
        parse_header(after) is Ok,
    ensures
        parse_header(after + tail) == parse_header(after),
{
    let both = after + tail;
    assert(both.take(4) =~= after.take(4));
    assert(both.take(18) =~= after.take(18));
    lemma_le32_prefix(after, tail, 18);
    lemma_le32_prefix(after, tail, 10);
    lemma_le32_prefix(after, tail, 14);
    assert(both[4] == after[4] && both[5] == after[5] && both[6] == after[6] && both[7] == after[7]
        && both[8] == after[8] && both[9] == after[9]);
}

proof fn lemma_le32_prefix(s: Seq<u8>, tail: Seq<u8>, at: int)
    requires
        0 <= at,
        at + 4 <= s.len(),
    ensures
        le32(s + tail, at) == le32(s, at),
{
    let both = s + tail;
    assert(both[at] == s[at] && both[at + 1] == s[at + 1] && both[at + 2] == s[at + 2] && both[at
        + 3] == s[at + 3]);
}

proof fn lemma_offsets_extend(table: Seq<u8>, tail: Seq<u8>, start: u64, i: int)
    requires
        0 <= i,
        4 * i <= table.len(),
    ensures
        frame_offset(table + tail, start, i) == frame_offset(table, start, i),
    decreases i,
{
    if i > 0 {
        lemma_offsets_extend(table, tail, start, i - 1);
        lemma_le32_prefix(table, tail, 4 * (i - 1));
    }
}

proof fn lemma_frame_extends(m: StreamModel, tail: Seq<u8>, i: int)
    requires
        m.frame(i) is Ok,
    ensures
        (StreamModel { bytes: m.bytes + tail, ..m }).frame(i) == m.frame(i),
{
    let both = m.bytes + tail;
    let fd = m.frames[i];
    let end = fd.file_offset + fd.disk_size;
    assert(both.subrange(fd.file_offset as int, end) =~= m.bytes.subrange(
        fd.file_offset as int,
        end,
    ));
}

proof fn lemma_run_extends(m: StreamModel, m2: StreamModel, i: int)
    requires
        0 <= i,
        m.frames.len() == m2.frames.len(),
        forall|k: int|
            0 <= k < m.frames.len() && m.frame(k) is Ok ==> #[trigger] m.frame(k) == m2.frame(k),
        m.run_from(i) is Ok,
    ensures
        m.run_from(i) == m2.run_from(i),
    decreases m.frames.len() - i,
{
    if i < m.frames.len() {
        assert(m.frame(i) is Ok);
        lemma_run_extends(m, m2, i + 1);
    }
}

/// Behind a file, whatever follows it, the search for tags starts exactly
/// where the file ends.
pub proof fn law_scan_starts_after_file(h: StreamHeader, blocks: Seq<Seq<u8>>, tail: Seq<u8>)
    requires
        h.in_scope(),
        blocks.len() == h.geometry().0,
        sizes_fit(h, blocks),
    ensures
        ({
            let file = file_of(h, blocks);
            match parse_stream(file + tail, Some(Seq::empty())) {
                Ok(m) => end_of_stream(file + tail, m) == file.len(),
                Err(_) => false,
            }
        }),
{
    let file = file_of(h, blocks);
    let none = Some(Seq::<u8>::empty());
    law_file_parses(h, blocks, none);
    lemma_parse_extends(file, tail, none);
    let m = parse_stream(file + tail, none)->Ok_0;
    let n = blocks.len() as int;
    lemma_file_len(h, blocks);
    if n > 0 {
        lemma_block_window(h, blocks, n - 1);
        assert(m.frames.last() == block_descriptor(h, blocks, n - 1));
    } else {
        lemma_no_id3v2(h, blocks, tail);
    }
}

/// No file starts like an ID3v2 tag.
proof fn lemma_no_id3v2(h: StreamHeader, blocks: Seq<Seq<u8>>, tail: Seq<u8>)
    ensures
        id3v2_skip(file_of(h, blocks) + tail) == Ok::<int, Error>(0),
{
    lemma_first_byte(h);
    assert((file_of(h, blocks) + tail)[0] == header_bytes(h)[0]);
}

/// A stream whose header has been damaged in a single byte does not decode,
/// whatever the password.
pub proof fn law_damaged_header_never_decodes(
    file: Seq<u8>,
    i: int,
    b: u8,
    password: Option<Seq<u8>>,
)
    requires
        parse_header(file) is Ok,
        0 <= i < HEADER_LEN,
        b != file[i],
    ensures
        decode_spec(file.update(i, b), password) is Err,
{
    reveal(decode_spec);
    let bad = file.update(i, b);
    law_header_damage_is_refused(file, i, b);
    let magic = file.take(4);
    assert(magic[0] == 0x54 && magic[1] == 0x54 && magic[2] == 0x41);
    assert(file[0] == magic[0] && file[1] == magic[1] && file[2] == magic[2]);
    assert(!has_id3v2(bad));
    assert(bad.skip(0) =~= bad);
}

/// No proper prefix of an encoded file decodes, whatever the password.
pub proof fn law_truncated_file_never_decodes(
    samples: Seq<i32>,
    h: StreamHeader,
    prime: Seq<i32>,
    n: int,
    password: Option<Seq<u8>>,
)
    requires
        h.in_scope(),
        sizes_fit(h, file_block_list(samples, h, prime)),
        0 <= n < file_bytes(samples, h, prime).len(),
    ensures
        decode_spec(file_bytes(samples, h, prime).take(n), password) is Err,
{
    lemma_prefix_never_decodes(h, file_block_list(samples, h, prime), n, password);
}

#[verifier::rlimit(60)]
proof fn lemma_prefix_never_decodes(
    h: StreamHeader,
    blocks: Seq<Seq<u8>>,
    n: int,
    password: Option<Seq<u8>>,
)
    requires
        h.in_scope(),
        blocks.len() == h.geometry().0,
        sizes_fit(h, blocks),
        0 <= n < file_of(h, blocks).len(),
    ensures
        decode_spec(file_of(h, blocks).take(n), password) is Err,
{
    reveal(decode_spec);
    let file = file_of(h, blocks);
    let part = file.take(n);
    if decode_spec(part, password) is Ok {
        let m = parse_stream(part, password)->Ok_0;
        let count = blocks.len() as int;
        lemma_parse_extends(part, file.skip(n), password);
        assert(part + file.skip(n) =~= file);
        lemma_parsed_header(h, blocks, password);
        law_file_parses(h, blocks, password);
        lemma_file_len(h, blocks);
        assert(m.frames.len() == count);
        if count == 0 {
            lemma_no_id3v2(h, blocks, Seq::empty());
            assert(file + Seq::<u8>::empty() =~= file);
            assert(!has_id3v2(part)) by {
                lemma_first_byte(h);
                assert(n > 0 ==> part[0] == header_bytes(h)[0]);
            }
            assert(part.skip(0) =~= part);
        } else {
            lemma_block_window(h, blocks, count - 1);
            assert(m.frames[count - 1] == block_descriptor(h, blocks, count - 1));
            lemma_frame_decodes(m, 0, count - 1);
        }
    }
}

/// A primed file parses only with a password.
proof fn lemma_parsed_header(h: StreamHeader, blocks: Seq<Seq<u8>>, password: Option<Seq<u8>>)
    requires
        h.in_scope(),
        parse_stream(file_of(h, blocks), password) is Ok,
    ensures
        h.format == 2 ==> password is Some,
{
    let file = file_of(h, blocks);
    let tail = seek_table_bytes(blocks) + joined(blocks, blocks.len() as int);
    law_header_round_trip(h, tail);
    assert(file == header_bytes(h) + tail);
    lemma_no_id3v2(h, blocks, Seq::empty());
    assert(file + Seq::<u8>::empty() =~= file);
    assert(file.skip(0) =~= file);
}

} // verus!
