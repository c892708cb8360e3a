//! What a changed byte does to a file: in a frame it stops the decoding, in
//! the seek table it costs random access.

use crate::bytes::le32;
use crate::crc32::law_crc32_finds_changed_byte;
use crate::decode_spec;
use crate::decoder::{parse_stream, SeekPoint, StreamModel};
use crate::error::Error;
use crate::frame::{law_damaged_frame_body, law_damaged_frame_crc};
use crate::header::{byte_width, frame_at, frame_offset, id3v2_skip, parse_header, seek_crc_ok};
use crate::header::{seek_frames, seek_table_len, StreamHeader, HEADER_LEN};
use crate::stream_laws::lemma_same_runs;
use vstd::prelude::*;

verus! {

/// Where a file's seek table starts: behind the ID3v2 prefix and the header.
pub open spec fn table_start(file: Seq<u8>) -> int {
    match id3v2_skip(file) {
        Ok(skip) => skip + HEADER_LEN,
        Err(_) => 0,
    }
}

/// Where the CRC of a file's seek table starts: behind the entries.
pub open spec fn table_crc_start(file: Seq<u8>, h: StreamHeader) -> int {
    table_start(file) + seek_table_len(h) - 4
}

/// A file that agrees with another on everything before the seek table, and
/// is as long, parses to the same header, with frames and CRC state taken
/// from its own table.
proof fn lemma_parse_with_other_table(
    file: Seq<u8>,
    other: Seq<u8>,
    password: Option<Seq<u8>>,
)
    requires
        parse_stream(file, password) is Ok,
        other.len() == file.len(),
        other.take(table_start(file)) == file.take(table_start(file)),
    ensures
        ({
            let m = parse_stream(file, password)->Ok_0;
            let table = other.skip(table_start(file));
            let start = (table_start(file) + seek_table_len(m.header)) as u64;
            &&& HEADER_LEN <= table_start(file)
            &&& table_start(file) + seek_table_len(m.header) <= file.len()
            &&& parse_stream(other, password) == Ok::<StreamModel, Error>(
                StreamModel {
                    frames: seek_frames(table, m.header, start),
                    seekable: seek_crc_ok(table, m.header),
                    bytes: other,
                    ..m
                },
            )
        }),
{
    let at = table_start(file);
    let skip = id3v2_skip(file)->Ok_0;
    let m = parse_stream(file, password)->Ok_0;
    assert(0 <= skip);
    assert forall|j: int| 0 <= j < at implies other[j] == file[j] by {
        assert(other.take(at)[j] == file.take(at)[j]);
    }
    assert(id3v2_skip(other) == id3v2_skip(file));
    let a = file.skip(skip);
    let b = other.skip(skip);
    assert forall|j: int| 0 <= j < HEADER_LEN implies a[j] == b[j] by {
        assert(a[j] == file[skip + j]);
        assert(b[j] == other[skip + j]);
    }
    assert(b.take(4) =~= a.take(4));
    assert(b.take(18) =~= a.take(18));
    assert(parse_header(b) == parse_header(a));
    assert(b.skip(HEADER_LEN as int) =~= other.skip(at));
}

/// No frame starts before the first one.
proof fn lemma_offset_at_least(table: Seq<u8>, start: u64, i: int)
    ensures
        frame_offset(table, start, i) >= start,
    decreases i,
{
    if i > 0 {
        lemma_offset_at_least(table, start, i - 1);
    }
}

/// A frame that starts below the 64-bit limit starts where the frames before
/// it have ended.
proof fn lemma_frames_in_order(table: Seq<u8>, start: u64, i: int, k: int)
    requires
        0 <= i < k,
        frame_offset(table, start, k) < u64::MAX,
    ensures
        frame_offset(table, start, i) + le32(table, 4 * i) <= frame_offset(table, start, k),
    decreases k,
{
    if i + 1 < k {
        lemma_frames_in_order(table, start, i, k - 1);
    }
}

/// Tables with the same entries have the same offsets.
proof fn lemma_same_offsets(a: Seq<u8>, b: Seq<u8>, start: u64, i: int)
    requires
        0 <= i,
        4 * i <= a.len(),
        4 * i <= b.len(),
        a.take(4 * i) == b.take(4 * i),
    ensures
        frame_offset(a, start, i) == frame_offset(b, start, i),
    decreases i,
{
    if i > 0 {
        let k = 4 * (i - 1);
        assert(a.take(k) =~= a.take(4 * i).take(k));
        assert(b.take(k) =~= b.take(4 * i).take(k));
        lemma_same_offsets(a, b, start, i - 1);
        lemma_same_entry(a, b, 4 * i, k);
    }
}

proof fn lemma_same_entry(a: Seq<u8>, b: Seq<u8>, n: int, at: int)
    requires
        0 <= at,
        at + 4 <= n,
        n <= a.len(),
        n <= b.len(),
        a.take(n) == b.take(n),
    ensures
        le32(a, at) == le32(b, at),
{
    assert forall|j: int| 0 <= j < n implies a[j] == b[j] by {
        assert(a.take(n)[j] == a[j]);
        assert(b.take(n)[j] == b[j]);
    }
}

/// Tables with the same entries describe the same frames.
proof fn lemma_same_frames(a: Seq<u8>, b: Seq<u8>, h: StreamHeader, start: u64)
    requires
        h.geometry().0 * 4 <= a.len(),
        h.geometry().0 * 4 <= b.len(),
        a.take(h.geometry().0 * 4) == b.take(h.geometry().0 * 4),
    ensures
        seek_frames(a, h, start) == seek_frames(b, h, start),
{
    let n = h.geometry().0 as int;
    assert forall|i: int| 0 <= i < n implies frame_at(a, h, start, i) == frame_at(
        b,
        h,
        start,
        i,
    ) by {
        assert(a.take(4 * i) =~= a.take(4 * n).take(4 * i));
        assert(b.take(4 * i) =~= b.take(4 * n).take(4 * i));
        lemma_same_offsets(a, b, start, i);
        lemma_same_entry(a, b, 4 * n, 4 * i);
    }
    assert(seek_frames(a, h, start) =~= seek_frames(b, h, start));
}

/// Changing any one byte of an intact seek table, entry or CRC, leaves a file
/// that parses to the same header and refuses every entry at a sample.
#[verifier::rlimit(60)]
pub proof fn law_damaged_table_refuses_seeks(
    file: Seq<u8>,
    at: int,
    b: u8,
    password: Option<Seq<u8>>,
)
    requires
        match parse_stream(file, password) {
            Ok(m) => {
                &&& m.seekable
                &&& table_start(file) <= at < table_start(file) + seek_table_len(m.header)
            },
            Err(_) => false,
        },
        b != file[at],
    ensures
        match parse_stream(file.update(at, b), password) {
            Ok(m2) => {
                &&& m2.header == parse_stream(file, password)->Ok_0.header
                &&& !m2.seekable
                &&& forall|s: nat| #[trigger]
                    m2.seek(s) == Err::<SeekPoint, Error>(Error::SeekTableUnreliable)
                &&& forall|s: nat| #[trigger]
                    m2.from_sample(s) == Err::<Seq<i32>, Error>(Error::SeekTableUnreliable)
                &&& forall|s: nat, e: nat|
                    s < e <= m2.header.total_samples ==> #[trigger] m2.range(s, e) == Err::<
                        Seq<i32>,
                        Error,
                    >(Error::SeekTableUnreliable)
            },
            Err(_) => false,
        },
{
    let m = parse_stream(file, password)->Ok_0;
    let h = m.header;
    let other = file.update(at, b);
    let from = table_start(file);
    assert(0 <= from);
    assert(other.take(from) =~= file.take(from));
    lemma_parse_with_other_table(file, other, password);
    lemma_parse_with_other_table(file, file, password);
    let n = h.geometry().0 * 4;
    let t = file.skip(from);
    let u = other.skip(from);
    let i = at - from;
    assert(u =~= t.update(i, b));
    if i < n {
        assert(u.take(n) =~= t.take(n).update(i, b));
        assert(t.take(n)[i] == file[at]);
        law_crc32_finds_changed_byte(t.take(n), i, b);
    } else {
        assert(u.take(n) =~= t.take(n));
        assert(t[i] == file[at]);
    }
    assert(!seek_crc_ok(u, h));
}

/// Changing any one byte of an intact seek table's CRC changes nothing about
/// the frames or about what the file decodes to from start to end; it costs
/// random access alone.
pub proof fn law_damaged_table_crc_decodes_the_same(
    file: Seq<u8>,
    at: int,
    b: u8,
    password: Option<Seq<u8>>,
)
    requires
        match parse_stream(file, password) {
            Ok(m) => {
                &&& m.seekable
                &&& table_crc_start(file, m.header) <= at < table_crc_start(file, m.header) + 4
            },
            Err(_) => false,
        },
        b != file[at],
    ensures
        parse_stream(file.update(at, b), password) == Ok::<StreamModel, Error>(
            StreamModel {
                seekable: false,
                bytes: file.update(at, b),
                ..parse_stream(file, password)->Ok_0
            },
        ),
        forall|k: int|
            0 <= k < parse_stream(file, password)->Ok_0.frames.len() ==> #[trigger] parse_stream(
                file.update(at, b),
                password,
            )->Ok_0.frame(k) == parse_stream(file, password)->Ok_0.frame(k),
        decode_spec(file.update(at, b), password) == decode_spec(file, password),
{
    reveal(decode_spec);
    let m = parse_stream(file, password)->Ok_0;
    let h = m.header;
    let other = file.update(at, b);
    let from = table_start(file);
    let n = h.geometry().0 * 4;
    law_damaged_table_refuses_seeks(file, at, b, password);
    assert(0 <= from);
    assert(other.take(from) =~= file.take(from));
    lemma_parse_with_other_table(file, other, password);
    lemma_parse_with_other_table(file, file, password);
    let t = file.skip(from);
    let u = other.skip(from);
    let start = (from + seek_table_len(h)) as u64;
    assert(t.take(n) =~= u.take(n));
    lemma_same_frames(t, u, h, start);
    let m2 = StreamModel { seekable: false, bytes: other, ..m };
    assert(parse_stream(other, password) == Ok::<StreamModel, Error>(m2));
    assert forall|k: int| 0 <= k < m.frames.len() implies #[trigger] m2.frame(k) == m.frame(k) by {
        let fd = m.frames[k];
        assert(fd == frame_at(t, h, start, k));
        lemma_offset_at_least(t, start, k);
        lemma_start_fits(file, password);
        if fd.file_offset + fd.disk_size <= file.len() {
            let end = fd.file_offset + fd.disk_size;
            assert(other.subrange(fd.file_offset as int, end) =~= file.subrange(
                fd.file_offset as int,
                end,
            ));
        }
    }
    assert forall|k: int| 0 <= k < m.frames.len() implies #[trigger] m.frame(k) == m2.frame(k) by {
        assert(m2.frame(k) == m.frame(k));
    }
    lemma_same_runs(m, m2, 0);
}

/// The seek table ends below the 64-bit limit: tag, header and table are all
/// bounded by the fields that declare them.
proof fn lemma_start_fits(file: Seq<u8>, password: Option<Seq<u8>>)
    requires
        parse_stream(file, password) is Ok,
    ensures
        0 <= table_start(file) + seek_table_len(parse_stream(file, password)->Ok_0.header)
            <= u64::MAX,
{
}

/// Changing any one byte of a frame's stored CRC in a file that decodes makes
/// the decoding fail with a CRC mismatch.
pub proof fn law_damaged_crc_is_reported(
    file: Seq<u8>,
    k: int,
    at: int,
    b: u8,
    password: Option<Seq<u8>>,
)
    requires
        file.len() <= u64::MAX,
        decode_spec(file, password) is Ok,
        match parse_stream(file, password) {
            Ok(m) => {
                let fd = m.frames[k];
                let end = fd.file_offset + fd.disk_size;
                0 <= k < m.frames.len() && end - 4 <= at < end
            },
            Err(_) => false,
        },
        b != file[at],
    ensures
        decode_spec(file.update(at, b), password) == Err::<(StreamHeader, Seq<i32>), Error>(
            Error::Crc32Mismatch { region: "frame" },
        ),
{
    assert(parse_stream(file, password)->Ok_0.run_from(0) is Ok) by {
        reveal(decode_spec);
    }
    lemma_frame_decodes(parse_stream(file, password)->Ok_0, 0, k);
    lemma_damaged_frame(file, k, at, b, password);
}

/// Changing any one byte of a frame's body in a file that decodes makes the
/// decoding fail: the bits run out, or the CRC does not match.
pub proof fn law_damaged_body_never_decodes(
    file: Seq<u8>,
    k: int,
    at: int,
    b: u8,
    password: Option<Seq<u8>>,
)
    requires
        file.len() <= u64::MAX,
        decode_spec(file, password) is Ok,
        match parse_stream(file, password) {
            Ok(m) => {
                let fd = m.frames[k];
                let end = fd.file_offset + fd.disk_size;
                0 <= k < m.frames.len() && fd.file_offset <= at < end - 4
            },
            Err(_) => false,
        },
        b != file[at],
    ensures
        decode_spec(file.update(at, b), password) is Err,
        decode_spec(file.update(at, b), password)->Err_0 == Error::Truncated || decode_spec(
            file.update(at, b),
            password,
        )->Err_0 == (Error::Crc32Mismatch { region: "frame" }),
{
    lemma_damaged_frame(file, k, at, b, password);
}

#[verifier::rlimit(60)]
proof fn lemma_damaged_frame(
    file: Seq<u8>,
    k: int,
    at: int,
    b: u8,
    password: Option<Seq<u8>>,
)
    requires
        file.len() <= u64::MAX,
        decode_spec(file, password) is Ok,
        match parse_stream(file, password) {
            Ok(m) => {
                let fd = m.frames[k];
                0 <= k < m.frames.len() && fd.file_offset <= at < fd.file_offset + fd.disk_size
            },
            Err(_) => false,
        },
        b != file[at],
    ensures
        ({
            let fd = parse_stream(file, password)->Ok_0.frames[k];
            let mismatch = Error::Crc32Mismatch { region: "frame" };
            match decode_spec(file.update(at, b), password) {
                Ok(_) => false,
                Err(e) => e == mismatch || (e == Error::Truncated && at < fd.file_offset
                    + fd.disk_size - 4),
            }
        }),
{
    reveal(decode_spec);
    let m = parse_stream(file, password)->Ok_0;
    let h = m.header;
    let other = file.update(at, b);
    let from = table_start(file);
    lemma_parse_with_other_table(file, file, password);
    lemma_start_fits(file, password);
    let t = file.skip(from);
    let start = (from + seek_table_len(h)) as u64;
    let fd = m.frames[k];
    assert(fd == frame_at(t, h, start, k));
    lemma_offset_at_least(t, start, k);
    lemma_frame_decodes(m, 0, k);
    assert(other.take(from) =~= file.take(from));
    lemma_parse_with_other_table(file, other, password);
    let u = other.skip(from);
    assert(u.take(h.geometry().0 * 4) =~= t.take(h.geometry().0 * 4));
    lemma_same_frames(t, u, h, start);
    let m2 = parse_stream(other, password)->Ok_0;
    lemma_changed_block(m, m2, k, at, b);
    assert forall|i: int| 0 <= i < k implies #[trigger] m2.frame(i) is Ok by {
        let before = m.frames[i];
        lemma_frame_decodes(m, 0, i);
        assert(before == frame_at(t, h, start, i));
        lemma_frames_in_order(t, start, i, k);
        let end = before.file_offset + before.disk_size;
        assert(other.subrange(before.file_offset as int, end) =~= file.subrange(
            before.file_offset as int,
            end,
        ));
    }
    lemma_run_stops(m2, 0, k);
}

/// The changed frame on its own.
proof fn lemma_changed_block(m: StreamModel, m2: StreamModel, k: int, at: int, b: u8)
    requires
        0 <= k < m.frames.len(),
        m.frame(k) is Ok,
        m.frames[k].file_offset <= at < m.frames[k].file_offset + m.frames[k].disk_size,
        b != m.bytes[at],
        m2.header == m.header,
        m2.frames == m.frames,
        m2.prime == m.prime,
        m2.bytes == m.bytes.update(at, b),
    ensures
        ({
            let fd = m.frames[k];
            let mismatch = Error::Crc32Mismatch { region: "frame" };
            match m2.frame(k) {
                Ok(_) => false,
                Err(e) => e == mismatch || (e == Error::Truncated && at < fd.file_offset
                    + fd.disk_size - 4),
            }
        }),
{
    let fd = m.frames[k];
    let off = fd.file_offset as int;
    let size = fd.disk_size as int;
    let block = m.bytes.subrange(off, off + size);
    let changed = m2.bytes.subrange(off, off + size);
    assert(changed =~= block.update(at - off, b));
    assert(block[at - off] == m.bytes[at]);
    let nch = m.header.channels as nat;
    let width = byte_width(m.header.bits_per_sample);
    if at - off >= size - 4 {
        law_damaged_frame_crc(
            block,
            size,
            nch,
            width,
            m.prime,
            fd.sample_count as nat,
            at - off,
            b,
        );
    } else {
        law_damaged_frame_body(
            block,
            size,
            nch,
            width,
            m.prime,
            fd.sample_count as nat,
            at - off,
            b,
        );
    }
}

/// Where a run decodes, each of its frames does.
pub proof fn lemma_frame_decodes(m: StreamModel, i: int, k: int)
    requires
        0 <= i <= k < m.frames.len(),
        m.run_from(i) is Ok,
    ensures
        m.frame(k) is Ok,
    decreases k - i,
{
    if i < k {
        lemma_frame_decodes(m, i + 1, k);
    }
}

/// A run ends with the error of the first frame that fails.
proof fn lemma_run_stops(m: StreamModel, i: int, k: int)
    requires
        0 <= i <= k < m.frames.len(),
        forall|j: int| i <= j < k ==> #[trigger] m.frame(j) is Ok,
        m.frame(k) is Err,
    ensures
        m.run_from(i) == Err::<Seq<i32>, Error>(m.frame(k)->Err_0),
    decreases k - i,
{
    if i < k {
        lemma_run_stops(m, i + 1, k);
    }
}

} // verus!
