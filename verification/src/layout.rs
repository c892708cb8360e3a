//! How header, seek table and frame blocks make up a file, and what parsing
//! finds in one.

use crate::bytes::{le32, le32_bytes, lemma_le32_round_trip};
use crate::crc32::crc32_spec;
use crate::decoder::{parse_stream, stream_prime, StreamModel};
use crate::error::Error;
use crate::header::{frame_at, frame_offset, header_bytes, header_prefix, law_header_round_trip};
use crate::header::{regular_samples, seek_crc_ok, seek_frames, seek_table_len};
use crate::header::{FrameDescriptor, StreamHeader, HEADER_LEN};
use vstd::prelude::*;

verus! {

/// The first `n` blocks, back to back.
pub open spec fn joined(blocks: Seq<Seq<u8>>, n: int) -> Seq<u8>
    decreases n,
{
    if n <= 0 {
        Seq::empty()
    } else {
        joined(blocks, n - 1) + blocks[n - 1]
    }
}

/// The seek-table entries of the first `n` blocks: their sizes, reduced to
/// 32 bits.
pub open spec fn entries(blocks: Seq<Seq<u8>>, n: int) -> Seq<u8>
    decreases n,
{
    if n <= 0 {
        Seq::empty()
    } else {
        entries(blocks, n - 1) + le32_bytes((blocks[n - 1].len() % 0x1_0000_0000) as u32)
    }
}

/// The seek table of a row of blocks: entries and their CRC-32.
pub open spec fn seek_table_bytes(blocks: Seq<Seq<u8>>) -> Seq<u8> {
    let e = entries(blocks, blocks.len() as int);
    e + le32_bytes(crc32_spec(e))
}

/// The file made of a header and a row of blocks.
pub open spec fn file_of(h: StreamHeader, blocks: Seq<Seq<u8>>) -> Seq<u8> {
    header_bytes(h) + (seek_table_bytes(blocks) + joined(blocks, blocks.len() as int))
}

/// Every block's size fits its 32-bit seek-table entry and the file's length
/// fits 64 bits.
pub open spec fn sizes_fit(h: StreamHeader, blocks: Seq<Seq<u8>>) -> bool {
    &&& forall|i: int| 0 <= i < blocks.len() ==> (#[trigger] blocks[i]).len() <= u32::MAX
    &&& file_of(h, blocks).len() <= u64::MAX
}

/// The descriptor of block `i`: it starts where the blocks before it end.
pub open spec fn block_descriptor(
    h: StreamHeader,
    blocks: Seq<Seq<u8>>,
    i: int,
) -> FrameDescriptor {
    FrameDescriptor {
        file_offset: (HEADER_LEN + seek_table_len(h) + joined(blocks, i).len()) as u64,
        disk_size: blocks[i].len() as u32,
        sample_count: if i + 1 == h.geometry().0 {
            h.geometry().1
        } else {
            regular_samples(h.sample_rate)
        },
        is_last: i + 1 == h.geometry().0,
    }
}

/// What parsing finds in a file.
pub open spec fn parsed_file(
    h: StreamHeader,
    blocks: Seq<Seq<u8>>,
    prime: Seq<i32>,
) -> StreamModel {
    StreamModel {
        header: h,
        frames: Seq::new(blocks.len(), |i: int| block_descriptor(h, blocks, i)),
        seekable: true,
        bytes: file_of(h, blocks),
        prime,
    }
}

proof fn lemma_entries_len(blocks: Seq<Seq<u8>>, n: int)
    requires
        0 <= n,
    ensures
        entries(blocks, n).len() == 4 * n,
    decreases n,
{
    if n > 0 {
        lemma_entries_len(blocks, n - 1);
    }
}

proof fn lemma_entry(blocks: Seq<Seq<u8>>, n: int, i: int)
    requires
        0 <= i < n,
    ensures
        entries(blocks, n).len() == 4 * n,
        entries(blocks, n).subrange(4 * i, 4 * i + 4) == le32_bytes(
            (blocks[i].len() % 0x1_0000_0000) as u32,
        ),
    decreases n,
{
    let all = entries(blocks, n);
    let init = entries(blocks, n - 1);
    lemma_entries_len(blocks, n - 1);
    let last = le32_bytes((blocks[n - 1].len() % 0x1_0000_0000) as u32);
    assert(last.len() == 4);
    if i == n - 1 {
        assert(all.subrange(4 * i, 4 * i + 4) =~= last);
    } else {
        lemma_entry(blocks, n - 1, i);
        assert(all.subrange(4 * i, 4 * i + 4) =~= init.subrange(4 * i, 4 * i + 4));
    }
}

/// Block `i` stands where the blocks before it end.
proof fn lemma_joined(blocks: Seq<Seq<u8>>, n: int, i: int)
    requires
        0 <= i < n,
    ensures
        joined(blocks, i).len() + blocks[i].len() <= joined(blocks, n).len(),
        joined(blocks, i + 1).len() == joined(blocks, i).len() + blocks[i].len(),
        joined(blocks, n).subrange(
            joined(blocks, i).len() as int,
            (joined(blocks, i).len() + blocks[i].len()) as int,
        ) == blocks[i],
    decreases n,
{
    let all = joined(blocks, n);
    let init = joined(blocks, n - 1);
    let from = joined(blocks, i).len() as int;
    let to = from + blocks[i].len();
    if i == n - 1 {
        assert(all.subrange(from, to) =~= blocks[i]);
    } else {
        lemma_joined(blocks, n - 1, i);
        assert(all.subrange(from, to) =~= init.subrange(from, to));
    }
}

/// The table read from behind the header, with everything after it.
spec fn tail_of(blocks: Seq<Seq<u8>>) -> Seq<u8> {
    seek_table_bytes(blocks) + joined(blocks, blocks.len() as int)
}

proof fn lemma_table(h: StreamHeader, blocks: Seq<Seq<u8>>)
    requires
        blocks.len() == h.geometry().0,
    ensures
        tail_of(blocks).len() == seek_table_len(h) + joined(blocks, blocks.len() as int).len(),
        seek_crc_ok(tail_of(blocks), h),
{
    let n = blocks.len() as int;
    let tail = tail_of(blocks);
    let e = entries(blocks, n);
    lemma_entries_len(blocks, n);
    assert(le32_bytes(crc32_spec(e)).len() == 4);
    assert(tail.take(4 * n) =~= e);
    assert(tail.subrange(4 * n, 4 * n + 4) =~= le32_bytes(crc32_spec(e)));
    lemma_le32_round_trip(tail, 4 * n, crc32_spec(e));
}

proof fn lemma_table_entry(h: StreamHeader, blocks: Seq<Seq<u8>>, i: int)
    requires
        blocks.len() == h.geometry().0,
        sizes_fit(h, blocks),
        0 <= i < blocks.len(),
    ensures
        le32(tail_of(blocks), 4 * i) == blocks[i].len(),
{
    let n = blocks.len() as int;
    let tail = tail_of(blocks);
    let e = entries(blocks, n);
    let len = blocks[i].len();
    lemma_entry(blocks, n, i);
    lemma_table(h, blocks);
    assert(tail.subrange(4 * i, 4 * i + 4) =~= e.subrange(4 * i, 4 * i + 4));
    assert(len % 0x1_0000_0000 == len);
    lemma_le32_round_trip(tail, 4 * i, len as u32);
}

proof fn lemma_offset(h: StreamHeader, blocks: Seq<Seq<u8>>, start: u64, i: int)
    requires
        blocks.len() == h.geometry().0,
        sizes_fit(h, blocks),
        0 <= i <= blocks.len(),
        start + joined(blocks, blocks.len() as int).len() <= u64::MAX,
    ensures
        frame_offset(tail_of(blocks), start, i) == start + joined(blocks, i).len(),
    decreases i,
{
    if i > 0 {
        lemma_offset(h, blocks, start, i - 1);
        lemma_table_entry(h, blocks, i - 1);
        lemma_joined(blocks, blocks.len() as int, i - 1);
    }
}

/// Parsing a file finds its header, an intact seek table whose entries are
/// the true block sizes, offsets that chain without gaps, and the sample
/// counts the header implies.
pub proof fn law_file_parses(h: StreamHeader, blocks: Seq<Seq<u8>>, password: Option<Seq<u8>>)
    requires
        h.in_scope(),
        h.format == 2 ==> password is Some,
        blocks.len() == h.geometry().0,
        sizes_fit(h, blocks),
    ensures
        parse_stream(file_of(h, blocks), password) == Ok::<StreamModel, Error>(
            parsed_file(h, blocks, stream_prime(h.format, password)),
        ),
{
    let file = file_of(h, blocks);
    let tail = tail_of(blocks);
    let n = blocks.len() as int;
    law_header_round_trip(h, tail);
    assert(file == header_bytes(h) + tail);
    lemma_first_byte(h);
    assert(file[0] == header_bytes(h)[0]);
    assert(file.skip(0) =~= file);
    assert(file.skip(HEADER_LEN as int) =~= tail);
    lemma_table(h, blocks);
    let start = (HEADER_LEN + seek_table_len(h)) as u64;
    let m = parsed_file(h, blocks, stream_prime(h.format, password));
    assert forall|i: int| 0 <= i < n implies m.frames[i] == #[trigger] frame_at(
        tail,
        h,
        start,
        i,
    ) by {
        lemma_offset(h, blocks, start, i);
        lemma_joined(blocks, n, i);
        lemma_table_entry(h, blocks, i);
    }
    assert(m.frames =~= seek_frames(tail, h, start));
}

/// A file's length is that of its parts, and the last block ends it.
pub proof fn lemma_file_len(h: StreamHeader, blocks: Seq<Seq<u8>>)
    requires
        blocks.len() == h.geometry().0,
    ensures
        file_of(h, blocks).len() == HEADER_LEN + seek_table_len(h) + joined(
            blocks,
            blocks.len() as int,
        ).len(),
        blocks.len() > 0 ==> joined(blocks, blocks.len() as int).len() == joined(
            blocks,
            blocks.len() - 1,
        ).len() + blocks.last().len(),
        blocks.len() == 0 ==> joined(blocks, 0).len() == 0,
{
    lemma_table(h, blocks);
    lemma_first_byte(h);
    if blocks.len() > 0 {
        lemma_joined(blocks, blocks.len() as int, blocks.len() - 1);
    }
}

/// A header starts with `T`, so no file starts like an ID3v2 tag.
pub proof fn lemma_first_byte(h: StreamHeader)
    ensures
        header_bytes(h).len() == HEADER_LEN,
        header_bytes(h)[0] == 0x54,
{
    let p = header_prefix(h);
    assert(p.len() == 18);
    assert(p[0] == 0x54);
    assert(header_bytes(h)[0] == p[0]);
}

/// The bytes a parsed file hands the frame decoder are the block itself.
pub proof fn lemma_block_window(h: StreamHeader, blocks: Seq<Seq<u8>>, i: int)
    requires
        blocks.len() == h.geometry().0,
        sizes_fit(h, blocks),
        0 <= i < blocks.len(),
    ensures
        ({
            let fd = block_descriptor(h, blocks, i);
            let end = fd.file_offset + fd.disk_size;
            &&& end <= file_of(h, blocks).len()
            &&& fd.disk_size == blocks[i].len()
            &&& file_of(h, blocks).subrange(fd.file_offset as int, end) == blocks[i]
        }),
{
    let file = file_of(h, blocks);
    let n = blocks.len() as int;
    let all = joined(blocks, n);
    let from = joined(blocks, i).len() as int;
    let to = from + blocks[i].len();
    let start = HEADER_LEN + seek_table_len(h);
    lemma_joined(blocks, n, i);
    lemma_table(h, blocks);
    lemma_first_byte(h);
    assert(file.len() == start + all.len());
    assert(file.subrange(start + from, start + to) =~= all.subrange(from, to));
}

} // verus!
