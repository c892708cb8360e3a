//! Detection of ID3v1 and APEv2 tags after the last frame.
//!
//! An ID3v1 tag is the last 128 bytes of the file, starting with `TAG`. An
//! APEv2 tag ends in a 32-byte footer starting with `APETAGEX`, at the end of
//! the file or right before an ID3v1 tag; the footer declares the tag's size
//! and whether a 32-byte header precedes it. Only bytes past the end of the
//! stream are looked at, and tag contents are left to others.

use crate::bytes::{le32, read_le32};
use crate::error::{Error, Result};
use vstd::prelude::*;

verus! {

/// The tags found after a stream, as `(start, len)` ranges in the file.
#[derive(Debug, Clone, Copy, PartialEq, Eq)]
pub struct TrailerInfo {
    /// Range of the ID3v1 tag.
    pub id3v1: Option<(usize, usize)>,
    /// Range of the APEv2 tag.
    pub apev2: Option<(usize, usize)>,
}

impl Default for TrailerInfo {
    fn default() -> (r: Self)
        ensures
            r.id3v1 is None,
            r.apev2 is None,
    {
        TrailerInfo { id3v1: None, apev2: None }
    }
}

/// Whether `(start, len)` is the last 128 bytes of a file.
pub open spec fn id3v1_range_ok(start: usize, len: usize, file_len: usize) -> bool {
    len == 128 && start + len == file_len
}

/// Whether `(start, len)` holds a footer and lies within a file.
pub open spec fn apev2_range_ok(start: usize, len: usize, file_len: usize) -> bool {
    len >= 32 && start + len <= file_len
}

/// The end of a range, held at `usize::MAX`.
pub open spec fn range_end(range: (usize, usize)) -> int {
    if range.0 + range.1 > usize::MAX {
        usize::MAX as int
    } else {
        range.0 + range.1
    }
}

/// The smallest window covering every range found.
pub open spec fn combined_range(info: TrailerInfo) -> Option<(int, int)> {
    match (info.id3v1, info.apev2) {
        (None, None) => None,
        (Some(r), None) => Some((r.0 as int, r.1 as int)),
        (None, Some(r)) => Some((r.0 as int, r.1 as int)),
        (Some(a), Some(b)) => {
            let start = if a.0 < b.0 {
                a.0
            } else {
                b.0
            };
            let end = if range_end(a) > range_end(b) {
                range_end(a)
            } else {
                range_end(b)
            };
            Some((start as int, end - start))
        },
    }
}

impl TrailerInfo {
    /// Whether no tag was found.
    pub fn is_empty(&self) -> (r: bool)
        ensures
            r == (self.id3v1 is None && self.apev2 is None),
    {
        self.id3v1.is_none() && self.apev2.is_none()
    }

    /// The ID3v1 range, validated against the file's length.
    pub fn id3v1_typed(&self, file_len: usize) -> (r: Result<Option<Id3v1Range>>)
        ensures
            match self.id3v1 {
                None => r == Ok::<Option<Id3v1Range>, Error>(None),
                Some((start, len)) => match r {
                    Ok(Some(range)) => id3v1_range_ok(start, len, file_len) && range@ == (
                        start,
                        len,
                    ),
                    Ok(None) => false,
                    Err(e) => !id3v1_range_ok(start, len, file_len) && e
                        == Error::InvalidId3v1Range(start, len),
                },
            },
    {
        match self.id3v1 {
            None => Ok(None),
            Some((start, len)) => match Id3v1Range::from_raw(start, len, file_len) {
                Ok(range) => Ok(Some(range)),
                Err(e) => Err(e),
            },
        }
    }

    /// The APEv2 range, validated against the file's length.
    pub fn apev2_typed(&self, file_len: usize) -> (r: Result<Option<ApeV2Range>>)
        ensures
            match self.apev2 {
                None => r == Ok::<Option<ApeV2Range>, Error>(None),
                Some((start, len)) => match r {
                    Ok(Some(range)) => apev2_range_ok(start, len, file_len) && range@ == (
                        start,
                        len,
                    ),
                    Ok(None) => false,
                    Err(e) => !apev2_range_ok(start, len, file_len) && e
                        == Error::InvalidApeV2Range(start, len),
                },
            },
    {
        match self.apev2 {
            None => Ok(None),
            Some((start, len)) => match ApeV2Range::from_raw(start, len, file_len) {
                Ok(range) => Ok(Some(range)),
                Err(e) => Err(e),
            },
        }
    }

    /// The smallest window covering every range found.
    pub fn combined_byte_range(&self) -> (r: Option<(usize, usize)>)
        ensures
            match r {
                None => combined_range(*self) is None,
                Some((start, len)) => combined_range(*self) == Some((start as int, len as int)),
            },
    {
        match (self.id3v1, self.apev2) {
            (None, None) => None,
            (Some((s, l)), None) => Some((s, l)),
            (None, Some((s, l))) => Some((s, l)),
            (Some((s_a, l_a)), Some((s_b, l_b))) => {
                let start: usize = if s_a < s_b {
                    s_a
                } else {
                    s_b
                };
                let end_a: usize = s_a.saturating_add(l_a);
                let end_b: usize = s_b.saturating_add(l_b);
                let end: usize = if end_a > end_b {
                    end_a
                } else {
                    end_b
                };
                Some((start, end - start))
            },
        }
    }
}

/// The range of an ID3v1 tag: exactly the last 128 bytes of a file.
#[derive(Debug, Clone, Copy, PartialEq, Eq, Hash)]
pub struct Id3v1Range {
    start: usize,
    len: usize,
}

impl View for Id3v1Range {
    type V = (usize, usize);

    closed spec fn view(&self) -> (usize, usize) {
        (self.start, self.len)
    }
}

impl Id3v1Range {
    #[verifier::type_invariant]
    spec fn inv(self) -> bool {
        self.len == 128 && self.start + self.len <= usize::MAX
    }

    /// Lift a raw range.
    pub fn from_raw(start: usize, len: usize, file_len: usize) -> (r: Result<Self>)
        ensures
            match r {
                Ok(range) => id3v1_range_ok(start, len, file_len) && range@ == (start, len),
                Err(e) => !id3v1_range_ok(start, len, file_len) && e == Error::InvalidId3v1Range(
                    start,
                    len,
                ),
            },
    {
        if len != 128 {
            return Err(Error::InvalidId3v1Range(start, len));
        }
        match start.checked_add(len) {
            Some(end) => {
                if end != file_len {
                    return Err(Error::InvalidId3v1Range(start, len));
                }
                Ok(Id3v1Range { start, len })
            },
            None => Err(Error::InvalidId3v1Range(start, len)),
        }
    }

    /// Offset of the first byte.
    pub fn start(&self) -> (r: usize)
        ensures
            r == self@.0,
    {
        self.start
    }

    /// Length: always 128.
    pub fn len(&self) -> (r: usize)
        ensures
            r == self@.1,
            r == 128,
    {
        proof {
            use_type_invariant(self);
        }
        self.len
    }

    /// Always `false`.
    pub fn is_empty(&self) -> (r: bool)
        ensures
            !r,
    {
        proof {
            use_type_invariant(self);
        }
        self.len == 0
    }

    /// Offset one past the last byte.
    pub fn end(&self) -> (r: usize)
        ensures
            r == self@.0 + self@.1,
    {
        proof {
            use_type_invariant(self);
        }
        self.start.saturating_add(self.len)
    }

    /// The range, ready for slicing.
    pub fn byte_range(&self) -> (r: core::ops::Range<usize>)
        ensures
            r.start == self@.0,
            r.end == self@.0 + self@.1,
    {
        let end: usize = self.end();
        core::ops::Range { start: self.start, end }
    }

    /// Whether the range ends where a file of `file_len` bytes ends.
    pub fn is_at_file_end(&self, file_len: usize) -> (r: bool)
        ensures
            r == (self@.0 + self@.1 == file_len),
    {
        self.end() == file_len
    }
}

/// The range of an APEv2 tag: at least a footer, within a file.
#[derive(Debug, Clone, Copy, PartialEq, Eq, Hash)]
pub struct ApeV2Range {
    start: usize,
    len: usize,
}

impl View for ApeV2Range {
    type V = (usize, usize);

    closed spec fn view(&self) -> (usize, usize) {
        (self.start, self.len)
    }
}

impl ApeV2Range {
    /// Size of the footer.
    pub const FOOTER_SIZE: usize = 32;

    /// Size of the optional header.
    pub const HEADER_SIZE: usize = 32;

    #[verifier::type_invariant]
    spec fn inv(self) -> bool {
        self.len >= 32 && self.start + self.len <= usize::MAX
    }

    /// Lift a raw range.
    pub fn from_raw(start: usize, len: usize, file_len: usize) -> (r: Result<Self>)
        ensures
            match r {
                Ok(range) => apev2_range_ok(start, len, file_len) && range@ == (start, len),
                Err(e) => !apev2_range_ok(start, len, file_len) && e == Error::InvalidApeV2Range(
                    start,
                    len,
                ),
            },
    {
        if len < Self::FOOTER_SIZE {
            return Err(Error::InvalidApeV2Range(start, len));
        }
        match start.checked_add(len) {
            Some(end) => {
                if end > file_len {
                    return Err(Error::InvalidApeV2Range(start, len));
                }
                Ok(ApeV2Range { start, len })
            },
            None => Err(Error::InvalidApeV2Range(start, len)),
        }
    }

    /// Offset of the first byte.
    pub fn start(&self) -> (r: usize)
        ensures
            r == self@.0,
    {
        self.start
    }

    /// Length, header (if any), body and footer together.
    pub fn len(&self) -> (r: usize)
        ensures
            r == self@.1,
            r >= 32,
    {
        proof {
            use_type_invariant(self);
        }
        self.len
    }

    /// Always `false`.
    pub fn is_empty(&self) -> (r: bool)
        ensures
            !r,
    {
        proof {
            use_type_invariant(self);
        }
        self.len == 0
    }

    /// Offset one past the last byte.
    pub fn end(&self) -> (r: usize)
        ensures
            r == self@.0 + self@.1,
    {
        proof {
            use_type_invariant(self);
        }
        self.start.saturating_add(self.len)
    }

    /// The range, ready for slicing.
    pub fn byte_range(&self) -> (r: core::ops::Range<usize>)
        ensures
            r.start == self@.0,
            r.end == self@.0 + self@.1,
    {
        let end: usize = self.end();
        core::ops::Range { start: self.start, end }
    }

    /// Whether the range ends where a file of `file_len` bytes ends.
    pub fn is_at_file_end(&self, file_len: usize) -> (r: bool)
        ensures
            r == (self@.0 + self@.1 == file_len),
    {
        self.end() == file_len
    }

    /// Length without the footer.
    pub fn header_and_body_size(&self) -> (r: usize)
        ensures
            r == self@.1 - 32,
    {
        proof {
            use_type_invariant(self);
        }
        self.len.saturating_sub(Self::FOOTER_SIZE)
    }
}

/// Whether the file ends in an ID3v1 tag that starts at or after `eos`.
pub open spec fn has_id3v1(buf: Seq<u8>, eos: int) -> bool {
    let at = buf.len() - 128;
    &&& eos <= at
    &&& buf[at] == 0x54
    &&& buf[at + 1] == 0x41
    &&& buf[at + 2] == 0x47
}

/// Where an APEv2 tag has to end.
pub open spec fn apev2_end(buf: Seq<u8>, eos: int) -> int {
    if has_id3v1(buf, eos) {
        buf.len() - 128
    } else {
        buf.len() as int
    }
}

/// Whether the eight bytes at `at` spell `APETAGEX`.
pub open spec fn is_ape_magic(buf: Seq<u8>, at: int) -> bool {
    &&& buf[at] == 0x41
    &&& buf[at + 1] == 0x50
    &&& buf[at + 2] == 0x45
    &&& buf[at + 3] == 0x54
    &&& buf[at + 4] == 0x41
    &&& buf[at + 5] == 0x47
    &&& buf[at + 6] == 0x45
    &&& buf[at + 7] == 0x58
}

/// The length a footer at `at` declares: its tag size, which counts body and
/// footer, and a header where the top flag bit says so.
pub open spec fn ape_declared_len(buf: Seq<u8>, at: int) -> int {
    le32(buf, at + 12) + if le32(buf, at + 20) >= 0x8000_0000 {
        32int
    } else {
        0int
    }
}

/// The length of the APEv2 tag that lies at or after `eos`, if there is one.
pub open spec fn apev2_len(buf: Seq<u8>, eos: int) -> Option<int> {
    let end = apev2_end(buf, eos);
    if end < eos + 32 || !is_ape_magic(buf, end - 32) {
        None
    } else {
        let len = ape_declared_len(buf, end - 32);
        if len < 32 || len > end - eos {
            None
        } else {
            Some(len)
        }
    }
}

/// The tags after a stream that ends at `eos`.
pub open spec fn trailers(buf: Seq<u8>, eos: int) -> TrailerInfo {
    TrailerInfo {
        id3v1: if has_id3v1(buf, eos) {
            Some(((buf.len() - 128) as usize, 128))
        } else {
            None
        },
        apev2: match apev2_len(buf, eos) {
            Some(len) => Some(((apev2_end(buf, eos) - len) as usize, len as usize)),
            None => None,
        },
    }
}

fn ape_magic_at(buf: &[u8], at: usize) -> (r: bool)
    requires
        at + 8 <= buf.len(),
    ensures
        r == is_ape_magic(buf@, at as int),
{
    buf[at] == 0x41 && buf[at + 1] == 0x50 && buf[at + 2] == 0x45 && buf[at + 3] == 0x54 && buf[at
        + 4] == 0x41 && buf[at + 5] == 0x47 && buf[at + 6] == 0x45 && buf[at + 7] == 0x58
}

/// Find the tags after a stream that ends at `end_of_stream_offset`. No byte
/// before that offset is looked at, and an offset past the end of the buffer
/// finds nothing.
pub fn detect_trailers(buf: &[u8], end_of_stream_offset: usize) -> (info: TrailerInfo)
    ensures
        info == trailers(buf@, end_of_stream_offset as int),
{
    let n: usize = buf.len();
    let eos: usize = end_of_stream_offset;
    let mut info = TrailerInfo::default();
    if eos >= n {
        return info;
    }
    let mut ape_end: usize = n;
    if n - eos >= 128 && buf[n - 128] == 0x54 && buf[n - 127] == 0x41 && buf[n - 126] == 0x47 {
        info.id3v1 = Some((n - 128, 128));
        ape_end = n - 128;
    }
    if ape_end - eos < 32 {
        return info;
    }
    let footer: usize = ape_end - 32;
    if !ape_magic_at(buf, footer) {
        return info;
    }
    let extra: u64 = if read_le32(buf, footer + 20) >= 0x8000_0000 {
        32
    } else {
        0
    };
    let total: u64 = read_le32(buf, footer + 12) as u64 + extra;
    if total < 32 || total > (ape_end - eos) as u64 {
        return info;
    }
    info.apev2 = Some((ape_end - total as usize, total as usize));
    info
}

/// No range found starts before the end of the stream or ends past the file.
pub proof fn law_trailers_after_stream(buf: Seq<u8>, eos: int)
    requires
        0 <= eos,
        buf.len() <= usize::MAX,
    ensures
        match trailers(buf, eos).id3v1 {
            Some((start, len)) => eos <= start && start + len == buf.len(),
            None => true,
        },
        match trailers(buf, eos).apev2 {
            Some((start, len)) => eos <= start && start + len <= buf.len(),
            None => true,
        },
{
}

/// What detection finds, the validating accessors accept for that file.
pub proof fn law_trailers_are_valid(buf: Seq<u8>, eos: int)
    requires
        0 <= eos,
        buf.len() <= usize::MAX,
    ensures
        match trailers(buf, eos).id3v1 {
            Some((start, len)) => id3v1_range_ok(start, len, buf.len() as usize),
            None => true,
        },
        match trailers(buf, eos).apev2 {
            Some((start, len)) => apev2_range_ok(start, len, buf.len() as usize),
            None => true,
        },
{
}

/// Where both tags are found they touch, so the combined window is the two
/// of them and nothing else, and it runs to the end of the file.
pub proof fn law_trailers_are_adjacent(buf: Seq<u8>, eos: int)
    requires
        0 <= eos,
        buf.len() <= usize::MAX,
        trailers(buf, eos).id3v1 is Some,
        trailers(buf, eos).apev2 is Some,
    ensures
        ({
            let (s1, l1) = trailers(buf, eos).id3v1->0;
            let (s2, l2) = trailers(buf, eos).apev2->0;
            &&& s2 + l2 == s1
            &&& combined_range(trailers(buf, eos)) == Some((s2 as int, l1 + l2))
            &&& s2 + (l1 + l2) == buf.len()
        }),
{
}

/// Detection depends on the bytes past the end of the stream alone: a stream
/// of the same length with other content has the same tags.
pub proof fn law_trailers_ignore_stream(a: Seq<u8>, b: Seq<u8>, eos: int)
    requires
        0 <= eos <= a.len(),
        a.len() == b.len(),
        a.skip(eos) == b.skip(eos),
    ensures
        trailers(a, eos) == trailers(b, eos),
{
    assert forall|i: int| eos <= i < a.len() implies a[i] == b[i] by {
        assert(a.skip(eos)[i - eos] == b.skip(eos)[i - eos]);
    }
}

/// An ID3v1 tag is reported exactly where the last 128 bytes of the file lie
/// past the stream and start with `TAG`, and nothing else in them matters.
pub proof fn law_id3v1_is_last_128_bytes(buf: Seq<u8>, eos: int)
    requires
        0 <= eos,
        buf.len() <= usize::MAX,
    ensures
        (eos + 128 <= buf.len() && buf[buf.len() - 128] == 0x54 && buf[buf.len() - 127] == 0x41
            && buf[buf.len() - 126] == 0x47) ==> trailers(buf, eos).id3v1 == Some(
            ((buf.len() - 128) as usize, 128usize),
        ),
        !(eos + 128 <= buf.len() && buf[buf.len() - 128] == 0x54 && buf[buf.len() - 127] == 0x41
            && buf[buf.len() - 126] == 0x47) ==> trailers(buf, eos).id3v1 is None,
{
}

/// Every ID3v1 tag is found: a file of any bytes up to the tag, then `TAG`
/// and any 125 bytes, has its tag reported right there.
pub proof fn law_id3v1_is_found(before: Seq<u8>, content: Seq<u8>, eos: int)
    requires
        0 <= eos <= before.len(),
        content.len() == 125,
        before.len() + 128 <= usize::MAX,
    ensures
        trailers(before + seq![0x54u8, 0x41u8, 0x47u8] + content, eos).id3v1 == Some(
            (before.len() as usize, 128usize),
        ),
{
    let buf = before + seq![0x54u8, 0x41u8, 0x47u8] + content;
    let n = before.len() as int;
    assert(buf[n] == 0x54 && buf[n + 1] == 0x41 && buf[n + 2] == 0x47);
}

/// An APEv2 tag is reported exactly where its parts are in place. It ends
/// where the ID3v1 tag starts, or with the file where there is none; the 32
/// bytes before that end are its footer, which starts with `APETAGEX`; the
/// size at byte 12 of the footer, and 32 more where the top bit of the flags
/// at byte 20 is set, is the length of the tag, which holds the footer and
/// starts past the stream.
pub proof fn law_apev2_is_what_its_footer_says(buf: Seq<u8>, eos: int, start: int, len: int)
    requires
        0 <= eos,
        buf.len() <= usize::MAX,
        eos <= start,
        len >= 32,
    ensures
        ({
            let end = if trailers(buf, eos).id3v1 is Some {
                buf.len() - 128
            } else {
                buf.len() as int
            };
            let f = end - 32;
            trailers(buf, eos).apev2 == Some((start as usize, len as usize)) && start + len
                <= buf.len() <==> {
                &&& start + len == end
                &&& buf[f] == 0x41 && buf[f + 1] == 0x50 && buf[f + 2] == 0x45 && buf[f + 3] == 0x54
                &&& buf[f + 4] == 0x41 && buf[f + 5] == 0x47 && buf[f + 6] == 0x45 && buf[f + 7]
                    == 0x58
                &&& len == buf[f + 12] + 0x100 * buf[f + 13] + 0x1_0000 * buf[f + 14] + 0x100_0000
                    * buf[f + 15] + if buf[f + 23] >= 0x80 {
                    32int
                } else {
                    0int
                }
            }
        }),
{
    let end = apev2_end(buf, eos);
    let f = end - 32;
    if f >= 0 {
        assert(le32(buf, f + 20) >= 0x8000_0000 <==> buf[f + 23] >= 0x80);
    }
}

/// Every APEv2 tag is found, at the end of the file or in front of an ID3v1
/// tag: a header of 32 bytes where the top flag bit says so, any items, and a
/// footer with the magic and the size of items and footer; nothing else in
/// the footer matters. A tag at the end of the file is not to have `TAG` in
/// the one place where an ID3v1 tag would start.
#[verifier::rlimit(60)]
pub proof fn law_apev2_is_found(
    before: Seq<u8>,
    header: Seq<u8>,
    items: Seq<u8>,
    footer: Seq<u8>,
    id3v1: Seq<u8>,
    eos: int,
)
    requires
        0 <= eos <= before.len(),
        footer.len() == 32,
        footer[0] == 0x41 && footer[1] == 0x50 && footer[2] == 0x45 && footer[3] == 0x54,
        footer[4] == 0x41 && footer[5] == 0x47 && footer[6] == 0x45 && footer[7] == 0x58,
        items.len() + 32 < 0x1_0000_0000,
        footer[12] == (items.len() + 32) % 0x100,
        footer[13] == (items.len() + 32) / 0x100 % 0x100,
        footer[14] == (items.len() + 32) / 0x1_0000 % 0x100,
        footer[15] == (items.len() + 32) / 0x100_0000,
        header.len() == if footer[23] >= 0x80 {
            32int
        } else {
            0int
        },
        before.len() + header.len() + items.len() + 32 + id3v1.len() <= usize::MAX,
        ({
            let all = before + (header + items + footer);
            ||| id3v1.len() == 128 && id3v1[0] == 0x54 && id3v1[1] == 0x41 && id3v1[2] == 0x47
            ||| id3v1.len() == 0 && (all.len() < eos + 128 || all[all.len() - 128] != 0x54
                || all[all.len() - 127] != 0x41 || all[all.len() - 126] != 0x47)
        }),
    ensures
        trailers(before + (header + items + footer) + id3v1, eos).apev2 == Some(
            (before.len() as usize, (header.len() + items.len() + 32) as usize),
        ),
{
    let body = header + items;
    let tag = body + footer;
    let f = body.len() as int;
    lemma_tail_byte(body, footer, 0);
    lemma_tail_byte(body, footer, 1);
    lemma_tail_byte(body, footer, 2);
    lemma_tail_byte(body, footer, 3);
    lemma_tail_byte(body, footer, 4);
    lemma_tail_byte(body, footer, 5);
    lemma_tail_byte(body, footer, 6);
    lemma_tail_byte(body, footer, 7);
    lemma_tail_byte(body, footer, 12);
    lemma_tail_byte(body, footer, 13);
    lemma_tail_byte(body, footer, 14);
    lemma_tail_byte(body, footer, 15);
    lemma_tail_byte(body, footer, 23);
    lemma_size_bytes((items.len() + 32) as int);
    lemma_apev2_in_place(before, tag, id3v1, eos);
}

proof fn lemma_tail_byte(a: Seq<u8>, b: Seq<u8>, i: int)
    requires
        0 <= i < b.len(),
    ensures
        (a + b)[a.len() + i] == b[i],
{
}

proof fn lemma_size_bytes(n: int)
    requires
        0 <= n < 0x1_0000_0000,
    ensures
        n == n % 0x100 + 0x100 * (n / 0x100 % 0x100) + 0x1_0000 * (n / 0x1_0000 % 0x100) + 0x100_0000
            * (n / 0x100_0000),
{
}

#[verifier::rlimit(60)]
proof fn lemma_apev2_in_place(before: Seq<u8>, tag: Seq<u8>, id3v1: Seq<u8>, eos: int)
    requires
        0 <= eos <= before.len(),
        tag.len() >= 32,
        before.len() + tag.len() + id3v1.len() <= usize::MAX,
        ({
            let f = tag.len() - 32;
            &&& tag[f] == 0x41 && tag[f + 1] == 0x50 && tag[f + 2] == 0x45 && tag[f + 3] == 0x54
            &&& tag[f + 4] == 0x41 && tag[f + 5] == 0x47 && tag[f + 6] == 0x45 && tag[f + 7] == 0x58
            &&& tag.len() == tag[f + 12] + 0x100 * tag[f + 13] + 0x1_0000 * tag[f + 14]
                + 0x100_0000 * tag[f + 15] + if tag[f + 23] >= 0x80 {
                32int
            } else {
                0int
            }
        }),
        ({
            let all = before + tag;
            ||| id3v1.len() == 128 && id3v1[0] == 0x54 && id3v1[1] == 0x41 && id3v1[2] == 0x47
            ||| id3v1.len() == 0 && (all.len() < eos + 128 || all[all.len() - 128] != 0x54
                || all[all.len() - 127] != 0x41 || all[all.len() - 126] != 0x47)
        }),
    ensures
        trailers(before + tag + id3v1, eos).apev2 == Some(
            (before.len() as usize, tag.len() as usize),
        ),
{
    let all = before + tag;
    let buf = all + id3v1;
    let g = tag.len() - 32;
    let f = all.len() - 32;
    assert forall|i: int| 0 <= i < 32 implies #[trigger] buf[f + i] == tag[g + i] by {
        assert(buf[f + i] == all[f + i]);
    }
    assert(buf[f + 0] == tag[g + 0]);
    if id3v1.len() == 128 {
        let k = all.len() as int;
        assert(buf[k] == id3v1[0] && buf[k + 1] == id3v1[1] && buf[k + 2] == id3v1[2]);
    } else {
        assert(buf =~= all);
    }
    law_id3v1_is_last_128_bytes(buf, eos);
    law_apev2_is_what_its_footer_says(buf, eos, before.len() as int, tag.len() as int);
}

/// The window over all tags found: nothing where none was found, the one
/// range where one was, and otherwise from the lower start to the higher end.
/// An end past the machine's limit is held there.
pub proof fn law_combined_range_covers(info: TrailerInfo)
    ensures
        match (info.id3v1, info.apev2) {
            (None, None) => combined_range(info) is None,
            (Some((s, l)), None) => combined_range(info) == Some((s as int, l as int)),
            (None, Some((s, l))) => combined_range(info) == Some((s as int, l as int)),
            (Some((s, l)), Some((t, m))) => match combined_range(info) {
                Some((from, len)) => {
                    &&& from <= s && from <= t
                    &&& from == s || from == t
                    &&& s + l <= usize::MAX && t + m <= usize::MAX ==> {
                        &&& s + l <= from + len && t + m <= from + len
                        &&& from + len == s + l || from + len == t + m
                    }
                    &&& s + l > usize::MAX || t + m > usize::MAX ==> from + len == usize::MAX
                },
                None => false,
            },
        },
{
}

/// An ID3v1 range is the last 128 bytes of its file; an APEv2 range holds at
/// least a footer of 32 bytes and lies within its file.
pub proof fn law_valid_ranges(start: usize, len: usize, file_len: usize)
    ensures
        id3v1_range_ok(start, len, file_len) <==> len == 128 && start + 128 == file_len,
        apev2_range_ok(start, len, file_len) <==> len >= 32 && start + len <= file_len,
{
}

} // verus!
