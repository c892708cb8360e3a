//! Plain table-driven CRC-32, one byte per step.

use crate::crc32::{advance_zero_byte, build_table, crc32_spec, fold};
use vstd::prelude::*;

verus! {

/// Compute the CRC-32 of `data`.
pub fn crc32(data: &[u8]) -> (r: u32)
    ensures
        r == crc32_spec(data@),
{
    let table = build_table();
    let mut c: u32 = 0xFFFF_FFFF;
    let mut i: usize = 0;
    assert(data@.take(0) =~= Seq::<u8>::empty());
    while i < data.len()
        invariant
            i <= data@.len(),
            crate::crc32::is_byte_table(table@),
            c == fold(0xFFFF_FFFF, data@.take(i as int)),
        decreases data@.len() - i,
    {
        c = advance_zero_byte(&table, c ^ (data[i] as u32));
        assert(data@.take(i + 1).drop_last() =~= data@.take(i as int));
        i = i + 1;
    }
    assert(data@.take(i as int) =~= data@);
    c ^ 0xFFFF_FFFF
}

} // verus!
