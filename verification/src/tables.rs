//! Constants of the Stage-A predictor.

use vstd::prelude::*;

verus! {

/// Right shift of the Stage-A prediction for a byte width in `1..=3`.
pub open spec fn lms_shift_spec(bytes_per_sample: int) -> i32 {
    if bytes_per_sample == 2 {
        9
    } else {
        10
    }
}

/// Step sizes of taps 4 to 7.
pub open spec fn lms_dx_magnitude_spec(k: int) -> i32 {
    if k == 0 {
        1
    } else if k == 3 {
        4
    } else {
        2
    }
}

/// Right shift of the Stage-A prediction. Streams in scope carry two or
/// three bytes per sample; the one-byte slot is kept for completeness.
pub fn lms_shift(bytes_per_sample: usize) -> (r: i32)
    requires
        1 <= bytes_per_sample <= 3,
    ensures
        r == lms_shift_spec(bytes_per_sample as int),
{
    let table: [i32; 3] = [10, 9, 10];
    table[bytes_per_sample - 1]
}

/// Step sizes of taps 4 to 7, in tap order.
pub fn lms_dx_magnitudes() -> (r: &'static [i32; 4])
    ensures
        r@ == Seq::new(4, |k: int| lms_dx_magnitude_spec(k)),
{
    let r: &'static [i32; 4] = &[1, 2, 2, 4];
    assert(r@ =~= Seq::new(4, |k: int| lms_dx_magnitude_spec(k)));
    r
}


} // verus!
