//! The grey scale: from an escape count to the byte that is stored for a pixel.

use vstd::prelude::*;

verus! {

/// The grey level of a point that did not escape.
pub const BRIGHTEST: u8 = 255;

/// The grey level for an escape count. A point that did not escape is
/// brightest; one that escaped after `k` steps is `k` levels darker. Only the
/// low eight bits of a count are used, so counts wrap after 255.
pub open spec fn intensity_of(count: Option<usize>) -> u8 {
    match count {
        None => BRIGHTEST,
        Some(k) => (BRIGHTEST - k % 256) as u8,
    }
}

/// Computes [`intensity_of`].
pub fn intensity(count: Option<usize>) -> (shade: u8)
    ensures
        shade == intensity_of(count),
        count is None ==> shade == 255,
        count matches Some(k) ==> k <= 255 ==> shade == 255 - k,
{
    match count {
        None => BRIGHTEST,
        Some(k) => {
            let low: usize = k % 256;
            BRIGHTEST - (low as u8)
        },
    }
}

} // verus!
