//! Small arithmetic helpers.

use vstd::prelude::*;

verus! {

/// Adds a signed offset to an unsigned value.
pub fn add(u: usize, i: i8) -> (r: usize)
    requires
        0 <= u + i <= usize::MAX,
    ensures
        r == u + i,
{
    if i < 0 {
        let d: i16 = -(i as i16);
        u - (d as usize)
    } else {
        u + (i as usize)
    }
}

} // verus!
