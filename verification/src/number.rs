//! Numbers that wrap around.

use vstd::prelude::*;

verus! {

/// The 32-bit number congruent to `x`.
pub open spec fn wrapped(x: int) -> i32 {
    ((x + 0x8000_0000) % 0x1_0000_0000 - 0x8000_0000) as i32
}

/// The 32-bit number congruent to `x`.
pub fn wrap(x: i128) -> (r: i32)
    requires
        x <= i128::MAX - 0x8000_0000,
    ensures
        r == wrapped(x as int),
{
    let m: i128 = (x + 0x8000_0000) % 0x1_0000_0000;
    let positive: i128 = if m < 0 {
        m + 0x1_0000_0000
    } else {
        m
    };
    (positive - 0x8000_0000) as i32
}

/// A wrapped number differs from the number by a multiple of what 32 bits can
/// hold, and is the number itself where 32 bits hold it.
pub proof fn law_wrapped(x: int)
    ensures
        (wrapped(x) - x) % 0x1_0000_0000 == 0,
        i32::MIN <= x <= i32::MAX ==> wrapped(x) == x,
{
}

} // verus!
