//! The growth policy for the backend's instance buffers: when a batch no
//! longer fits, the buffer grows to the smallest power of two that holds it.

use vstd::prelude::*;

verus! {

/// Whether `n` is a power of two.
pub open spec fn is_power_of_two(n: int) -> bool
    decreases n,
{
    if n <= 0 {
        false
    } else if n == 1 {
        true
    } else {
        n % 2 == 0 && is_power_of_two(n / 2)
    }
}

/// The capacity a buffer of `capacity` elements grows to so that `needed`
/// elements fit: `None` when they already fit, otherwise the smallest power
/// of two at or above `needed`.
pub fn grow_capacity(needed: usize, capacity: usize) -> (r: Option<usize>)
    requires
        needed <= usize::MAX / 2 + 1,
    ensures
        needed <= capacity ==> r is None,
        needed > capacity ==> (match r {
            Some(c) => c >= needed && is_power_of_two(c as int) && (c == 1 || c / 2 < needed),
            None => false,
        }),
{
    if needed <= capacity {
        None
    } else {
        let mut c: usize = 1;
        while c < needed
            invariant
                1 <= c,
                is_power_of_two(c as int),
                c == 1 || c / 2 < needed,
                needed <= usize::MAX / 2 + 1,
            decreases 2 * needed - c,
        {
            c = c * 2;
        }
        Some(c)
    }
}

} // verus!
