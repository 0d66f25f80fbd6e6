//! Moving a position by a signed amount without running off either end.
use vstd::prelude::*;

verus! {

/// `n` moved by `delta`, held to what a position can be.
pub open spec fn shifted(n: int, delta: int) -> int {
    if n + delta < 0 {
        0
    } else if n + delta > usize::MAX {
        usize::MAX as int
    } else {
        n + delta
    }
}

/// `n` moved by `delta`, stopping at zero and at the largest position there is.
pub fn shift(n: usize, delta: isize) -> (out: usize)
    ensures
        out == shifted(n as int, delta as int),
{
    if delta >= 0 {
        n.saturating_add(delta as usize)
    } else {
        // One step first, so that what is left can be negated.
        let back = (-(delta + 1)) as usize;
        if n > back {
            n - back - 1
        } else {
            0
        }
    }
}

/// A position moves by as much as it is told, and stops at zero and at the largest
/// one.
pub proof fn a_position_stops_at_either_end(n: usize, delta: int)
    ensures
        0 <= n + delta <= usize::MAX ==> shifted(n as int, delta) == n + delta,
        n + delta < 0 ==> shifted(n as int, delta) == 0,
        n + delta > usize::MAX ==> shifted(n as int, delta) == usize::MAX,
{
}

} // verus!
