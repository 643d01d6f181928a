use vstd::prelude::*;

verus! {

/// `x` bounded to the closed interval `[lo, hi]`.
pub open spec fn clamped(x: int, lo: int, hi: int) -> int {
    if x < lo {
        lo
    } else if x > hi {
        hi
    } else {
        x
    }
}

/// Relies on `num::clamp`: below `lo` it returns `lo`, above `hi` it returns
/// `hi`, otherwise the input. It debug-asserts `lo <= hi`, which `requires`
/// demands.
#[verifier::external_body]
pub(crate) fn clamp_i64(x: i64, lo: i64, hi: i64) -> (r: i64)
    requires
        lo <= hi,
    ensures
        r == clamped(x as int, lo as int, hi as int),
{
    num::clamp(x, lo, hi)
}

} // verus!
