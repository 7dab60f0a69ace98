//! The one randomness primitive the simulation draws on.

use vstd::prelude::*;

verus! {

/// Relies on `rand::random_range` over the half-open range `0..n`: the
/// sample always lies inside the range, so it is strictly below `n`.
/// The call panics only on an empty range, which `n > 0` rules out.
/// Nothing is assumed about which value comes back: every caller must be
/// correct for any result below `n`.
#[verifier::external_body]
pub(crate) fn rand_below(n: usize) -> (r: usize)
    requires
        n > 0,
    ensures
        r < n,
{
    rand::random_range(0..n)
}

} // verus!
