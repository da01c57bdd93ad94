//! The single source of randomness of the growth engine.

use vstd::prelude::*;

verus! {

/// Relies on rand::random_range over the integer range `0..n`: it returns a
/// uniformly distributed value of that range and panics only when the range
/// is empty. Nothing beyond membership in the range is assumed.
#[verifier::external_body]
pub(crate) fn rand_below(n: u128) -> (r: u128)
    requires
        n > 0,
    ensures
        r < n,
{
    rand::random_range(0..n)
}

} // verus!
