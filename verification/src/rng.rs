//! The engine's single source of randomness.

use vstd::prelude::*;

verus! {

/// Relies on `rand::random_range` over `0..n`: it returns a value drawn from
/// the given (non-empty) range using the thread-local generator. Nothing more
/// is assumed of the draw: callers must hold for every value below `n`.
#[verifier::external_body]
pub(crate) fn random_below(n: u64) -> (r: u64)
    requires
        1 <= n,
    ensures
        r < n,
{
    rand::random_range(0..n)
}

} // verus!
