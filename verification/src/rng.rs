//! The library's single source of randomness, wrapped so that verified
//! code sees only the guaranteed range of each draw.

use vstd::prelude::*;

verus! {

/// Relies on rand::random_range (through the thread-local generator of
/// rand::rng): it returns a value of the given range, and panics only
/// when the range is empty, which `lo < hi` rules out.  Nothing more is
/// assumed: the draw is random, so no two calls need agree.
#[verifier::external_body]
pub(crate) fn random_in_range(lo: i64, hi: i64) -> (r: i64)
    requires
        lo < hi,
    ensures
        lo <= r < hi,
{
    rand::random_range(lo..hi)
}

} // verus!
