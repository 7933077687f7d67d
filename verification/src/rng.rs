//! The one place the library draws randomness from the outside.

use vstd::prelude::*;

verus! {

/// Relies on `rand::thread_rng` and `rand::Rng::gen_range`: for a non-empty
/// range `lo..hi` the call returns a value of that range (uniformly, which no
/// contract here claims).  Nothing more can be promised of a random draw.
#[verifier::external_body]
pub(crate) fn rand_range(lo: u64, hi: u64) -> (r: u64)
    requires
        lo < hi,
    ensures
        lo <= r < hi,
{
    rand::Rng::gen_range(&mut rand::thread_rng(), lo..hi)
}

} // verus!
