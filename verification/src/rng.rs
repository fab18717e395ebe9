//! Access to the process-wide random generator, behind trusted wrappers.
//!
//! Nothing is assumed beyond what rand guarantees: a drawn value lies in the
//! requested half-open range.  Everything the game does with such a value is
//! verified for every value in that range.

use vstd::prelude::*;
use rand::Rng;

verus! {

/// Relies on rand's `thread_rng().gen_range(lo..hi)`: the drawn `usize` lies
/// in `[lo, hi)`.  `gen_range` panics on an empty range, which the
/// precondition rules out.
#[verifier::external_body]
pub(crate) fn rand_range_usize(lo: usize, hi: usize) -> (r: usize)
    requires
        lo < hi,
    ensures
        lo <= r < hi,
{
    rand::thread_rng().gen_range(lo..hi)
}

/// Relies on rand's `thread_rng().gen_range(lo..hi)`: the drawn `i64` lies
/// in `[lo, hi)`.  `gen_range` panics on an empty range, which the
/// precondition rules out.
#[verifier::external_body]
pub(crate) fn rand_range_i64(lo: i64, hi: i64) -> (r: i64)
    requires
        lo < hi,
    ensures
        lo <= r < hi,
{
    rand::thread_rng().gen_range(lo..hi)
}

/// Relies on rand's `thread_rng().gen::<u32>()`: some 32-bit value; nothing
/// further is assumed of it.
#[verifier::external_body]
pub(crate) fn rand_u32() -> u32 {
    rand::thread_rng().gen::<u32>()
}

} // verus!
