//! Uniform random draws over an inclusive range.
use std::ops::RangeInclusive;
use vstd::prelude::*;

verus! {

/// Draws a value uniformly from `range`.
///
/// Relies on `rand::thread_rng` and `rand::Rng::gen_range` (rand 0.8): for an
/// inclusive range whose start is at most its end, the sample lies between the
/// two bounds, both included; an empty range would panic, so it is excluded.
#[verifier::external_body]
pub fn generated_by(range: RangeInclusive<u8>) -> (r: u8)
    requires
        range@.start <= range@.end,
    ensures
        range@.start <= r <= range@.end,
{
    rand::Rng::gen_range(&mut rand::thread_rng(), range)
}

} // verus!
