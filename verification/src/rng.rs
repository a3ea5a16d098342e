//! Randomness at the generator boundary.
//!
//! Level generation is deliberately unseeded; every draw goes through one of
//! the wrappers below, whose contracts state only what holds of every
//! possible outcome.

use vstd::prelude::*;

verus! {

/// Relies on `rand::Rng::gen_range` over the inclusive range `lo..=hi` with
/// `rand::thread_rng`: it returns a value of the range and panics only on an
/// empty range, which the precondition rules out. (`thread_rng` itself can
/// abort if the operating system's entropy source fails at first use — an
/// environment failure outside any contract here, like running out of
/// memory.)
#[verifier::external_body]
pub(crate) fn rand_range_i32(lo: i32, hi: i32) -> (r: i32)
    requires
        lo <= hi,
    ensures
        lo <= r <= hi,
{
    rand::Rng::gen_range(&mut rand::thread_rng(), lo..=hi)
}

/// Relies on `rand::distributions::WeightedIndex` over two weights: `new`
/// fails only when every weight is zero (ruled out here, as is overflow of
/// their sum), and `sample` returns an index whose weight is non-zero.
#[verifier::external_body]
pub(crate) fn weighted_pick2(w0: u32, w1: u32) -> (r: usize)
    requires
        w0 < 0x8000_0000,
        w1 < 0x8000_0000,
        w0 > 0 || w1 > 0,
    ensures
        r < 2,
        r == 0 ==> w0 > 0,
        r == 1 ==> w1 > 0,
{
    let dist = rand::distributions::WeightedIndex::new([w0, w1]).unwrap();
    rand::distributions::Distribution::sample(&dist, &mut rand::thread_rng())
}

} // verus!
