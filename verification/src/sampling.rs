//! Random draws.
//!
//! The pseudo-random source is `rand`'s `StdRng` with `rand_distr`'s uniform
//! integer distribution. A seeded draw is a function of the seed, so it has a
//! name that contracts can speak of; an entropy draw is only known to lie in
//! the requested range. Everything built from the draws is verified code.

use vstd::prelude::*;
use rand::SeedableRng;
use rand::rngs::StdRng;
use rand_distr::{Distribution, Uniform};
use crate::polynomial::ints;

verus! {

/// The first `count` values that `Uniform::new(low, high)` yields on a
/// `StdRng` freshly seeded with `seed`.
pub uninterp spec fn seeded_stream(seed: u64, low: int, high: int, count: nat) -> Seq<int>;

/// All values lie in `[low, high)`.
pub open spec fn all_within(values: Seq<int>, low: int, high: int) -> bool {
    forall|i: int| 0 <= i < values.len() ==> low <= #[trigger] values[i] < high
}

/// `count` draws from `[low, high)` on a generator seeded with `seed`.
///
/// Trusted: calls `StdRng::seed_from_u64` and samples `Uniform::new(low, high)`
/// `count` times. The generator and the integer sampler are deterministic, so
/// the values are the named stream; each lies in the half-open range.
/// `Uniform::new` panics on an empty range.
#[verifier::external_body]
pub(crate) fn seeded_draws(seed: u64, low: i64, high: i64, count: usize) -> (r: Vec<i64>)
    requires
        low < high,
    ensures
        ints(r@) == seeded_stream(seed, low as int, high as int, count as nat),
        r.len() == count,
        all_within(ints(r@), low as int, high as int),
{
    let mut rng = StdRng::seed_from_u64(seed);
    Uniform::new(low, high).sample_iter(&mut rng).take(count).collect()
}

/// `count` draws from `[low, high)` on a generator seeded from the operating
/// system's entropy.
///
/// Trusted: calls `StdRng::from_entropy` and samples `Uniform::new(low, high)`
/// `count` times. Nothing is known of the values but their number and range.
/// `from_entropy` panics when the operating system has no entropy to give.
#[verifier::external_body]
pub(crate) fn entropy_draws(low: i64, high: i64, count: usize) -> (r: Vec<i64>)
    requires
        low < high,
    ensures
        r.len() == count,
        all_within(ints(r@), low as int, high as int),
{
    let mut rng = StdRng::from_entropy();
    Uniform::new(low, high).sample_iter(&mut rng).take(count).collect()
}

/// `count` draws from `[low, high)`: reproducible under a seed, from entropy
/// without one.
pub fn draws(seed: Option<u64>, low: i64, high: i64, count: usize) -> (r: Vec<i64>)
    requires
        low < high,
    ensures
        r.len() == count,
        all_within(ints(r@), low as int, high as int),
        seed matches Some(s) ==> ints(r@) == seeded_stream(s, low as int, high as int, count as nat),
{
    match seed {
        Some(s) => seeded_draws(s, low, high, count),
        None => entropy_draws(low, high, count),
    }
}

/// The seed of the `index`-th draw of an operation that was given `seed`:
/// successive draws of one operation use successive seeds, so that none of
/// them repeats another. Without a seed every draw takes fresh entropy.
pub open spec fn nth_seed_spec(seed: Option<u64>, index: u64) -> Option<u64> {
    match seed {
        Some(s) => Some(((s + index) % 0x1_0000_0000_0000_0000) as u64),
        None => None,
    }
}

/// Executable form of [`nth_seed_spec`].
pub fn nth_seed(seed: Option<u64>, index: u64) -> (r: Option<u64>)
    ensures
        r == nth_seed_spec(seed, index),
{
    match seed {
        Some(s) => {
            if s <= u64::MAX - index {
                Some(s + index)
            } else {
                Some(s - (u64::MAX - index) - 1)
            }
        },
        None => None,
    }
}

} // verus!
