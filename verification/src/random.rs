//! The random source. All randomness of the library is drawn from a seedable
//! generator that the caller hands in, through the few functions below. Their
//! contracts state what holds of every outcome and are not proved here.

use crate::types::Coords;
use rand::rngs::StdRng;
use rand::seq::SliceRandom;
use rand::Rng;
use rand::SeedableRng;
use vstd::prelude::*;

verus! {

/// The seedable generator of the `rand` crate. Its state is opaque here.
#[verifier::external_type_specification]
#[verifier::external_body]
pub struct ExStdRng(StdRng);

/// Calls `StdRng::seed_from_u64`, which builds a generator from a seed.
/// Nothing is claimed of the generator.
#[verifier::external_body]
pub(crate) fn seeded_rng(seed: u64) -> (r: StdRng) {
    StdRng::seed_from_u64(seed)
}

/// Calls `StdRng::try_from_os_rng`, which seeds a generator from the entropy
/// of the operating system, and hands back `None` where the system cannot
/// provide any. Nothing is claimed of the generator.
#[verifier::external_body]
pub(crate) fn entropy_rng() -> (r: Option<StdRng>) {
    StdRng::try_from_os_rng().ok()
}

/// Calls `Rng::random_range` on the half-open range from `low` to `high`.
/// The claim: the number drawn lies in that range. An empty range, on which
/// the call panics, is excluded.
#[verifier::external_body]
pub(crate) fn random_range(rng: &mut StdRng, low: usize, high: usize) -> (r: usize)
    requires
        low < high,
    ensures
        low <= r < high,
{
    rng.random_range(low..high)
}

/// Calls `Rng::random` for a `bool`: a fair coin. Nothing is claimed of the
/// outcome.
#[verifier::external_body]
pub(crate) fn random_bool(rng: &mut StdRng) -> (r: bool) {
    rng.random::<bool>()
}

/// Calls `Rng::random_ratio`, which is true with the chance `numerator` in
/// `denominator`. Nothing is claimed of the outcome. A zero denominator and a
/// numerator above the denominator, on which the call panics, are excluded.
#[verifier::external_body]
pub(crate) fn random_ratio(rng: &mut StdRng, numerator: u32, denominator: u32) -> (r: bool)
    requires
        denominator > 0,
        numerator <= denominator,
{
    rng.random_ratio(numerator, denominator)
}

/// Calls `SliceRandom::shuffle`, which reorders a slice in place. The claim:
/// the items afterwards are the items before, each as often as before.
#[verifier::external_body]
pub(crate) fn shuffle<T>(rng: &mut StdRng, items: &mut Vec<T>)
    ensures
        final(items)@.to_multiset() == old(items)@.to_multiset(),
{
    items.shuffle(rng)
}

/// What a shuffle keeps: the length, and which items occur.
pub proof fn lemma_shuffled<T>(before: Seq<T>, after: Seq<T>)
    requires
        after.to_multiset() == before.to_multiset(),
    ensures
        after.len() == before.len(),
        forall|a: T| before.contains(a) <==> after.contains(a),
{
    before.to_multiset_ensures();
    after.to_multiset_ensures();
    assert forall|a: T| before.contains(a) <==> after.contains(a) by {
        assert(before.contains(a) <==> before.to_multiset().count(a) > 0);
        assert(after.contains(a) <==> after.to_multiset().count(a) > 0);
    }
}

/// A generator for callers that gave no seed: seeded from the operating
/// system where that is possible, from a fixed seed otherwise.
pub fn fresh_rng() -> (r: StdRng) {
    match entropy_rng() {
        Some(rng) => rng,
        None => seeded_rng(0),
    }
}

/// A generator for the given seed, or for none.
pub fn rng_for(seed: Option<u64>) -> (r: StdRng) {
    match seed {
        Some(value) => seeded_rng(value),
        None => fresh_rng(),
    }
}

/// Shuffling of candidate positions with a generator of its own.
pub struct RandPositions;

impl RandPositions {
    /// Reorders the positions at random.
    pub fn rand(positions: &mut Vec<Coords>)
        ensures
            final(positions)@.to_multiset() == old(positions)@.to_multiset(),
    {
        let mut rng = fresh_rng();
        shuffle(&mut rng, positions);
    }
}

} // verus!
