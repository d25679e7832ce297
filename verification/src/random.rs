//! Random choices.

use rand::distributions::{Distribution, WeightedIndex};
use rand::rngs::StdRng;
use rand::seq::SliceRandom;
use rand::{Rng, SeedableRng};
use vstd::prelude::*;

verus! {

/// The standard generator of the rand crate.
#[verifier::external_type_specification]
#[verifier::external_body]
pub struct ExStdRng(StdRng);

/// `SeedableRng::seed_from_u64`: a generator. Nothing is said of what it will
/// yield.
#[verifier::external_body]
fn rand_seeded(seed: u64) -> (r: StdRng) {
    StdRng::seed_from_u64(seed)
}

/// `Rng::gen_range` over `0..n`: some number below `n`.
#[verifier::external_body]
fn rand_below(rng: &mut StdRng, n: usize) -> (r: usize)
    requires
        n > 0,
    ensures
        r < n,
{
    rng.gen_range(0..n)
}

/// `SliceRandom::shuffle`: the same items in some order. Every order can be drawn, the
/// one they stood in too, so nothing is said of which it is.
#[verifier::external_body]
fn rand_shuffle(rng: &mut StdRng, items: &mut Vec<usize>)
    ensures
        final(items)@.to_multiset() == old(items)@.to_multiset(),
{
    items.shuffle(rng)
}

/// The sum of the weights.
pub open spec fn weight_sum(weights: Seq<usize>) -> nat
    decreases weights.len(),
{
    if weights.len() == 0 {
        0
    } else {
        weight_sum(weights.drop_last()) + weights.last() as nat
    }
}

/// `WeightedIndex::new` and `Distribution::sample`: the index of some weight that is
/// not zero.
#[verifier::external_body]
fn rand_weighted(rng: &mut StdRng, weights: &Vec<usize>) -> (r: usize)
    requires
        0 < weight_sum(weights@) <= usize::MAX,
    ensures
        r < weights@.len(),
        weights@[r as int] > 0,
{
    WeightedIndex::new(weights).unwrap().sample(rng)
}

/// A generator started from `seed`.
pub fn seeded(seed: u64) -> StdRng {
    rand_seeded(seed)
}

/// Some number below `n`.
pub fn pick_below(rng: &mut StdRng, n: usize) -> (r: usize)
    requires
        n > 0,
    ensures
        r < n,
{
    rand_below(rng, n)
}

/// Put the items into an order drawn by chance: any order of them may come out.
pub fn shuffle(rng: &mut StdRng, items: &mut Vec<usize>)
    ensures
        final(items)@.to_multiset() == old(items)@.to_multiset(),
        final(items)@.len() == old(items)@.len(),
        forall|x: usize| final(items)@.contains(x) <==> old(items)@.contains(x),
{
    let ghost before = items@;
    rand_shuffle(rng, items);
    proof {
        before.to_multiset_ensures();
        items@.to_multiset_ensures();
        assert forall|x: usize| items@.contains(x) <==> before.contains(x) by {
            assert(items@.contains(x) <==> items@.to_multiset().count(x) > 0);
            assert(before.contains(x) <==> before.to_multiset().count(x) > 0);
        }
    }
}

/// The index of some weight that is not zero.
pub fn pick_weighted(rng: &mut StdRng, weights: &Vec<usize>) -> (r: usize)
    requires
        0 < weight_sum(weights@) <= usize::MAX,
    ensures
        r < weights@.len(),
        weights@[r as int] > 0,
{
    rand_weighted(rng, weights)
}

} // verus!
