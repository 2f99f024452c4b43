//! The random draws of the engines. Each function here hands one request to
//! the `rand` crate; what it promises of the answer is taken on trust from
//! that crate and holds of every outcome.

use rand::distr::weighted::WeightedIndex;
use rand::distr::Distribution;
use rand::rngs::ThreadRng;
use rand::seq::IndexedRandom;
use rand::seq::SliceRandom;
use rand::Rng;
use vstd::prelude::*;

verus! {

#[verifier::external_type_specification]
#[verifier::external_body]
pub struct ExThreadRng(rand::rngs::ThreadRng);

/// The sum of the weights.
pub open spec fn total_weight(weights: Seq<u64>) -> int
    decreases weights.len(),
{
    if weights.len() == 0 {
        0
    } else {
        total_weight(weights.drop_last()) + weights.last()
    }
}

/// `rand::rng`: a handle to the generator of the current thread. Nothing is
/// claimed of it.
#[verifier::external_body]
pub(crate) fn thread_generator() -> (generator: ThreadRng) {
    rand::rng()
}

/// `Rng::random_range` on a half-open range of indices: the draw lies in
/// the range. The range must not be empty.
#[verifier::external_body]
pub(crate) fn draw_between(generator: &mut ThreadRng, low: usize, high: usize) -> (draw: usize)
    requires
        low < high,
    ensures
        low <= draw < high,
{
    generator.random_range(low..high)
}

/// `Rng::random_range` on a half-open range of lengths: the draw lies in
/// the range. The range must not be empty.
#[verifier::external_body]
pub(crate) fn draw_length_below(generator: &mut ThreadRng, high: u64) -> (draw: u64)
    requires
        0 < high,
    ensures
        draw < high,
{
    generator.random_range(0..high)
}

/// `Rng::random_ratio` with one chance in two. Nothing is claimed of the
/// outcome.
#[verifier::external_body]
pub(crate) fn toss(generator: &mut ThreadRng) -> (heads: bool) {
    generator.random_ratio(1, 2)
}

/// `SliceRandom::shuffle`: the entries are kept, each as often as before,
/// in some order.
#[verifier::external_body]
pub(crate) fn shuffle(generator: &mut ThreadRng, path: &mut Vec<u16>)
    ensures
        final(path)@.to_multiset() == old(path)@.to_multiset(),
{
    path.shuffle(generator)
}

/// `IndexedRandom::choose` on a list that is not empty: the answer is one
/// of its entries.
#[verifier::external_body]
pub(crate) fn choose_one(generator: &mut ThreadRng, options: &Vec<usize>) -> (chosen: usize)
    requires
        options@.len() > 0,
    ensures
        options@.contains(chosen),
{
    *options.choose(generator).unwrap()
}

/// `WeightedIndex::new` followed by `Distribution::sample`: the answer is
/// a position of the list, and never one whose weight is zero. The list
/// must not be empty, and its sum must be above zero and fit in 64 bits.
#[verifier::external_body]
pub(crate) fn weighted_index(generator: &mut ThreadRng, weights: &Vec<u64>) -> (index: usize)
    requires
        weights@.len() > 0,
        0 < total_weight(weights@) <= u64::MAX,
    ensures
        index < weights@.len(),
        weights@[index as int] > 0,
{
    WeightedIndex::new(weights).unwrap().sample(generator)
}

} // verus!
