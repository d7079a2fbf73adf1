//! The source of randomness: the thread-local generator of the `rand` crate.

use vstd::prelude::*;
use crate::grid::Direction;

verus! {

#[verifier::external_type_specification]
#[verifier::external_body]
pub struct ExThreadRng(rand::rngs::ThreadRng);

/// `rand::thread_rng` hands out a handle to the generator of the current
/// thread. Nothing is claimed of it.
#[verifier::external_body]
pub(crate) fn thread_rng() -> (rng: rand::rngs::ThreadRng) {
    rand::thread_rng()
}

/// `SliceRandom::shuffle` reorders a slice in place by swapping its elements,
/// so what comes back holds the same directions as what went in, each as often.
/// Which order comes back is not determined.
#[verifier::external_body]
pub(crate) fn shuffle(order: &mut [Direction; 4], rng: &mut rand::rngs::ThreadRng)
    ensures
        final(order)@.to_multiset() == old(order)@.to_multiset(),
{
    rand::seq::SliceRandom::shuffle(&mut order[..], rng);
}

/// `Rng::gen_range` on the range `0..bound` returns a number of that range.
/// It panics on an empty range, which the precondition rules out. Which
/// number comes back is not determined.
#[verifier::external_body]
pub(crate) fn random_below(rng: &mut rand::rngs::ThreadRng, bound: usize) -> (n: usize)
    requires
        bound > 0,
    ensures
        n < bound,
{
    rand::Rng::gen_range(rng, 0..bound)
}

/// Two sequences that hold the same items equally often hold the same items.
proof fn lemma_same_members(a: Seq<Direction>, b: Seq<Direction>, d: Direction)
    requires
        a.to_multiset() == b.to_multiset(),
    ensures
        a.contains(d) == b.contains(d),
{
    vstd::seq_lib::to_multiset_contains(a, d);
    vstd::seq_lib::to_multiset_contains(b, d);
}

/// The four directions in a random order.
pub(crate) fn shuffled_directions(rng: &mut rand::rngs::ThreadRng) -> (order: [Direction; 4])
    ensures
        Direction::complete(order@),
{
    let mut order = [Direction::North, Direction::South, Direction::East, Direction::West];
    let ghost before = order@;
    shuffle(&mut order, rng);
    proof {
        assert(before[0] == Direction::North && before[1] == Direction::South);
        assert(before[2] == Direction::East && before[3] == Direction::West);
        vstd::seq_lib::to_multiset_len(before);
        vstd::seq_lib::to_multiset_len(order@);
        lemma_same_members(before, order@, Direction::North);
        lemma_same_members(before, order@, Direction::South);
        lemma_same_members(before, order@, Direction::East);
        lemma_same_members(before, order@, Direction::West);
    }
    order
}

} // verus!
