//! Chance: the calls into the `rand` crate. Nothing here is proved; each
//! contract states what the crate's source shows of every outcome.

use rand::rngs::ThreadRng;
use rand::seq::{IndexedRandom, SliceRandom};
use rand::Rng;
use vstd::prelude::*;

use crate::animation::MoveEvent;

verus! {

/// `rand::rngs::ThreadRng`, the generator that each thread has for itself.
/// Nothing is known of its state.
#[verifier::external_type_specification]
#[verifier::external_body]
pub struct ExThreadRng(ThreadRng);

/// `rand::rng` hands out the calling thread's generator. Nothing is claimed
/// of it. The call takes no argument; it gives up only where the operating
/// system has no entropy to seed the generator with.
pub assume_specification[ rand::rng ]() -> (rng: ThreadRng)
;

/// `Rng::random_range` on the half-open range `low..high` of `i32`: the
/// value lies in the range. The call panics on an empty range, which the
/// precondition leaves out.
#[verifier::external_body]
pub(crate) fn random_range_i32(rng: &mut ThreadRng, low: i32, high: i32) -> (value: i32)
    requires
        low < high,
    ensures
        low <= value < high,
{
    rng.random_range(low..high)
}

/// `Rng::random_ratio`: true with a chance of `numerator` in `denominator`,
/// so always true when the two are equal and never when `numerator` is zero.
/// The call panics when `denominator` is zero or smaller than `numerator`,
/// which the precondition leaves out.
#[verifier::external_body]
pub(crate) fn random_ratio(rng: &mut ThreadRng, numerator: u32, denominator: u32) -> (hit: bool)
    requires
        0 < denominator,
        numerator <= denominator,
    ensures
        numerator == denominator ==> hit,
        numerator == 0 ==> !hit,
{
    rng.random_ratio(numerator, denominator)
}

/// `SliceRandom::shuffle`: the numbers are rearranged by swaps, so the same
/// numbers are there afterwards, each as often as before.
#[verifier::external_body]
pub(crate) fn shuffle_numbers(rng: &mut ThreadRng, numbers: &mut Vec<i32>)
    ensures
        final(numbers)@.to_multiset() == old(numbers)@.to_multiset(),
{
    numbers.shuffle(rng);
}

/// `IndexedRandom::choose`: nothing from an empty list, else one of its
/// entries.
#[verifier::external_body]
pub(crate) fn choose_move(rng: &mut ThreadRng, moves: &Vec<MoveEvent>) -> (picked: Option<
    MoveEvent,
>)
    ensures
        moves@.len() == 0 ==> picked is None,
        moves@.len() > 0 ==> picked is Some && moves@.contains(picked->0),
{
    moves.choose(rng).copied()
}

} // verus!
