//! The random numbers boards are built from, drawn from `rand`.
//!
//! Nothing here is proved: each item below states what `rand`'s source and
//! documentation show of one of its functions, and the board building that uses
//! them is verified against those statements.

use vstd::prelude::*;
use rand::rngs::StdRng;
use rand::seq::SliceRandom;
use rand::{Rng, SeedableRng};

verus! {

/// `rand`'s standard generator. Its state is opaque here: a value of it is
/// only ever handed on to the functions below.
#[verifier::external_type_specification]
#[verifier::external_body]
pub struct ExStdRng(rand::rngs::StdRng);

/// `Rng::gen_range(0..bound)`: a number below `bound`. `rand` panics on an
/// empty range, so `bound` is at least one.
#[verifier::external_body]
pub(crate) fn below(rng: &mut StdRng, bound: usize) -> (r: usize)
    requires
        bound > 0,
    ensures
        r < bound,
{
    rng.gen_range(0..bound)
}

/// `SliceRandom::shuffle`: the same items in an order the generator picks.
#[verifier::external_body]
pub(crate) fn shuffle<T>(rng: &mut StdRng, items: &mut Vec<T>)
    ensures
        final(items)@.to_multiset() == old(items)@.to_multiset(),
{
    items.as_mut_slice().shuffle(rng)
}

/// `SliceRandom::choose`: one of the items, or nothing when there are none.
#[verifier::external_body]
pub(crate) fn pick_one<'a, T>(rng: &mut StdRng, items: &'a Vec<T>) -> (picked: Option<&'a T>)
    ensures
        picked is None <==> items@.len() == 0,
        picked matches Some(x) ==> items@.contains(*x),
{
    items.as_slice().choose(rng)
}

/// The order `SliceRandom::shuffle` puts `items` in when it draws from a
/// generator made by `StdRng::seed_from_u64(seed)`: a function of the seed and
/// the items alone, the same in every process and on every machine.
pub uninterp spec fn seeded_order(seed: u64, items: Seq<usize>) -> Seq<usize>;

/// `SliceRandom::shuffle` drawing from a fresh `StdRng::seed_from_u64(seed)`:
/// the same items, in the order the seed decides.
#[verifier::external_body]
pub(crate) fn seeded_shuffle(seed: u64, items: &mut Vec<usize>)
    ensures
        final(items)@ == seeded_order(seed, old(items)@),
        final(items)@.to_multiset() == old(items)@.to_multiset(),
{
    items.as_mut_slice().shuffle(&mut StdRng::seed_from_u64(seed))
}

/// The numbers `Rng::gen_range(0..bounds[i])` gives for each `i` in turn,
/// drawing from a generator made by `StdRng::seed_from_u64(seed)`: a function
/// of the seed and the bounds alone, the same in every process and on every
/// machine, since the draws are 64-bit whatever the machine's word size.
pub uninterp spec fn seeded_draws(seed: u64, bounds: Seq<u64>) -> Seq<u64>;

/// A fresh `StdRng::seed_from_u64(seed)` asked, in turn, for a number below
/// each of `bounds` with `Rng::gen_range`: one number per bound, each below
/// its bound. `gen_range` panics on an empty range, so every bound is at least
/// one.
#[verifier::external_body]
pub(crate) fn seeded_ranges(seed: u64, bounds: &Vec<u64>) -> (draws: Vec<u64>)
    requires
        forall|i: int| 0 <= i < bounds@.len() ==> bounds@[i] > 0,
    ensures
        draws@ == seeded_draws(seed, bounds@),
        draws@.len() == bounds@.len(),
        forall|i: int| 0 <= i < bounds@.len() ==> draws@[i] < bounds@[i],
{
    let mut rng = StdRng::seed_from_u64(seed);
    bounds.iter().map(|&bound| rng.gen_range(0..bound)).collect()
}

} // verus!
