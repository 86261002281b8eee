//! Randomness, drawn from the `rand` crate.

use vstd::prelude::*;

use rand::rngs::ThreadRng;
use rand::seq::SliceRandom;

use crate::hex::Hex;

verus! {

/// The thread-local random generator of `rand`.
#[verifier::external_type_specification]
#[verifier::external_body]
pub struct ExThreadRng(ThreadRng);

/// Calls `rand::rng()`, which hands out the thread-local generator. Nothing is
/// claimed of it.
#[verifier::external_body]
pub(crate) fn thread_rng() -> ThreadRng {
    rand::rng()
}

/// Calls `SliceRandom::shuffle` of `rand` on the hexes. The claim: the result holds
/// the same hexes, each as often as before (rand's Fisher-Yates shuffle only swaps
/// elements); their order is random.
#[verifier::external_body]
pub(crate) fn shuffle_hexes(v: &mut Vec<Hex>, rng: &mut ThreadRng)
    ensures
        final(v)@.to_multiset() == old(v)@.to_multiset(),
{
    v.shuffle(rng);
}

} // verus!
