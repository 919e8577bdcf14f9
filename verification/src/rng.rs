//! The source of randomness behind the generator.
//!
//! The generator owns one handle to rand's thread-local generator for the
//! whole run and uses it only to shuffle the candidate values of a cell.

use vstd::prelude::*;

verus! {

/// rand's handle to the thread-local random number generator. The handle is
/// opaque: nothing is assumed of the values it yields.
#[verifier::external_type_specification]
#[verifier::external_body]
pub struct ExThreadRng(rand::rngs::ThreadRng);

/// Relies on rand's `thread_rng`: it returns a handle to the thread-local
/// generator. Nothing is promised of the handle.
pub assume_specification[ rand::thread_rng ]() -> rand::rngs::ThreadRng;

/// Relies on rand's `SliceRandom::shuffle`, a Fisher-Yates shuffle: it
/// reorders the entries of the slice in place by swaps, so the multiset of
/// entries is unchanged. Which order comes out depends on the generator, so
/// nothing more is promised.
#[verifier::external_body]
pub(crate) fn shuffle(values: &mut Vec<u32>, rng: &mut rand::rngs::ThreadRng)
    ensures
        final(values)@.to_multiset() == old(values)@.to_multiset(),
{
    rand::seq::SliceRandom::shuffle(values.as_mut_slice(), rng)
}

} // verus!
