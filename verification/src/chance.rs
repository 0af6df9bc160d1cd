//! The two places where chance enters: a number below a bound, and the order
//! of a list.  Both come from the `rand` crate; of neither outcome is more
//! claimed than holds of every one.

use rand::rngs::StdRng;
use rand::seq::SliceRandom;
use rand::Rng;
use vstd::prelude::*;

verus! {

/// `rand::rngs::StdRng`, the generator that the draws are made from.
#[verifier::external_type_specification]
#[verifier::external_body]
pub struct ExStdRng(rand::rngs::StdRng);

/// `rand::Rng::random_range` on the range from zero up to, not including,
/// `bound`.  The range must not be empty; the number drawn lies in it.
#[verifier::external_body]
pub(crate) fn draw_below(rng: &mut StdRng, bound: usize) -> (drawn: usize)
    requires
        bound > 0,
    ensures
        drawn < bound,
{
    rng.random_range(0..bound)
}

/// `rand::seq::SliceRandom::shuffle`: the list is put into a random order by
/// swapping its items, so it holds the same items as before.
#[verifier::external_body]
pub(crate) fn shuffle<T>(items: &mut Vec<T>, rng: &mut StdRng)
    ensures
        final(items)@.to_multiset() == old(items)@.to_multiset(),
{
    items.shuffle(rng);
}

} // verus!
