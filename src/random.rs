//! The random choices of tile placement, drawn from rand's thread-local
//! generator.

use vstd::prelude::*;
use rand::rngs::ThreadRng;
use rand::seq::IteratorRandom;
use rand::Rng;

verus! {

/// rand's thread-local generator, carried through as an opaque value.
#[verifier::external_type_specification]
#[verifier::external_body]
pub struct ExThreadRng(rand::rngs::ThreadRng);

/// Relies on rand::thread_rng: hands out the thread's generator; nothing is
/// known of its state.
pub assume_specification[ rand::thread_rng ]() -> rand::rngs::ThreadRng;

/// Relies on rand's IteratorRandom::choose: it returns `None` if and only if
/// the iterator is empty, and otherwise one of its items.
#[verifier::external_body]
pub(crate) fn choose_cell(cells: &Vec<usize>, rng: &mut ThreadRng) -> (r: Option<usize>)
    ensures
        r is None <==> cells@.len() == 0,
        r matches Some(c) ==> cells@.contains(c),
{
    cells.iter().copied().choose(rng)
}

/// Relies on rand's Rng::gen_range on the inclusive range 1..=10, which is
/// not empty: the result lies in that range.
#[verifier::external_body]
pub(crate) fn roll_one_to_ten(rng: &mut ThreadRng) -> (r: u32)
    ensures
        1 <= r <= 10,
{
    rng.gen_range(1..=10)
}

} // verus!
