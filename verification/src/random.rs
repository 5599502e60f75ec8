//! The random source and the two draws that the clustering makes from it.
//!
//! Nothing here is proved: the contracts state what the `rand` crate does,
//! for every outcome of the draw.

use rand::rngs::StdRng;
use rand::seq::{IndexedRandom, IteratorRandom};
use vstd::prelude::*;

verus! {

/// `rand::rngs::StdRng`, the seedable generator that every draw is made
/// from. Its state is not modelled.
#[verifier::external_type_specification]
#[verifier::external_body]
pub struct ExStdRng(StdRng);

/// `rand::seq::IteratorRandom::choose_multiple` on the entries of `items`:
/// reservoir sampling that keeps `amount` of them. The call reserves room
/// for `amount` entries at once; it is made only where `items` has at least
/// as many, so that the room can be had. The result then has exactly
/// `amount` entries; each is an entry of `items`, taken from a position of
/// its own, so distinct entries give distinct picks. Which entries are
/// picked, and in what order they come, is left open.
#[verifier::external_body]
pub(crate) fn choose_multiple(rng: &mut StdRng, items: &Vec<usize>, amount: usize) -> (picked: Vec<
    usize,
>)
    requires
        amount <= items@.len(),
    ensures
        picked@.len() == amount,
        forall|t: int| 0 <= t < picked@.len() ==> items@.contains(#[trigger] picked@[t]),
        items@.no_duplicates() ==> picked@.no_duplicates(),
{
    items.iter().copied().choose_multiple(rng, amount)
}

/// `rand::seq::IndexedRandom::choose` on the slice of `items`: `None` for an
/// empty list, else one of its entries. Which entry is left open.
#[verifier::external_body]
pub(crate) fn choose_one(rng: &mut StdRng, items: &Vec<usize>) -> (picked: Option<usize>)
    ensures
        picked is None <==> items@.len() == 0,
        picked matches Some(x) ==> items@.contains(x),
{
    items.choose(rng).copied()
}

} // verus!
