use vstd::prelude::*;

use crate::card::Card;
use rand::seq::SliceRandom;
use rand::Rng;

verus! {

/// Relies on rand's `SliceRandom::shuffle`: it rearranges the slice in place
/// by swapping elements, so the deck afterwards holds exactly the same cards,
/// in some order.
#[verifier::external_body]
pub(crate) fn shuffle_cards(deck: &mut Vec<Card>)
    ensures
        final(deck)@.to_multiset() == old(deck)@.to_multiset(),
        final(deck)@.len() == old(deck)@.len(),
{
    deck.shuffle(&mut rand::thread_rng());
}

/// Relies on rand's `Rng::gen_range`: on the nonempty range `0..len` it
/// returns a uniformly random index inside that range.
#[verifier::external_body]
pub(crate) fn random_index(len: usize) -> (r: usize)
    requires
        len > 0,
    ensures
        r < len,
{
    rand::thread_rng().gen_range(0..len)
}

} // verus!
