//! Decks of cards.
//!
//! A deck holds card identities in reverse play order, so drawing is a pop
//! from the back. Shuffling delegates to the `rand` crate; whatever
//! permutation comes out, the deck holds the same cards afterwards.

use vstd::prelude::*;

use rand::rngs::ThreadRng;
use rand::seq::SliceRandom;

use crate::card::CardId;

verus! {

#[verifier::external_type_specification]
#[verifier::external_body]
pub struct ExThreadRng(ThreadRng);

/// Relies on rand::thread_rng: a handle to the thread-local generator.
#[verifier::external_body]
fn fresh_rng() -> ThreadRng {
    rand::thread_rng()
}

/// Relies on rand::seq::SliceRandom::shuffle: the slice is permuted in
/// place, so it holds the same cards with the same multiplicities, in an
/// order that depends on the generator and is promised nothing more.
#[verifier::external_body]
fn shuffle_cards(cards: &mut Vec<CardId>, rng: &mut ThreadRng)
    ensures
        final(cards)@.to_multiset() == old(cards)@.to_multiset(),
{
    cards.shuffle(rng);
}

/// A deck of cards, drawn from the back.
pub struct Deck {
    cards: Vec<CardId>,
}

impl View for Deck {
    type V = Seq<CardId>;

    closed spec fn view(&self) -> Seq<CardId> {
        self.cards@
    }
}

impl Deck {
    /// A deck holding the given cards, the last one on top.
    pub fn new(cards: Vec<CardId>) -> (r: Deck)
        ensures
            r@ == cards@,
    {
        Deck { cards }
    }

    /// Draw the top card, if any is left.
    pub fn draw(&mut self) -> (r: Option<CardId>)
        ensures
            old(self)@.len() == 0 ==> r is None && final(self)@ == old(self)@,
            old(self)@.len() > 0 ==> r == Some(old(self)@.last()) && final(self)@ == old(
                self,
            )@.drop_last(),
    {
        self.cards.pop()
    }

    /// Shuffle the deck: the same cards in an order drawn from the
    /// thread-local generator.
    pub fn shuffle(&mut self)
        ensures
            final(self)@.to_multiset() == old(self)@.to_multiset(),
    {
        let mut rng = fresh_rng();
        shuffle_cards(&mut self.cards, &mut rng);
    }
}

} // verus!
