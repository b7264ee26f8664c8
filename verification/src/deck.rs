//! A shuffled deck to deal from: the 52 cards in a random order, handed
//! out one at a time.

use vstd::prelude::*;
use crate::card::{spec_deck, Card};

verus! {

/// Relies on rand's `SliceRandom::shuffle` (with `rand::thread_rng`), which
/// permutes the slice in place by element swaps: the result holds exactly the
/// same cards, in an order that nothing here may assume.
#[verifier::external_body]
fn shuffle_cards(cards: &mut Vec<Card>)
    ensures
        final(cards)@.to_multiset() == old(cards)@.to_multiset(),
        final(cards)@.len() == old(cards)@.len(),
{
    rand::seq::SliceRandom::shuffle(cards.as_mut_slice(), &mut rand::thread_rng())
}

pub struct Deck {
    pub cards: Vec<Card>,
    pub first_available: usize,
}

impl Deck {
    /// The cards still to be dealt, in order.
    pub open spec fn remaining(self) -> Seq<Card> {
        self.cards@.skip(self.first_available as int)
    }

    pub open spec fn wf(self) -> bool {
        self.first_available <= self.cards@.len()
    }

    /// A full deck in a random order: some arrangement of all 52 cards,
    /// none yet dealt.
    pub fn shuffled() -> (r: Deck)
        ensures
            r.wf(),
            r.first_available == 0,
            r.cards@.len() == 52,
            r.cards@.to_multiset() == spec_deck().to_multiset(),
            r.remaining() == r.cards@,
    {
        let mut cards: Vec<Card> = Card::deck();
        shuffle_cards(&mut cards);
        let deck = Deck { cards, first_available: 0 };
        proof {
            assert(deck.remaining() =~= deck.cards@);
        }
        deck
    }

    /// Deal the next card, or `None` once the deck is exhausted.
    pub fn draw(&mut self) -> (r: Option<Card>)
        requires
            old(self).wf(),
        ensures
            final(self).wf(),
            final(self).cards@ == old(self).cards@,
            old(self).remaining().len() == 0 ==> {
                &&& r is None
                &&& final(self).first_available == old(self).first_available
            },
            old(self).remaining().len() > 0 ==> {
                &&& r == Some(old(self).remaining()[0])
                &&& final(self).first_available == old(self).first_available + 1
                &&& final(self).remaining() == old(self).remaining().skip(1)
            },
    {
        if self.first_available < self.cards.len() {
            let card = self.cards[self.first_available];
            self.first_available = self.first_available + 1;
            proof {
                assert(self.remaining() =~= old(self).remaining().skip(1));
            }
            Some(card)
        } else {
            None
        }
    }
}

} // verus!
