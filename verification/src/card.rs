//! Card identities: four suits, thirteen values, and the full 52-card deck.

use vstd::prelude::*;

verus! {

#[derive(Clone, Copy, PartialEq, Eq, Structural, Debug, Hash)]
pub enum Suit {
    Spades,
    Clubs,
    Diamonds,
    Hearts,
}

#[derive(Clone, Copy, PartialEq, Eq, Structural, Debug, Hash)]
pub enum Value {
    Ace,
    Two,
    Three,
    Four,
    Five,
    Six,
    Seven,
    Eight,
    Nine,
    Ten,
    Jack,
    Queen,
    King,
}

impl Suit {
    /// Suit at deck position `s` (0..4); used to lay the deck out in a fixed order.
    pub open spec fn from_index(s: int) -> Suit {
        if s == 0 {
            Suit::Spades
        } else if s == 1 {
            Suit::Clubs
        } else if s == 2 {
            Suit::Diamonds
        } else {
            Suit::Hearts
        }
    }

    /// Spades and clubs are the black suits; diamonds and hearts the red ones.
    pub open spec fn spec_is_red(self) -> bool {
        self == Suit::Diamonds || self == Suit::Hearts
    }

    pub fn is_red(self) -> (r: bool)
        ensures
            r == self.spec_is_red(),
    {
        match self {
            Suit::Spades => false,
            Suit::Clubs => false,
            Suit::Diamonds => true,
            Suit::Hearts => true,
        }
    }

    /// Single-letter code used to name a card's face asset.
    pub open spec fn spec_letter(self) -> char {
        match self {
            Suit::Spades => 'S',
            Suit::Clubs => 'C',
            Suit::Diamonds => 'D',
            Suit::Hearts => 'H',
        }
    }

    pub fn letter(self) -> (r: char)
        ensures
            r == self.spec_letter(),
    {
        match self {
            Suit::Spades => 'S',
            Suit::Clubs => 'C',
            Suit::Diamonds => 'D',
            Suit::Hearts => 'H',
        }
    }
}

impl Value {
    /// Value at deck position `v` (0..13), ace first.
    pub open spec fn from_index(v: int) -> Value {
        if v == 0 {
            Value::Ace
        } else if v == 1 {
            Value::Two
        } else if v == 2 {
            Value::Three
        } else if v == 3 {
            Value::Four
        } else if v == 4 {
            Value::Five
        } else if v == 5 {
            Value::Six
        } else if v == 6 {
            Value::Seven
        } else if v == 7 {
            Value::Eight
        } else if v == 8 {
            Value::Nine
        } else if v == 9 {
            Value::Ten
        } else if v == 10 {
            Value::Jack
        } else if v == 11 {
            Value::Queen
        } else {
            Value::King
        }
    }

    /// Numeric rank: ace is 1, king is 13.
    pub open spec fn spec_number(self) -> int {
        match self {
            Value::Ace => 1,
            Value::Two => 2,
            Value::Three => 3,
            Value::Four => 4,
            Value::Five => 5,
            Value::Six => 6,
            Value::Seven => 7,
            Value::Eight => 8,
            Value::Nine => 9,
            Value::Ten => 10,
            Value::Jack => 11,
            Value::Queen => 12,
            Value::King => 13,
        }
    }

    pub fn as_number(&self) -> (r: u8)
        ensures
            r as int == self.spec_number(),
            1 <= r <= 13,
    {
        match self {
            Value::Ace => 1,
            Value::Two => 2,
            Value::Three => 3,
            Value::Four => 4,
            Value::Five => 5,
            Value::Six => 6,
            Value::Seven => 7,
            Value::Eight => 8,
            Value::Nine => 9,
            Value::Ten => 10,
            Value::Jack => 11,
            Value::Queen => 12,
            Value::King => 13,
        }
    }

    /// Single-character code used to name a card's face asset
    /// (ten is 'T', the courts their initial).
    pub open spec fn spec_letter(self) -> char {
        match self {
            Value::Ace => 'A',
            Value::Two => '2',
            Value::Three => '3',
            Value::Four => '4',
            Value::Five => '5',
            Value::Six => '6',
            Value::Seven => '7',
            Value::Eight => '8',
            Value::Nine => '9',
            Value::Ten => 'T',
            Value::Jack => 'J',
            Value::Queen => 'Q',
            Value::King => 'K',
        }
    }

    pub fn letter(self) -> (r: char)
        ensures
            r == self.spec_letter(),
    {
        match self {
            Value::Ace => 'A',
            Value::Two => '2',
            Value::Three => '3',
            Value::Four => '4',
            Value::Five => '5',
            Value::Six => '6',
            Value::Seven => '7',
            Value::Eight => '8',
            Value::Nine => '9',
            Value::Ten => 'T',
            Value::Jack => 'J',
            Value::Queen => 'Q',
            Value::King => 'K',
        }
    }
}

#[derive(Clone, Copy, PartialEq, Eq, Structural, Debug, Hash)]
pub struct Card {
    pub suit: Suit,
    pub value: Value,
}

/// The card at position `k` (0..52) of a freshly ordered deck:
/// thirteen values per suit, suits in a fixed order.
pub open spec fn deck_card(k: int) -> Card {
    Card { suit: Suit::from_index(k / 13), value: Value::from_index(k % 13) }
}

/// The 52 cards of an ordered deck as a sequence.
pub open spec fn spec_deck() -> Seq<Card> {
    Seq::new(52, |k: int| deck_card(k))
}

impl Card {
    /// Rank of this card: ace is 1, king is 13.
    pub open spec fn rank(self) -> int {
        self.value.spec_number()
    }

    /// All 52 distinct cards, values grouped by suit.
    pub fn deck() -> (r: Vec<Card>)
        ensures
            r@ == spec_deck(),
    {
        let mut cards: Vec<Card> = Vec::new();
        let mut s: u8 = 0;
        while s < 4
            invariant
                s <= 4,
                cards@.len() == s * 13,
                forall|k: int| 0 <= k < cards@.len() ==> cards@[k] == deck_card(k),
            decreases 4 - s,
        {
            let suit = if s == 0 {
                Suit::Spades
            } else if s == 1 {
                Suit::Clubs
            } else if s == 2 {
                Suit::Diamonds
            } else {
                Suit::Hearts
            };
            let mut v: u8 = 0;
            while v < 13
                invariant
                    s < 4,
                    v <= 13,
                    suit == Suit::from_index(s as int),
                    cards@.len() == s * 13 + v,
                    forall|k: int| 0 <= k < cards@.len() ==> cards@[k] == deck_card(k),
                decreases 13 - v,
            {
                let value = if v == 0 {
                    Value::Ace
                } else if v == 1 {
                    Value::Two
                } else if v == 2 {
                    Value::Three
                } else if v == 3 {
                    Value::Four
                } else if v == 4 {
                    Value::Five
                } else if v == 5 {
                    Value::Six
                } else if v == 6 {
                    Value::Seven
                } else if v == 7 {
                    Value::Eight
                } else if v == 8 {
                    Value::Nine
                } else if v == 9 {
                    Value::Ten
                } else if v == 10 {
                    Value::Jack
                } else if v == 11 {
                    Value::Queen
                } else {
                    Value::King
                };
                proof {
                    let k = s * 13 + v;
                    assert(k / 13 == s as int && k % 13 == v as int) by (nonlinear_arith)
                        requires s < 4 && v < 13 && k == s * 13 + v;
                }
                cards.push(Card { suit, value });
                v = v + 1;
            }
            s = s + 1;
        }
        proof {
            assert(cards@ =~= spec_deck());
        }
        cards
    }
}

/// Distinct deck positions hold distinct cards, so the 52 cards are pairwise distinct.
pub proof fn lemma_deck_cards_distinct()
    ensures
        forall|i: int, j: int|
            0 <= i < 52 && 0 <= j < 52 && i != j ==> deck_card(i) != deck_card(j),
{
    assert forall|i: int, j: int|
        0 <= i < 52 && 0 <= j < 52 && i != j implies deck_card(i) != deck_card(j) by {
        if deck_card(i) == deck_card(j) {
            assert(Suit::from_index(i / 13) == Suit::from_index(j / 13));
            assert(Value::from_index(i % 13) == Value::from_index(j % 13));
            assert(i / 13 == j / 13);
            assert(i % 13 == j % 13);
            assert(i == j) by (nonlinear_arith)
                requires i / 13 == j / 13 && i % 13 == j % 13 && 0 <= i && 0 <= j;
        }
    }
}

} // verus!
