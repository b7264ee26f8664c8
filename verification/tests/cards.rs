use solitaire::card::{Card, Suit, Value};
use solitaire::deck::Deck;

#[test]
fn value_numbers_run_one_to_thirteen() {
    assert_eq!(Value::Ace.as_number(), 1);
    assert_eq!(Value::Two.as_number(), 2);
    assert_eq!(Value::Ten.as_number(), 10);
    assert_eq!(Value::Jack.as_number(), 11);
    assert_eq!(Value::Queen.as_number(), 12);
    assert_eq!(Value::King.as_number(), 13);
}

#[test]
fn suit_letters_and_colors() {
    assert_eq!(Suit::Spades.letter(), 'S');
    assert_eq!(Suit::Clubs.letter(), 'C');
    assert_eq!(Suit::Diamonds.letter(), 'D');
    assert_eq!(Suit::Hearts.letter(), 'H');
    assert!(!Suit::Spades.is_red());
    assert!(!Suit::Clubs.is_red());
    assert!(Suit::Diamonds.is_red());
    assert!(Suit::Hearts.is_red());
}

#[test]
fn value_letters() {
    assert_eq!(Value::Ace.letter(), 'A');
    assert_eq!(Value::Ten.letter(), 'T');
    assert_eq!(Value::Nine.letter(), '9');
    assert_eq!(Value::King.letter(), 'K');
}

#[test]
fn deck_has_52_distinct_cards() {
    let deck = Card::deck();
    assert_eq!(deck.len(), 52);
    for i in 0..deck.len() {
        for j in 0..i {
            assert_ne!(deck[i], deck[j]);
        }
    }
    assert_eq!(deck[0], Card { suit: Suit::Spades, value: Value::Ace });
    assert_eq!(deck[13], Card { suit: Suit::Clubs, value: Value::Ace });
    assert_eq!(deck[51], Card { suit: Suit::Hearts, value: Value::King });
}

#[test]
fn shuffled_deck_is_a_permutation() {
    let mut shuffled = Deck::shuffled();
    let mut drawn: Vec<Card> = Vec::new();
    while let Some(card) = shuffled.draw() {
        drawn.push(card);
    }
    assert_eq!(drawn.len(), 52);
    // every card of the ordered deck appears exactly once
    for card in Card::deck() {
        let count = drawn.iter().filter(|c| **c == card).count();
        assert_eq!(count, 1);
    }
}

#[test]
fn draw_past_the_end_returns_none() {
    let mut deck = Deck::shuffled();
    for _ in 0..52 {
        assert!(deck.draw().is_some());
    }
    assert!(deck.draw().is_none());
    assert!(deck.draw().is_none());
}
