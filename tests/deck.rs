use poker_odds::cards::Rank::{Ace, Eight, Four, King, Six, Three, Two};
use poker_odds::cards::Suit::{Club, Diamond, Heart, Spade};
use poker_odds::cards::{Card, FullHand};
use poker_odds::deck::Deck;

#[test]
fn fresh_deck_counts() {
    let deck = Deck::new();
    assert_eq!(deck.size(), 52);
    assert_eq!(deck.cards()[0], Card(Ace, Club));
    assert_eq!(deck.cards()[51], Card(King, Spade));
    for s in [Club, Diamond, Heart, Spade] {
        assert_eq!(deck.suit_count(s), 13);
    }
    assert_eq!(deck.rank_count(Ace), 4);
    assert_eq!(deck.rank_count(King), 4);
}

#[test]
fn take_card_swaps_in_the_last() {
    let deck = Deck::from_cards(vec![Card(Ace, Club), Card(Two, Heart), Card(Three, Spade), Card(Four, Diamond)]);
    let deck = deck.take_card(&Card(Two, Heart));
    assert_eq!(deck.cards(), &vec![Card(Ace, Club), Card(Four, Diamond), Card(Three, Spade)]);
    assert_eq!(deck.suit_count(Heart), 0);
    assert_eq!(deck.rank_count(Two), 0);
    assert_eq!(deck.suit_count(Diamond), 1);
}

#[test]
fn deck_excluding_a_hand() {
    let hand = FullHand(
        Card(King, Heart),
        Card(Eight, Diamond),
        Card(Three, Diamond),
        Card(Four, Diamond),
        Card(Six, Diamond),
    );
    let deck = Deck::excluding(&hand);
    assert_eq!(deck.size(), 47);
    for c in [hand.0, hand.1, hand.2, hand.3, hand.4] {
        assert!(!deck.cards().contains(&c));
    }
    assert_eq!(deck.suit_count(Diamond), 9);
    assert_eq!(deck.suit_count(Heart), 12);
    assert_eq!(deck.rank_count(Eight), 3);
    assert_eq!(deck.rank_count(Ace), 4);
}

#[test]
fn counters_from_a_list_with_copies() {
    let deck = Deck::from_cards(vec![Card(Ace, Club), Card(Ace, Club), Card(Two, Club)]);
    assert_eq!(deck.size(), 3);
    assert_eq!(deck.suit_count(Club), 3);
    assert_eq!(deck.rank_count(Ace), 2);
}

#[test]
fn card_positions_in_a_fresh_deck() {
    let deck = Deck::new();
    for (i, c) in deck.cards().iter().enumerate() {
        assert_eq!(c.index(), i);
    }
    assert_eq!(Card(Ace, Diamond).index(), 13);
    assert_eq!(Card(King, Spade).index(), 51);
}
