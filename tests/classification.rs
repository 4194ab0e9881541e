use poker_odds::cards::Rank::{Ace, Four, Three, Two};
use poker_odds::cards::Suit::{Club, Diamond, Heart, Spade};
use poker_odds::cards::{Card, Category, FullHand, Rank, Suit};
use poker_odds::classify::classify;

fn card(rank: u8, suit: Suit) -> Card {
    Card(Rank::from_number(rank).unwrap(), suit)
}

fn cards_of(hand: &FullHand) -> [Card; 5] {
    [hand.0, hand.1, hand.2, hand.3, hand.4]
}

/// Five cards of the given suits whose ranks start at `low` and step by the given offsets,
/// wrapping from King back to Ace.
fn hand_from(low: u8, offsets: [u8; 5], suits: [Suit; 5]) -> [Card; 5] {
    let mut cards = [Card(Ace, Club); 5];
    for i in 0..5 {
        cards[i] = card((low - 1 + offsets[i]) % 13 + 1, suits[i]);
    }
    cards
}

const ALL_SUITS: [Suit; 4] = [Club, Diamond, Heart, Spade];

#[test]
fn test_test_pair() {
    let full_hand = FullHand(
        Card(Ace, Club),
        Card(Ace, Heart),
        Card(Two, Heart),
        Card(Three, Heart),
        Card(Four, Heart),
    );
    assert_eq!(classify(&cards_of(&full_hand)), Some(Category::Pair));
}

#[test]
fn test_test_two_pair() {
    let full_hand = FullHand(
        Card(Ace, Club),
        Card(Ace, Heart),
        Card(Three, Spade),
        Card(Three, Heart),
        Card(Four, Heart),
    );
    assert_eq!(classify(&cards_of(&full_hand)), Some(Category::TwoPair));
}

#[test]
fn test_test_three_of_a_kind() {
    let full_hand = FullHand(
        Card(Ace, Club),
        Card(Ace, Heart),
        Card(Ace, Spade),
        Card(Three, Heart),
        Card(Four, Heart),
    );
    assert_eq!(classify(&cards_of(&full_hand)), Some(Category::ThreeOfAKind));
}

#[test]
fn test_straight() {
    // Five consecutive ranks from each low rank up to Ten (Ten to Ace wraps to the Ace), the
    // first two cards a club and a heart, the other three of every suit.
    for low in 1..=10u8 {
        for s3 in ALL_SUITS {
            for s4 in ALL_SUITS {
                for s5 in ALL_SUITS {
                    let hand = hand_from(low, [0, 1, 2, 3, 4], [Club, Heart, s3, s4, s5]);
                    assert_eq!(classify(&hand), Some(Category::Straight), "{:?}", hand);
                }
            }
        }
    }
}

#[test]
fn test_flush() {
    for suit in ALL_SUITS {
        for low in 1..=13u8 {
            let hand = hand_from(low, [0, 1, 2, 3, 5], [suit; 5]);
            assert_eq!(classify(&hand), Some(Category::Flush), "{:?}", hand);
        }
    }
}

#[test]
fn test_test_full_house() {
    let full_hand = FullHand(
        Card(Ace, Club),
        Card(Ace, Heart),
        Card(Ace, Spade),
        Card(Three, Heart),
        Card(Three, Spade),
    );
    assert_eq!(classify(&cards_of(&full_hand)), Some(Category::FullHouse));
}

#[test]
fn test_four_of_a_kind() {
    let full_hand = FullHand(
        Card(Ace, Club),
        Card(Ace, Heart),
        Card(Ace, Spade),
        Card(Ace, Diamond),
        Card(Four, Heart),
    );
    assert_eq!(classify(&cards_of(&full_hand)), Some(Category::FourOfAKind));
}

#[test]
fn test_straight_flush() {
    for low in 1..=9u8 {
        for suit in [Club, Heart, Spade, Diamond] {
            let hand = hand_from(low, [0, 1, 2, 3, 4], [suit; 5]);
            assert_eq!(classify(&hand), Some(Category::StraightFlush), "{:?}", hand);
        }
    }
}

#[test]
fn test_royal_flush() {
    for suit in [Club, Diamond, Heart, Spade] {
        let hand = hand_from(10, [0, 1, 2, 3, 4], [suit; 5]);
        assert_eq!(classify(&hand), Some(Category::RoyalFlush));
    }
}

#[test]
fn no_category_for_high_card() {
    let hand = [card(1, Club), card(3, Heart), card(6, Spade), card(9, Diamond), card(12, Club)];
    assert_eq!(classify(&hand), None);
}

#[test]
fn wrap_around_is_no_straight() {
    let hand = [card(11, Club), card(12, Heart), card(13, Spade), card(1, Diamond), card(2, Club)];
    assert_eq!(classify(&hand), None);
}

#[test]
fn ace_low_straight() {
    let hand = [card(5, Club), card(4, Heart), card(3, Spade), card(2, Diamond), card(1, Club)];
    assert_eq!(classify(&hand), Some(Category::Straight));
}

#[test]
fn rank_numbers_are_validated() {
    assert!(Rank::from_number(0).is_err());
    assert!(Rank::from_number(14).is_err());
    assert_eq!(Rank::from_number(1), Ok(Ace));
    assert_eq!(Rank::from_number(13), Ok(Rank::King));
    assert_eq!(Rank::King.value(), 13);
}

#[test]
fn category_points() {
    let expected = [
        (Category::Pair, 2),
        (Category::TwoPair, 3),
        (Category::ThreeOfAKind, 4),
        (Category::Straight, 8),
        (Category::Flush, 10),
        (Category::FullHouse, 15),
        (Category::FourOfAKind, 50),
        (Category::StraightFlush, 100),
        (Category::RoyalFlush, 500),
    ];
    for (category, points) in expected {
        assert_eq!(category.points(), points);
    }
}
