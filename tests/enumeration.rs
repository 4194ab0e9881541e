use poker_odds::cards::Rank::{Ace, Eight, Five, Four, Jack, King, Nine, Queen, Seven, Six, Ten, Three, Two};
use poker_odds::cards::Suit::{Club, Diamond, Heart, Spade};
use poker_odds::cards::{Card, Category, FullHand};
use poker_odds::deck::Deck;
use poker_odds::enumerate::{count_completions, enumerate};
use poker_odds::ratio::Ratio;
use poker_odds::strategy::{best_discard, best_score, expected_swap_values, score};
use poker_odds::tally::PartialScore;

fn ps(category: Category, n: u64, d: u64) -> PartialScore {
    PartialScore { category, probability: Ratio::new(n, d) }
}

#[test]
fn main_test_pair() {
    let hand = vec![Card(Ace, Heart), Card(Two, Heart), Card(Three, Heart), Card(Four, Diamond)];

    let deck1 = Deck::from_cards(vec![Card(Ace, Diamond)]);
    let result = enumerate(&hand, &deck1);
    assert_eq!(result.len(), 1);
    assert_eq!(result[0], ps(Category::Pair, 1, 1));

    let deck2 = Deck::from_cards(vec![Card(Ace, Diamond), Card(King, Diamond)]);
    let result = enumerate(&hand, &deck2);
    assert_eq!(result, vec![ps(Category::Pair, 1, 2)]);
}

#[test]
fn main_test_three_of_a_kind() {
    let hand = vec![Card(Ace, Heart), Card(Ace, Diamond), Card(Three, Heart), Card(Four, Diamond)];
    let deck = Deck::from_cards(vec![Card(Ace, Spade)]);

    let result = enumerate(&hand, &deck);
    assert_eq!(result.len(), 1);
    assert_eq!(result[0], ps(Category::ThreeOfAKind, 1, 1));
}

#[test]
fn main_test_full_house() {
    let hand = vec![Card(Ace, Heart), Card(Ace, Diamond), Card(Three, Heart), Card(Three, Diamond)];
    let deck = Deck::from_cards(vec![Card(Four, Diamond), Card(Three, Spade), Card(Ace, Spade)]);

    let result = enumerate(&hand, &deck);
    assert_eq!(result, vec![ps(Category::FullHouse, 2, 3), ps(Category::TwoPair, 1, 3)]);
}

#[test]
fn main_test_two_pair() {
    let hand = vec![Card(Ace, Heart), Card(Ace, Diamond), Card(Three, Heart)];
    let deck = Deck::from_cards(vec![Card(Five, Diamond), Card(Three, Spade), Card(Ace, Spade)]);

    let result = enumerate(&hand, &deck);
    assert_eq!(
        result,
        vec![
            ps(Category::FullHouse, 1, 3),
            ps(Category::ThreeOfAKind, 1, 3),
            ps(Category::TwoPair, 1, 3),
        ]
    );
}

#[test]
fn test_three_swaps() {
    let hand = vec![Card(Ace, Heart), Card(Ace, Diamond)];
    let deck = Deck::from_cards(vec![Card(Four, Diamond), Card(Three, Spade), Card(Ace, Spade)]);

    let result = enumerate(&hand, &deck);
    assert_eq!(result.len(), 1);
    assert_eq!(result[0], ps(Category::ThreeOfAKind, 1, 1));
}

#[test]
fn test_four_swaps() {
    let hand = vec![Card(Ace, Heart)];
    let deck = Deck::from_cards(vec![
        Card(Ace, Diamond),
        Card(Four, Diamond),
        Card(Three, Spade),
        Card(Ace, Spade),
    ]);

    let result = enumerate(&hand, &deck);
    assert_eq!(result, vec![ps(Category::ThreeOfAKind, 1, 1)]);
}

#[test]
fn test_flush_four() {
    let hand = vec![Card(Ace, Heart)];
    let deck = Deck::from_cards(vec![
        Card(Three, Heart),
        Card(Four, Heart),
        Card(Five, Heart),
        Card(Six, Heart),
        Card(Seven, Heart),
        Card(Eight, Heart),
        Card(Nine, Heart),
        Card(Ten, Heart),
        Card(Jack, Heart),
        Card(Queen, Heart),
        Card(King, Heart),
    ]);

    let result = enumerate(&hand, &deck);
    assert_eq!(result, vec![ps(Category::RoyalFlush, 1, 330), ps(Category::Flush, 329, 330)]);
}

#[test]
fn test_dump() {
    let deck = Deck::new();
    let hand = vec![];

    let result = enumerate(&hand, &deck);
    assert_eq!(
        result,
        vec![
            ps(Category::RoyalFlush, 1, 649740),
            ps(Category::StraightFlush, 3, 216580),
            ps(Category::FourOfAKind, 1, 4165),
            ps(Category::FullHouse, 6, 4165),
            ps(Category::Flush, 1277, 649740),
            ps(Category::Straight, 5, 1274),
            ps(Category::ThreeOfAKind, 88, 4165),
            ps(Category::TwoPair, 198, 4165),
            ps(Category::Pair, 352, 833),
        ]
    );
}

fn dealt() -> FullHand {
    FullHand(
        Card(King, Heart),
        Card(Eight, Diamond),
        Card(Three, Diamond),
        Card(Four, Diamond),
        Card(Six, Diamond),
    )
}

#[test]
fn test_score() {
    let full_hand = dealt();
    let deck = Deck::excluding(&full_hand);

    let result = score(&vec![full_hand.0, full_hand.1, full_hand.2, full_hand.3], &deck);
    assert_eq!(result, Ratio::new(24, 47));
}

#[test]
fn test_best_score() {
    let full_hand = dealt();
    let deck = Deck::excluding(&full_hand);

    let result = best_score(&full_hand, &deck);
    assert_eq!(result, Ratio::new(114, 47));
}
