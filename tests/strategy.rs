use poker_odds::cards::Rank::{Ace, Eight, Four, King, Queen, Six, Three, Two};
use poker_odds::cards::Suit::{Club, Diamond, Heart, Spade};
use poker_odds::cards::{Card, Category, FullHand, Rank};
use poker_odds::classify::classify;
use poker_odds::deck::Deck;
use poker_odds::enumerate::{count_completions, enumerate};
use poker_odds::ratio::Ratio;
use poker_odds::strategy::{best_discard, expected_swap_values, rank, score};

fn dealt() -> FullHand {
    FullHand(
        Card(King, Heart),
        Card(Eight, Diamond),
        Card(Three, Diamond),
        Card(Four, Diamond),
        Card(Six, Diamond),
    )
}

fn greater(a: &Ratio, b: &Ratio) -> bool {
    (a.numer as u128) * (b.denom as u128) > (b.numer as u128) * (a.denom as u128)
}

#[test]
fn ratio_is_kept_in_lowest_terms() {
    assert_eq!(Ratio::new(4, 6), Ratio { numer: 2, denom: 3 });
    assert_eq!(Ratio::new(0, 5), Ratio { numer: 0, denom: 1 });
    assert_eq!(Ratio::new(7, 7), Ratio { numer: 1, denom: 1 });
    assert!(Ratio::new(1, 3).less_than(&Ratio::new(1, 2)));
    assert!(!Ratio::new(2, 4).less_than(&Ratio::new(1, 2)));
}

#[test]
fn keep_sets_come_by_size_then_position() {
    let hand = dealt();
    let deck = Deck::excluding(&hand);
    let values = expected_swap_values(&hand, &deck);
    assert_eq!(values.len(), 32);
    assert!(values[0].keep.is_empty());
    assert_eq!(values[1].keep, vec![hand.0]);
    assert_eq!(values[5].keep, vec![hand.4]);
    assert_eq!(values[6].keep, vec![hand.0, hand.1]);
    assert_eq!(values[15].keep, vec![hand.3, hand.4]);
    assert_eq!(values[31].keep, vec![hand.0, hand.1, hand.2, hand.3, hand.4]);
    // The hand itself scores nothing: King high.
    assert_eq!(values[31].score, Ratio::new(0, 1));
    // Keeping the four diamonds.
    assert_eq!(values[30].keep, vec![hand.1, hand.2, hand.3, hand.4]);
}

#[test]
fn best_discard_ranks_every_keep_set() {
    let hand = dealt();
    let deck = Deck::excluding(&hand);
    let d = best_discard(&hand, &deck);
    assert_eq!(d.ranked.len(), 32);
    assert_eq!(d.expected_score, Ratio::new(114, 47));
    assert_eq!(d.kept, d.ranked[0].keep);
    for i in 1..d.ranked.len() {
        assert!(!greater(&d.ranked[i].score, &d.ranked[i - 1].score));
    }
    let values = expected_swap_values(&hand, &deck);
    for v in &values {
        assert!(!greater(&v.score, &d.expected_score));
        assert!(d.ranked.iter().any(|a| a.keep == v.keep && a.score == v.score));
    }
}

#[test]
fn ranking_keeps_ties_in_order() {
    let scores = vec![Ratio::new(1, 2), Ratio::new(3, 4), Ratio::new(2, 4), Ratio::new(0, 1), Ratio::new(3, 4)];
    assert_eq!(rank(&scores), vec![1, 4, 0, 2, 3]);
    assert_eq!(rank(&vec![]), Vec::<usize>::new());
}

#[test]
fn full_keep_is_certain() {
    // A full house kept whole: probability exactly one.
    let hand = vec![Card(Ace, Club), Card(Ace, Heart), Card(Ace, Spade), Card(Two, Heart), Card(Two, Spade)];
    let deck = Deck::new();
    let result = enumerate(&hand, &deck);
    assert_eq!(result.len(), 1);
    assert_eq!(result[0].category, Category::FullHouse);
    assert_eq!(result[0].probability, Ratio::new(1, 1));
    assert_eq!(score(&hand, &deck), Ratio::new(15, 1));

    let nothing = vec![Card(Ace, Club), Card(Three, Heart), Card(Six, Spade), Card(Eight, Heart), Card(Queen, Spade)];
    assert!(enumerate(&nothing, &Deck::new()).is_empty());
    assert_eq!(score(&nothing, &Deck::new()), Ratio::new(0, 1));
}

#[test]
fn probabilities_and_no_category_sum_to_one() {
    let deck = Deck::new();
    let fixed = vec![Card(King, Spade), Card(Queen, Spade), Card(Two, Club)];
    let result = enumerate(&fixed, &deck);
    let tally = count_completions(&fixed, &deck);
    let mut num: u128 = 0;
    let mut den: u128 = 1;
    for p in &result {
        num = num * p.probability.denom as u128 + p.probability.numer as u128 * den;
        den *= p.probability.denom as u128;
    }
    let mut categorized: u64 = 0;
    for c in [
        Category::Pair,
        Category::TwoPair,
        Category::ThreeOfAKind,
        Category::Straight,
        Category::Flush,
        Category::FullHouse,
        Category::FourOfAKind,
        Category::StraightFlush,
        Category::RoyalFlush,
    ] {
        categorized += tally.count(c);
    }
    let none = (tally.enumerations - categorized) as u128;
    let total = tally.enumerations as u128;
    assert_eq!(num * total + none * den, den * total);
}

#[test]
fn full_deck_has_every_combination() {
    let tally = count_completions(&vec![], &Deck::new());
    assert_eq!(tally.enumerations, 2598960);
    assert_eq!(tally.royal_flushes, 4);
    assert_eq!(tally.straight_flushes, 36);
    assert_eq!(tally.four_of_a_kinds, 624);
}

fn category_index(c: Option<Category>) -> usize {
    match c {
        None => 0,
        Some(Category::Pair) => 1,
        Some(Category::TwoPair) => 2,
        Some(Category::ThreeOfAKind) => 3,
        Some(Category::Straight) => 4,
        Some(Category::Flush) => 5,
        Some(Category::FullHouse) => 6,
        Some(Category::FourOfAKind) => 7,
        Some(Category::StraightFlush) => 8,
        Some(Category::RoyalFlush) => 9,
    }
}

/// Every ordered draw, with repetition, of the missing cards; draws that repeat a card are
/// dropped. Returns the number of draws kept and how many fell in each category.
fn ordered_draws(hand: &mut Vec<Card>, deck: &[Card], counts: &mut [u64; 10], total: &mut u64) {
    if hand.len() == 5 {
        for i in 0..5 {
            for j in i + 1..5 {
                if hand[i] == hand[j] {
                    return;
                }
            }
        }
        *total += 1;
        counts[category_index(classify(hand))] += 1;
        return;
    }
    for c in deck {
        hand.push(*c);
        ordered_draws(hand, deck, counts, total);
        hand.pop();
    }
}

#[test]
fn ordered_draws_give_the_same_probabilities() {
    let suits = [Club, Diamond, Heart, Spade];
    let mut cards = vec![];
    for v in [1u8, 2, 3, 10, 11, 12, 13] {
        for s in suits {
            if (v as usize + s as usize) % 2 == 0 {
                cards.push(Card(Rank::from_number(v).unwrap(), s));
            }
        }
    }
    for fixed in [vec![], vec![Card(Ace, Heart)], vec![Card(Ace, Heart), Card(King, Heart)]] {
        let deck = Deck::from_cards(cards.clone());
        let mut counts = [0u64; 10];
        let mut total = 0u64;
        ordered_draws(&mut fixed.clone(), &cards, &mut counts, &mut total);
        let result = enumerate(&fixed, &deck);
        let mut seen = 0;
        for p in &result {
            let n = counts[category_index(Some(p.category))];
            assert_eq!(p.probability, Ratio::new(n, total));
            seen += 1;
        }
        let nonzero = counts[1..].iter().filter(|&&n| n != 0).count();
        assert_eq!(seen, nonzero);
    }
}

#[test]
fn copies_in_a_deck_never_meet_in_one_hand() {
    let hand = vec![Card(Ace, Heart), Card(Two, Heart), Card(Three, Heart)];
    let deck = Deck::from_cards(vec![Card(Six, Club), Card(Six, Club), Card(Eight, Diamond)]);
    let tally = count_completions(&hand, &deck);
    assert_eq!(tally.enumerations, 2);
    assert_eq!(enumerate(&hand, &deck), vec![]);
}

#[test]
fn partial_score_times_points() {
    let p = poker_odds::tally::PartialScore { category: Category::Flush, probability: Ratio::new(3, 47) };
    assert_eq!(p.score(), Ratio::new(30, 47));
    let q = poker_odds::tally::PartialScore { category: Category::Pair, probability: Ratio::new(1, 4) };
    assert_eq!(q.score(), Ratio::new(1, 2));
}
