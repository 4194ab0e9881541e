//! Classification of a five-card hand into its scoring category.
//!
//! Classification has two phases. The multiplicity phase looks at how often
//! each rank occurs; if any rank is repeated it decides alone. Only a hand
//! of five distinct ranks reaches the structural phase, which looks for a
//! flush and for five consecutive ranks.

use vstd::prelude::*;
use crate::cards::{Card, Category, Suit};

verus! {

/// The number of cards in `s` that satisfy `p`.
pub open spec fn count_where(s: Seq<Card>, p: spec_fn(Card) -> bool) -> nat
    decreases s.len(),
{
    if s.len() == 0 {
        0
    } else {
        count_where(s.drop_last(), p) + if p(s.last()) { 1nat } else { 0nat }
    }
}

/// The number of cards in `s` whose rank has value `r`.
pub open spec fn rank_count(s: Seq<Card>, r: nat) -> nat {
    count_where(s, |c: Card| c.rank_spec() == r)
}

/// The rank histogram of a hand: bucket `i` holds the number of cards of rank `i + 1`.
pub open spec fn histogram(hand: Seq<Card>) -> Seq<nat> {
    Seq::new(13, |i: int| rank_count(hand, (i + 1) as nat))
}

/// The number of buckets of `h` that hold exactly `m`.
pub open spec fn buckets_equal(h: Seq<nat>, m: nat) -> nat
    decreases h.len(),
{
    if h.len() == 0 {
        0
    } else {
        buckets_equal(h.drop_last(), m) + if h.last() == m { 1nat } else { 0nat }
    }
}

/// The number of buckets of `h` that hold `m` or more.
pub open spec fn buckets_at_least(h: Seq<nat>, m: nat) -> nat
    decreases h.len(),
{
    if h.len() == 0 {
        0
    } else {
        buckets_at_least(h.drop_last(), m) + if h.last() >= m { 1nat } else { 0nat }
    }
}

/// The category that the rank multiplicities alone decide, if any rank is repeated.
pub open spec fn multiplicity_category(hand: Seq<Card>) -> Option<Category> {
    let h = histogram(hand);
    if buckets_at_least(h, 4) > 0 {
        Some(Category::FourOfAKind)
    } else if buckets_equal(h, 3) > 0 && buckets_equal(h, 2) > 0 {
        Some(Category::FullHouse)
    } else if buckets_equal(h, 3) > 0 {
        Some(Category::ThreeOfAKind)
    } else if buckets_equal(h, 2) >= 2 {
        Some(Category::TwoPair)
    } else if buckets_equal(h, 2) == 1 {
        Some(Category::Pair)
    } else {
        None
    }
}

/// Every card of the hand has the suit of its first card.
pub open spec fn is_flush(hand: Seq<Card>) -> bool {
    forall|i: int| 0 <= i < hand.len() ==> #[trigger] hand[i].1 == hand[0].1
}

/// Each of the five ranks `low, low + 1, ..., low + 4` occurs exactly once.
pub open spec fn straight_from(hand: Seq<Card>, low: nat) -> bool {
    forall|r: nat| low <= r < low + 5 ==> #[trigger] rank_count(hand, r) == 1
}

/// Ten, Jack, Queen, King and Ace each occur exactly once: the ace-high straight.
pub open spec fn is_broadway(hand: Seq<Card>) -> bool {
    &&& rank_count(hand, 1) == 1
    &&& rank_count(hand, 10) == 1
    &&& rank_count(hand, 11) == 1
    &&& rank_count(hand, 12) == 1
    &&& rank_count(hand, 13) == 1
}

/// Five consecutive ranks each occur once, the Ace counting low (below Two) or high (above King).
pub open spec fn is_straight(hand: Seq<Card>) -> bool {
    is_broadway(hand) || exists|low: nat| 1 <= low <= 9 && #[trigger] straight_from(hand, low)
}

/// The category that suits and consecutive ranks decide, for a hand without repeated ranks.
pub open spec fn structural_category(hand: Seq<Card>) -> Option<Category> {
    if is_flush(hand) && is_broadway(hand) {
        Some(Category::RoyalFlush)
    } else if is_flush(hand) && is_straight(hand) {
        Some(Category::StraightFlush)
    } else if is_straight(hand) {
        Some(Category::Straight)
    } else if is_flush(hand) {
        Some(Category::Flush)
    } else {
        None
    }
}

/// The category of a five-card hand: the multiplicity phase first, the structural phase
/// only where no rank is repeated.
pub open spec fn category_of(hand: Seq<Card>) -> Option<Category> {
    match multiplicity_category(hand) {
        Some(c) => Some(c),
        None => structural_category(hand),
    }
}

/// The categories that a repeated rank decides.
pub open spec fn is_multiplicity(c: Category) -> bool {
    c == Category::Pair || c == Category::TwoPair || c == Category::ThreeOfAKind
        || c == Category::FullHouse || c == Category::FourOfAKind
}

/// Some rank occurs twice or more.
pub open spec fn has_repeated_rank(hand: Seq<Card>) -> bool {
    exists|r: nat| 1 <= r <= 13 && #[trigger] rank_count(hand, r) >= 2
}

pub proof fn lemma_count_where_step(s: Seq<Card>, i: int, p: spec_fn(Card) -> bool)
    requires
        0 <= i < s.len(),
    ensures
        count_where(s.take(i + 1), p) == count_where(s.take(i), p) + if p(s[i]) { 1nat } else { 0nat },
{
    assert(s.take(i + 1).drop_last() =~= s.take(i));
}

proof fn lemma_buckets_step(h: Seq<nat>, j: int, m: nat)
    requires
        0 <= j < h.len(),
    ensures
        buckets_equal(h.take(j + 1), m) == buckets_equal(h.take(j), m) + if h[j] == m { 1nat } else { 0nat },
        buckets_at_least(h.take(j + 1), m) == buckets_at_least(h.take(j), m) + if h[j] >= m { 1nat } else { 0nat },
{
    assert(h.take(j + 1).drop_last() =~= h.take(j));
}

/// Buckets holding two or more split into those holding two, three, and four or more.
proof fn lemma_buckets_split(h: Seq<nat>)
    ensures
        buckets_at_least(h, 2) == buckets_equal(h, 2) + buckets_equal(h, 3) + buckets_at_least(h, 4),
        buckets_at_least(h, 3) == buckets_equal(h, 3) + buckets_at_least(h, 4),
    decreases h.len(),
{
    if h.len() > 0 {
        lemma_buckets_split(h.drop_last());
    }
}

/// Some bucket holds `m` or more exactly when the count of such buckets is positive.
proof fn lemma_buckets_at_least_exists(h: Seq<nat>, m: nat)
    ensures
        buckets_at_least(h, m) > 0 <==> exists|j: int| 0 <= j < h.len() && #[trigger] h[j] >= m,
    decreases h.len(),
{
    if h.len() > 0 {
        lemma_buckets_at_least_exists(h.drop_last(), m);
        if buckets_at_least(h.drop_last(), m) > 0 {
            let j = choose|j: int| 0 <= j < h.drop_last().len() && #[trigger] h.drop_last()[j] >= m;
            assert(h[j] >= m);
        }
        if exists|j: int| 0 <= j < h.len() && #[trigger] h[j] >= m {
            let j = choose|j: int| 0 <= j < h.len() && #[trigger] h[j] >= m;
            if j < h.len() - 1 {
                assert(h.drop_last()[j] >= m);
            }
        }
    }
}

proof fn lemma_repeated_rank_buckets(hand: Seq<Card>)
    ensures
        has_repeated_rank(hand) <==> buckets_at_least(histogram(hand), 2) > 0,
{
    let h = histogram(hand);
    lemma_buckets_at_least_exists(h, 2);
    if has_repeated_rank(hand) {
        let r = choose|r: nat| 1 <= r <= 13 && #[trigger] rank_count(hand, r) >= 2;
        assert(h[r - 1] >= 2);
    }
    if buckets_at_least(h, 2) > 0 {
        let j = choose|j: int| 0 <= j < h.len() && #[trigger] h[j] >= 2;
        assert(rank_count(hand, (j + 1) as nat) >= 2);
    }
}

/// Every hand of five cards gets exactly one of the nine categories or none. A repeated rank
/// always yields a multiplicity category, and a hand without one never does: the two phases
/// never both apply.
pub proof fn lemma_phases_exclusive(hand: Seq<Card>)
    requires
        hand.len() == 5,
    ensures
        has_repeated_rank(hand) ==> category_of(hand) is Some && is_multiplicity(
            category_of(hand)->Some_0,
        ),
        !has_repeated_rank(hand) ==> category_of(hand) == structural_category(hand),
        !has_repeated_rank(hand) && category_of(hand) is Some ==> !is_multiplicity(
            category_of(hand)->Some_0,
        ),
{
    lemma_repeated_rank_buckets(hand);
    lemma_buckets_split(histogram(hand));
}

/// What the rank histogram decides: one rank twice and no other repeat is a Pair; two ranks
/// twice each is a TwoPair; one rank three times and no other repeat is a ThreeOfAKind; one rank
/// three times and another twice is a FullHouse; one rank four times is a FourOfAKind.
pub proof fn lemma_histogram_categories(hand: Seq<Card>)
    requires
        hand.len() == 5,
    ensures
        ({
            let h = histogram(hand);
            &&& buckets_equal(h, 2) == 1 && buckets_at_least(h, 3) == 0 ==> category_of(hand)
                == Some(Category::Pair)
            &&& buckets_equal(h, 2) == 2 && buckets_at_least(h, 3) == 0 ==> category_of(hand)
                == Some(Category::TwoPair)
            &&& buckets_equal(h, 3) == 1 && buckets_equal(h, 2) == 0 && buckets_at_least(h, 4)
                == 0 ==> category_of(hand) == Some(Category::ThreeOfAKind)
            &&& buckets_equal(h, 3) == 1 && buckets_equal(h, 2) == 1 ==> category_of(hand)
                == Some(Category::FullHouse)
            &&& buckets_equal(h, 4) == 1 ==> category_of(hand) == Some(Category::FourOfAKind)
        }),
{
    let h = histogram(hand);
    lemma_buckets_split(h);
    lemma_four_counted(h);
    lemma_histogram_sum(hand);
    lemma_sum_bounds(h);
}

/// The sum of the buckets of `h`.
pub open spec fn bucket_sum(h: Seq<nat>) -> nat
    decreases h.len(),
{
    if h.len() == 0 {
        0
    } else {
        bucket_sum(h.drop_last()) + h.last()
    }
}

/// Buckets holding two, three, and four or more add at least that much to the sum.
proof fn lemma_sum_bounds(h: Seq<nat>)
    ensures
        bucket_sum(h) >= 2 * buckets_equal(h, 2) + 3 * buckets_equal(h, 3) + 4 * buckets_at_least(h, 4),
    decreases h.len(),
{
    if h.len() > 0 {
        lemma_sum_bounds(h.drop_last());
    }
}

/// Raising one bucket by one raises the sum by one.
proof fn lemma_sum_increment(h: Seq<nat>, j: int)
    requires
        0 <= j < h.len(),
    ensures
        bucket_sum(h.update(j, h[j] + 1)) == bucket_sum(h) + 1,
    decreases h.len(),
{
    let g = h.update(j, h[j] + 1);
    if j == h.len() - 1 {
        assert(g.drop_last() =~= h.drop_last());
    } else {
        assert(g.drop_last() =~= h.drop_last().update(j, h[j] + 1));
        lemma_sum_increment(h.drop_last(), j);
    }
}

/// The buckets of the histogram add up to the number of cards.
proof fn lemma_histogram_sum(hand: Seq<Card>)
    ensures
        bucket_sum(histogram(hand)) == hand.len(),
    decreases hand.len(),
{
    if hand.len() == 0 {
        let h = histogram(hand);
        assert forall|j: int| 0 <= j < 13 implies #[trigger] h[j] == 0 by {}
        assert(bucket_sum(h) == 0) by {
            reveal_with_fuel(bucket_sum, 14);
        }
    } else {
        let rest = hand.drop_last();
        lemma_histogram_sum(rest);
        let j = hand.last().rank_spec() - 1;
        assert(histogram(hand) =~= histogram(rest).update(j, histogram(rest)[j] + 1));
        lemma_sum_increment(histogram(rest), j);
    }
}

/// A bucket holding exactly four is among those holding four or more.
proof fn lemma_four_counted(h: Seq<nat>)
    ensures
        buckets_equal(h, 4) <= buckets_at_least(h, 4),
    decreases h.len(),
{
    if h.len() > 0 {
        lemma_four_counted(h.drop_last());
    }
}

/// Whether all five cards share a suit.
fn flush(hand: &[Card]) -> (r: bool)
    requires
        hand@.len() == 5,
    ensures
        r == is_flush(hand@),
{
    let suit: Suit = hand[0].suit();
    let mut i: usize = 1;
    while i < 5
        invariant
            1 <= i <= 5,
            hand@.len() == 5,
            suit == hand@[0].1,
            forall|j: int| 0 <= j < i ==> #[trigger] hand@[j].1 == suit,
        decreases 5 - i,
    {
        if hand[i].suit() != suit {
            return false;
        }
        i += 1;
    }
    true
}

/// The rank histogram of a hand, as thirteen buckets.
fn rank_histogram(hand: &[Card]) -> (counts: Vec<u8>)
    requires
        hand@.len() == 5,
    ensures
        counts@.len() == 13,
        forall|j: int| 0 <= j < 13 ==> #[trigger] counts@[j] as nat == histogram(hand@)[j],
{
    let mut counts: Vec<u8> = vec![0u8; 13];
    let mut i: usize = 0;
    while i < 5
        invariant
            0 <= i <= 5,
            hand@.len() == 5,
            counts@.len() == 13,
            forall|j: int| 0 <= j < 13 ==> #[trigger] counts@[j] as nat == rank_count(hand@.take(i as int), (j + 1) as nat),
            forall|j: int| 0 <= j < 13 ==> #[trigger] counts@[j] <= i,
        decreases 5 - i,
    {
        let r = hand[i].rank();
        proof {
            assert forall|j: int| 0 <= j < 13 implies #[trigger] rank_count(hand@.take(i + 1), (j + 1) as nat)
                == rank_count(hand@.take(i as int), (j + 1) as nat) + if hand@[i as int].rank_spec() == j + 1 { 1nat } else { 0nat } by {
                lemma_count_where_step(hand@, i as int, |c: Card| c.rank_spec() == (j + 1) as nat);
            }
        }
        counts[r - 1] = counts[r - 1] + 1;
        i += 1;
    }
    assert(hand@.take(5) =~= hand@);
    counts
}

/// The multiplicity phase: the category that repeated ranks decide, if any.
fn pair_plus(hand: &[Card], counts: &Vec<u8>) -> (r: Option<Category>)
    requires
        counts@.len() == 13,
        forall|j: int| 0 <= j < 13 ==> #[trigger] counts@[j] as nat == histogram(hand@)[j],
    ensures
        r == multiplicity_category(hand@),
{
    let ghost h = histogram(hand@);
    let mut pairs: u8 = 0;
    let mut triples: u8 = 0;
    let mut fours: u8 = 0;
    let mut j: usize = 0;
    while j < 13
        invariant
            0 <= j <= 13,
            counts@.len() == 13,
            h.len() == 13,
            forall|i: int| 0 <= i < 13 ==> #[trigger] counts@[i] as nat == h[i],
            pairs as nat == buckets_equal(h.take(j as int), 2),
            triples as nat == buckets_equal(h.take(j as int), 3),
            fours as nat == buckets_at_least(h.take(j as int), 4),
            pairs <= j && triples <= j && fours <= j,
        decreases 13 - j,
    {
        proof {
            lemma_buckets_step(h, j as int, 2);
            lemma_buckets_step(h, j as int, 3);
            lemma_buckets_step(h, j as int, 4);
        }
        let c = counts[j];
        if c == 2 {
            pairs += 1;
        } else if c == 3 {
            triples += 1;
        } else if c >= 4 {
            fours += 1;
        }
        j += 1;
    }
    assert(h.take(13) =~= h);
    if fours > 0 {
        Some(Category::FourOfAKind)
    } else if triples > 0 && pairs > 0 {
        Some(Category::FullHouse)
    } else if triples > 0 {
        Some(Category::ThreeOfAKind)
    } else if pairs >= 2 {
        Some(Category::TwoPair)
    } else if pairs == 1 {
        Some(Category::Pair)
    } else {
        None
    }
}

/// Whether the five ranks `low..low + 5` each occur once.
fn window_of_singles(hand: &[Card], counts: &Vec<u8>, low: usize) -> (r: bool)
    requires
        1 <= low <= 9,
        counts@.len() == 13,
        forall|j: int| 0 <= j < 13 ==> #[trigger] counts@[j] as nat == histogram(hand@)[j],
    ensures
        r == straight_from(hand@, low as nat),
{
    let ghost h = histogram(hand@);
    let r = counts[low - 1] == 1 && counts[low] == 1 && counts[low + 1] == 1 && counts[low + 2] == 1
        && counts[low + 3] == 1;
    proof {
        assert(counts@[low - 1] as nat == h[low - 1]);
        assert(counts@[low as int] as nat == h[low as int]);
        assert(counts@[low + 1] as nat == h[low + 1]);
        assert(counts@[low + 2] as nat == h[low + 2]);
        assert(counts@[low + 3] as nat == h[low + 3]);
        if r {
            assert forall|q: nat| low <= q < low + 5 implies #[trigger] rank_count(hand@, q) == 1 by {
                assert(h[q - 1] == rank_count(hand@, q));
            }
        } else {
            if straight_from(hand@, low as nat) {
                assert(rank_count(hand@, low as nat) == 1);
                assert(rank_count(hand@, (low + 1) as nat) == 1);
                assert(rank_count(hand@, (low + 2) as nat) == 1);
                assert(rank_count(hand@, (low + 3) as nat) == 1);
                assert(rank_count(hand@, (low + 4) as nat) == 1);
            }
        }
    }
    r
}

/// The structural phase, for a hand without repeated ranks: flushes and straights.
fn straight(hand: &[Card], counts: &Vec<u8>, is_flush_hand: bool) -> (r: Option<Category>)
    requires
        counts@.len() == 13,
        forall|j: int| 0 <= j < 13 ==> #[trigger] counts@[j] as nat == histogram(hand@)[j],
        is_flush_hand == is_flush(hand@),
    ensures
        r == structural_category(hand@),
{
    let ghost h = histogram(hand@);
    proof {
        assert(counts@[0] as nat == h[0]);
        assert(counts@[9] as nat == h[9]);
        assert(counts@[10] as nat == h[10]);
        assert(counts@[11] as nat == h[11]);
        assert(counts@[12] as nat == h[12]);
    }
    if counts[0] == 1 && counts[9] == 1 && counts[10] == 1 && counts[11] == 1 && counts[12] == 1 {
        assert(is_broadway(hand@));
        return if is_flush_hand {
            Some(Category::RoyalFlush)
        } else {
            Some(Category::Straight)
        };
    }
    assert(!is_broadway(hand@));
    let mut low: usize = 9;
    while low >= 1
        invariant
            0 <= low <= 9,
            counts@.len() == 13,
            forall|j: int| 0 <= j < 13 ==> #[trigger] counts@[j] as nat == histogram(hand@)[j],
            forall|l: nat| low < l <= 9 ==> !#[trigger] straight_from(hand@, l),
            !is_broadway(hand@),
            is_flush_hand == is_flush(hand@),
        decreases low,
    {
        if window_of_singles(hand, counts, low) {
            assert(is_straight(hand@));
            return if is_flush_hand {
                Some(Category::StraightFlush)
            } else {
                Some(Category::Straight)
            };
        }
        low -= 1;
    }
    assert(!is_straight(hand@));
    if is_flush_hand {
        Some(Category::Flush)
    } else {
        None
    }
}

/// The category of a hand of five cards, or `None` when it scores nothing.
pub fn classify(hand: &[Card]) -> (r: Option<Category>)
    requires
        hand@.len() == 5,
    ensures
        r == category_of(hand@),
{
    let counts = rank_histogram(hand);
    match pair_plus(hand, &counts) {
        Some(c) => Some(c),
        None => straight(hand, &counts, flush(hand)),
    }
}

} // verus!
