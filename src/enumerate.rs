//! Exhaustive enumeration of the ways a partial hand can be completed from a deck.
//!
//! Drawn cards are taken as combinations: each level of the recursion draws a card strictly
//! before, in deck order, the card drawn at the level above. Every unordered draw of `k` cards
//! stands for the same number (`k!`) of ordered draws, so the share of each category among
//! combinations equals its share among ordered draws. A completed hand whose five cards are not
//! pairwise distinct (a deck may hold copies) is left out altogether.
//!
//! The top level fans out over the deck in parallel; partial tallies meet only through the
//! associative sum `Tally::add`, so the result does not depend on how the work is split.

use vstd::prelude::*;
use vstd::arithmetic::power::{pow, lemma_pow_increases};
use vstd::arithmetic::mul::lemma_mul_inequality;
use rayon::iter::{IntoParallelIterator, ParallelIterator};
use crate::cards::{Card, Category};
use crate::classify::{category_of, classify};
use crate::deck::Deck;
use crate::ratio::Ratio;
use crate::tally::{Counts, PartialScore, Tally, lemma_scores_sum_to_one, probability_sum, ratio_add, reported, scores_match};

verus! {

/// The largest deck that enumeration accepts, so that every count fits in 64 bits.
pub const MAX_DECK_SIZE: usize = 2048;

/// A bound on the number of hands enumerated from a deck of at most `MAX_DECK_SIZE` cards.
pub const MAX_ENUMERATIONS: u64 = 0x80_0000_0000_0000;

/// A completed hand: one enumeration, in its category, when its cards are pairwise distinct;
/// nothing otherwise.
pub open spec fn leaf(hand: Seq<Card>) -> Counts {
    if hand.no_duplicates() {
        Counts::unit(category_of(hand))
    } else {
        Counts::zero()
    }
}

/// The tally of every way to draw `k` more cards from `deck` and add them to `fixed`, each drawn
/// card lying before the one drawn before it.
pub open spec fn completions(fixed: Seq<Card>, deck: Seq<Card>, k: nat) -> Counts
    decreases k, deck.len() + 1,
{
    if k == 0 {
        leaf(fixed)
    } else {
        branches(fixed, deck, k, deck.len())
    }
}

/// The sum, over the first `m` cards of `deck`, of the completions that draw that card first and
/// the other `k - 1` among the cards before it.
pub open spec fn branches(fixed: Seq<Card>, deck: Seq<Card>, k: nat, m: nat) -> Counts
    decreases k, m,
{
    if k == 0 || m == 0 || m > deck.len() {
        Counts::zero()
    } else {
        branches(fixed, deck, k, (m - 1) as nat).plus(
            completions(fixed.push(deck[m - 1]), deck.take(m - 1), (k - 1) as nat),
        )
    }
}

proof fn lemma_pow_base_monotone(a: nat, b: nat, e: nat)
    requires
        a <= b,
    ensures
        pow(a as int, e) <= pow(b as int, e),
        pow(a as int, e) >= 0,
    decreases e,
{
    reveal(pow);
    if e > 0 {
        lemma_pow_base_monotone(a, b, (e - 1) as nat);
        lemma_mul_inequality(a as int, b as int, pow(a as int, (e - 1) as nat));
        lemma_mul_inequality(pow(a as int, (e - 1) as nat), pow(b as int, (e - 1) as nat), b as int);
        assert(pow(a as int, (e - 1) as nat) * b == b * pow(a as int, (e - 1) as nat)) by (nonlinear_arith);
        assert(pow(b as int, (e - 1) as nat) * b == b * pow(b as int, (e - 1) as nat)) by (nonlinear_arith);
    }
}

/// Counts on decks of at most `MAX_DECK_SIZE` cards, drawing at most five, stay below 2^55.
proof fn lemma_power_fits(n: nat, k: nat)
    requires
        n <= MAX_DECK_SIZE,
        k <= 5,
    ensures
        0 <= pow(n as int, k) <= MAX_ENUMERATIONS,
{
    lemma_pow_base_monotone(n, 2048, k);
    lemma_pow_increases(2048, k, 5);
    assert(pow(2048, 5) == MAX_ENUMERATIONS) by {
        reveal_with_fuel(pow, 6);
    }
}

/// Completions are well formed and number at most `|deck|^k`.
proof fn lemma_completions_bound(fixed: Seq<Card>, deck: Seq<Card>, k: nat)
    ensures
        completions(fixed, deck, k).wf(),
        completions(fixed, deck, k).total <= pow(deck.len() as int, k),
    decreases k, deck.len() + 1,
{
    if k > 0 {
        lemma_branches_bound(fixed, deck, k, deck.len());
        reveal(pow);
        assert(pow(deck.len() as int, k) == deck.len() * pow(deck.len() as int, (k - 1) as nat));
    } else {
        assert(pow(deck.len() as int, 0) == 1) by {
            reveal_with_fuel(pow, 1);
        }
    }
}

/// The first `m` branches are well formed and number at most `m * |deck|^(k - 1)`.
proof fn lemma_branches_bound(fixed: Seq<Card>, deck: Seq<Card>, k: nat, m: nat)
    requires
        m <= deck.len(),
        k >= 1,
    ensures
        branches(fixed, deck, k, m).wf(),
        branches(fixed, deck, k, m).total <= m * pow(deck.len() as int, (k - 1) as nat),
    decreases k, m,
{
    let n = deck.len();
    let p = pow(n as int, (k - 1) as nat);
    if m > 0 {
        let rest = branches(fixed, deck, k, (m - 1) as nat);
        let last = completions(fixed.push(deck[m - 1]), deck.take(m - 1), (k - 1) as nat);
        lemma_branches_bound(fixed, deck, k, (m - 1) as nat);
        lemma_completions_bound(fixed.push(deck[m - 1]), deck.take(m - 1), (k - 1) as nat);
        lemma_pow_base_monotone((m - 1) as nat, n, (k - 1) as nat);
        assert(rest.total + last.total <= (m - 1) * p + p);
        assert((m - 1) * p + p == m * p) by (nonlinear_arith);
    } else {
        lemma_pow_base_monotone(0, n, (k - 1) as nat);
    }
}

/// Whether the cards of `hand` are pairwise distinct.
pub(crate) fn all_distinct(hand: &Vec<Card>) -> (r: bool)
    ensures
        r == hand@.no_duplicates(),
{
    let mut i: usize = 0;
    while i < hand.len()
        invariant
            0 <= i <= hand@.len(),
            forall|a: int, b: int| 0 <= a < b < hand@.len() && a < i ==> hand@[a] != hand@[b],
        decreases hand@.len() - i,
    {
        let mut j: usize = i + 1;
        while j < hand.len()
            invariant
                i < hand@.len(),
                i + 1 <= j <= hand@.len(),
                forall|a: int, b: int| 0 <= a < b < hand@.len() && a < i ==> hand@[a] != hand@[b],
                forall|b: int| i < b < j ==> hand@[i as int] != hand@[b],
            decreases hand@.len() - j,
        {
            if hand[i] == hand[j] {
                return false;
            }
            j += 1;
        }
        i += 1;
    }
    true
}

/// The tally of one completed hand.
fn leaf_tally(hand: &Vec<Card>) -> (r: Tally)
    requires
        hand@.len() == 5,
    ensures
        r@ == leaf(hand@),
{
    if all_distinct(hand) {
        Tally::from_category(classify(hand.as_slice()))
    } else {
        Tally::new()
    }
}

/// The completions of `hand` by `k` cards drawn from the first `n` cards of `deck`.
fn tally_completions(hand: &mut Vec<Card>, deck: &Vec<Card>, n: usize, k: usize) -> (r: Tally)
    requires
        old(hand)@.len() + k == 5,
        n <= deck@.len(),
        deck@.len() <= MAX_DECK_SIZE,
    ensures
        final(hand)@ == old(hand)@,
        r@ == completions(old(hand)@, deck@.take(n as int), k as nat),
    decreases k,
{
    if k == 0 {
        return leaf_tally(hand);
    }
    let ghost h0 = hand@;
    let ghost d = deck@.take(n as int);
    let mut acc = Tally::new();
    let mut i: usize = 0;
    while i < n
        invariant
            hand@ == h0,
            h0.len() + k == 5,
            1 <= k <= 5,
            0 <= i <= n,
            n <= deck@.len(),
            deck@.len() <= MAX_DECK_SIZE,
            d == deck@.take(n as int),
            acc@ == branches(h0, d, k as nat, i as nat),
        decreases n - i,
    {
        hand.push(deck[i]);
        let b = tally_completions(hand, deck, i, k - 1);
        let _ = hand.pop();
        proof {
            assert(hand@ =~= h0);
            assert(d.take(i as int) =~= deck@.take(i as int));
            assert(d[i as int] == deck@[i as int]);
            let p = pow(n as int, (k - 1) as nat);
            lemma_branches_bound(h0, d, k as nat, i as nat);
            lemma_branches_bound(h0, d, k as nat, (i + 1) as nat);
            lemma_completions_bound(h0.push(deck@[i as int]), deck@.take(i as int), (k - 1) as nat);
            lemma_power_fits(n as nat, k as nat);
            lemma_pow_base_monotone(0, n as nat, (k - 1) as nat);
            lemma_mul_inequality((i + 1) as int, n as int, p);
            reveal(pow);
            assert(pow(n as int, k as nat) == n * p);
        }
        acc = Tally::add(acc, b);
        i += 1;
    }
    acc
}

/// The completions of `fixed` that draw `deck[i]` first and the other `k - 1` cards among the
/// cards before it.
fn branch(fixed: &Vec<Card>, deck: &Vec<Card>, i: usize, k: usize) -> (r: Tally)
    requires
        i < deck@.len(),
        1 <= k,
        fixed@.len() + k == 5,
        deck@.len() <= MAX_DECK_SIZE,
    ensures
        r@ == completions(fixed@.push(deck@[i as int]), deck@.take(i as int), (k - 1) as nat),
{
    let mut hand = fixed.clone();
    assert(hand@ =~= fixed@);
    hand.push(deck[i]);
    tally_completions(&mut hand, deck, i, k - 1)
}

/// Relies on rayon's `into_par_iter` over `0..n`, `map` and `reduce`: given a true identity
/// (`Tally::new`) and an associative merge (`Tally::add`, a sum field by field), `reduce`
/// yields the sum of every mapped item, whatever the split among threads.
#[verifier::external_body]
fn parallel_branches(fixed: &Vec<Card>, deck: &Vec<Card>, k: usize) -> (r: Tally)
    requires
        1 <= k,
        fixed@.len() + k == 5,
        deck@.len() <= MAX_DECK_SIZE,
    ensures
        r@ == branches(fixed@, deck@, k as nat, deck@.len()),
{
    (0..deck.len()).into_par_iter().map(|i| branch(fixed, deck, i, k)).reduce(Tally::new, Tally::add)
}

/// The tally of every completion of `fixed` to five cards by cards of `deck`.
pub fn count_completions(fixed: &Vec<Card>, deck: &Deck) -> (r: Tally)
    requires
        fixed@.len() <= 5,
        5 - fixed@.len() <= deck@.len(),
        deck@.len() <= MAX_DECK_SIZE,
    ensures
        r@ == completions(fixed@, deck@, (5 - fixed@.len()) as nat),
        r@.wf(),
        r@.total <= MAX_ENUMERATIONS,
{
    let k = 5 - fixed.len();
    proof {
        lemma_completions_bound(fixed@, deck@, k as nat);
        lemma_power_fits(deck@.len(), k as nat);
    }
    if k == 0 {
        leaf_tally(fixed)
    } else {
        parallel_branches(fixed, deck.cards(), k)
    }
}

/// The probability of each category over every completion of `fixed` to five cards by cards of
/// `deck`, highest value first. A category that never occurs is not listed, and neither is the
/// share of hands in no category. At least `5 - |fixed|` cards must remain in the deck.
pub fn enumerate(fixed: &Vec<Card>, deck: &Deck) -> (r: Vec<PartialScore>)
    requires
        fixed@.len() <= 5,
        5 - fixed@.len() <= deck@.len(),
        deck@.len() <= MAX_DECK_SIZE,
    ensures
        scores_match(r@, completions(fixed@, deck@, (5 - fixed@.len()) as nat)),
{
    let t = count_completions(fixed, deck);
    t.to_partial_scores()
}

/// Completions never count more categorized hands than hands.
pub proof fn lemma_outcomes_wf(fixed: Seq<Card>, deck: Seq<Card>)
    ensures
        completions(fixed, deck, (5 - fixed.len()) as nat).wf(),
{
    lemma_completions_bound(fixed, deck, (5 - fixed.len()) as nat);
}

/// Whatever the cards held and the deck, the probabilities that `enumerate` reports and the
/// implicit probability of no category add up to exactly one, provided some completion exists.
pub proof fn lemma_probabilities_sum_to_one(fixed: Seq<Card>, deck: Seq<Card>, scores: Seq<PartialScore>)
    requires
        fixed.len() <= 5,
        5 - fixed.len() <= deck.len(),
        scores_match(scores, completions(fixed, deck, (5 - fixed.len()) as nat)),
        completions(fixed, deck, (5 - fixed.len()) as nat).total > 0,
    ensures
        ({
            let c = completions(fixed, deck, (5 - fixed.len()) as nat);
            let sum = ratio_add(probability_sum(scores), (c.uncategorized(), c.total as int));
            sum.0 == sum.1
        }),
{
    let c = completions(fixed, deck, (5 - fixed.len()) as nat);
    lemma_completions_bound(fixed, deck, (5 - fixed.len()) as nat);
    lemma_scores_sum_to_one(scores, c);
}

/// Keeping five distinct cards leaves nothing to draw: the hand's own category, if it has one,
/// is reported alone with probability exactly one, and otherwise nothing is reported.
pub proof fn lemma_full_hand_is_certain(hand: Seq<Card>, deck: Seq<Card>, scores: Seq<PartialScore>)
    requires
        hand.len() == 5,
        hand.no_duplicates(),
        scores_match(scores, completions(hand, deck, 0)),
    ensures
        category_of(hand) is Some ==> {
            &&& scores.len() == 1
            &&& scores[0].category == category_of(hand)->Some_0
            &&& scores[0].probability == Ratio { numer: 1, denom: 1 }
        },
        category_of(hand) is None ==> scores.len() == 0,
{
    let c = completions(hand, deck, 0);
    assert(c == Counts::unit(category_of(hand)));
    assert(reported(c) =~= match category_of(hand) {
        Some(x) => seq![x],
        None => Seq::<Category>::empty(),
    }) by {
        reveal_with_fuel(Seq::filter, 10);
    }
    if category_of(hand) is Some {
        let p = scores[0].probability;
        assert(scores[0].category == category_of(hand)->Some_0);
        assert(c.count(scores[0].category) == 1 && c.total == 1);
        assert(p.numer == p.denom);
        if p.numer > 1 {
            assert(p.numer as nat % p.numer as nat == 0);
            assert(p.denom as nat % p.numer as nat == 0);
        }
    }
}

} // verus!
