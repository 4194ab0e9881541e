//! The discard decision: the expected score of every subset of the dealt hand that could be kept.

use vstd::prelude::*;
use itertools::Itertools;
use crate::cards::{Card, Category, FullHand};
use crate::deck::Deck;
use crate::enumerate::{MAX_DECK_SIZE, completions, count_completions};
use crate::ratio::Ratio;
use crate::tally::{Counts, PartialScore, points_over, points_sum, lemma_reported_points, report_order, reported, scores_match};

verus! {

/// The points of all hands counted in `c`: each category's count times its points.
pub open spec fn points_total(c: Counts) -> nat {
    2 * c.pair + 3 * c.two_pair + 4 * c.three_of_a_kind + 8 * c.straight + 10 * c.flush + 15
        * c.full_house + 50 * c.four_of_a_kind + 100 * c.straight_flush + 500 * c.royal_flush
}

/// The denominator of the expected score: the number of hands, or one when there are none.
pub open spec fn score_denominator(c: Counts) -> nat {
    if c.total == 0 {
        1
    } else {
        c.total
    }
}

/// `r` is the expected score over the hands counted in `c`: the sum over categories of
/// probability times points, zero when no hand was counted.
pub open spec fn is_expected_score(r: Ratio, c: Counts) -> bool {
    r.wf() && r.has_value(points_total(c) as int, score_denominator(c) as int)
}

/// The hands that keeping `keep` can end in: `keep` completed from `deck`.
pub open spec fn outcomes(keep: Seq<Card>, deck: Seq<Card>) -> Counts {
    completions(keep, deck, (5 - keep.len()) as nat)
}

/// The `k`-element subsequences of `s`, in the lexicographic order of their positions.
pub open spec fn combinations(s: Seq<Card>, k: nat) -> Seq<Seq<Card>>
    decreases s.len(),
{
    if k == 0 {
        seq![Seq::empty()]
    } else if s.len() == 0 {
        Seq::empty()
    } else {
        combinations(s.drop_first(), (k - 1) as nat).map_values(|c: Seq<Card>| seq![s[0]] + c)
            + combinations(s.drop_first(), k)
    }
}

/// The subsequences of `s` with at most `k` elements, by increasing size.
pub open spec fn subsets_up_to(s: Seq<Card>, k: nat) -> Seq<Seq<Card>>
    decreases k,
{
    if k == 0 {
        combinations(s, 0)
    } else {
        subsets_up_to(s, (k - 1) as nat) + combinations(s, k)
    }
}

/// Every subsequence of `s`: by increasing size, and within a size in the lexicographic order
/// of positions. This order decides between keep sets of equal expected score.
pub open spec fn keep_sets(s: Seq<Card>) -> Seq<Seq<Card>> {
    subsets_up_to(s, s.len())
}

proof fn lemma_combinations_len(s: Seq<Card>, k: nat)
    ensures
        forall|j: int| 0 <= j < combinations(s, k).len() ==> (#[trigger] combinations(s, k)[j]).len() == k,
        combinations(s, k).len() > 0 ==> k <= s.len(),
    decreases s.len(),
{
    if k > 0 && s.len() > 0 {
        let t = s.drop_first();
        lemma_combinations_len(t, (k - 1) as nat);
        lemma_combinations_len(t, k);
        let a = combinations(t, (k - 1) as nat).map_values(|c: Seq<Card>| seq![s[0]] + c);
        let b = combinations(t, k);
        assert forall|j: int| 0 <= j < combinations(s, k).len() implies (#[trigger] combinations(s, k)[j]).len() == k by {
            if j < a.len() {
                assert(combinations(s, k)[j] == a[j]);
            } else {
                assert(combinations(s, k)[j] == b[j - a.len()]);
            }
        }
    }
}

proof fn lemma_subsets_len(s: Seq<Card>, k: nat)
    requires
        k <= s.len(),
    ensures
        forall|j: int| 0 <= j < subsets_up_to(s, k).len() ==> (#[trigger] subsets_up_to(s, k)[j]).len() <= k,
    decreases k,
{
    lemma_combinations_len(s, k);
    if k > 0 {
        lemma_subsets_len(s, (k - 1) as nat);
        let a = subsets_up_to(s, (k - 1) as nat);
        let b = combinations(s, k);
        assert forall|j: int| 0 <= j < subsets_up_to(s, k).len() implies (#[trigger] subsets_up_to(s, k)[j]).len() <= k by {
            if j < a.len() {
                assert(subsets_up_to(s, k)[j] == a[j]);
            } else {
                assert(subsets_up_to(s, k)[j] == b[j - a.len()]);
            }
        }
    }
}

/// Relies on itertools' `powerset`, which yields every subset of its input by increasing
/// size, each size in the lexicographic order of positions that its `combinations` gives,
/// each subset keeping the input's order.
#[verifier::external_body]
fn powerset(cards: &Vec<Card>) -> (r: Vec<Vec<Card>>)
    ensures
        r@.len() == keep_sets(cards@).len(),
        forall|j: int| 0 <= j < r@.len() ==> (#[trigger] r@[j])@ == keep_sets(cards@)[j],
{
    cards.iter().cloned().powerset().collect()
}

/// The expected score of keeping `keep` and drawing the rest from `deck`: the sum over
/// categories of the probability of the category times its points.
pub fn score(keep: &Vec<Card>, deck: &Deck) -> (r: Ratio)
    requires
        keep@.len() <= 5,
        5 - keep@.len() <= deck@.len(),
        deck@.len() <= MAX_DECK_SIZE,
    ensures
        is_expected_score(r, outcomes(keep@, deck@)),
{
    let t = count_completions(keep, deck);
    let points = 2 * t.pairs + 3 * t.two_pairs + 4 * t.three_of_a_kinds + 8 * t.straights + 10
        * t.flushes + 15 * t.full_houses + 50 * t.four_of_a_kinds + 100 * t.straight_flushes + 500
        * t.royal_flushes;
    if t.enumerations == 0 {
        Ratio::new(points, 1)
    } else {
        Ratio::new(points, t.enumerations)
    }
}

/// A subset of the hand that could be kept, with its expected score.
#[derive(Debug, PartialEq, Eq)]
pub struct Alternative {
    pub keep: Vec<Card>,
    pub score: Ratio,
}

/// The recommended keep set, its expected score, and every keep set ranked best first.
#[derive(Debug, PartialEq, Eq)]
pub struct Discard {
    pub kept: Vec<Card>,
    pub expected_score: Ratio,
    pub ranked: Vec<Alternative>,
}

/// Ratio `a` is larger in value than ratio `b`.
pub open spec fn exceeds(a: Ratio, b: Ratio) -> bool {
    a.numer * b.denom > b.numer * a.denom
}

/// In a ranking of `scores`, position `i` comes before position `j`: a higher score first,
/// equal scores in their original order.
pub open spec fn ranks_before(scores: Seq<Ratio>, i: int, j: int) -> bool {
    exceeds(scores[i], scores[j]) || (!exceeds(scores[j], scores[i]) && i < j)
}

/// `order` lists each position of `scores` once, best score first, ties in original order.
pub open spec fn is_ranking(order: Seq<usize>, scores: Seq<Ratio>) -> bool {
    &&& order.len() == scores.len()
    &&& forall|t: int| 0 <= t < order.len() ==> #[trigger] order[t] < scores.len()
    &&& forall|j: usize| j < scores.len() ==> #[trigger] order.contains(j)
    &&& forall|a: int, b: int|
        0 <= a < b < order.len() ==> ranks_before(scores, #[trigger] order[a] as int, #[trigger] order[b] as int)
}

/// Comparison of ratios with positive denominators is transitive across `>` then `>=`.
proof fn lemma_exceeds_transitive(x: Ratio, y: Ratio, z: Ratio)
    requires
        x.denom > 0,
        y.denom > 0,
        z.denom > 0,
        exceeds(x, y),
        !exceeds(z, y),
    ensures
        exceeds(x, z),
{
    let (xn, xd, yn, yd, zn, zd) = (x.numer as int, x.denom as int, y.numer as int, y.denom as int, z.numer as int, z.denom as int);
    assert(xn * yd * zd > yn * xd * zd) by (nonlinear_arith)
        requires
            xn * yd > yn * xd,
            zd > 0,
    ;
    assert(yn * zd * xd >= zn * yd * xd) by (nonlinear_arith)
        requires
            yn * zd >= zn * yd,
            xd > 0,
    ;
    assert(xn * zd * yd > zn * xd * yd) by (nonlinear_arith)
        requires
            xn * yd * zd > yn * xd * zd,
            yn * zd * xd >= zn * yd * xd,
    ;
    assert(xn * zd > zn * xd) by (nonlinear_arith)
        requires
            xn * zd * yd > zn * xd * yd,
            yd > 0,
    ;
}

proof fn lemma_insert_index(o: Seq<usize>, p: int, x: usize)
    requires
        0 <= p <= o.len(),
    ensures
        o.insert(p, x).len() == o.len() + 1,
        o.insert(p, x)[p] == x,
        forall|t: int| 0 <= t < p ==> #[trigger] o.insert(p, x)[t] == o[t],
        forall|t: int| p < t <= o.len() ==> #[trigger] o.insert(p, x)[t] == o[t - 1],
{
}

/// The positions of `scores`, best score first, equal scores in their original order.
pub fn rank(scores: &Vec<Ratio>) -> (order: Vec<usize>)
    requires
        forall|j: int| 0 <= j < scores@.len() ==> (#[trigger] scores@[j]).denom > 0,
    ensures
        is_ranking(order@, scores@),
{
    let ghost sc = scores@;
    let mut order: Vec<usize> = Vec::with_capacity(scores.len());
    let mut i: usize = 0;
    while i < scores.len()
        invariant
            sc == scores@,
            forall|j: int| 0 <= j < sc.len() ==> (#[trigger] sc[j]).denom > 0,
            0 <= i <= sc.len(),
            order@.len() == i,
            forall|t: int| 0 <= t < order@.len() ==> #[trigger] order@[t] < i,
            forall|j: usize| j < i ==> #[trigger] order@.contains(j),
            forall|a: int, b: int|
                0 <= a < b < order@.len() ==> ranks_before(sc, #[trigger] order@[a] as int, #[trigger] order@[b] as int),
        decreases sc.len() - i,
    {
        let mut p: usize = 0;
        while p < order.len() && !scores[order[p]].less_than(&scores[i])
            invariant
                0 <= p <= order@.len(),
                i < sc.len(),
                sc == scores@,
                forall|t: int| 0 <= t < order@.len() ==> #[trigger] order@[t] < i,
                forall|u: int| 0 <= u < p ==> !exceeds(sc[i as int], sc[#[trigger] order@[u] as int]),
            decreases order@.len() - p,
        {
            p += 1;
        }
        let ghost old_order = order@;
        order.insert(p, i);
        proof {
            let o = old_order;
            let n = order@;
            lemma_insert_index(o, p as int, i);
            assert(n.len() == o.len() + 1);
            assert forall|t: int| 0 <= t < n.len() implies #[trigger] n[t] < i + 1 by {
                if t < p {
                    assert(n[t] == o[t]);
                } else if t > p {
                    assert(n[t] == o[t - 1]);
                }
            }
            assert forall|j: usize| j < i + 1 implies #[trigger] n.contains(j) by {
                if j == i {
                    assert(n[p as int] == i);
                } else {
                    assert(o.contains(j));
                    let t = choose|t: int| 0 <= t < o.len() && o[t] == j;
                    if t < p {
                        assert(n[t] == o[t]);
                    } else {
                        assert(n[t + 1] == o[t]);
                    }
                }
            }
            assert forall|a: int, b: int| 0 <= a < b < n.len() implies ranks_before(sc, #[trigger] n[a] as int, #[trigger] n[b] as int) by {
                let ai: int = if a < p { a } else { a - 1 };
                let bi: int = if b <= p { b } else { b - 1 };
                if a != p && b != p {
                    assert(n[a] == o[ai] && n[b] == o[bi]);
                } else if b == p {
                    assert(n[a] == o[a]);
                    assert(!exceeds(sc[i as int], sc[o[a] as int]));
                } else {
                    assert(a == p);
                    assert(n[b] == o[bi]);
                    assert(exceeds(sc[i as int], sc[o[p as int] as int]));
                    if bi > p {
                        assert(ranks_before(sc, o[p as int] as int, o[bi] as int));
                        lemma_exceeds_transitive(sc[i as int], sc[o[p as int] as int], sc[o[bi] as int]);
                    }
                }
            }
        }
        i += 1;
    }
    order
}

/// The expected score over the hands counted in `c` is at most `r`.
pub open spec fn score_at_most(c: Counts, r: Ratio) -> bool {
    points_total(c) * r.denom <= r.numer * score_denominator(c)
}

proof fn lemma_at_most_by_value(c: Counts, s: Ratio, r: Ratio)
    requires
        is_expected_score(s, c),
        !exceeds(s, r),
        r.denom > 0,
    ensures
        score_at_most(c, r),
{
    let (p, d) = (points_total(c) as int, score_denominator(c) as int);
    let (sn, sd, rn, rd) = (s.numer as int, s.denom as int, r.numer as int, r.denom as int);
    assert(p * rd <= rn * d) by (nonlinear_arith)
        requires
            sn * d == p * sd,
            sn * rd <= rn * sd,
            sd > 0,
            d > 0,
            rd > 0,
    {
        assert(p * sd * rd == sn * d * rd);
        assert(sn * rd * d <= rn * sd * d);
        assert(p * rd * sd <= rn * d * sd);
    }
}

proof fn lemma_keep_sets_nonempty(s: Seq<Card>, k: nat)
    ensures
        subsets_up_to(s, k).len() >= 1,
        subsets_up_to(s, k)[0] == Seq::<Card>::empty(),
    decreases k,
{
    if k > 0 {
        lemma_keep_sets_nonempty(s, (k - 1) as nat);
    }
}

/// The expected score of every keep set of `hand`, in the order of `keep_sets`.
pub fn expected_swap_values(hand: &FullHand, deck: &Deck) -> (r: Vec<Alternative>)
    requires
        5 <= deck@.len() <= MAX_DECK_SIZE,
    ensures
        r@.len() == keep_sets(hand@).len(),
        forall|j: int|
            0 <= j < r@.len() ==> {
                &&& (#[trigger] r@[j]).keep@ == keep_sets(hand@)[j]
                &&& is_expected_score(r@[j].score, outcomes(keep_sets(hand@)[j], deck@))
            },
{
    let cards = hand.to_vec();
    let keeps = powerset(&cards);
    proof {
        lemma_subsets_len(cards@, 5);
    }
    let mut result: Vec<Alternative> = Vec::with_capacity(keeps.len());
    let mut j: usize = 0;
    while j < keeps.len()
        invariant
            cards@ == hand@,
            keeps@.len() == keep_sets(hand@).len(),
            forall|t: int| 0 <= t < keeps@.len() ==> (#[trigger] keeps@[t])@ == keep_sets(hand@)[t],
            forall|t: int| 0 <= t < keep_sets(hand@).len() ==> (#[trigger] keep_sets(hand@)[t]).len() <= 5,
            5 <= deck@.len() <= MAX_DECK_SIZE,
            0 <= j <= keeps@.len(),
            result@.len() == j,
            forall|t: int|
                0 <= t < j ==> {
                    &&& (#[trigger] result@[t]).keep@ == keep_sets(hand@)[t]
                    &&& is_expected_score(result@[t].score, outcomes(keep_sets(hand@)[t], deck@))
                },
        decreases keeps@.len() - j,
    {
        let keep = keeps[j].clone();
        assert(keep@ =~= keeps@[j as int]@);
        assert(keep@.len() <= 5);
        let score = score(&keep, deck);
        result.push(Alternative { keep, score });
        j += 1;
    }
    result
}

/// `ranked` lists the keep sets of `hand` in the order `order` gives their positions in
/// `keep_sets`, each with its expected score from `deck`; `order` covers every position, ranks a
/// higher score first, and keeps equal scores in their original order.
pub open spec fn ranked_by(ranked: Seq<Alternative>, order: Seq<usize>, hand: Seq<Card>, deck: Seq<Card>) -> bool {
    let keeps = keep_sets(hand);
    &&& order.len() == keeps.len()
    &&& ranked.len() == keeps.len()
    &&& forall|j: usize| j < keeps.len() ==> #[trigger] order.contains(j)
    &&& forall|t: int|
        0 <= t < ranked.len() ==> {
            &&& #[trigger] order[t] < keeps.len()
            &&& ranked[t].keep@ == keeps[order[t] as int]
            &&& is_expected_score(ranked[t].score, outcomes(keeps[order[t] as int], deck))
        }
    &&& forall|a: int, b: int|
        0 <= a < b < ranked.len() ==> {
            &&& !exceeds(#[trigger] ranked[b].score, #[trigger] ranked[a].score)
            &&& !exceeds(ranked[a].score, ranked[b].score) ==> order[a] < order[b]
        }
}

/// `ranked` lists every keep set of `hand` once, each with its expected score from `deck`,
/// best score first and equal scores in the order of `keep_sets`.
pub open spec fn is_ranked(ranked: Seq<Alternative>, hand: Seq<Card>, deck: Seq<Card>) -> bool {
    exists|order: Seq<usize>| #[trigger] ranked_by(ranked, order, hand, deck)
}

/// Every keep set of `hand` appears in `ranked`.
pub open spec fn lists_every_keep_set(ranked: Seq<Alternative>, hand: Seq<Card>) -> bool {
    forall|j: int| 0 <= j < keep_sets(hand).len() ==> exists|t: int|
        0 <= t < ranked.len() && (#[trigger] ranked[t]).keep@ == #[trigger] keep_sets(hand)[j]
}

proof fn lemma_ranked(
    ranked: Seq<Alternative>,
    order: Seq<usize>,
    scores: Seq<Ratio>,
    hand: Seq<Card>,
    deck: Seq<Card>,
)
    requires
        is_ranking(order, scores),
        scores.len() == keep_sets(hand).len(),
        ranked.len() == order.len(),
        forall|u: int|
            0 <= u < ranked.len() ==> {
                &&& (#[trigger] ranked[u]).keep@ == keep_sets(hand)[order[u] as int]
                &&& is_expected_score(ranked[u].score, outcomes(keep_sets(hand)[order[u] as int], deck))
                &&& ranked[u].score == scores[order[u] as int]
            },
    ensures
        ranked_by(ranked, order, hand, deck),
{
    assert forall|a: int, b: int| 0 <= a < b < ranked.len() implies {
        &&& !exceeds(#[trigger] ranked[b].score, #[trigger] ranked[a].score)
        &&& !exceeds(ranked[a].score, ranked[b].score) ==> order[a] < order[b]
    } by {
        assert(ranks_before(scores, order[a] as int, order[b] as int));
    }
    assert forall|t: int| 0 <= t < ranked.len() implies {
        &&& #[trigger] order[t] < keep_sets(hand).len()
        &&& ranked[t].keep@ == keep_sets(hand)[order[t] as int]
        &&& is_expected_score(ranked[t].score, outcomes(keep_sets(hand)[order[t] as int], deck))
    } by {
        assert(order[t] < scores.len());
        assert(ranked[t].keep@ == keep_sets(hand)[order[t] as int]);
    }
}

proof fn lemma_best_of_ranked(ranked: Seq<Alternative>, order: Seq<usize>, hand: Seq<Card>, deck: Seq<Card>)
    requires
        ranked_by(ranked, order, hand, deck),
        0 < ranked.len() <= usize::MAX,
    ensures
        lists_every_keep_set(ranked, hand),
        forall|t: int| 0 <= t < ranked.len() ==> !exceeds(#[trigger] ranked[t].score, ranked[0].score),
        forall|j: int| 0 <= j < keep_sets(hand).len() ==> score_at_most(outcomes(#[trigger] keep_sets(hand)[j], deck), ranked[0].score),
{
    let keeps = keep_sets(hand);
    assert(order[0] < keeps.len());
    assert forall|u: int| 0 <= u < ranked.len() implies !exceeds(#[trigger] ranked[u].score, ranked[0].score) by {
        if u > 0 {
            assert(!exceeds(ranked[u].score, ranked[0].score));
        }
    }
    assert forall|j: int| 0 <= j < keeps.len() implies exists|u: int|
        0 <= u < ranked.len() && (#[trigger] ranked[u]).keep@ == #[trigger] keeps[j] by {
        assert(order.contains(j as usize));
        let u = choose|u: int| 0 <= u < order.len() && order[u] == j as usize;
        assert(order[u] < keeps.len());
        assert(ranked[u].keep@ == keeps[j]);
    }
    assert forall|j: int| 0 <= j < keeps.len() implies score_at_most(outcomes(#[trigger] keeps[j], deck), ranked[0].score) by {
        assert(order.contains(j as usize));
        let u = choose|u: int| 0 <= u < order.len() && order[u] == j as usize;
        assert(order[u] < keeps.len());
        assert(!exceeds(ranked[u].score, ranked[0].score));
        lemma_at_most_by_value(outcomes(keeps[j], deck), ranked[u].score, ranked[0].score);
    }
}

/// The best keep set of `hand` given the unseen cards `deck`: the one with the highest expected
/// score, the earliest in the order of `keep_sets` among equals, with every keep set ranked.
pub fn best_discard(hand: &FullHand, deck: &Deck) -> (r: Discard)
    requires
        5 <= deck@.len() <= MAX_DECK_SIZE,
    ensures
        is_ranked(r.ranked@, hand@, deck@),
        r.ranked@.len() > 0,
        r.kept@ == r.ranked@[0].keep@,
        r.expected_score == r.ranked@[0].score,
        lists_every_keep_set(r.ranked@, hand@),
        forall|t: int| 0 <= t < r.ranked@.len() ==> !exceeds(#[trigger] r.ranked@[t].score, r.expected_score),
        forall|j: int| 0 <= j < keep_sets(hand@).len() ==> score_at_most(outcomes(#[trigger] keep_sets(hand@)[j], deck@), r.expected_score),
{
    let values = expected_swap_values(hand, deck);
    let ghost keeps = keep_sets(hand@);
    proof {
        lemma_keep_sets_nonempty(hand@, 5);
    }
    let mut scores: Vec<Ratio> = Vec::with_capacity(values.len());
    let mut j: usize = 0;
    while j < values.len()
        invariant
            0 <= j <= values@.len(),
            scores@.len() == j,
            forall|t: int| 0 <= t < j ==> #[trigger] scores@[t] == values@[t].score,
            forall|t: int| 0 <= t < values@.len() ==> (#[trigger] values@[t]).score.denom > 0,
        decreases values@.len() - j,
    {
        scores.push(values[j].score);
        j += 1;
    }
    let order = rank(&scores);
    let mut ranked: Vec<Alternative> = Vec::with_capacity(order.len());
    let mut t: usize = 0;
    while t < order.len()
        invariant
            is_ranking(order@, scores@),
            keeps == keep_sets(hand@),
            scores@.len() == values@.len(),
            values@.len() == keeps.len(),
            forall|u: int| 0 <= u < values@.len() ==> #[trigger] scores@[u] == values@[u].score,
            forall|u: int|
                0 <= u < values@.len() ==> {
                    &&& (#[trigger] values@[u]).keep@ == keeps[u]
                    &&& is_expected_score(values@[u].score, outcomes(keeps[u], deck@))
                },
            0 <= t <= order@.len(),
            ranked@.len() == t,
            forall|u: int|
                0 <= u < t ==> {
                    &&& (#[trigger] ranked@[u]).keep@ == keeps[order@[u] as int]
                    &&& is_expected_score(ranked@[u].score, outcomes(keeps[order@[u] as int], deck@))
                    &&& ranked@[u].score == scores@[order@[u] as int]
                },
        decreases order@.len() - t,
    {
        let v = &values[order[t]];
        let keep = v.keep.clone();
        assert(keep@ =~= v.keep@);
        ranked.push(Alternative { keep, score: v.score });
        t += 1;
    }
    let kept = ranked[0].keep.clone();
    assert(kept@ =~= ranked@[0].keep@);
    let expected_score = ranked[0].score;
    proof {
        lemma_ranked(ranked@, order@, scores@, hand@, deck@);
        lemma_best_of_ranked(ranked@, order@, hand@, deck@);
    }
    Discard { kept, expected_score, ranked }
}

/// The expected score of the best keep set of `hand` given the unseen cards `deck`.
pub fn best_score(hand: &FullHand, deck: &Deck) -> (r: Ratio)
    requires
        5 <= deck@.len() <= MAX_DECK_SIZE,
    ensures
        r.wf(),
        exists|j: int| 0 <= j < keep_sets(hand@).len() && is_expected_score(r, outcomes(#[trigger] keep_sets(hand@)[j], deck@)),
        forall|j: int| 0 <= j < keep_sets(hand@).len() ==> score_at_most(outcomes(#[trigger] keep_sets(hand@)[j], deck@), r),
{
    let d = best_discard(hand, deck);
    proof {
        let order = choose|order: Seq<usize>| #[trigger] ranked_by(d.ranked@, order, hand@, deck@);
        assert(order[0] < keep_sets(hand@).len());
    }
    d.expected_score
}

/// The expected score of a keep set is the sum, over the categories that `enumerate` reports
/// for it, of probability times points.
pub proof fn lemma_score_sums_partial_scores(keep: Seq<Card>, deck: Seq<Card>, scores: Seq<PartialScore>, r: Ratio)
    requires
        keep.len() <= 5,
        5 - keep.len() <= deck.len(),
        scores_match(scores, outcomes(keep, deck)),
        is_expected_score(r, outcomes(keep, deck)),
    ensures
        r.numer * points_sum(scores).1 == points_sum(scores).0 * r.denom,
{
    let c = outcomes(keep, deck);
    assert(points_over(c, report_order()) == points_total(c)) by {
        reveal_with_fuel(points_over, 10);
    }
    if c.total > 0 {
        lemma_reported_points(scores, c);
        let (a, b) = points_sum(scores);
        let (n, d) = (r.numer as int, r.denom as int);
        let (p, t) = (points_total(c) as int, c.total as int);
        assert(n * b == a * d) by (nonlinear_arith)
            requires
                n * t == p * d,
                a * t == p * b,
                t > 0,
        {
            assert(n * b * t == p * d * b);
            assert(a * d * t == p * b * d);
        }
    } else {
        crate::enumerate::lemma_outcomes_wf(keep, deck);
        assert(reported(c) =~= Seq::<Category>::empty()) by {
            reveal_with_fuel(Seq::filter, 10);
        }
        assert(points_sum(scores) == (0int, 1int));
        assert(points_total(c) == 0);
        let (n, d) = (r.numer as int, r.denom as int);
        assert(n == 0) by (nonlinear_arith)
            requires
                n * 1 == 0 * d,
        ;
    }
}

} // verus!
