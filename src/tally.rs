//! Counters of enumerated hands, merged by an associative and commutative sum.

use vstd::prelude::*;
use crate::cards::{Category, points_of};
use crate::enumerate::MAX_ENUMERATIONS;
use crate::ratio::Ratio;

verus! {

/// How many hands were enumerated, and how many of them fell in each category.
pub ghost struct Counts {
    pub total: nat,
    pub pair: nat,
    pub two_pair: nat,
    pub three_of_a_kind: nat,
    pub straight: nat,
    pub flush: nat,
    pub full_house: nat,
    pub four_of_a_kind: nat,
    pub straight_flush: nat,
    pub royal_flush: nat,
}

impl Counts {
    /// No hand at all.
    pub open spec fn zero() -> Counts {
        Counts {
            total: 0,
            pair: 0,
            two_pair: 0,
            three_of_a_kind: 0,
            straight: 0,
            flush: 0,
            full_house: 0,
            four_of_a_kind: 0,
            straight_flush: 0,
            royal_flush: 0,
        }
    }

    /// One hand, of category `c` (or of none).
    pub open spec fn unit(c: Option<Category>) -> Counts {
        Counts {
            total: 1,
            pair: if c == Some(Category::Pair) { 1 } else { 0 },
            two_pair: if c == Some(Category::TwoPair) { 1 } else { 0 },
            three_of_a_kind: if c == Some(Category::ThreeOfAKind) { 1 } else { 0 },
            straight: if c == Some(Category::Straight) { 1 } else { 0 },
            flush: if c == Some(Category::Flush) { 1 } else { 0 },
            full_house: if c == Some(Category::FullHouse) { 1 } else { 0 },
            four_of_a_kind: if c == Some(Category::FourOfAKind) { 1 } else { 0 },
            straight_flush: if c == Some(Category::StraightFlush) { 1 } else { 0 },
            royal_flush: if c == Some(Category::RoyalFlush) { 1 } else { 0 },
        }
    }

    /// The sum of two counts, field by field.
    pub open spec fn plus(self, o: Counts) -> Counts {
        Counts {
            total: self.total + o.total,
            pair: self.pair + o.pair,
            two_pair: self.two_pair + o.two_pair,
            three_of_a_kind: self.three_of_a_kind + o.three_of_a_kind,
            straight: self.straight + o.straight,
            flush: self.flush + o.flush,
            full_house: self.full_house + o.full_house,
            four_of_a_kind: self.four_of_a_kind + o.four_of_a_kind,
            straight_flush: self.straight_flush + o.straight_flush,
            royal_flush: self.royal_flush + o.royal_flush,
        }
    }

    /// The number of hands of category `c`.
    pub open spec fn count(self, c: Category) -> nat {
        match c {
            Category::Pair => self.pair,
            Category::TwoPair => self.two_pair,
            Category::ThreeOfAKind => self.three_of_a_kind,
            Category::Straight => self.straight,
            Category::Flush => self.flush,
            Category::FullHouse => self.full_house,
            Category::FourOfAKind => self.four_of_a_kind,
            Category::StraightFlush => self.straight_flush,
            Category::RoyalFlush => self.royal_flush,
        }
    }

    /// The points of the hands of category `c`: their number times the category's points.
    pub open spec fn points(self, c: Category) -> nat {
        match c {
            Category::Pair => 2 * self.pair,
            Category::TwoPair => 3 * self.two_pair,
            Category::ThreeOfAKind => 4 * self.three_of_a_kind,
            Category::Straight => 8 * self.straight,
            Category::Flush => 10 * self.flush,
            Category::FullHouse => 15 * self.full_house,
            Category::FourOfAKind => 50 * self.four_of_a_kind,
            Category::StraightFlush => 100 * self.straight_flush,
            Category::RoyalFlush => 500 * self.royal_flush,
        }
    }

    /// The number of hands in some category.
    pub open spec fn categorized(self) -> nat {
        self.pair + self.two_pair + self.three_of_a_kind + self.straight + self.flush
            + self.full_house + self.four_of_a_kind + self.straight_flush + self.royal_flush
    }

    /// The number of hands in no category.
    pub open spec fn uncategorized(self) -> int {
        self.total - self.categorized()
    }

    /// No more hands are in a category than were enumerated.
    pub open spec fn wf(self) -> bool {
        self.categorized() <= self.total
    }
}

/// The categories in the order their scores are reported: highest value first.
pub open spec fn report_order() -> Seq<Category> {
    seq![
        Category::RoyalFlush,
        Category::StraightFlush,
        Category::FourOfAKind,
        Category::FullHouse,
        Category::Flush,
        Category::Straight,
        Category::ThreeOfAKind,
        Category::TwoPair,
        Category::Pair,
    ]
}

/// The categories that occurred at least once, highest value first.
pub open spec fn reported(c: Counts) -> Seq<Category> {
    report_order().filter(|x: Category| c.count(x) != 0)
}

/// The probability of one category given the cards already held and the deck.
#[derive(Clone, Copy, Debug, PartialEq, Eq, Structural)]
pub struct PartialScore {
    pub category: Category,
    pub probability: Ratio,
}

impl PartialScore {
    /// This category's share of an expected score: its probability times its points.
    pub fn score(&self) -> (r: Ratio)
        requires
            self.probability.denom > 0,
            self.probability.numer <= MAX_ENUMERATIONS,
        ensures
            r.wf(),
            r.has_value(self.probability.numer * points_of(self.category), self.probability.denom as int),
    {
        Ratio::new(self.probability.numer * self.category.points(), self.probability.denom)
    }
}

/// `scores` lists, highest value first, each category that occurred, with its exact share of all
/// enumerated hands.
pub open spec fn scores_match(scores: Seq<PartialScore>, c: Counts) -> bool {
    &&& scores.len() == reported(c).len()
    &&& forall|j: int|
        0 <= j < scores.len() ==> {
            &&& (#[trigger] scores[j]).category == reported(c)[j]
            &&& scores[j].probability.wf()
            &&& scores[j].probability.has_value(c.count(scores[j].category) as int, c.total as int)
        }
}

/// The sum of two ratios given as (numerator, denominator) pairs.
pub open spec fn ratio_add(a: (int, int), b: (int, int)) -> (int, int) {
    (a.0 * b.1 + b.0 * a.1, a.1 * b.1)
}

/// The sum of the probabilities in `scores`, as a (numerator, denominator) pair.
pub open spec fn probability_sum(scores: Seq<PartialScore>) -> (int, int)
    decreases scores.len(),
{
    if scores.len() == 0 {
        (0, 1)
    } else {
        ratio_add(
            probability_sum(scores.drop_last()),
            (scores.last().probability.numer as int, scores.last().probability.denom as int),
        )
    }
}

/// The number of hands counted in `c` over the categories `cats`.
pub open spec fn count_over(c: Counts, cats: Seq<Category>) -> nat
    decreases cats.len(),
{
    if cats.len() == 0 {
        0
    } else {
        count_over(c, cats.drop_last()) + c.count(cats.last())
    }
}

proof fn lemma_count_over_reported(c: Counts, cats: Seq<Category>)
    ensures
        count_over(c, cats.filter(|x: Category| c.count(x) != 0)) == count_over(c, cats),
    decreases cats.len(),
{
    reveal(Seq::filter);
    if cats.len() > 0 {
        lemma_count_over_reported(c, cats.drop_last());
        let f = cats.drop_last().filter(|x: Category| c.count(x) != 0);
        if c.count(cats.last()) != 0 {
            assert(f.push(cats.last()).drop_last() =~= f);
        }
    }
}

/// Probabilities that each equal a count over `total` add up to the sum of the counts over `total`.
proof fn lemma_probability_sum(scores: Seq<PartialScore>, c: Counts)
    requires
        c.total > 0,
        scores.len() <= reported(c).len(),
        forall|j: int|
            0 <= j < scores.len() ==> {
                &&& (#[trigger] scores[j]).category == reported(c)[j]
                &&& scores[j].probability.wf()
                &&& scores[j].probability.has_value(c.count(scores[j].category) as int, c.total as int)
            },
    ensures
        probability_sum(scores).1 > 0,
        probability_sum(scores).0 * c.total == count_over(c, reported(c).take(scores.len() as int))
            * probability_sum(scores).1,
    decreases scores.len(),
{
    if scores.len() == 0 {
        assert(reported(c).take(0) =~= Seq::<Category>::empty());
    }
    if scores.len() > 0 {
        let rest = scores.drop_last();
        lemma_probability_sum(rest, c);
        let m = scores.len() - 1;
        assert(reported(c).take(m + 1).drop_last() =~= reported(c).take(m));
        assert(forall|j: int| 0 <= j < rest.len() ==> #[trigger] rest[j] == scores[j]);
        let (a, b) = probability_sum(rest);
        let (n, d) = (scores.last().probability.numer as int, scores.last().probability.denom as int);
        let t = c.total as int;
        let s = count_over(c, reported(c).take(m)) as int;
        let k = c.count(scores.last().category) as int;
        assert(scores.last() == scores[m]);
        lemma_cross_sum(a, b, s, n, d, k, t);
        assert(b * d > 0) by (nonlinear_arith)
            requires
                b > 0,
                d > 0,
        ;
        assert(count_over(c, reported(c).take(m + 1)) == s + k);
        assert(probability_sum(scores) == (a * d + n * b, b * d));
        assert(probability_sum(scores).0 * t == (s + k) * probability_sum(scores).1);
        assert(probability_sum(scores).0 * c.total == count_over(c, reported(c).take(scores.len() as int))
            * probability_sum(scores).1);
    } else {
        assert(count_over(c, reported(c).take(0)) == 0);
        assert(probability_sum(scores) == (0int, 1int));
        assert(reported(c).take(scores.len() as int) =~= reported(c).take(0));
        let z = probability_sum(scores).0;
        assert(z * c.total == 0) by (nonlinear_arith)
            requires
                z == 0,
        ;
    }
}

/// The reported probabilities and the implicit share of hands in no category add up to one.
pub proof fn lemma_scores_sum_to_one(scores: Seq<PartialScore>, c: Counts)
    requires
        scores_match(scores, c),
        c.wf(),
        c.total > 0,
    ensures
        ({
            let sum = ratio_add(probability_sum(scores), (c.uncategorized(), c.total as int));
            sum.0 == sum.1
        }),
{
    lemma_probability_sum(scores, c);
    assert(reported(c).take(scores.len() as int) =~= reported(c));
    lemma_count_over_reported(c, report_order());
    assert(count_over(c, report_order()) == c.categorized()) by {
        reveal_with_fuel(count_over, 10);
    }
    let (a, b) = probability_sum(scores);
    let t = c.total as int;
    let s = c.categorized() as int;
    assert(a * t + (t - s) * b == b * t) by (nonlinear_arith)
        requires
            a * t == s * b,
    ;
}

/// The sum of probability times points over `scores`, as a (numerator, denominator) pair.
pub open spec fn points_sum(scores: Seq<PartialScore>) -> (int, int)
    decreases scores.len(),
{
    if scores.len() == 0 {
        (0, 1)
    } else {
        ratio_add(
            points_sum(scores.drop_last()),
            (
                scores.last().probability.numer * points_of(scores.last().category),
                scores.last().probability.denom as int,
            ),
        )
    }
}

/// The points of the hands counted in `c` over the categories `cats`.
pub open spec fn points_over(c: Counts, cats: Seq<Category>) -> nat
    decreases cats.len(),
{
    if cats.len() == 0 {
        0
    } else {
        points_over(c, cats.drop_last()) + c.points(cats.last())
    }
}

proof fn lemma_points_over_reported(c: Counts, cats: Seq<Category>)
    ensures
        points_over(c, cats.filter(|x: Category| c.count(x) != 0)) == points_over(c, cats),
    decreases cats.len(),
{
    reveal(Seq::filter);
    if cats.len() > 0 {
        lemma_points_over_reported(c, cats.drop_last());
        let f = cats.drop_last().filter(|x: Category| c.count(x) != 0);
        if c.count(cats.last()) != 0 {
            assert(f.push(cats.last()).drop_last() =~= f);
        }
    }
}

proof fn lemma_points_is_product(c: Counts, x: Category)
    ensures
        c.points(x) == c.count(x) * points_of(x),
{
}

proof fn lemma_scaled(n: int, t: int, k: int, d: int, w: int)
    requires
        n * t == k * d,
    ensures
        (n * w) * t == (k * w) * d,
{
    assert((n * w) * t == (n * t) * w) by (nonlinear_arith);
    assert((k * w) * d == (k * d) * w) by (nonlinear_arith);
}

/// Adding `n / d`, which equals `k / t`, to `a / b`, which equals `s / t`, gives `(s + k) / t`.
proof fn lemma_cross_sum(a: int, b: int, s: int, n: int, d: int, k: int, t: int)
    requires
        a * t == s * b,
        n * t == k * d,
    ensures
        (a * d + n * b) * t == (s + k) * (b * d),
{
    assert((a * d + n * b) * t == (a * t) * d + (n * t) * b) by (nonlinear_arith);
    assert((s * b) * d + (k * d) * b == (s + k) * (b * d)) by (nonlinear_arith);
}

/// Probability times points, summed over the first scores, equals their points over `total`.
pub proof fn lemma_points_sum(scores: Seq<PartialScore>, c: Counts)
    requires
        c.total > 0,
        scores.len() <= reported(c).len(),
        forall|j: int|
            0 <= j < scores.len() ==> {
                &&& (#[trigger] scores[j]).category == reported(c)[j]
                &&& scores[j].probability.wf()
                &&& scores[j].probability.has_value(c.count(scores[j].category) as int, c.total as int)
            },
    ensures
        points_sum(scores).1 > 0,
        points_sum(scores).0 * c.total == points_over(c, reported(c).take(scores.len() as int))
            * points_sum(scores).1,
    decreases scores.len(),
{
    if scores.len() == 0 {
        assert(reported(c).take(0) =~= Seq::<Category>::empty());
    }
    if scores.len() > 0 {
        let rest = scores.drop_last();
        lemma_points_sum(rest, c);
        let m = scores.len() - 1;
        assert(reported(c).take(m + 1).drop_last() =~= reported(c).take(m));
        assert(forall|j: int| 0 <= j < rest.len() ==> #[trigger] rest[j] == scores[j]);
        let (a, b) = points_sum(rest);
        let w = points_of(scores[m].category) as int;
        let (n, d) = (scores[m].probability.numer as int, scores[m].probability.denom as int);
        let t = c.total as int;
        let s = points_over(c, reported(c).take(m)) as int;
        let k = c.count(scores[m].category) as int;
        assert(scores.last() == scores[m]);
        let nw = n * w;
        let kw = k * w;
        lemma_points_is_product(c, scores[m].category);
        lemma_scaled(n, t, k, d, w);
        lemma_cross_sum(a, b, s, nw, d, kw, t);
        assert(b * d > 0) by (nonlinear_arith)
            requires
                b > 0,
                d > 0,
        ;
        assert(points_over(c, reported(c).take(m + 1)) == s + kw);
        assert(points_sum(scores) == (a * d + nw * b, b * d));
        assert(points_sum(scores).0 * t == (s + kw) * points_sum(scores).1);
        assert(points_sum(scores).0 * c.total == points_over(c, reported(c).take(scores.len() as int))
            * points_sum(scores).1);
    } else {
        assert(points_over(c, reported(c).take(0)) == 0);
        assert(points_sum(scores) == (0int, 1int));
        assert(reported(c).take(scores.len() as int) =~= reported(c).take(0));
        let z = points_sum(scores).0;
        assert(z * c.total == 0) by (nonlinear_arith)
            requires
                z == 0,
        ;
    }
}

/// Summed over every reported category, probability times points is the points of all
/// counted hands over their number.
pub proof fn lemma_reported_points(scores: Seq<PartialScore>, c: Counts)
    requires
        scores_match(scores, c),
        c.total > 0,
    ensures
        points_sum(scores).1 > 0,
        points_sum(scores).0 * c.total == points_over(c, report_order()) * points_sum(scores).1,
{
    lemma_points_sum(scores, c);
    assert(reported(c).take(scores.len() as int) =~= reported(c));
    lemma_points_over_reported(c, report_order());
}

/// The sum of counts is commutative and associative, with `Counts::zero()` as its identity, so
/// partial tallies may be combined in any grouping and order.
pub proof fn lemma_plus_laws(a: Counts, b: Counts, c: Counts)
    ensures
        a.plus(b) == b.plus(a),
        a.plus(b).plus(c) == a.plus(b.plus(c)),
        a.plus(Counts::zero()) == a,
{
}

/// Counters of enumerated hands: all of them, and those of each category.
#[derive(Clone, Copy, Debug, PartialEq, Eq, Structural)]
pub struct Tally {
    pub enumerations: u64,
    pub pairs: u64,
    pub two_pairs: u64,
    pub three_of_a_kinds: u64,
    pub straights: u64,
    pub flushes: u64,
    pub full_houses: u64,
    pub four_of_a_kinds: u64,
    pub straight_flushes: u64,
    pub royal_flushes: u64,
}

impl Tally {
    pub open spec fn view(self) -> Counts {
        Counts {
            total: self.enumerations as nat,
            pair: self.pairs as nat,
            two_pair: self.two_pairs as nat,
            three_of_a_kind: self.three_of_a_kinds as nat,
            straight: self.straights as nat,
            flush: self.flushes as nat,
            full_house: self.full_houses as nat,
            four_of_a_kind: self.four_of_a_kinds as nat,
            straight_flush: self.straight_flushes as nat,
            royal_flush: self.royal_flushes as nat,
        }
    }

    /// The empty tally, identity of `add`.
    pub fn new() -> (r: Tally)
        ensures
            r@ == Counts::zero(),
    {
        Tally {
            enumerations: 0,
            pairs: 0,
            two_pairs: 0,
            three_of_a_kinds: 0,
            straights: 0,
            flushes: 0,
            full_houses: 0,
            four_of_a_kinds: 0,
            straight_flushes: 0,
            royal_flushes: 0,
        }
    }

    /// The tally of one enumerated hand of category `c`.
    pub fn from_category(c: Option<Category>) -> (r: Tally)
        ensures
            r@ == Counts::unit(c),
    {
        let mut r = Tally::new();
        r.enumerations = 1;
        match c {
            Some(Category::Pair) => r.pairs = 1,
            Some(Category::TwoPair) => r.two_pairs = 1,
            Some(Category::ThreeOfAKind) => r.three_of_a_kinds = 1,
            Some(Category::Straight) => r.straights = 1,
            Some(Category::Flush) => r.flushes = 1,
            Some(Category::FullHouse) => r.full_houses = 1,
            Some(Category::FourOfAKind) => r.four_of_a_kinds = 1,
            Some(Category::StraightFlush) => r.straight_flushes = 1,
            Some(Category::RoyalFlush) => r.royal_flushes = 1,
            None => {},
        }
        r
    }

    /// The sum of two tallies.
    pub fn add(self, other: Tally) -> (r: Tally)
        requires
            self@.wf(),
            other@.wf(),
            self@.total + other@.total <= u64::MAX,
        ensures
            r@ == self@.plus(other@),
    {
        Tally {
            enumerations: self.enumerations + other.enumerations,
            pairs: self.pairs + other.pairs,
            two_pairs: self.two_pairs + other.two_pairs,
            three_of_a_kinds: self.three_of_a_kinds + other.three_of_a_kinds,
            straights: self.straights + other.straights,
            flushes: self.flushes + other.flushes,
            full_houses: self.full_houses + other.full_houses,
            four_of_a_kinds: self.four_of_a_kinds + other.four_of_a_kinds,
            straight_flushes: self.straight_flushes + other.straight_flushes,
            royal_flushes: self.royal_flushes + other.royal_flushes,
        }
    }

    /// Adds `other` into this tally.
    pub fn add_assign(&mut self, other: Tally)
        requires
            old(self)@.wf(),
            other@.wf(),
            old(self)@.total + other@.total <= u64::MAX,
        ensures
            final(self)@ == old(self)@.plus(other@),
    {
        *self = Tally::add(*self, other);
    }

    /// The number of hands of category `c`.
    pub fn count(&self, c: Category) -> (r: u64)
        ensures
            r == self@.count(c),
    {
        match c {
            Category::Pair => self.pairs,
            Category::TwoPair => self.two_pairs,
            Category::ThreeOfAKind => self.three_of_a_kinds,
            Category::Straight => self.straights,
            Category::Flush => self.flushes,
            Category::FullHouse => self.full_houses,
            Category::FourOfAKind => self.four_of_a_kinds,
            Category::StraightFlush => self.straight_flushes,
            Category::RoyalFlush => self.royal_flushes,
        }
    }

    /// The probability of each category that occurred, highest value first; the share of
    /// hands in no category is left implicit.
    pub fn to_partial_scores(&self) -> (r: Vec<PartialScore>)
        requires
            self@.wf(),
        ensures
            scores_match(r@, self@),
    {
        let order = vec![
            Category::RoyalFlush,
            Category::StraightFlush,
            Category::FourOfAKind,
            Category::FullHouse,
            Category::Flush,
            Category::Straight,
            Category::ThreeOfAKind,
            Category::TwoPair,
            Category::Pair,
        ];
        assert(order@ =~= report_order());
        let ghost pred = |x: Category| self@.count(x) != 0;
        let mut result: Vec<PartialScore> = Vec::with_capacity(9);
        let mut i: usize = 0;
        while i < 9
            invariant
                0 <= i <= 9,
                order@ == report_order(),
                self@.wf(),
                pred == (|x: Category| self@.count(x) != 0),
                result@.len() == order@.take(i as int).filter(pred).len(),
                forall|j: int|
                    0 <= j < result@.len() ==> {
                        &&& (#[trigger] result@[j]).category == order@.take(i as int).filter(pred)[j]
                        &&& result@[j].probability.wf()
                        &&& result@[j].probability.has_value(
                            self@.count(result@[j].category) as int,
                            self@.total as int,
                        )
                    },
            decreases 9 - i,
        {
            let c = order[i];
            proof {
                reveal(Seq::filter);
                assert(order@.take(i + 1).drop_last() =~= order@.take(i as int));
                assert(order@.take(i + 1).last() == c);
            }
            let n = self.count(c);
            if n != 0 {
                let probability = Ratio::new(n, self.enumerations);
                result.push(PartialScore { category: c, probability });
            }
            i += 1;
        }
        assert(order@.take(9) =~= order@);
        result
    }
}

} // verus!
