//! The cards not yet seen, with per-suit and per-rank counters.

use vstd::prelude::*;
use crate::cards::{Card, FullHand, Rank, Suit, rank_value, suit_index};
use crate::classify::{count_where, lemma_count_where_step, rank_count};

verus! {

/// The rank whose value is `n`, for `n` in `1..=13`.
pub open spec fn rank_of(n: int) -> Rank {
    if n == 1 {
        Rank::Ace
    } else if n == 2 {
        Rank::Two
    } else if n == 3 {
        Rank::Three
    } else if n == 4 {
        Rank::Four
    } else if n == 5 {
        Rank::Five
    } else if n == 6 {
        Rank::Six
    } else if n == 7 {
        Rank::Seven
    } else if n == 8 {
        Rank::Eight
    } else if n == 9 {
        Rank::Nine
    } else if n == 10 {
        Rank::Ten
    } else if n == 11 {
        Rank::Jack
    } else if n == 12 {
        Rank::Queen
    } else {
        Rank::King
    }
}

/// The suit at position `n` of the order club, diamond, heart, spade.
pub open spec fn suit_of(n: int) -> Suit {
    if n == 0 {
        Suit::Club
    } else if n == 1 {
        Suit::Diamond
    } else if n == 2 {
        Suit::Heart
    } else {
        Suit::Spade
    }
}

/// The card at position `i` of a fresh deck: Ace to King of clubs, then of diamonds, hearts
/// and spades.
pub open spec fn card_at(i: int) -> Card {
    Card(rank_of(i % 13 + 1), suit_of(i / 13))
}

/// The 52 cards of a fresh deck, in order.
pub open spec fn fresh_cards() -> Seq<Card> {
    Seq::new(52, |i: int| card_at(i))
}

/// The number of copies of `c` in `s`.
pub open spec fn card_count(s: Seq<Card>, c: Card) -> nat {
    count_where(s, |x: Card| x == c)
}

/// The number of cards of suit `suit` in `s`.
pub open spec fn suit_count(s: Seq<Card>, suit: Suit) -> nat {
    count_where(s, |x: Card| x.1 == suit)
}

/// Replacing one element changes a count by what leaves and what enters.
proof fn lemma_count_update(s: Seq<Card>, i: int, x: Card, p: spec_fn(Card) -> bool)
    requires
        0 <= i < s.len(),
    ensures
        count_where(s.update(i, x), p) + (if p(s[i]) { 1int } else { 0int }) == count_where(s, p)
            + (if p(x) { 1int } else { 0int }),
    decreases s.len(),
{
    let t = s.update(i, x);
    if i < s.len() - 1 {
        assert(t.drop_last() =~= s.drop_last().update(i, x));
        lemma_count_update(s.drop_last(), i, x, p);
    } else {
        assert(t.drop_last() =~= s.drop_last());
    }
}

/// Removing the element at `i` by moving the last one into its place lowers a count by what left.
proof fn lemma_count_swap_remove(s: Seq<Card>, i: int, p: spec_fn(Card) -> bool)
    requires
        0 <= i < s.len(),
    ensures
        count_where(s.update(i, s.last()).drop_last(), p) + (if p(s[i]) { 1int } else { 0int })
            == count_where(s, p),
{
    let t = s.update(i, s.last());
    lemma_count_update(s, i, s.last(), p);
    assert(t.last() == s.last());
}

/// A card counted in `s` occurs at some position of it.
proof fn lemma_card_witness(s: Seq<Card>, c: Card)
    requires
        card_count(s, c) > 0,
    ensures
        exists|i: int| 0 <= i < s.len() && #[trigger] s[i] == c,
    decreases s.len(),
{
    if s.last() == c {
        assert(s[s.len() - 1] == c);
    } else {
        lemma_card_witness(s.drop_last(), c);
        let i = choose|i: int| 0 <= i < s.drop_last().len() && #[trigger] s.drop_last()[i] == c;
        assert(s[i] == c);
    }
}

/// In a sequence without duplicates each card occurs at most once.
proof fn lemma_count_distinct(s: Seq<Card>, c: Card)
    requires
        s.no_duplicates(),
    ensures
        card_count(s, c) == if s.contains(c) { 1nat } else { 0nat },
    decreases s.len(),
{
    if s.len() > 0 {
        let t = s.drop_last();
        assert(t.no_duplicates());
        lemma_count_distinct(t, c);
        if s.contains(c) && s.last() != c {
            let i = choose|i: int| 0 <= i < s.len() && s[i] == c;
            assert(t[i] == c);
        }
        if t.contains(c) {
            let i = choose|i: int| 0 <= i < t.len() && t[i] == c;
            assert(s[i] == c);
        }
    }
}

/// The fresh deck holds each of the 52 cards exactly once.
proof fn lemma_fresh_cards(c: Card)
    ensures
        card_count(fresh_cards(), c) == 1,
{
    let s = fresh_cards();
    assert forall|i: int, j: int| 0 <= i < 52 && 0 <= j < 52 && i != j implies s[i] != s[j] by {
        assert(rank_value(rank_of(i % 13 + 1)) == i % 13 + 1);
        assert(rank_value(rank_of(j % 13 + 1)) == j % 13 + 1);
        assert(suit_index(suit_of(i / 13)) == i / 13);
        assert(suit_index(suit_of(j / 13)) == j / 13);
    }
    let k = suit_index(c.1) * 13 + rank_value(c.0) - 1;
    assert(s[k] == c);
    lemma_count_distinct(s, c);
}

impl Card {
    /// The position of this card in a fresh deck.
    pub fn index(&self) -> (r: usize)
        ensures
            r < 52,
            card_at(r as int) == *self,
    {
        let r = self.1.index() * 13 + self.0.value() - 1;
        assert(rank_of(r as int % 13 + 1) == self.0);
        r
    }
}

/// The cards still to be drawn from, with counters of the cards of each suit and each rank.
pub struct Deck {
    clubs: usize,
    diamonds: usize,
    hearts: usize,
    spades: usize,
    ranks: Vec<usize>,
    cards: Vec<Card>,
}

impl Deck {
    /// The cards of the deck, in their current order.
    pub closed spec fn view(&self) -> Seq<Card> {
        self.cards@
    }

    /// Every counter equals the number of cards of its suit or rank.
    pub closed spec fn wf(&self) -> bool {
        &&& self.clubs == suit_count(self.cards@, Suit::Club)
        &&& self.diamonds == suit_count(self.cards@, Suit::Diamond)
        &&& self.hearts == suit_count(self.cards@, Suit::Heart)
        &&& self.spades == suit_count(self.cards@, Suit::Spade)
        &&& self.ranks@.len() == 13
        &&& forall|j: int| 0 <= j < 13 ==> #[trigger] self.ranks@[j] == rank_count(self.cards@, (j + 1) as nat)
    }

    /// A deck of the given cards, its counters computed from them.
    pub fn from_cards(cards: Vec<Card>) -> (r: Deck)
        ensures
            r.wf(),
            r@ == cards@,
    {
        let mut clubs: usize = 0;
        let mut diamonds: usize = 0;
        let mut hearts: usize = 0;
        let mut spades: usize = 0;
        let mut ranks: Vec<usize> = vec![0usize; 13];
        let mut i: usize = 0;
        while i < cards.len()
            invariant
                0 <= i <= cards@.len(),
                clubs == suit_count(cards@.take(i as int), Suit::Club),
                diamonds == suit_count(cards@.take(i as int), Suit::Diamond),
                hearts == suit_count(cards@.take(i as int), Suit::Heart),
                spades == suit_count(cards@.take(i as int), Suit::Spade),
                clubs + diamonds + hearts + spades == i,
                ranks@.len() == 13,
                forall|j: int| 0 <= j < 13 ==> #[trigger] ranks@[j] == rank_count(cards@.take(i as int), (j + 1) as nat),
                forall|j: int| 0 <= j < 13 ==> #[trigger] ranks@[j] <= i,
            decreases cards@.len() - i,
        {
            let card = cards[i];
            proof {
                lemma_count_where_step(cards@, i as int, |x: Card| x.1 == Suit::Club);
                lemma_count_where_step(cards@, i as int, |x: Card| x.1 == Suit::Diamond);
                lemma_count_where_step(cards@, i as int, |x: Card| x.1 == Suit::Heart);
                lemma_count_where_step(cards@, i as int, |x: Card| x.1 == Suit::Spade);
                assert forall|j: int| 0 <= j < 13 implies #[trigger] rank_count(cards@.take(i + 1), (j + 1) as nat)
                    == rank_count(cards@.take(i as int), (j + 1) as nat) + if card.rank_spec() == j + 1 { 1nat } else { 0nat } by {
                    lemma_count_where_step(cards@, i as int, |c: Card| c.rank_spec() == (j + 1) as nat);
                }
            }
            match card.suit() {
                Suit::Club => clubs += 1,
                Suit::Diamond => diamonds += 1,
                Suit::Heart => hearts += 1,
                Suit::Spade => spades += 1,
            }
            let r = card.rank();
            ranks[r - 1] = ranks[r - 1] + 1;
            i += 1;
        }
        assert(cards@.take(cards@.len() as int) =~= cards@);
        Deck { clubs, diamonds, hearts, spades, ranks, cards }
    }

    /// A fresh deck of all 52 cards.
    pub fn new() -> (r: Deck)
        ensures
            r.wf(),
            r@ == fresh_cards(),
    {
        let suits = vec![Suit::Club, Suit::Diamond, Suit::Heart, Suit::Spade];
        let mut cards: Vec<Card> = Vec::with_capacity(52);
        let mut s: usize = 0;
        while s < 4
            invariant
                0 <= s <= 4,
                suits@ == seq![Suit::Club, Suit::Diamond, Suit::Heart, Suit::Spade],
                cards@ =~= fresh_cards().take(13 * s as int),
            decreases 4 - s,
        {
            let mut v: usize = 1;
            while v <= 13
                invariant
                    0 <= s < 4,
                    1 <= v <= 14,
                    suits@ == seq![Suit::Club, Suit::Diamond, Suit::Heart, Suit::Spade],
                    cards@ =~= fresh_cards().take(13 * s + v - 1),
                decreases 14 - v,
            {
                let rank = Rank::from_index(v - 1);
                let card = Card(rank, suits[s]);
                proof {
                    let k = 13 * s + v - 1;
                    assert(k % 13 == v - 1 && k / 13 == s);
                    assert(card == card_at(k));
                    assert(fresh_cards().take(k + 1) =~= fresh_cards().take(k).push(card));
                }
                cards.push(card);
                v += 1;
            }
            s += 1;
        }
        assert(fresh_cards().take(52) =~= fresh_cards());
        Deck::from_cards(cards)
    }

    /// The number of cards in the deck.
    pub fn size(&self) -> (r: usize)
        ensures
            r == self@.len(),
    {
        self.cards.len()
    }

    /// The cards of the deck, in their current order.
    pub fn cards(&self) -> (r: &Vec<Card>)
        ensures
            r@ == self@,
    {
        &self.cards
    }

    /// The deck without `card`, which it must hold exactly once. The last card takes the place
    /// of the removed one, so the order of the others is not kept.
    pub fn take_card(self, card: &Card) -> (r: Deck)
        requires
            self.wf(),
            card_count(self@, *card) == 1,
        ensures
            r.wf(),
            r@.len() == self@.len() - 1,
            exists|i: int|
                0 <= i < self@.len() && self@[i] == *card && r@ == self@.update(i, self@.last()).drop_last(),
            forall|x: Card| #[trigger] card_count(r@, x) == card_count(self@, x) - if x == *card { 1int } else { 0int },
    {
        let mut d = self;
        let ghost s = d.cards@;
        let ghost target = *card;
        proof {
            lemma_card_witness(s, target);
        }
        let mut i: usize = 0;
        while i < d.cards.len()
            invariant
                d == self,
                s == self.cards@,
                self.wf(),
                0 <= i <= s.len(),
                forall|j: int| 0 <= j < i ==> s[j] != *card,
                exists|j: int| 0 <= j < s.len() && #[trigger] s[j] == *card,
            decreases s.len() - i,
        {
            if d.cards[i] == *card {
                proof {
                    let rem = s.update(i as int, s.last()).drop_last();
                    lemma_count_swap_remove(s, i as int, |x: Card| x.1 == Suit::Club);
                    lemma_count_swap_remove(s, i as int, |x: Card| x.1 == Suit::Diamond);
                    lemma_count_swap_remove(s, i as int, |x: Card| x.1 == Suit::Heart);
                    lemma_count_swap_remove(s, i as int, |x: Card| x.1 == Suit::Spade);
                    assert forall|j: int| 0 <= j < 13 implies #[trigger] rank_count(rem, (j + 1) as nat)
                        + (if s[i as int].rank_spec() == j + 1 { 1int } else { 0int }) == rank_count(s, (j + 1) as nat) by {
                        lemma_count_swap_remove(s, i as int, |c: Card| c.rank_spec() == (j + 1) as nat);
                    }
                    assert forall|x: Card| #[trigger] card_count(rem, x) + (if x == *card { 1int } else { 0int })
                        == card_count(s, x) by {
                        lemma_count_swap_remove(s, i as int, |c: Card| c == x);
                    }
                }
                match card.suit() {
                    Suit::Club => d.clubs -= 1,
                    Suit::Diamond => d.diamonds -= 1,
                    Suit::Heart => d.hearts -= 1,
                    Suit::Spade => d.spades -= 1,
                }
                let r = card.rank();
                proof {
                    lemma_count_swap_remove(s, i as int, |c: Card| c.rank_spec() == r as nat);
                    assert(d.ranks@[r - 1] == rank_count(s, r as nat));
                }
                d.ranks[r - 1] = d.ranks[r - 1] - 1;
                d.cards.swap_remove(i);
                return d;
            }
            i += 1;
        }
        proof {
            let j = choose|j: int| 0 <= j < s.len() && #[trigger] s[j] == *card;
            assert(false);
        }
        d
    }

    /// A fresh deck without the five cards of `hand`: the cards the player has not seen.
    pub fn excluding(hand: &FullHand) -> (r: Deck)
        requires
            hand.wf(),
        ensures
            r.wf(),
            r@.len() == 47,
            forall|x: Card| #[trigger] card_count(r@, x) == if hand@.contains(x) { 0nat } else { 1nat },
    {
        let deck = Deck::new();
        proof {
            assert forall|x: Card| #[trigger] card_count(deck@, x) == 1 by {
                lemma_fresh_cards(x);
            }
            assert(hand@[0] == hand.0 && hand@[1] == hand.1 && hand@[2] == hand.2 && hand@[3] == hand.3 && hand@[4] == hand.4);
        }
        let deck = deck.take_card(&hand.0);
        let deck = deck.take_card(&hand.1);
        let deck = deck.take_card(&hand.2);
        let deck = deck.take_card(&hand.3);
        let deck = deck.take_card(&hand.4);
        proof {
            assert forall|x: Card| #[trigger] card_count(deck@, x) == if hand@.contains(x) { 0nat } else { 1nat } by {
                if hand@.contains(x) {
                    let i = choose|i: int| 0 <= i < 5 && hand@[i] == x;
                }
            }
        }
        deck
    }

    /// The number of cards of suit `suit` in the deck.
    pub fn suit_count(&self, suit: Suit) -> (r: usize)
        requires
            self.wf(),
        ensures
            r == suit_count(self@, suit),
    {
        match suit {
            Suit::Club => self.clubs,
            Suit::Diamond => self.diamonds,
            Suit::Heart => self.hearts,
            Suit::Spade => self.spades,
        }
    }

    /// The number of cards of rank `rank` in the deck.
    pub fn rank_count(&self, rank: Rank) -> (r: usize)
        requires
            self.wf(),
        ensures
            r == rank_count(self@, rank_value(rank)),
    {
        self.ranks[rank.value() - 1]
    }
}

} // verus!
