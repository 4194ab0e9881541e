//! Ranks, suits, cards, hands and the scoring categories.

use vstd::prelude::*;

verus! {

/// One of the four suits of a standard pack.
#[derive(Clone, Copy, Debug, PartialEq, Eq, Structural)]
pub enum Suit {
    Club,
    Diamond,
    Heart,
    Spade,
}

/// One of the thirteen ranks, Ace counted as one.
#[derive(Clone, Copy, Debug, PartialEq, Eq, Structural)]
pub enum Rank {
    Ace,
    Two,
    Three,
    Four,
    Five,
    Six,
    Seven,
    Eight,
    Nine,
    Ten,
    Jack,
    Queen,
    King,
}

/// The error of `Rank::from_number` on a number outside `1..=13`.
#[derive(Clone, Copy, Debug, PartialEq, Eq, Structural)]
pub struct InvalidRank;

/// The numeric value of a rank: Ace is 1, King is 13.
pub open spec fn rank_value(r: Rank) -> nat {
    match r {
        Rank::Ace => 1,
        Rank::Two => 2,
        Rank::Three => 3,
        Rank::Four => 4,
        Rank::Five => 5,
        Rank::Six => 6,
        Rank::Seven => 7,
        Rank::Eight => 8,
        Rank::Nine => 9,
        Rank::Ten => 10,
        Rank::Jack => 11,
        Rank::Queen => 12,
        Rank::King => 13,
    }
}

/// The position of a suit in the order club, diamond, heart, spade.
pub open spec fn suit_index(s: Suit) -> nat {
    match s {
        Suit::Club => 0,
        Suit::Diamond => 1,
        Suit::Heart => 2,
        Suit::Spade => 3,
    }
}

impl Rank {
    /// The rank whose value is `n`, or `InvalidRank` when `n` is not in `1..=13`.
    pub fn from_number(n: u8) -> (r: Result<Rank, InvalidRank>)
        ensures
            1 <= n <= 13 <==> r is Ok,
            r is Ok ==> rank_value(r->Ok_0) == n,
    {
        if 1 <= n && n <= 13 {
            Ok(Rank::from_index((n - 1) as usize))
        } else {
            Err(InvalidRank)
        }
    }

    /// The rank at position `i` of the order Ace, Two, ..., King.
    pub fn from_index(i: usize) -> (r: Rank)
        requires
            i < 13,
        ensures
            rank_value(r) == i + 1,
    {
        match i {
            0 => Rank::Ace,
            1 => Rank::Two,
            2 => Rank::Three,
            3 => Rank::Four,
            4 => Rank::Five,
            5 => Rank::Six,
            6 => Rank::Seven,
            7 => Rank::Eight,
            8 => Rank::Nine,
            9 => Rank::Ten,
            10 => Rank::Jack,
            11 => Rank::Queen,
            _ => Rank::King,
        }
    }

    /// The numeric value of this rank.
    pub fn value(&self) -> (r: usize)
        ensures
            r == rank_value(*self),
            1 <= r <= 13,
    {
        match self {
            Rank::Ace => 1,
            Rank::Two => 2,
            Rank::Three => 3,
            Rank::Four => 4,
            Rank::Five => 5,
            Rank::Six => 6,
            Rank::Seven => 7,
            Rank::Eight => 8,
            Rank::Nine => 9,
            Rank::Ten => 10,
            Rank::Jack => 11,
            Rank::Queen => 12,
            Rank::King => 13,
        }
    }
}

impl Suit {
    /// The position of this suit in the order club, diamond, heart, spade.
    pub fn index(&self) -> (r: usize)
        ensures
            r == suit_index(*self),
    {
        match self {
            Suit::Club => 0,
            Suit::Diamond => 1,
            Suit::Heart => 2,
            Suit::Spade => 3,
        }
    }
}

/// A playing card: a rank and a suit.
#[derive(Clone, Copy, Debug, PartialEq, Eq, Structural)]
pub struct Card(pub Rank, pub Suit);

impl Card {
    pub open spec fn rank_spec(self) -> nat {
        rank_value(self.0)
    }

    /// The rank of this card as a number in `1..=13`.
    pub fn rank(&self) -> (r: usize)
        ensures
            r == self.rank_spec(),
            1 <= r <= 13,
    {
        self.0.value()
    }

    /// The suit of this card.
    pub fn suit(&self) -> (r: Suit)
        ensures
            r == self.1,
    {
        self.1
    }
}

/// Five cards dealt to the player.
#[derive(Clone, Copy, Debug, PartialEq, Eq, Structural)]
pub struct FullHand(pub Card, pub Card, pub Card, pub Card, pub Card);

impl FullHand {
    /// The five cards in the order they were dealt.
    pub open spec fn view(self) -> Seq<Card> {
        seq![self.0, self.1, self.2, self.3, self.4]
    }

    /// A hand is well formed when its five cards are pairwise distinct.
    pub open spec fn wf(self) -> bool {
        self@.no_duplicates()
    }

    /// The five cards as a vector, in the order they were dealt.
    pub fn to_vec(&self) -> (r: Vec<Card>)
        ensures
            r@ == self@,
    {
        let r = vec![self.0, self.1, self.2, self.3, self.4];
        assert(r@ =~= self@);
        r
    }
}

/// A scoring category of a five-card hand, from lowest to highest.
#[derive(Clone, Copy, Debug, PartialEq, Eq, Structural)]
pub enum Category {
    Pair,
    TwoPair,
    ThreeOfAKind,
    Straight,
    Flush,
    FullHouse,
    FourOfAKind,
    StraightFlush,
    RoyalFlush,
}

/// The fixed number of points that each category is worth.
pub open spec fn points_of(c: Category) -> nat {
    match c {
        Category::Pair => 2,
        Category::TwoPair => 3,
        Category::ThreeOfAKind => 4,
        Category::Straight => 8,
        Category::Flush => 10,
        Category::FullHouse => 15,
        Category::FourOfAKind => 50,
        Category::StraightFlush => 100,
        Category::RoyalFlush => 500,
    }
}

pub const PAIR_POINTS: u64 = 2;
pub const TWO_PAIR_POINTS: u64 = 3;
pub const THREE_OF_A_KIND_POINTS: u64 = 4;
pub const STRAIGHT_POINTS: u64 = 8;
pub const FLUSH_POINTS: u64 = 10;
pub const FULL_HOUSE_POINTS: u64 = 15;
pub const FOUR_OF_A_KIND_POINTS: u64 = 50;
pub const STRAIGHT_FLUSH_POINTS: u64 = 100;
pub const ROYAL_FLUSH_POINTS: u64 = 500;

impl Category {
    /// The points this category is worth.
    pub fn points(&self) -> (r: u64)
        ensures
            r == points_of(*self),
            1 <= r <= 500,
    {
        match self {
            Category::Pair => PAIR_POINTS,
            Category::TwoPair => TWO_PAIR_POINTS,
            Category::ThreeOfAKind => THREE_OF_A_KIND_POINTS,
            Category::Straight => STRAIGHT_POINTS,
            Category::Flush => FLUSH_POINTS,
            Category::FullHouse => FULL_HOUSE_POINTS,
            Category::FourOfAKind => FOUR_OF_A_KIND_POINTS,
            Category::StraightFlush => STRAIGHT_FLUSH_POINTS,
            Category::RoyalFlush => ROYAL_FLUSH_POINTS,
        }
    }
}

} // verus!
