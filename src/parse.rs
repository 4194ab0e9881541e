//! Reading a dealt hand from typed text such as `10D JD QD KD AD` or `10d11d12d13d1d`.

use vstd::prelude::*;
use crate::cards::{Card, FullHand, Rank, Suit, rank_value};

verus! {

/// One card as typed: a rank (digits, or a letter for Ace, Jack, Queen, King), a suit letter,
/// then an optional separator.
pub const CARD_PATTERN: &'static str = r"((\d*|a|A|j|J|q|Q|k|K])([cCdDhHsS]))(?: |,|\.?)";

/// The second and third groups of each successive non-overlapping match of the regular
/// expression `pattern` in `input`, a group that took no part read as empty.
pub uninterp spec fn captured_groups(pattern: Seq<char>, input: Seq<char>) -> Seq<(Seq<char>, Seq<char>)>;

/// Relies on regex: `Regex::new` compiles `pattern` or fails (then `None`), and
/// `captures_iter` yields the successive non-overlapping matches in `input`, of which `get`
/// reads the second and third groups.
#[verifier::external_body]
fn capture_pairs(pattern: &str, input: &str) -> (r: Option<Vec<(Vec<char>, Vec<char>)>>)
    ensures
        r is Some ==> r->Some_0@.len() == captured_groups(pattern@, input@).len(),
        r is Some ==> forall|j: int| 0 <= j < r->Some_0@.len() ==>
            ((#[trigger] r->Some_0@[j]).0@, r->Some_0@[j].1@) == captured_groups(pattern@, input@)[j],
{
    let re = regex::Regex::new(pattern).ok()?;
    let group = |c: &regex::Captures, i: usize| -> Vec<char> { c.get(i).map_or(Vec::new(), |m| m.as_str().chars().collect()) };
    Some(re.captures_iter(input).map(|c| (group(&c, 2), group(&c, 3))).collect())
}

/// The rank value that a typed rank names: `1` to `13`, or `A`, `J`, `Q`, `K` in either case.
pub open spec fn rank_of_token(t: Seq<char>) -> Option<nat> {
    if t == seq!['1'] || t == seq!['A'] || t == seq!['a'] {
        Some(1)
    } else if t.len() == 1 && '2' <= t[0] <= '9' {
        Some((t[0] as nat - '0' as nat) as nat)
    } else if t == seq!['1', '0'] {
        Some(10)
    } else if t == seq!['1', '1'] || t == seq!['J'] || t == seq!['j'] {
        Some(11)
    } else if t == seq!['1', '2'] || t == seq!['Q'] || t == seq!['q'] {
        Some(12)
    } else if t == seq!['1', '3'] || t == seq!['K'] || t == seq!['k'] {
        Some(13)
    } else {
        None
    }
}

/// The suit that a typed suit letter names: `c`, `d`, `h` or `s` in either case.
pub open spec fn suit_of_token(t: Seq<char>) -> Option<Suit> {
    if t == seq!['c'] || t == seq!['C'] {
        Some(Suit::Club)
    } else if t == seq!['d'] || t == seq!['D'] {
        Some(Suit::Diamond)
    } else if t == seq!['h'] || t == seq!['H'] {
        Some(Suit::Heart)
    } else if t == seq!['s'] || t == seq!['S'] {
        Some(Suit::Spade)
    } else {
        None
    }
}

/// The card that a typed rank and suit name, if both are valid.
pub open spec fn card_of_tokens(rank: Seq<char>, suit: Seq<char>) -> Option<Card> {
    match (rank_of_token(rank), suit_of_token(suit)) {
        (Some(r), Some(s)) => Some(Card(crate::deck::rank_of(r as int), s)),
        _ => None,
    }
}

/// The hand that the typed cards name: exactly five of them, each valid, pairwise distinct.
pub open spec fn hand_of_tokens(tokens: Seq<(Seq<char>, Seq<char>)>) -> Option<FullHand> {
    let cards = Seq::new(tokens.len(), |j: int| card_of_tokens(tokens[j].0, tokens[j].1));
    if tokens.len() == 5 && (forall|j: int| 0 <= j < 5 ==> (#[trigger] cards[j]) is Some) {
        let h = FullHand(cards[0]->Some_0, cards[1]->Some_0, cards[2]->Some_0, cards[3]->Some_0, cards[4]->Some_0);
        if h.wf() {
            Some(h)
        } else {
            None
        }
    } else {
        None
    }
}

fn rank_token(t: &Vec<char>) -> (r: Option<usize>)
    ensures
        r is Some <==> rank_of_token(t@) is Some,
        r is Some ==> r->Some_0 == rank_of_token(t@)->Some_0 && 1 <= r->Some_0 <= 13,
{
    if t.len() == 1 {
        let c = t[0];
        if c == '1' || c == 'A' || c == 'a' {
            assert(t@ =~= seq![c]);
            Some(1)
        } else if '2' <= c && c <= '9' {
            Some((c as u32 - '0' as u32) as usize)
        } else if c == 'J' || c == 'j' {
            assert(t@ =~= seq![c]);
            Some(11)
        } else if c == 'Q' || c == 'q' {
            assert(t@ =~= seq![c]);
            Some(12)
        } else if c == 'K' || c == 'k' {
            assert(t@ =~= seq![c]);
            Some(13)
        } else {
            None
        }
    } else if t.len() == 2 && t[0] == '1' && '0' <= t[1] && t[1] <= '3' {
        assert(t@ =~= seq!['1', t@[1]]);
        Some(10 + (t[1] as u32 - '0' as u32) as usize)
    } else {
        None
    }
}

fn suit_token(t: &Vec<char>) -> (r: Option<Suit>)
    ensures
        r == suit_of_token(t@),
{
    if t.len() != 1 {
        return None;
    }
    let c = t[0];
    assert(t@ =~= seq![c]);
    if c == 'c' || c == 'C' {
        Some(Suit::Club)
    } else if c == 'd' || c == 'D' {
        Some(Suit::Diamond)
    } else if c == 'h' || c == 'H' {
        Some(Suit::Heart)
    } else if c == 's' || c == 'S' {
        Some(Suit::Spade)
    } else {
        None
    }
}

impl Card {
    /// The card that a typed rank and suit name, or `Err` when either is not valid.
    pub fn try_from_tokens(rank: &Vec<char>, suit: &Vec<char>) -> (r: Result<Card, ()>)
        ensures
            r is Ok <==> card_of_tokens(rank@, suit@) is Some,
            r is Ok ==> r->Ok_0 == card_of_tokens(rank@, suit@)->Some_0,
    {
        match (rank_token(rank), suit_token(suit)) {
            (Some(r), Some(s)) => {
                let rank = Rank::from_index(r - 1);
                proof {
                    assert(rank == crate::deck::rank_of(r as int)) by {
                        assert(rank_value(rank) == r);
                    }
                }
                Ok(Card(rank, s))
            },
            _ => Err(()),
        }
    }
}

/// The hand that the typed cards `tokens` (rank and suit of each) name, or `Err` unless there
/// are exactly five, each valid, pairwise distinct.
pub fn hand_from_tokens(tokens: &Vec<(Vec<char>, Vec<char>)>) -> (r: Result<FullHand, ()>)
    ensures
        r is Ok <==> hand_of_tokens(tokens@.map_values(|t: (Vec<char>, Vec<char>)| (t.0@, t.1@))) is Some,
        r is Ok ==> r->Ok_0 == hand_of_tokens(tokens@.map_values(|t: (Vec<char>, Vec<char>)| (t.0@, t.1@)))->Some_0,
{
    let ghost ts = tokens@.map_values(|t: (Vec<char>, Vec<char>)| (t.0@, t.1@));
    let ghost cards = Seq::new(ts.len(), |j: int| card_of_tokens(ts[j].0, ts[j].1));
    let mut hand: Vec<Card> = Vec::with_capacity(5);
    let mut i: usize = 0;
    while i < tokens.len()
        invariant
            0 <= i <= tokens@.len(),
            ts == tokens@.map_values(|t: (Vec<char>, Vec<char>)| (t.0@, t.1@)),
            cards == Seq::new(ts.len(), |j: int| card_of_tokens(ts[j].0, ts[j].1)),
            hand@.len() == i,
            forall|j: int| 0 <= j < i ==> (#[trigger] cards[j]) == Some(hand@[j]),
        decreases tokens@.len() - i,
    {
        match Card::try_from_tokens(&tokens[i].0, &tokens[i].1) {
            Ok(card) => hand.push(card),
            Err(()) => {
                assert(cards[i as int] is None);
                return Err(());
            },
        }
        i += 1;
    }
    if hand.len() != 5 {
        return Err(());
    }
    let h = FullHand(hand[0], hand[1], hand[2], hand[3], hand[4]);
    assert(h@ =~= hand@);
    if !crate::enumerate::all_distinct(&hand) {
        return Err(());
    }
    Ok(h)
}

/// The hand typed in `input`: five cards, each a rank then a suit, as `CARD_PATTERN` reads them.
/// It is `Err` when the typed cards are not exactly five valid and pairwise distinct cards.
pub fn parse(input: &str) -> (r: Result<FullHand, ()>)
    ensures
        r is Ok ==> hand_of_tokens(captured_groups(CARD_PATTERN@, input@)) == Some(r->Ok_0),
        hand_of_tokens(captured_groups(CARD_PATTERN@, input@)) is None ==> r is Err,
{
    match capture_pairs(CARD_PATTERN, input) {
        Some(tokens) => {
            let r = hand_from_tokens(&tokens);
            assert(tokens@.map_values(|t: (Vec<char>, Vec<char>)| (t.0@, t.1@)) =~= captured_groups(CARD_PATTERN@, input@));
            r
        },
        None => Err(()),
    }
}

} // verus!
