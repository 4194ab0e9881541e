use poker_odds::cards::Rank::{Ace, Five, Four, Jack, King, Queen, Ten, Three, Two};
use poker_odds::cards::Suit::{Club, Diamond, Heart, Spade};
use poker_odds::cards::{Card, FullHand};
use poker_odds::parse::{hand_from_tokens, parse};

#[test]
fn test_parse_hand() {
    assert_eq!(
        parse("1d2d3d4d5d"),
        Ok(FullHand(
            Card(Ace, Diamond),
            Card(Two, Diamond),
            Card(Three, Diamond),
            Card(Four, Diamond),
            Card(Five, Diamond),
        ))
    );

    assert_eq!(
        parse("AD2D 3d.4d,5d"),
        Ok(FullHand(
            Card(Ace, Diamond),
            Card(Two, Diamond),
            Card(Three, Diamond),
            Card(Four, Diamond),
            Card(Five, Diamond),
        ))
    );

    assert_eq!(
        parse("10d11d12d13d1d"),
        Ok(FullHand(
            Card(Ten, Diamond),
            Card(Jack, Diamond),
            Card(Queen, Diamond),
            Card(King, Diamond),
            Card(Ace, Diamond),
        ))
    );

    assert_eq!(parse("1d2d3d4d"), Err(()));

    assert_eq!(parse("14d2d3d4d5d"), Err(()));

    assert_eq!(parse("1d1d2s3s4d"), Err(()));
}

#[test]
fn parse_letters_and_separators() {
    assert_eq!(
        parse("10D JD,QD.kD 1s\n"),
        Ok(FullHand(
            Card(Ten, Diamond),
            Card(Jack, Diamond),
            Card(Queen, Diamond),
            Card(King, Diamond),
            Card(Ace, Spade),
        ))
    );
    assert_eq!(parse("1c 2h 3s 4d 5c 6c"), Err(()));
    assert_eq!(parse(""), Err(()));
}

fn token(rank: &str, suit: &str) -> (Vec<char>, Vec<char>) {
    (rank.chars().collect(), suit.chars().collect())
}

#[test]
fn hand_from_typed_tokens() {
    let tokens = vec![token("1", "h"), token("13", "S"), token("q", "c"), token("J", "d"), token("9", "H")];
    let hand = hand_from_tokens(&tokens).unwrap();
    assert_eq!(hand.0, Card(Ace, Heart));
    assert_eq!(hand.1, Card(King, Spade));
    assert_eq!(hand.2, Card(Queen, Club));
    assert_eq!(hand.3, Card(Jack, Diamond));
    assert_eq!(hand.4.rank(), 9);

    let bad_suit = vec![token("1", "x"), token("2", "h"), token("3", "h"), token("4", "h"), token("5", "h")];
    assert_eq!(hand_from_tokens(&bad_suit), Err(()));
    let bad_rank = vec![token("0", "h"), token("2", "h"), token("3", "h"), token("4", "h"), token("5", "h")];
    assert_eq!(hand_from_tokens(&bad_rank), Err(()));
    assert_eq!(Card::try_from_tokens(&"10".chars().collect(), &"c".chars().collect()), Ok(Card(Ten, Club)));
    assert_eq!(Card::try_from_tokens(&"".chars().collect(), &"c".chars().collect()), Err(()));
}
