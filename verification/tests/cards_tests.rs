use holdem_engine::cards::{card_from_index, encode, parse, parse_hand, Card, Suit, Value};
use holdem_engine::errors::PokerError;

#[test]
fn parse_valid_tokens() {
    assert_eq!(
        parse("Ad"),
        Ok(Card { value: Value::Ace, suit: Suit::Diamond })
    );
    assert_eq!(
        parse("kh"),
        Ok(Card { value: Value::King, suit: Suit::Heart })
    );
    assert_eq!(
        parse("Tc"),
        Ok(Card { value: Value::Ten, suit: Suit::Club })
    );
    assert_eq!(
        parse("2s"),
        Ok(Card { value: Value::Two, suit: Suit::Spade })
    );
    assert_eq!(parse("aD"), parse("Ad"));
}

#[test]
fn parse_invalid_tokens() {
    assert_eq!(parse("Xd"), Err(PokerError::InvalidCardFormat));
    assert_eq!(parse("A"), Err(PokerError::InvalidCardFormat));
    assert_eq!(parse("Add"), Err(PokerError::InvalidCardFormat));
    assert_eq!(parse("1d"), Err(PokerError::InvalidCardFormat));
    assert_eq!(parse("Ax"), Err(PokerError::InvalidCardFormat));
    assert_eq!(parse(""), Err(PokerError::InvalidCardFormat));
}

#[test]
fn encode_round_trips_every_card() {
    for i in 0..52u8 {
        let c = card_from_index(i);
        let token = encode(&c);
        assert_eq!(token.len(), 2);
        assert_eq!(parse(&token), Ok(c));
        // case-insensitive equivalence: upper-cased token parses the same
        let upper = token.to_uppercase();
        assert_eq!(parse(&upper), Ok(c));
        let lower = token.to_lowercase();
        assert_eq!(parse(&lower), Ok(c));
    }
}

#[test]
fn encode_canonical_examples() {
    let ad = Card { value: Value::Ace, suit: Suit::Diamond };
    assert_eq!(encode(&ad), "Ad");
    let ts = Card { value: Value::Ten, suit: Suit::Spade };
    assert_eq!(encode(&ts), "Ts");
    let two_c = Card { value: Value::Two, suit: Suit::Club };
    assert_eq!(encode(&two_c), "2c");
}

#[test]
fn parse_hand_valid() {
    let h = parse_hand("AdKh").unwrap();
    assert_eq!(h.len(), 2);
    assert_eq!(h[0], Card { value: Value::Ace, suit: Suit::Diamond });
    assert_eq!(h[1], Card { value: Value::King, suit: Suit::Heart });
    let h2 = parse_hand("adKH").unwrap();
    assert_eq!(h, h2);
    let h3 = parse_hand("2c3d4h5s6c").unwrap();
    assert_eq!(h3.len(), 5);
}

#[test]
fn parse_hand_bad_length() {
    assert_eq!(parse_hand(""), Err(PokerError::InvalidHandLength));
    assert_eq!(parse_hand("AdK"), Err(PokerError::InvalidHandLength));
    assert_eq!(parse_hand("A"), Err(PokerError::InvalidHandLength));
}

#[test]
fn parse_hand_bad_card() {
    assert_eq!(parse_hand("AdXh"), Err(PokerError::InvalidCardFormat));
    assert_eq!(parse_hand("ZZ"), Err(PokerError::InvalidCardFormat));
}
