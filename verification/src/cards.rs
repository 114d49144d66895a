use vstd::prelude::*;
use vstd::string::*;

verus! {

use crate::errors::PokerError;

/// One of the four French suits.
#[derive(Clone, Copy, PartialEq, Eq, Structural, Debug)]
pub enum Suit {
    Club,
    Diamond,
    Heart,
    Spade,
}

/// A card's rank, from Two up to Ace (aces are high; only the wheel
/// straight treats the ace as low).
#[derive(Clone, Copy, PartialEq, Eq, Structural, Debug)]
pub enum Value {
    Two,
    Three,
    Four,
    Five,
    Six,
    Seven,
    Eight,
    Nine,
    Ten,
    Jack,
    Queen,
    King,
    Ace,
}

/// An immutable playing card: a (rank, suit) pair. Exactly 52 distinct
/// values exist.
#[derive(Clone, Copy, PartialEq, Eq, Structural, Debug)]
pub struct Card {
    pub value: Value,
    pub suit: Suit,
}

/// The numeric rank of a value: 2 for Two up to 14 for Ace.
pub open spec fn rank_num(v: Value) -> int {
    match v {
        Value::Two => 2,
        Value::Three => 3,
        Value::Four => 4,
        Value::Five => 5,
        Value::Six => 6,
        Value::Seven => 7,
        Value::Eight => 8,
        Value::Nine => 9,
        Value::Ten => 10,
        Value::Jack => 11,
        Value::Queen => 12,
        Value::King => 13,
        Value::Ace => 14,
    }
}

/// The index of a suit in the canonical club, diamond, heart, spade order.
pub open spec fn suit_num(s: Suit) -> int {
    match s {
        Suit::Club => 0,
        Suit::Diamond => 1,
        Suit::Heart => 2,
        Suit::Spade => 3,
    }
}

/// The canonical position of a card in the 52-card universe: cards are
/// numbered 0..52, grouped by rank and ordered by suit within a rank.
pub open spec fn card_index(c: Card) -> int {
    (rank_num(c.value) - 2) * 4 + suit_num(c.suit)
}

/// The rank character a value parses from and encodes to.
pub open spec fn value_char(v: Value) -> char {
    match v {
        Value::Two => '2',
        Value::Three => '3',
        Value::Four => '4',
        Value::Five => '5',
        Value::Six => '6',
        Value::Seven => '7',
        Value::Eight => '8',
        Value::Nine => '9',
        Value::Ten => 'T',
        Value::Jack => 'J',
        Value::Queen => 'Q',
        Value::King => 'K',
        Value::Ace => 'A',
    }
}

/// The suit character a suit parses from and encodes to.
pub open spec fn suit_char(s: Suit) -> char {
    match s {
        Suit::Club => 'c',
        Suit::Diamond => 'd',
        Suit::Heart => 'h',
        Suit::Spade => 's',
    }
}

/// The value a rank character denotes, case-insensitively; `None` when the
/// character is not in the rank alphabet.
pub open spec fn value_of_char(c: char) -> Option<Value> {
    if c == '2' {
        Some(Value::Two)
    } else if c == '3' {
        Some(Value::Three)
    } else if c == '4' {
        Some(Value::Four)
    } else if c == '5' {
        Some(Value::Five)
    } else if c == '6' {
        Some(Value::Six)
    } else if c == '7' {
        Some(Value::Seven)
    } else if c == '8' {
        Some(Value::Eight)
    } else if c == '9' {
        Some(Value::Nine)
    } else if c == 'T' || c == 't' {
        Some(Value::Ten)
    } else if c == 'J' || c == 'j' {
        Some(Value::Jack)
    } else if c == 'Q' || c == 'q' {
        Some(Value::Queen)
    } else if c == 'K' || c == 'k' {
        Some(Value::King)
    } else if c == 'A' || c == 'a' {
        Some(Value::Ace)
    } else {
        None
    }
}

/// The suit a suit character denotes, case-insensitively; `None` when the
/// character is not in the suit alphabet.
pub open spec fn suit_of_char(c: char) -> Option<Suit> {
    if c == 'c' || c == 'C' {
        Some(Suit::Club)
    } else if c == 'd' || c == 'D' {
        Some(Suit::Diamond)
    } else if c == 'h' || c == 'H' {
        Some(Suit::Heart)
    } else if c == 's' || c == 'S' {
        Some(Suit::Spade)
    } else {
        None
    }
}

/// The card a two-character token denotes, or `None` when either character
/// is outside its alphabet.
pub open spec fn parse_card_chars(rc: char, sc: char) -> Option<Card> {
    match (value_of_char(rc), suit_of_char(sc)) {
        (Some(value), Some(suit)) => Some(Card { value, suit }),
        _ => None,
    }
}

/// The canonical two-character token of a card, rank character first.
pub open spec fn token_of(c: Card) -> Seq<char> {
    seq![value_char(c.value), suit_char(c.suit)]
}

/// Whether a hand string of even length consists entirely of valid
/// two-character card tokens.
pub open spec fn tokens_ok(s: Seq<char>) -> bool {
    forall|i: int| 0 <= i < s.len() / 2 ==> #[trigger] parse_card_chars(s[2 * i], s[2 * i + 1]) is Some
}

/// The cards a hand string of valid tokens denotes, in order.
pub open spec fn cards_of(s: Seq<char>) -> Seq<Card> {
    Seq::new((s.len() / 2) as nat, |i: int| parse_card_chars(s[2 * i], s[2 * i + 1]).unwrap())
}

impl Card {
    /// The numeric rank of this card: 2..=14, aces high.
    pub fn rank(&self) -> (r: u8)
        ensures
            r as int == rank_num(self.value),
    {
        match self.value {
            Value::Two => 2,
            Value::Three => 3,
            Value::Four => 4,
            Value::Five => 5,
            Value::Six => 6,
            Value::Seven => 7,
            Value::Eight => 8,
            Value::Nine => 9,
            Value::Ten => 10,
            Value::Jack => 11,
            Value::Queen => 12,
            Value::King => 13,
            Value::Ace => 14,
        }
    }

    /// The index of this card's suit in club, diamond, heart, spade order.
    pub fn suit_index(&self) -> (r: u8)
        ensures
            r as int == suit_num(self.suit),
    {
        match self.suit {
            Suit::Club => 0,
            Suit::Diamond => 1,
            Suit::Heart => 2,
            Suit::Spade => 3,
        }
    }

    /// The canonical position of this card in the 52-card universe.
    pub fn index(&self) -> (r: u8)
        ensures
            r as int == card_index(*self),
            r < 52,
    {
        (self.rank() - 2) * 4 + self.suit_index()
    }
}

/// The value with a given numeric rank (2..=14).
pub open spec fn value_of_num(r: int) -> Value {
    if r == 2 {
        Value::Two
    } else if r == 3 {
        Value::Three
    } else if r == 4 {
        Value::Four
    } else if r == 5 {
        Value::Five
    } else if r == 6 {
        Value::Six
    } else if r == 7 {
        Value::Seven
    } else if r == 8 {
        Value::Eight
    } else if r == 9 {
        Value::Nine
    } else if r == 10 {
        Value::Ten
    } else if r == 11 {
        Value::Jack
    } else if r == 12 {
        Value::Queen
    } else if r == 13 {
        Value::King
    } else {
        Value::Ace
    }
}

/// The suit at a given index in the canonical suit order (0..=3).
pub open spec fn suit_of_num(s: int) -> Suit {
    if s == 0 {
        Suit::Club
    } else if s == 1 {
        Suit::Diamond
    } else if s == 2 {
        Suit::Heart
    } else {
        Suit::Spade
    }
}

/// The card at a canonical position in the 52-card universe; the
/// specification-level inverse of `card_index`.
pub open spec fn card_of(i: int) -> Card {
    Card { value: value_of_num(i / 4 + 2), suit: suit_of_num(i % 4) }
}

/// The card at a canonical position in the 52-card universe; the inverse of
/// `Card::index`.
pub fn card_from_index(i: u8) -> (c: Card)
    requires
        i < 52,
    ensures
        card_index(c) == i as int,
        c == card_of(i as int),
{
    let r: u8 = i / 4 + 2;
    let value = if r == 2 {
        Value::Two
    } else if r == 3 {
        Value::Three
    } else if r == 4 {
        Value::Four
    } else if r == 5 {
        Value::Five
    } else if r == 6 {
        Value::Six
    } else if r == 7 {
        Value::Seven
    } else if r == 8 {
        Value::Eight
    } else if r == 9 {
        Value::Nine
    } else if r == 10 {
        Value::Ten
    } else if r == 11 {
        Value::Jack
    } else if r == 12 {
        Value::Queen
    } else {
        Value::King
    };
    let value = if r == 14 { Value::Ace } else { value };
    let s: u8 = i % 4;
    let suit = if s == 0 {
        Suit::Club
    } else if s == 1 {
        Suit::Diamond
    } else if s == 2 {
        Suit::Heart
    } else {
        Suit::Spade
    };
    Card { value, suit }
}

/// Parses one two-character token, each character case-insensitive.
/// Returns `InvalidCardFormat` exactly when the token is not a valid rank
/// character followed by a valid suit character.
pub fn parse(token: &str) -> (r: Result<Card, PokerError>)
    ensures
        match r {
            Ok(c) => token@.len() == 2 && parse_card_chars(token@[0], token@[1]) == Some(c),
            Err(e) => e == PokerError::InvalidCardFormat && (token@.len() != 2
                || parse_card_chars(token@[0], token@[1]) is None),
        },
{
    if token.unicode_len() != 2 {
        return Err(PokerError::InvalidCardFormat);
    }
    let rc = token.get_char(0);
    let sc = token.get_char(1);
    parse_chars(rc, sc)
}

/// Parses a rank character and a suit character into a card.
pub fn parse_chars(rc: char, sc: char) -> (r: Result<Card, PokerError>)
    ensures
        match r {
            Ok(c) => parse_card_chars(rc, sc) == Some(c),
            Err(e) => e == PokerError::InvalidCardFormat && parse_card_chars(rc, sc) is None,
        },
{
    let value = if rc == '2' {
        Some(Value::Two)
    } else if rc == '3' {
        Some(Value::Three)
    } else if rc == '4' {
        Some(Value::Four)
    } else if rc == '5' {
        Some(Value::Five)
    } else if rc == '6' {
        Some(Value::Six)
    } else if rc == '7' {
        Some(Value::Seven)
    } else if rc == '8' {
        Some(Value::Eight)
    } else if rc == '9' {
        Some(Value::Nine)
    } else if rc == 'T' || rc == 't' {
        Some(Value::Ten)
    } else if rc == 'J' || rc == 'j' {
        Some(Value::Jack)
    } else if rc == 'Q' || rc == 'q' {
        Some(Value::Queen)
    } else if rc == 'K' || rc == 'k' {
        Some(Value::King)
    } else if rc == 'A' || rc == 'a' {
        Some(Value::Ace)
    } else {
        None
    };
    let suit = if sc == 'c' || sc == 'C' {
        Some(Suit::Club)
    } else if sc == 'd' || sc == 'D' {
        Some(Suit::Diamond)
    } else if sc == 'h' || sc == 'H' {
        Some(Suit::Heart)
    } else if sc == 's' || sc == 'S' {
        Some(Suit::Spade)
    } else {
        None
    };
    match (value, suit) {
        (Some(value), Some(suit)) => Ok(Card { value, suit }),
        _ => Err(PokerError::InvalidCardFormat),
    }
}

/// The rank character of a value, as a one-character string.
fn value_str(v: Value) -> (r: &'static str)
    ensures
        r@ == seq![value_char(v)],
{
    match v {
        Value::Two => {
            proof { reveal_strlit("2"); }
            "2"
        },
        Value::Three => {
            proof { reveal_strlit("3"); }
            "3"
        },
        Value::Four => {
            proof { reveal_strlit("4"); }
            "4"
        },
        Value::Five => {
            proof { reveal_strlit("5"); }
            "5"
        },
        Value::Six => {
            proof { reveal_strlit("6"); }
            "6"
        },
        Value::Seven => {
            proof { reveal_strlit("7"); }
            "7"
        },
        Value::Eight => {
            proof { reveal_strlit("8"); }
            "8"
        },
        Value::Nine => {
            proof { reveal_strlit("9"); }
            "9"
        },
        Value::Ten => {
            proof { reveal_strlit("T"); }
            "T"
        },
        Value::Jack => {
            proof { reveal_strlit("J"); }
            "J"
        },
        Value::Queen => {
            proof { reveal_strlit("Q"); }
            "Q"
        },
        Value::King => {
            proof { reveal_strlit("K"); }
            "K"
        },
        Value::Ace => {
            proof { reveal_strlit("A"); }
            "A"
        },
    }
}

/// The suit character of a suit, as a one-character string.
fn suit_str(s: Suit) -> (r: &'static str)
    ensures
        r@ == seq![suit_char(s)],
{
    match s {
        Suit::Club => {
            proof { reveal_strlit("c"); }
            "c"
        },
        Suit::Diamond => {
            proof { reveal_strlit("d"); }
            "d"
        },
        Suit::Heart => {
            proof { reveal_strlit("h"); }
            "h"
        },
        Suit::Spade => {
            proof { reveal_strlit("s"); }
            "s"
        },
    }
}

/// Encodes a card as its canonical two-character token, for example "Ad"
/// for the ace of diamonds.
pub fn encode(c: &Card) -> (r: String)
    ensures
        r@ == token_of(*c),
{
    let s = String::from_str(value_str(c.value));
    let r = s.concat(suit_str(c.suit));
    proof {
        assert(r@ =~= token_of(*c));
    }
    r
}

/// Encoding any card and parsing the token back yields the same card:
/// the canonical token of every card is valid.
pub proof fn lemma_encode_parse_identity(c: Card)
    ensures
        parse_card_chars(token_of(c)[0], token_of(c)[1]) == Some(c),
{
}

/// Parsing a valid two-character token and re-encoding the card yields an
/// equivalent token: the re-encoded characters denote the same rank and
/// suit as the originals, differing at most in letter case.
pub proof fn lemma_parse_encode_round_trip(rc: char, sc: char)
    requires
        parse_card_chars(rc, sc) is Some,
    ensures
        ({
            let c = parse_card_chars(rc, sc).unwrap();
            &&& parse_card_chars(token_of(c)[0], token_of(c)[1]) == Some(c)
            &&& value_of_char(token_of(c)[0]) == value_of_char(rc)
            &&& suit_of_char(token_of(c)[1]) == suit_of_char(sc)
        }),
{
}

/// Parses a hand string of consecutive two-character tokens. The length
/// must be a positive even number (`InvalidHandLength` otherwise), and each
/// token must be a valid card (`InvalidCardFormat` otherwise).
pub fn parse_hand(s: &str) -> (r: Result<Vec<Card>, PokerError>)
    ensures
        match r {
            Ok(v) => s@.len() > 0 && s@.len() % 2 == 0 && tokens_ok(s@) && v@ == cards_of(s@),
            Err(PokerError::InvalidHandLength) => s@.len() == 0 || s@.len() % 2 != 0,
            Err(PokerError::InvalidCardFormat) => s@.len() > 0 && s@.len() % 2 == 0 && !tokens_ok(
                s@,
            ),
            Err(_) => false,
        },
{
    let n = s.unicode_len();
    if n == 0 || n % 2 != 0 {
        return Err(PokerError::InvalidHandLength);
    }
    let count = n / 2;
    let mut out: Vec<Card> = Vec::new();
    let mut i: usize = 0;
    while i < count
        invariant
            n == s@.len(),
            n % 2 == 0,
            0 < n,
            count == n / 2,
            i <= count,
            out@.len() == i,
            forall|j: int| 0 <= j < i ==> #[trigger] parse_card_chars(s@[2 * j], s@[2 * j + 1])
                is Some,
            forall|j: int| 0 <= j < i ==> out@[j] == parse_card_chars(
                s@[2 * j],
                s@[2 * j + 1],
            ).unwrap(),
        decreases count - i,
    {
        let rc = s.get_char(2 * i);
        let sc = s.get_char(2 * i + 1);
        match parse_chars(rc, sc) {
            Ok(c) => {
                out.push(c);
            },
            Err(_) => {
                return Err(PokerError::InvalidCardFormat);
            },
        }
        i += 1;
    }
    proof {
        assert(out@ =~= cards_of(s@));
    }
    Ok(out)
}

} // verus!
