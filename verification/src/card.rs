//! The card parser: one whitespace-free token, such as `"QS"` or `"10H"`,
//! becomes a `Card` holding a numeric rank and a suit.

use vstd::prelude::*;
use vstd::string::StrSliceExecFns;

verus! {

/// Numeric rank of an ace, the highest rank.
pub const ACE: u8 = 14;

/// One of the four French suits.
#[derive(Clone, Copy, Debug, PartialEq, Eq, Structural)]
pub enum Suit {
    Clubs,
    Diamonds,
    Hearts,
    Spades,
}

/// Why a card token or a hand string was rejected.
#[derive(Clone, Copy, Debug, PartialEq, Eq, Structural)]
pub enum ParseError {
    /// A card token is not 2 or 3 characters long.
    InvalidCardLength,
    /// A 3-character token does not start with `10`.
    InvalidCard,
    /// The rank glyph is not one of `2`-`9`, `T`, `J`, `Q`, `K`, `A`.
    InvalidRank,
    /// The suit glyph is not one of `C`, `D`, `H`, `S`.
    InvalidSuit,
    /// The hand does not split into exactly five card tokens.
    MalformedHand,
}

/// A playing card. Ranks run from 2 (two) to 14 (ace); 11, 12 and 13 are
/// jack, queen and king.
#[derive(Clone, Copy, Debug, PartialEq, Eq, Structural)]
pub struct Card {
    pub suit: Suit,
    pub numeric_value: u8,
}

/// A rank a parsed card can carry.
pub open spec fn valid_rank(r: u8) -> bool {
    2 <= r <= ACE
}

/// The rank named by a single glyph, if any. `T` is the one-character
/// spelling of ten.
pub open spec fn rank_of_char(c: char) -> Option<u8> {
    match c {
        '2' => Some(2u8),
        '3' => Some(3u8),
        '4' => Some(4u8),
        '5' => Some(5u8),
        '6' => Some(6u8),
        '7' => Some(7u8),
        '8' => Some(8u8),
        '9' => Some(9u8),
        'T' => Some(10u8),
        'J' => Some(11u8),
        'Q' => Some(12u8),
        'K' => Some(13u8),
        'A' => Some(ACE),
        _ => None,
    }
}

/// The suit named by a glyph, if any.
pub open spec fn suit_of_char(c: char) -> Option<Suit> {
    match c {
        'C' => Some(Suit::Clubs),
        'D' => Some(Suit::Diamonds),
        'H' => Some(Suit::Hearts),
        'S' => Some(Suit::Spades),
        _ => None,
    }
}

/// What parsing a card token yields: the token grammar is `RANK SUIT`, where
/// `RANK` is one glyph (or `10`, making the token 3 characters) and `SUIT`
/// the final glyph. Checks run in this order: token length, the `10` prefix
/// of a 3-character token, the rank glyph, the suit glyph.
pub open spec fn parse_card_spec(t: Seq<char>) -> Result<Card, ParseError> {
    if t.len() < 2 || t.len() > 3 {
        Err(ParseError::InvalidCardLength)
    } else if t.len() == 3 && !(t[0] == '1' && t[1] == '0') {
        Err(ParseError::InvalidCard)
    } else {
        let rank = if t.len() == 3 {
            Some(10u8)
        } else {
            rank_of_char(t[0])
        };
        match rank {
            None => Err(ParseError::InvalidRank),
            Some(r) => match suit_of_char(t[t.len() - 1]) {
                None => Err(ParseError::InvalidSuit),
                Some(s) => Ok(Card { suit: s, numeric_value: r }),
            },
        }
    }
}

/// A successfully parsed card always carries a rank between 2 and 14.
pub proof fn lemma_parse_card_valid(t: Seq<char>)
    ensures
        parse_card_spec(t) matches Ok(c) ==> valid_rank(c.numeric_value),
{
}

impl Suit {
    /// Reads a suit glyph; anything but `C`, `D`, `H`, `S` is `InvalidSuit`.
    pub fn try_from_char(c: char) -> (r: Result<Suit, ParseError>)
        ensures
            r matches Ok(s) ==> suit_of_char(c) == Some(s),
            r matches Err(e) ==> suit_of_char(c) is None && e == ParseError::InvalidSuit,
    {
        match c {
            'C' => Ok(Suit::Clubs),
            'D' => Ok(Suit::Diamonds),
            'H' => Ok(Suit::Hearts),
            'S' => Ok(Suit::Spades),
            _ => Err(ParseError::InvalidSuit),
        }
    }
}

impl Card {
    /// Builds a card from its parts; no validation happens here.
    pub fn new(suit: Suit, numeric_value: u8) -> (c: Card)
        ensures
            c.suit == suit,
            c.numeric_value == numeric_value,
    {
        Card { suit, numeric_value }
    }

    /// Parses one card token, exactly as `parse_card_spec` describes.
    pub fn from_str(token: &str) -> (r: Result<Card, ParseError>)
        ensures
            r == parse_card_spec(token@),
    {
        let n = token.unicode_len();
        if n < 2 || n > 3 {
            return Err(ParseError::InvalidCardLength);
        }
        let rank: u8;
        if n == 3 {
            let c0 = token.get_char(0);
            let c1 = token.get_char(1);
            if !(c0 == '1' && c1 == '0') {
                return Err(ParseError::InvalidCard);
            }
            rank = 10;
        } else {
            let c0 = token.get_char(0);
            rank = match c0 {
                '2' => 2,
                '3' => 3,
                '4' => 4,
                '5' => 5,
                '6' => 6,
                '7' => 7,
                '8' => 8,
                '9' => 9,
                'T' => 10,
                'J' => 11,
                'Q' => 12,
                'K' => 13,
                'A' => 14,
                _ => {
                    return Err(ParseError::InvalidRank);
                },
            };
        }
        let cs = token.get_char(n - 1);
        match Suit::try_from_char(cs) {
            Ok(suit) => Ok(Card { suit, numeric_value: rank }),
            Err(e) => Err(e),
        }
    }
}

} // verus!
