use poker::card::{Card, ParseError, Suit};
use poker::hand::{HandType, PokerHand};
use poker::order::{compare, Cmp};
use poker::winning_hands;

fn hand(s: &str) -> PokerHand {
    match PokerHand::from_str(s) {
        Ok(h) => h,
        Err(e) => panic!("hand {:?} failed to parse: {:?}", s, e),
    }
}

#[test]
fn parse_card_plain_ranks() {
    let c = Card::from_str("2C").unwrap();
    assert_eq!(c.numeric_value, 2);
    assert!(matches!(c.suit, Suit::Clubs));
    let c = Card::from_str("9D").unwrap();
    assert_eq!(c.numeric_value, 9);
    assert!(matches!(c.suit, Suit::Diamonds));
    let c = Card::from_str("JH").unwrap();
    assert_eq!(c.numeric_value, 11);
    let c = Card::from_str("QS").unwrap();
    assert_eq!(c.numeric_value, 12);
    let c = Card::from_str("KH").unwrap();
    assert_eq!(c.numeric_value, 13);
    let c = Card::from_str("AS").unwrap();
    assert_eq!(c.numeric_value, 14);
    assert!(matches!(c.suit, Suit::Spades));
}

#[test]
fn parse_card_ten_two_spellings() {
    let long = Card::from_str("10H").unwrap();
    assert_eq!(long.numeric_value, 10);
    assert!(matches!(long.suit, Suit::Hearts));
    let short = Card::from_str("TH").unwrap();
    assert_eq!(short.numeric_value, 10);
    assert_eq!(long, short);
}

#[test]
fn parse_card_invalid_length() {
    assert_eq!(Card::from_str(""), Err(ParseError::InvalidCardLength));
    assert_eq!(Card::from_str("2"), Err(ParseError::InvalidCardLength));
    assert_eq!(Card::from_str("10HX"), Err(ParseError::InvalidCardLength));
}

#[test]
fn parse_card_invalid_three_char_prefix() {
    assert_eq!(Card::from_str("11H"), Err(ParseError::InvalidCard));
    assert_eq!(Card::from_str("JJH"), Err(ParseError::InvalidCard));
}

#[test]
fn parse_card_invalid_rank() {
    assert_eq!(Card::from_str("1H"), Err(ParseError::InvalidRank));
    assert_eq!(Card::from_str("XH"), Err(ParseError::InvalidRank));
    assert_eq!(Card::from_str("0S"), Err(ParseError::InvalidRank));
}

#[test]
fn parse_card_invalid_suit() {
    assert_eq!(Card::from_str("2X"), Err(ParseError::InvalidSuit));
    assert_eq!(Card::from_str("10Z"), Err(ParseError::InvalidSuit));
    assert_eq!(Card::from_str("Ah"), Err(ParseError::InvalidSuit));
}

#[test]
fn malformed_hand_wrong_token_count() {
    assert_eq!(
        PokerHand::from_str("2H 2D 2S").unwrap_err(),
        ParseError::MalformedHand
    );
    assert_eq!(
        PokerHand::from_str("2H 3H 4H 5H 6H 7H").unwrap_err(),
        ParseError::MalformedHand
    );
    assert_eq!(
        PokerHand::from_str("").unwrap_err(),
        ParseError::MalformedHand
    );
}

#[test]
fn bad_card_fails_the_hand() {
    assert_eq!(
        PokerHand::from_str("2H 3H 4H 5H 6X").unwrap_err(),
        ParseError::InvalidSuit
    );
    assert_eq!(
        PokerHand::from_str("2H 3H 4H XH 6X").unwrap_err(),
        ParseError::InvalidRank
    );
}

#[test]
fn classify_high_card() {
    let h = hand("2H 3D 5S 9C KD");
    match h.hand_type {
        HandType::HighCard(d) => assert_eq!(d.cards, vec![2, 3, 5, 9, 13]),
        other => panic!("expected high card, got {:?}", other),
    }
}

#[test]
fn classify_one_pair() {
    let h = hand("4S 5H 4C 8D 9H");
    match h.hand_type {
        HandType::OnePair(d) => {
            assert_eq!(d.pair_value, 4);
            assert_eq!(d.remaining_cards, vec![5, 8, 9]);
        }
        other => panic!("expected one pair, got {:?}", other),
    }
}

#[test]
fn classify_two_pairs() {
    let h = hand("2H 2D 3H 3D 8H");
    match h.hand_type {
        HandType::TwoPairs(d) => {
            assert_eq!(d.high_pair_value, 3);
            assert_eq!(d.low_pair_value, 2);
            assert_eq!(d.remaining_card, 8);
        }
        other => panic!("expected two pairs, got {:?}", other),
    }
}

#[test]
fn classify_three_of_a_kind() {
    let h = hand("4S 4H 4C 8D 9H");
    match h.hand_type {
        HandType::ThreeOfAKind(d) => {
            assert_eq!(d.three_of_a_kind_value, 4);
            assert_eq!(d.remaining_cards, vec![8, 9]);
        }
        other => panic!("expected three of a kind, got {:?}", other),
    }
}

#[test]
fn classify_straight() {
    let h = hand("3S 4D 5C 6H 7H");
    match h.hand_type {
        HandType::Straight(d) => assert_eq!(d.cards, vec![3, 4, 5, 6, 7]),
        other => panic!("expected straight, got {:?}", other),
    }
}

#[test]
fn classify_wheel_as_straight() {
    let h = hand("2H 3D 4C 5S AH");
    match h.hand_type {
        HandType::Straight(d) => assert_eq!(d.cards, vec![2, 3, 4, 5, 14]),
        other => panic!("expected straight, got {:?}", other),
    }
}

#[test]
fn classify_flush() {
    let h = hand("2H 7H 9H JH KH");
    match h.hand_type {
        HandType::Flush(d) => assert_eq!(d.cards, vec![2, 7, 9, 11, 13]),
        other => panic!("expected flush, got {:?}", other),
    }
}

#[test]
fn classify_full_house() {
    let h = hand("4S 4H 4C 9D 9H");
    match h.hand_type {
        HandType::FullHouse(d) => {
            assert_eq!(d.three_of_a_kind_value, 4);
            assert_eq!(d.pair_value, 9);
        }
        other => panic!("expected full house, got {:?}", other),
    }
}

#[test]
fn classify_four_of_a_kind() {
    let h = hand("5S 5H 5C 5D 9H");
    match h.hand_type {
        HandType::FourOfAKind(d) => {
            assert_eq!(d.four_of_a_kind_value, 5);
            assert_eq!(d.remaining_card, 9);
        }
        other => panic!("expected four of a kind, got {:?}", other),
    }
}

#[test]
fn classify_straight_flush() {
    let h = hand("2H 3H 4H 5H 6H");
    match h.hand_type {
        HandType::StraightFlush(d) => assert_eq!(d.cards, vec![2, 3, 4, 5, 6]),
        other => panic!("expected straight flush, got {:?}", other),
    }
}

#[test]
fn classify_royal_flush_with_ten_token() {
    let h = hand("10H JH QH KH AH");
    match h.hand_type {
        HandType::StraightFlush(d) => assert_eq!(d.cards, vec![10, 11, 12, 13, 14]),
        other => panic!("expected straight flush, got {:?}", other),
    }
}

#[test]
fn classification_ignores_card_order() {
    let a = hand("4S 5H 4C 8D 9H");
    let b = hand("9H 8D 4C 5H 4S");
    assert_eq!(compare(&a, &b), Cmp::Eq);
    match (a.hand_type, b.hand_type) {
        (HandType::OnePair(da), HandType::OnePair(db)) => {
            assert_eq!(da.pair_value, db.pair_value);
            assert_eq!(da.remaining_cards, db.remaining_cards);
        }
        other => panic!("expected one pair twice, got {:?}", other),
    }
}

#[test]
fn compare_flips_with_its_arguments() {
    let a = hand("5S 5H 5C 5D 9H");
    let b = hand("2H 7H 9H JH KH");
    assert_eq!(compare(&a, &b), Cmp::Gt);
    assert_eq!(compare(&b, &a), Cmp::Lt);
    assert_eq!(compare(&a, &a), Cmp::Eq);
}

#[test]
fn wheel_loses_to_higher_straight_but_beats_lower_categories() {
    let wheel = hand("2H 3D 4C 5S AH");
    let six_high = hand("3H 4D 5C 6S 7H");
    assert_eq!(compare(&wheel, &six_high), Cmp::Lt);
    let trips = hand("4S 4H 4C 8D 9H");
    assert_eq!(compare(&wheel, &trips), Cmp::Gt);
    let wheel_flush = hand("2H 3H 4H 5H AH");
    let steel_wheel_plus_one = hand("2S 3S 4S 5S 6S");
    assert_eq!(compare(&wheel_flush, &steel_wheel_plus_one), Cmp::Lt);
}

#[test]
fn ten_spellings_compare_equal() {
    let long = hand("10S JS QS KS AS");
    let short = hand("TH JH QH KH AH");
    assert_eq!(compare(&long, &short), Cmp::Eq);
}

#[test]
fn kicker_breaks_pair_tie() {
    let a = hand("2H 2D 9H 7S 5C");
    let b = hand("2S 2C 9D 7H 4S");
    assert_eq!(compare(&a, &b), Cmp::Gt);
}

#[test]
fn empty_batch_has_no_result() {
    assert_eq!(winning_hands(&[]), None);
}

#[test]
fn single_hand_always_wins() {
    assert_eq!(
        winning_hands(&["4S 5H 4C 5D 4H"]),
        Some(vec!["4S 5H 4C 5D 4H"])
    );
}

#[test]
fn single_hand_wins_without_validation() {
    assert_eq!(winning_hands(&["not a hand"]), Some(vec!["not a hand"]));
}

#[test]
fn best_hand_wins_alone() {
    let hands = [
        "4D 5S 6S 8D 3C",
        "2S 4C 7S 9H 10H",
        "3S 4S 5D 6H JH",
        "4S 5H 4C 5D 4H",
    ];
    assert_eq!(winning_hands(&hands), Some(vec!["4S 5H 4C 5D 4H"]));
}

#[test]
fn higher_pair_decides_two_pair_battle() {
    let low = "2H 2D 3H 3D 8H";
    let high = "2S 2C 4S 4C 3S";
    assert_eq!(winning_hands(&[low, high]), Some(vec![high]));
    assert_eq!(compare(&hand(low), &hand(high)), Cmp::Lt);
}

#[test]
fn malformed_hand_voids_the_whole_batch() {
    assert_eq!(winning_hands(&["4S 5H 4C 5D 4H", "2H 2D 2S"]), None);
    assert_eq!(winning_hands(&["2H 2D 2S", "4S 5H 4C 5D 4H"]), None);
}

#[test]
fn tied_hands_win_together_in_input_order() {
    let a = "2H 3H 4H 5H 6H";
    let b = "2S 3S 4S 5S 6S";
    assert_eq!(winning_hands(&[a, b]), Some(vec![a, b]));
    assert_eq!(winning_hands(&[b, a]), Some(vec![b, a]));
}

#[test]
fn wheel_against_the_field() {
    let hands = ["2H 3D 4C 5S AH", "4S 4H 4C 8D 9H", "2C 7D 9S JC KS"];
    assert_eq!(winning_hands(&hands), Some(vec!["2H 3D 4C 5S AH"]));
}
