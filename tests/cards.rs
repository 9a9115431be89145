use durak::game::{Card, CardValue, Suite};

#[test]
fn card_compare_same_suite() {
    assert_eq!(
        Some(true),
        Card::new(CardValue::Ace, Suite::Diamonds)
            .better_as(Card::new(CardValue::Number7, Suite::Diamonds), Suite::Clubs)
    );
    assert_eq!(
        Some(false),
        Card::new(CardValue::Number10, Suite::Diamonds)
            .better_as(Card::new(CardValue::King, Suite::Diamonds), Suite::Diamonds)
    );
}

#[test]
fn card_compare_trump() {
    assert_eq!(
        Some(true),
        Card::new(CardValue::Number10, Suite::Diamonds)
            .better_as(Card::new(CardValue::King, Suite::Hearts), Suite::Diamonds)
    );
    assert_eq!(
        Some(false),
        Card::new(CardValue::Number10, Suite::Hearts)
            .better_as(Card::new(CardValue::King, Suite::Diamonds), Suite::Diamonds)
    );
}

#[test]
fn card_compare_fail() {
    assert_eq!(
        None,
        Card::new(CardValue::Number10, Suite::Hearts)
            .better_as(Card::new(CardValue::King, Suite::Diamonds), Suite::Spades)
    );
    assert_eq!(
        None,
        Card::new(CardValue::Jack, Suite::Hearts)
            .better_as(Card::new(CardValue::Number7, Suite::Diamonds), Suite::Spades)
    );
}

#[test]
fn card_display() {
    assert_eq!(Card::new(CardValue::Number10, Suite::Hearts).to_string(), "02");
    assert_eq!(Card::new(CardValue::Jack, Suite::Spades).to_string(), "J3");
}

#[test]
fn suite_display() {
    assert_eq!(Suite::Diamonds.to_string(), "1");
    assert_eq!(Suite::Hearts.to_string(), "2");
    assert_eq!(Suite::Spades.to_string(), "3");
    assert_eq!(Suite::Clubs.to_string(), "4");
}

#[test]
fn card_value_display() {
    assert_eq!(CardValue::Number6.to_string(), "6");
    assert_eq!(CardValue::Number7.to_string(), "7");
    assert_eq!(CardValue::Number8.to_string(), "8");
    assert_eq!(CardValue::Number9.to_string(), "9");
    assert_eq!(CardValue::Number10.to_string(), "0");
    assert_eq!(CardValue::Jack.to_string(), "J");
    assert_eq!(CardValue::Queen.to_string(), "Q");
    assert_eq!(CardValue::King.to_string(), "K");
    assert_eq!(CardValue::Ace.to_string(), "A");
}

const VALUES: [CardValue; 9] = [
    CardValue::Number6,
    CardValue::Number7,
    CardValue::Number8,
    CardValue::Number9,
    CardValue::Number10,
    CardValue::Jack,
    CardValue::Queen,
    CardValue::King,
    CardValue::Ace,
];

const SUITES: [Suite; 4] = [Suite::Hearts, Suite::Diamonds, Suite::Clubs, Suite::Spades];

fn all_cards() -> Vec<Card> {
    let mut v = Vec::new();
    for s in SUITES {
        for r in VALUES {
            v.push(Card::new(r, s));
        }
    }
    v
}

fn rank(v: CardValue) -> usize {
    VALUES.iter().position(|x| *x == v).unwrap()
}

#[test]
fn same_suit_comparison_follows_rank_for_every_pair() {
    for a in all_cards() {
        for b in all_cards() {
            for t in SUITES {
                if a.suite == b.suite {
                    assert_eq!(a.better_as(b, t), Some(rank(a.value) > rank(b.value)));
                }
            }
        }
    }
}

#[test]
fn trump_beats_other_suits_for_every_pair() {
    for a in all_cards() {
        for b in all_cards() {
            if a.suite != b.suite {
                assert_eq!(a.better_as(b, a.suite), Some(true));
                assert_eq!(b.better_as(a, a.suite), Some(false));
            }
        }
    }
}

#[test]
fn off_suits_are_incomparable_for_every_pair() {
    for a in all_cards() {
        for b in all_cards() {
            for t in SUITES {
                if a.suite != b.suite && a.suite != t && b.suite != t {
                    assert_eq!(a.better_as(b, t), None);
                    assert_eq!(b.better_as(a, t), None);
                }
            }
        }
    }
}

#[test]
fn card_tokens_round_trip() {
    for c in all_cards() {
        let text = c.to_string();
        assert_eq!(Card::from_str(&text).unwrap(), c);
    }
}

#[test]
fn card_token_errors() {
    assert_eq!(Card::from_str("").unwrap_err().message(), "No card value specified.");
    assert_eq!(Card::from_str("X1").unwrap_err().message(), "Invalid card value specified.");
    assert_eq!(Card::from_str("A").unwrap_err().message(), "No suite specified.");
    assert_eq!(Card::from_str("A5").unwrap_err().message(), "Invalid suite specified.");
    assert_eq!(Card::from_str("A12").unwrap_err().message(), "Card token too long.");
    assert_eq!(Card::from_str("K4").unwrap(), Card::new(CardValue::King, Suite::Clubs));
}
