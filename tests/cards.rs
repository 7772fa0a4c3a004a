use baraha::game::{Card, Cards};

fn gt(c1: Cards, c2: Cards) -> bool {
    c1 > c2
}

fn cards(s: &str) -> Cards {
    s.parse().unwrap()
}

fn err(s: &str) -> String {
    match s.parse::<Cards>() {
        Ok(_) => panic!("expected an error for {}", s),
        Err(e) => e,
    }
}

#[test]
fn straight_flush() {
    // The high card in these cases are not the ace or two.
    let c1 = "AD 2D 3D 4D 5D".parse().unwrap();
    let c2 = "2D 3D 4D 5D 6D".parse().unwrap();
    assert!(gt(c2, c1));
    let c1 = "2D 3D 4D 5D 6D".parse().unwrap();
    let c2 = "3D 4D 5D 6D 7D".parse().unwrap();
    assert!(gt(c2, c1));

    let c1 = "9D TD JD QD KD".parse().unwrap();
    // This time the high card is the Ace.
    let c2 = "AD KD QD JD TD".parse().unwrap();
    assert!(gt(c2, c1));
}

#[test]
fn straight() {
    // The high card in these cases are not the ace or two.
    let c1 = "AC 2D 3D 4D 5D".parse().unwrap();
    let c2 = "2C 3D 4D 5D 6D".parse().unwrap();
    assert!(gt(c2, c1));
    let c1 = "2C 3D 4D 5D 6D".parse().unwrap();
    let c2 = "3C 4D 5D 6D 7D".parse().unwrap();
    assert!(gt(c2, c1));

    let c1 = "9C TD JD QD KD".parse().unwrap();
    // This time the high card is the Ace.
    let c2 = "AC KD QD JD TD".parse().unwrap();
    assert!(gt(c2, c1));

    // High card rank tied, break by suit.
    let c1 = "AC KD QD JD TD".parse().unwrap();
    let c2 = "AS KH QH JH TH".parse().unwrap();
    assert!(gt(c2, c1));
}

#[test]
fn flush() {
    // Suit is more important than high card.
    let c1 = "AC 2C 3C 4C 6C".parse().unwrap();
    let c2 = "9D KD 8D JD TD".parse().unwrap();
    assert!(gt(c2, c1));

    // If suit is tied, then high card is used as breaker.
    let c1 = "AD KD 8D JD TD".parse().unwrap();
    let c2 = "9D 2D 3D 4D 6D".parse().unwrap();
    assert!(gt(c2, c1));
}

#[test]
fn card_text_round_trip_all_52() {
    let mut n = 0;
    for r in "3456789TJQKA2".chars() {
        for s in "CSHD".chars() {
            let c = Card { rank: r, suit: s };
            let back = Card::parse(&c.to_text()).unwrap();
            assert_eq!(back, c);
            assert_eq!(c.value(), n);
            n += 1;
        }
    }
    assert_eq!(n, 52);
}

#[test]
fn card_parse_errors() {
    assert_eq!(Card::parse("3").unwrap_err(), "must be of length 2");
    assert_eq!(Card::parse("3CD").unwrap_err(), "must be of length 2");
    assert_eq!(Card::parse("XC").unwrap_err(), "invalid rank X");
    assert_eq!(Card::parse("3X").unwrap_err(), "invalid suit X");
    assert_eq!(Card::parse("QH").unwrap(), Card { rank: 'Q', suit: 'H' });
}

#[test]
fn classification_values() {
    assert_eq!(cards("").strength(), 0);
    assert!(cards("").is_pass());
    assert_eq!(cards("3C").strength(), 0);
    assert_eq!(cards("2D").strength(), 51);
    // A pair or triple counts as its highest card.
    assert_eq!(cards("3D 3C").strength(), 3);
    assert_eq!(cards("3C 3S 3H").strength(), 2);
    assert_eq!(cards("3C 4D 5D 6D 7D").strength(), 1019);
    assert_eq!(cards("AC 2C 3C 4C 6C").strength(), 2012);
    assert_eq!(cards("3C 3S 3H 4C 4S").strength(), 3002);
    assert_eq!(cards("3C 3S 3H 3D 4C").strength(), 4003);
    assert_eq!(cards("3D 4D 5D 6D 7D").strength(), 5019);
    assert_eq!(cards("AC 2D 3D 4D 5D").strength(), 1000 + 11);
    assert_eq!(cards("TC JD QD KD AS").strength(), 1000 + 45);
}

#[test]
fn classification_rejections() {
    assert_eq!(err("3C 3C"), "cards are not unique");
    assert_eq!(err("3C 4C"), "pair doesn't match");
    assert_eq!(err("3C 3S 4C"), "trio doesn't match");
    assert_eq!(err("3C 3S 3H 3D"), "invalid length");
    assert_eq!(err("3C 4C 5C 6C 7C 8C"), "invalid length");
    assert_eq!(err("3C 4D 6H 8S TC"), "invalid 5-card combination");
    // The Ace is high or low, never both at once.
    assert_eq!(err("QC KD AD 2D 3D"), "invalid 5-card combination");
    assert_eq!(err("KC AD 2D 3D 4D"), "invalid 5-card combination");
    assert_eq!(err("3C ZZ"), "invalid rank Z");
    assert_eq!(err("3C 4"), "must be of length 2");
}

#[test]
fn straights_grow_with_high_card() {
    let runs = [
        "AC 2D 3D 4D 5D",
        "2C 3D 4D 5D 6D",
        "3C 4D 5D 6D 7D",
        "4C 5D 6D 7D 8D",
        "5C 6D 7D 8D 9D",
        "6C 7D 8D 9D TD",
        "7C 8D 9D TD JD",
        "8C 9D TD JD QD",
        "9C TD JD QD KD",
        "TC JD QD KD AD",
    ];
    for w in runs.windows(2) {
        assert!(cards(w[0]).strength() < cards(w[1]).strength());
    }
}

#[test]
fn cards_text_and_order() {
    let c = cards("3C  4C\t5C 6C 7C");
    assert_eq!(c.to_text(), "3C 4C 5C 6C 7C");
    assert_eq!(c.len(), 5);
    assert_eq!(c.get(2), Card { rank: '5', suit: 'C' });
    // A larger set sorts first when sizes differ.
    assert!(cards("3C 3S") < cards("2D"));
    assert!(cards("3C 3S") == cards("3C 3S"));
    // Sets of different sizes are never equal, whatever their rank values.
    assert!(cards("3S") != cards("3C 3S"));
}
