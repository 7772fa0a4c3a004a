use baraha::bots::dealer::{self, Output};
use baraha::game::{new_deck, Card, Cards, Game, Turn};

fn ordered_deck() -> Vec<Card> {
    let mut d = vec![];
    for r in "3456789TJQKA2".chars() {
        for s in "CSHD".chars() {
            d.push(Card { rank: r, suit: s });
        }
    }
    d
}

fn cards(s: &str) -> Cards {
    s.parse().unwrap()
}

/// A dealer that has dealt `ordered_deck`: player 1 holds 3C to 6C, player 2
/// 6S to 9S, player 3 9H to QH, player 4 QD to 2D.
fn dealt_dealer() -> dealer::Dealer {
    let mut d = dealer::new();
    let (outs, next, over) = d.step("", ordered_deck());
    assert!(matches!(outs[..], [Output::You(1)]));
    assert_eq!(next, Some(1));
    assert!(!over);
    for p in 1..4 {
        let (outs, next, over) = d.step("G", ordered_deck());
        assert_eq!(outs.len(), 1);
        assert!(matches!(outs[0], Output::You(q) if q == p + 1));
        assert_eq!(next, Some(p + 1));
        assert!(!over);
    }
    let (outs, next, over) = d.step("G", ordered_deck());
    assert!(outs.is_empty());
    assert_eq!(next, None);
    assert!(!over);
    assert!(d.is_dealing());
    let (outs, next, over) = d.step("X", ordered_deck());
    assert_eq!(outs.len(), 5);
    for (i, o) in outs[..4].iter().enumerate() {
        match o {
            Output::Deal(p, hand) => {
                assert_eq!(*p, i + 1);
                assert_eq!(hand[..], ordered_deck()[13 * i..13 * i + 13]);
            }
            _ => panic!("expected a deal"),
        }
    }
    assert!(matches!(outs[4], Output::Turn(Turn::Start(1))));
    assert_eq!(next, Some(1));
    assert!(!over);
    d
}

fn play(d: &mut dealer::Dealer, line: &str) -> (Vec<Output>, Option<usize>, bool) {
    d.step(line, vec![])
}

fn expect_turn(r: &(Vec<Output>, Option<usize>, bool), t: Turn) {
    assert!(matches!(r.0.last(), Some(Output::Turn(x)) if *x == t), "expected {:?}", t);
    assert_eq!(r.1, Some(t.player()));
    assert!(!r.2);
}

#[test]
fn lobby_reaches_deal_without_reading_a_fifth_line() {
    let mut d = dealer::new();
    d.step("", vec![]);
    for _ in 0..4 {
        d.step("G", vec![]);
    }
    assert!(d.is_dealing());
    // Dealing reads no line: whatever is handed in is not taken as input.
    let (outs, next, over) = d.step("not ready", ordered_deck());
    assert_eq!(outs.len(), 5);
    assert_eq!(next, Some(1));
    assert!(!over);
}

#[test]
fn lobby_refuses_a_player_who_is_not_ready() {
    let mut d = dealer::new();
    d.step("", vec![]);
    d.step("G", vec![]);
    let (outs, next, over) = d.step("P 3C", vec![]);
    match &outs[..] {
        [Output::Error(m)] => assert_eq!(m, "#2 is not ready."),
        _ => panic!("expected an error"),
    }
    assert_eq!(next, None);
    assert!(over);
}

#[test]
fn lobby_takes_only_the_ready_token() {
    let mut d = dealer::new();
    d.step("", vec![]);
    let (_, next, over) = d.step("G\r\n", vec![]);
    assert_eq!(next, Some(2));
    assert!(!over);
    let (outs, next, over) = d.step("GO", vec![]);
    assert!(matches!(&outs[..], [Output::Error(m)] if m == "#2 is not ready."));
    assert_eq!(next, None);
    assert!(over);
    for line in [" G", "G 3C", ""] {
        let mut d = dealer::new();
        d.step("", vec![]);
        let (outs, next, over) = d.step(line, vec![]);
        assert!(matches!(&outs[..], [Output::Error(m)] if m == "#1 is not ready."));
        assert_eq!(next, None);
        assert!(over);
    }
}

#[test]
fn lowest_card_opens_and_next_player_follows() {
    let mut d = dealt_dealer();
    let r = play(&mut d, "P 3C");
    assert!(matches!(&r.0[0], Output::Play(1, c) if c.to_text() == "3C"));
    assert_eq!(r.0.len(), 2);
    expect_turn(&r, Turn::Follow(2));
    // A pair does not follow a single.
    let r = play(&mut d, "P 6S 6H");
    assert!(matches!(&r.0[..], [Output::PlayError(2, m)] if m == "should follow the number of cards of last play"));
    assert_eq!(r.1, Some(2));
    let r = play(&mut d, "P 6S");
    expect_turn(&r, Turn::Follow(3));
}

#[test]
fn opening_without_lowest_card_is_refused() {
    let mut d = dealt_dealer();
    let r = play(&mut d, "P 3S");
    assert!(matches!(&r.0[..], [Output::PlayError(1, m)] if m == "first play must include three of clubs"));
    let r = play(&mut d, "P");
    assert!(matches!(&r.0[..], [Output::PlayError(1, m)] if m == "cannot pass"));
    assert_eq!(r.1, Some(1));
}

#[test]
fn card_not_in_hand_is_refused_and_nothing_changes() {
    let mut d = dealt_dealer();
    let r = play(&mut d, "P 2D");
    assert!(matches!(&r.0[..], [Output::PlayError(1, m)] if m == "some cards are not in player's hands"));
    assert_eq!(r.1, Some(1));
    assert!(!r.2);
    let r = play(&mut d, "X 3C");
    assert!(matches!(&r.0[..], [Output::PlayError(1, m)] if m == "invalid input"));
    let r = play(&mut d, "P 3C 3C");
    assert!(matches!(&r.0[..], [Output::PlayError(1, m)] if m == "cards are not unique"));
    // The game is as it was: the same player can still open.
    let r = play(&mut d, "P 3C");
    expect_turn(&r, Turn::Follow(2));
}

#[test]
fn three_finishers_end_the_session() {
    let mut d = dealt_dealer();
    let r = play(&mut d, "P 3C 3S 3H 3D 6C");
    expect_turn(&r, Turn::Follow(2));
    expect_turn(&play(&mut d, "P"), Turn::Follow(3));
    expect_turn(&play(&mut d, "P"), Turn::Follow(4));
    expect_turn(&play(&mut d, "P"), Turn::Any(1));
    expect_turn(&play(&mut d, "P 4C 4S 4H 4D 5C"), Turn::Follow(2));
    expect_turn(&play(&mut d, "P"), Turn::Follow(3));
    expect_turn(&play(&mut d, "P"), Turn::Follow(4));
    expect_turn(&play(&mut d, "P"), Turn::Any(1));
    let r = play(&mut d, "P 5S 5H 5D");
    assert!(matches!(r.0[1], Output::Win(1)));
    expect_turn(&r, Turn::Any(2));
    expect_turn(&play(&mut d, "P 7C 7S 7H 7D 6S"), Turn::Follow(3));
    expect_turn(&play(&mut d, "P"), Turn::Follow(4));
    expect_turn(&play(&mut d, "P"), Turn::Any(2));
    expect_turn(&play(&mut d, "P 8C 8S 8H 8D 6H"), Turn::Follow(3));
    expect_turn(&play(&mut d, "P"), Turn::Follow(4));
    expect_turn(&play(&mut d, "P"), Turn::Any(2));
    expect_turn(&play(&mut d, "P 9C 9S"), Turn::Follow(3));
    expect_turn(&play(&mut d, "P"), Turn::Follow(4));
    expect_turn(&play(&mut d, "P"), Turn::Any(2));
    let r = play(&mut d, "P 6D");
    assert!(matches!(r.0[1], Output::Win(2)));
    expect_turn(&r, Turn::Any(3));
    expect_turn(&play(&mut d, "P TC TS TH TD 9H"), Turn::Follow(4));
    expect_turn(&play(&mut d, "P"), Turn::Any(3));
    expect_turn(&play(&mut d, "P JC JS JH JD 9D"), Turn::Follow(4));
    expect_turn(&play(&mut d, "P"), Turn::Any(3));
    let (outs, next, over) = play(&mut d, "P QC QS QH");
    assert_eq!(outs.len(), 3);
    assert!(matches!(outs[1], Output::Win(3)));
    match &outs[2] {
        Output::End(w) => assert_eq!(w[..], [1, 2, 3]),
        _ => panic!("expected the end"),
    }
    assert_eq!(next, None);
    assert!(over);
}

#[test]
fn game_from_ordered_deck() {
    let mut g = Game::from_deck(ordered_deck());
    assert_eq!(g.turn(), Turn::Start(1));
    assert_eq!(g.hand(4)[..], ordered_deck()[39..52]);
    assert_eq!(g.play(&cards("3C")), Ok(false));
    assert_eq!(g.turn(), Turn::Follow(2));
    assert_eq!(g.play(&cards("3S")).unwrap_err(), "some cards are not in player's hands");
    assert_eq!(g.play(&cards("6S")), Ok(false));
    assert_eq!(g.turn(), Turn::Follow(3));
    assert_eq!(g.play(&cards("9H")), Ok(false));
    assert_eq!(g.play(&cards("2D")), Ok(false));
    // Back to player 1, whose single must beat the two of diamonds.
    assert_eq!(g.turn(), Turn::Follow(1));
    assert_eq!(g.play(&cards("6C")).unwrap_err(), "played cards are lower than last");
    assert_eq!(g.play(&Cards::pass()), Ok(false));
    assert_eq!(g.play(&Cards::pass()), Ok(false));
    assert_eq!(g.play(&Cards::pass()), Ok(false));
    // The last play came back round to its own player.
    assert_eq!(g.turn(), Turn::Any(4));
    assert_eq!(g.play(&Cards::pass()).unwrap_err(), "cannot pass");
    assert!(g.winners().is_empty());
    assert_eq!(g.hand(1).len(), 12);
}

#[test]
fn shuffled_game_deals_every_card_once() {
    let deck = new_deck();
    let mut all = deck.clone();
    all.sort_by_key(|c| c.value());
    assert_eq!(all, ordered_deck());
    let g = Game::new();
    let mut seen = vec![];
    for p in 1..5 {
        assert_eq!(g.hand(p).len(), 13);
        seen.extend(g.hand(p));
    }
    seen.sort_by_key(|c| c.value());
    assert_eq!(seen, ordered_deck());
    let t = g.turn();
    assert!(matches!(t, Turn::Start(_)));
    assert!(g.hand(t.player()).contains(&Card { rank: '3', suit: 'C' }));
}

#[test]
fn actuate_runs_a_lobby_and_deal() {
    let mut d = dealer::new();
    let mut next = d.actuate("").1;
    for _ in 0..4 {
        assert!(next.is_some());
        next = d.actuate("G").1;
    }
    assert_eq!(next, None);
    let (outs, next, over) = d.actuate("");
    assert_eq!(outs.len(), 5);
    let p = next.unwrap();
    match &outs[p - 1] {
        Output::Deal(_, hand) => assert!(hand.contains(&Card { rank: '3', suit: 'C' })),
        _ => panic!("expected a deal"),
    }
    assert!(!over);
}
