use baraha::bots::dealer::Output;
use baraha::bots::player::{self, ServerInput, ServerOutput, Status, UserInput};
use baraha::game::{Card, Cards, Turn};
use baraha::protocol::{out_to_all, parse_player_num, stream_outputs};

fn cards(s: &str) -> Cards {
    s.parse().unwrap()
}

fn lines(o: Output) -> Vec<(usize, String)> {
    stream_outputs(o)
}

fn all(s: &str) -> Vec<(usize, String)> {
    (1..5).map(|p| (p, s.to_string())).collect()
}

#[test]
fn dealer_lines() {
    assert_eq!(lines(Output::You(3)), vec![(3, "U #3".to_string())]);
    assert_eq!(
        lines(Output::Deal(2, vec![Card { rank: '3', suit: 'C' }, Card { rank: 'T', suit: 'H' }])),
        vec![(2, "D 3C TH".to_string())]
    );
    assert_eq!(lines(Output::Turn(Turn::Start(1))), all("T #1 S"));
    assert_eq!(lines(Output::Turn(Turn::Follow(2))), all("T #2 F"));
    assert_eq!(lines(Output::Turn(Turn::Any(4))), all("T #4 A"));
    assert_eq!(lines(Output::Play(1, cards("3C 3S"))), all("P #1 3C 3S"));
    assert_eq!(lines(Output::Play(2, Cards::pass())), all("P #2 "));
    assert_eq!(lines(Output::Win(3)), all("W #3"));
    assert_eq!(lines(Output::End(vec![2, 4, 1])), all("E #2 #4 #1"));
    assert_eq!(lines(Output::Error("#1 is not ready.".to_string())), all("! #1 is not ready."));
    let mut expected = all("! #2 didn't play properly.");
    expected.push((2, "? cannot pass".to_string()));
    assert_eq!(lines(Output::PlayError(2, "cannot pass".to_string())), expected);
    assert_eq!(out_to_all("x".to_string()), all("x"));
}

#[test]
fn player_numbers() {
    assert_eq!(parse_player_num("#1"), Ok(1));
    assert_eq!(parse_player_num("#4"), Ok(4));
    assert_eq!(parse_player_num("#5").unwrap_err(), "invalid player number");
    assert_eq!(parse_player_num("#0").unwrap_err(), "invalid player number");
    assert_eq!(parse_player_num("1").unwrap_err(), "invalid player number");
    assert_eq!(parse_player_num("#12").unwrap_err(), "invalid player number");
}

#[test]
fn server_lines_are_read() {
    assert!(matches!(ServerInput::parse("U #2"), Ok(ServerInput::You(2))));
    match ServerInput::parse("D 3C 2D").unwrap() {
        ServerInput::Deal(h) => assert_eq!(h, vec![Card { rank: '3', suit: 'C' }, Card { rank: '2', suit: 'D' }]),
        _ => panic!("expected a deal"),
    }
    match ServerInput::parse("P #3 4C 4S").unwrap() {
        ServerInput::Play(3, c) => assert_eq!(c.to_text(), "4C 4S"),
        _ => panic!("expected a play"),
    }
    match ServerInput::parse("P #3 ").unwrap() {
        ServerInput::Play(3, c) => assert!(c.is_pass()),
        _ => panic!("expected a pass"),
    }
    match ServerInput::parse("P #3").unwrap() {
        ServerInput::Play(3, c) => assert!(c.is_pass()),
        _ => panic!("expected a pass"),
    }
    assert!(matches!(ServerInput::parse("T #1 S"), Ok(ServerInput::Turn(Turn::Start(1)))));
    assert!(matches!(ServerInput::parse("T #2 F"), Ok(ServerInput::Turn(Turn::Follow(2)))));
    assert!(matches!(ServerInput::parse("T #3 A"), Ok(ServerInput::Turn(Turn::Any(3)))));
    assert!(matches!(ServerInput::parse("W #4"), Ok(ServerInput::Win(4))));
    match ServerInput::parse("E #1 #3 #2").unwrap() {
        ServerInput::End(w) => assert_eq!(w, vec![1, 3, 2]),
        _ => panic!("expected the end"),
    }
    assert!(matches!(ServerInput::parse("? cannot pass"), Ok(ServerInput::InvalidInput(m)) if m == "cannot pass"));
    assert!(matches!(ServerInput::parse("! #2 didn't play properly."), Ok(ServerInput::Error(m)) if m == "#2 didn't play properly."));
}

#[test]
fn server_line_errors() {
    assert_eq!(ServerInput::parse("G").unwrap_err(), "no args");
    assert_eq!(ServerInput::parse("X y").unwrap_err(), "invalid input");
    assert_eq!(ServerInput::parse("U #7").unwrap_err(), "invalid player number");
    assert_eq!(ServerInput::parse("T #1 X").unwrap_err(), "invalid turn type X");
    assert_eq!(ServerInput::parse("T #1").unwrap_err(), "invalid args for T");
    assert_eq!(ServerInput::parse("D 3C 1Z").unwrap_err(), "invalid rank 1");
    assert_eq!(ServerInput::parse("P #1 3C 4C").unwrap_err(), "pair doesn't match");
    assert_eq!(ServerInput::parse("E #1 9").unwrap_err(), "invalid player number");
}

#[test]
fn player_lines() {
    assert_eq!(ServerOutput::Game.to_text(), "G");
    assert_eq!(ServerOutput::Play(cards("5C 5D")).to_text(), "P 5C 5D");
    assert_eq!(ServerOutput::Play(Cards::pass()).to_text(), "P ");
}

fn input(s: &str) -> Option<ServerInput> {
    Some(ServerInput::parse(s).unwrap())
}

#[test]
fn player_follows_a_session() {
    let mut p = player::new();
    let (out, st) = p.actuate(None, None);
    assert!(out.is_none());
    assert_eq!(st, Status::ServerInput);
    let (out, _) = p.actuate(input("U #2"), None);
    assert!(matches!(out, Some(ServerOutput::Game)));
    p.actuate(input("D 3S 4S 4H 5C 9D"), None);
    assert_eq!(p.hand().len(), 5);
    let (_, st) = p.actuate(input("T #1 S"), None);
    assert_eq!(st, Status::ServerInput);
    p.actuate(input("P #1 3C"), None);
    assert!(matches!(p.last_play(), Some((1, c)) if c.to_text() == "3C"));
    let (_, st) = p.actuate(input("T #2 F"), None);
    assert_eq!(st, Status::UserInput);
    let hints = p.hints();
    let texts: Vec<String> = hints.iter().map(|c| c.to_text()).collect();
    assert_eq!(texts, vec!["3S", "4S", "4H", "5C", "9D"]);
    assert!(!p.accepts(&input("T #3 F"), &None));
    let (out, st) = p.actuate(None, Some(UserInput::Play(cards("4H"))));
    assert!(matches!(out, Some(ServerOutput::Play(ref c)) if c.to_text() == "4H"));
    assert_eq!(st, Status::ServerInput);
    // An error notice changes nothing.
    let (out, st) = p.actuate(input("! #2 didn't play properly."), None);
    assert!(out.is_none());
    assert_eq!(st, Status::ServerInput);
    p.actuate(input("P #2 4H"), None);
    let left: Vec<String> = p.hand().iter().map(|c| c.to_text()).collect();
    assert_eq!(left, vec!["3S", "4S", "5C", "9D"]);
    p.actuate(input("T #3 F"), None);
    let (_, st) = p.actuate(input("E #1 #3 #2"), None);
    assert_eq!(st, Status::End);
}

#[test]
fn hints_for_an_opening_and_a_free_lead() {
    let mut p = player::new();
    p.actuate(None, None);
    p.actuate(input("U #1"), None);
    p.actuate(input("D 3C 3S 4D"), None);
    p.actuate(input("T #1 S"), None);
    let texts: Vec<String> = p.hints().iter().map(|c| c.to_text()).collect();
    assert_eq!(texts, vec!["3C", "3C 3S"]);
    let mut q = player::new();
    q.actuate(None, None);
    q.actuate(input("U #2"), None);
    q.actuate(input("D 3S 3H"), None);
    q.actuate(input("T #1 S"), None);
    assert!(q.hints().is_empty());
    q.actuate(input("T #2 A"), None);
    let texts: Vec<String> = q.hints().iter().map(|c| c.to_text()).collect();
    assert_eq!(texts, vec!["3S", "3H", "3S 3H"]);
    assert!(q.can_hint());
    assert_eq!(q.greedy_choice().to_text(), "3S");
}

#[test]
fn greedy_choice_passes_without_a_hint() {
    let mut p = player::new();
    assert!(!p.can_hint());
    p.actuate(None, None);
    p.actuate(input("U #2"), None);
    p.actuate(input("D 3S 4H"), None);
    p.actuate(input("T #1 S"), None);
    p.actuate(input("P #1 2D"), None);
    p.actuate(input("T #2 F"), None);
    assert!(p.hints().is_empty());
    assert!(p.greedy_choice().is_pass());
}
