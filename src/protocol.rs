//! The line protocol between the dealer and the players.
//!
//! Dealer to one player: `U #N` (you are player N), `D C..` (your hand),
//! `? M` (your last line was refused). Dealer to all: `! M` (error),
//! `P #N C..` (N played C..), `T #N S|F|A` (N's turn to start, follow or
//! lead anything), `W #N` (N emptied their hand), `E #N..` (the finishers).
//! Player to dealer: `G` (ready), `P C..` (play C.., none to pass).
use vstd::prelude::*;
use crate::game::{Card, Cards, PlayerNum, Turn, cards_text, cards_to_text, parse_card_list, combo_value, combo_error};
use crate::bots::dealer::{Output, OutputView, digit};
use crate::bots::player::{ServerInput, ServerInputView, ServerOutput};
use crate::text::{push_char, words, split_words, chars_of, slice_chars, views};

verus! {

/// The text `#N` of player `p`.
pub open spec fn num_text(p: int) -> Seq<char> {
    seq!['#', digit(p)]
}

/// The texts of the players `ws`, separated by single spaces.
pub open spec fn nums_text(ws: Seq<int>) -> Seq<char>
    decreases ws.len(),
{
    if ws.len() == 0 {
        seq![]
    } else if ws.len() == 1 {
        num_text(ws[0])
    } else {
        nums_text(ws.drop_last()).push(' ') + num_text(ws.last())
    }
}

/// The letter that announces a turn.
pub open spec fn turn_letter(t: Turn) -> char {
    match t {
        Turn::Start(_) => 'S',
        Turn::Follow(_) => 'F',
        _ => 'A',
    }
}

/// The same line for each of the four players.
pub open spec fn to_all(s: Seq<char>) -> Seq<(int, Seq<char>)> {
    seq![(1, s), (2, s), (3, s), (4, s)]
}

/// Every number of `ws` is a player's.
pub open spec fn players_ok(ws: Seq<int>) -> bool {
    forall|i: int| 0 <= i < ws.len() ==> 1 <= #[trigger] ws[i] <= 4
}

/// The player numbers in `o` are 1 to 4, and a turn it announces is not the end.
pub open spec fn output_wf(o: OutputView) -> bool {
    match o {
        OutputView::You(p) => 1 <= p <= 4,
        OutputView::Deal(p, _) => 1 <= p <= 4,
        OutputView::Turn(t) => 1 <= t.spec_player() <= 4 && !(t is End),
        OutputView::Play(p, _) => 1 <= p <= 4,
        OutputView::Win(p) => 1 <= p <= 4,
        OutputView::End(ws) => players_ok(ws),
        OutputView::Error(_) => true,
        OutputView::PlayError(p, _) => 1 <= p <= 4,
    }
}

/// The addressed lines that carry the output `o`.
pub open spec fn output_lines(o: OutputView) -> Seq<(int, Seq<char>)> {
    match o {
        OutputView::You(p) => seq![(p, "U "@ + num_text(p))],
        OutputView::Error(m) => to_all("! "@ + m),
        OutputView::Deal(p, cs) => seq![(p, "D "@ + cards_text(cs))],
        OutputView::Turn(t) => to_all(("T "@ + num_text(t.spec_player())).push(' ').push(turn_letter(t))),
        OutputView::Play(p, cs) => to_all(("P "@ + num_text(p)).push(' ') + cards_text(cs)),
        OutputView::PlayError(p, m) => to_all("! "@ + num_text(p) + " didn't play properly."@).push((p, "? "@ + m)),
        OutputView::Win(p) => to_all("W "@ + num_text(p)),
        OutputView::End(ws) => to_all("E "@ + nums_text(ws)),
    }
}

/// What each addressed line of `v` says.
pub open spec fn lines_view(v: Seq<(PlayerNum, String)>) -> Seq<(int, Seq<char>)> {
    v.map_values(|l: (PlayerNum, String)| (l.0 as int, l.1@))
}

fn num_char(p: PlayerNum) -> (c: char)
    requires
        1 <= p <= 4,
    ensures
        c == digit(p as int),
{
    if p == 1 { '1' } else if p == 2 { '2' } else if p == 3 { '3' } else { '4' }
}

/// `prefix` followed by the text of player `p`.
fn with_num(prefix: &str, p: PlayerNum) -> (s: String)
    requires
        1 <= p <= 4,
    ensures
        s@ == prefix@ + num_text(p as int),
{
    let mut s = String::from_str(prefix);
    push_char(&mut s, '#');
    push_char(&mut s, num_char(p));
    assert(s@ =~= prefix@ + num_text(p as int));
    s
}

/// The line `s` for each of the four players.
pub fn out_to_all(s: String) -> (r: Vec<(PlayerNum, String)>)
    ensures
        lines_view(r@) == to_all(s@),
{
    let mut r: Vec<(PlayerNum, String)> = Vec::new();
    r.push((1, s.clone()));
    r.push((2, s.clone()));
    r.push((3, s.clone()));
    r.push((4, s));
    assert(lines_view(r@) =~= to_all(s@));
    r
}

fn players_text(ws: &Vec<PlayerNum>) -> (s: String)
    requires
        forall|i: int| 0 <= i < ws@.len() ==> 1 <= #[trigger] ws@[i] <= 4,
    ensures
        s@ == nums_text(ws@.map_values(|w: PlayerNum| w as int)),
{
    let ghost all = ws@.map_values(|w: PlayerNum| w as int);
    let mut s = String::new();
    let mut i: usize = 0;
    assert(all.subrange(0, 0) =~= Seq::<int>::empty());
    while i < ws.len()
        invariant
            i <= ws@.len(),
            all == ws@.map_values(|w: PlayerNum| w as int),
            forall|j: int| 0 <= j < ws@.len() ==> 1 <= #[trigger] ws@[j] <= 4,
            s@ == nums_text(all.subrange(0, i as int)),
        decreases ws@.len() - i,
    {
        let ghost before = s@;
        assert(all.subrange(0, i + 1).drop_last() =~= all.subrange(0, i as int));
        if i > 0 {
            push_char(&mut s, ' ');
        }
        push_char(&mut s, '#');
        push_char(&mut s, num_char(ws[i]));
        i = i + 1;
        if i == 1 {
            assert(s@ =~= nums_text(all.subrange(0, i as int)));
        } else {
            assert(s@ =~= before.push(' ') + num_text(all[i - 1]));
        }
    }
    assert(all.subrange(0, ws@.len() as int) =~= all);
    s
}

/// The addressed lines that carry the output `out`.
pub fn stream_outputs(out: Output) -> (r: Vec<(PlayerNum, String)>)
    requires
        output_wf(out@),
    ensures
        lines_view(r@) == output_lines(out@),
{
    proof {
        reveal_strlit("U ");
        reveal_strlit("! ");
        reveal_strlit("D ");
        reveal_strlit("T ");
        reveal_strlit("P ");
        reveal_strlit("? ");
        reveal_strlit("W ");
        reveal_strlit("E ");
        reveal_strlit(" didn't play properly.");
    }
    let ghost ov = out@;
    match out {
        Output::You(p) => {
            let mut r: Vec<(PlayerNum, String)> = Vec::new();
            r.push((p, with_num("U ", p)));
            assert(lines_view(r@) =~= output_lines(out@));
            r
        },
        Output::Error(msg) => {
            let mut s = String::from_str("! ");
            s.append(msg.as_str());
            out_to_all(s)
        },
        Output::Deal(p, cards) => {
            let mut s = String::from_str("D ");
            let t = cards_to_text(&cards);
            s.append(t.as_str());
            let mut r: Vec<(PlayerNum, String)> = Vec::new();
            r.push((p, s));
            assert(lines_view(r@) =~= output_lines(out@));
            r
        },
        Output::Turn(t) => {
            let mut s = with_num("T ", t.player());
            push_char(&mut s, ' ');
            let letter = match t {
                Turn::Start(_) => 'S',
                Turn::Follow(_) => 'F',
                _ => 'A',
            };
            push_char(&mut s, letter);
            out_to_all(s)
        },
        Output::Play(p, cards) => {
            let mut s = with_num("P ", p);
            push_char(&mut s, ' ');
            let t = cards.to_text();
            s.append(t.as_str());
            out_to_all(s)
        },
        Output::PlayError(p, e) => {
            let mut s = with_num("! ", p);
            s.append(" didn't play properly.");
            let mut outs = out_to_all(s);
            let mut m = String::from_str("? ");
            m.append(e.as_str());
            let ghost before = lines_view(outs@);
            outs.push((p, m));
            assert(lines_view(outs@) =~= before.push((p as int, m@)));
            outs
        },
        Output::Win(p) => out_to_all(with_num("W ", p)),
        Output::End(winners) => {
            let mut s = String::from_str("E ");
            let ghost wv = winners@.map_values(|w: PlayerNum| w as int);
            assert(ov == OutputView::End(wv));
            assert(players_ok(wv));
            assert forall|i: int| 0 <= i < winners@.len() implies 1 <= #[trigger] winners@[i] <= 4 by {
                assert(wv[i] == winners@[i] as int);
                assert(1 <= wv[i] <= 4);
            }
            let t = players_text(&winners);
            s.append(t.as_str());
            out_to_all(s)
        },
    }
}

/// The index of the first space of `s` from `i` on, or -1.
pub open spec fn space_from(s: Seq<char>, i: int) -> int
    decreases s.len() - i,
{
    if 0 <= i < s.len() {
        if s[i] == ' ' {
            i
        } else {
            space_from(s, i + 1)
        }
    } else {
        -1
    }
}

/// `s` cut at its first space, as `str::splitn(2, ' ')` cuts it into two.
pub open spec fn split_once(s: Seq<char>) -> Option<(Seq<char>, Seq<char>)> {
    let k = space_from(s, 0);
    if k >= 0 {
        Some((s.subrange(0, k), s.subrange(k + 1, s.len() as int)))
    } else {
        None
    }
}

/// The player that `#N` names.
pub open spec fn player_num(t: Seq<char>) -> Option<int> {
    if t.len() == 2 && t[0] == '#' {
        if t[1] == '1' {
            Some(1)
        } else if t[1] == '2' {
            Some(2)
        } else if t[1] == '3' {
            Some(3)
        } else if t[1] == '4' {
            Some(4)
        } else {
            None
        }
    } else {
        None
    }
}

/// Reads the words `ws` as cards after `acc`, repeats allowed.
pub open spec fn read_cards(ws: Seq<Seq<char>>, acc: Seq<Card>) -> Result<Seq<Card>, Seq<char>>
    decreases ws.len(),
{
    if ws.len() == 0 {
        Ok(acc)
    } else {
        match Card::from_text(ws[0]) {
            None => Err(Card::text_error(ws[0])),
            Some(c) => read_cards(ws.drop_first(), acc.push(c)),
        }
    }
}

/// Reads the words `ws` as player numbers after `acc`.
pub open spec fn read_nums(ws: Seq<Seq<char>>, acc: Seq<int>) -> Result<Seq<int>, Seq<char>>
    decreases ws.len(),
{
    if ws.len() == 0 {
        Ok(acc)
    } else {
        match player_num(ws[0]) {
            None => Err("invalid player number"@),
            Some(p) => read_nums(ws.drop_first(), acc.push(p)),
        }
    }
}

/// A play line's player and cards: `#N` then the cards, if any.
pub open spec fn read_play(a: Seq<char>) -> Result<ServerInputView, Seq<char>> {
    let (a0, rest) = match split_once(a) {
        Some((x, y)) => (x, y),
        None => (a, seq![]),
    };
    match player_num(a0) {
        None => Err("invalid player number"@),
        Some(p) => match parse_card_list(rest) {
            Err(e) => Err(e),
            Ok(cs) => match combo_value(cs) {
                None => Err(combo_error(cs)),
                Some(v) => Ok(ServerInputView::Play(p, cs, v)),
            },
        },
    }
}

/// A turn line's player and kind.
pub open spec fn read_turn(a: Seq<char>) -> Result<ServerInputView, Seq<char>> {
    let ws = words(a);
    if ws.len() == 2 {
        match player_num(ws[0]) {
            None => Err("invalid player number"@),
            Some(p) => if ws[1] == seq!['S'] {
                Ok(ServerInputView::Turn(Turn::Start(p as usize)))
            } else if ws[1] == seq!['F'] {
                Ok(ServerInputView::Turn(Turn::Follow(p as usize)))
            } else if ws[1] == seq!['A'] {
                Ok(ServerInputView::Turn(Turn::Any(p as usize)))
            } else {
                Err("invalid turn type "@ + ws[1])
            },
        }
    } else {
        Err("invalid args for T"@)
    }
}

/// What the dealer's line `s` says, or why it cannot be read.
pub open spec fn server_line(s: Seq<char>) -> Result<ServerInputView, Seq<char>> {
    match split_once(s) {
        None => Err("no args"@),
        Some((h, a)) => if h == seq!['U'] {
            match player_num(a) {
                Some(p) => Ok(ServerInputView::You(p)),
                None => Err("invalid player number"@),
            }
        } else if h == seq!['D'] {
            match read_cards(words(a), seq![]) {
                Ok(cs) => Ok(ServerInputView::Deal(cs)),
                Err(e) => Err(e),
            }
        } else if h == seq!['P'] {
            read_play(a)
        } else if h == seq!['T'] {
            read_turn(a)
        } else if h == seq!['W'] {
            match player_num(a) {
                Some(p) => Ok(ServerInputView::Win(p)),
                None => Err("invalid player number"@),
            }
        } else if h == seq!['E'] {
            match read_nums(words(a), seq![]) {
                Ok(ws) => Ok(ServerInputView::End(ws)),
                Err(e) => Err(e),
            }
        } else if h == seq!['?'] {
            Ok(ServerInputView::InvalidInput(a))
        } else if h == seq!['!'] {
            Ok(ServerInputView::Error(a))
        } else {
            Err("invalid input"@)
        }
    }
}

proof fn lemma_space_from(s: Seq<char>, i: int)
    requires
        0 <= i,
    ensures
        space_from(s, i) >= 0 ==> i <= space_from(s, i) < s.len() && s[space_from(s, i)] == ' ',
        space_from(s, i) == -1 || space_from(s, i) >= 0,
    decreases s.len() - i,
{
    if 0 <= i < s.len() && s[i] != ' ' {
        lemma_space_from(s, i + 1);
    }
}

fn find_space(s: &Vec<char>) -> (k: Option<usize>)
    ensures
        match k {
            Some(i) => i == space_from(s@, 0) && i < s@.len(),
            None => space_from(s@, 0) == -1,
        },
{
    let mut i: usize = 0;
    while i < s.len()
        invariant
            i <= s@.len(),
            space_from(s@, 0) == space_from(s@, i as int),
        decreases s@.len() - i,
    {
        if s[i] == ' ' {
            return Some(i);
        }
        i = i + 1;
    }
    proof {
        lemma_space_from(s@, 0);
    }
    None
}

fn is_one(t: &Vec<char>, c: char) -> (r: bool)
    ensures
        r == (t@ == seq![c]),
{
    if t.len() == 1 && t[0] == c {
        assert(t@ =~= seq![c]);
        true
    } else {
        false
    }
}

fn player_num_of(t: &Vec<char>) -> (r: Result<PlayerNum, String>)
    ensures
        match player_num(t@) {
            Some(p) => r == Ok::<PlayerNum, String>(p as PlayerNum),
            None => r matches Err(e) && e@ == "invalid player number"@,
        },
{
    if t.len() == 2 && t[0] == '#' {
        if t[1] == '1' {
            return Ok(1);
        } else if t[1] == '2' {
            return Ok(2);
        } else if t[1] == '3' {
            return Ok(3);
        } else if t[1] == '4' {
            return Ok(4);
        }
    }
    Err(String::from_str("invalid player number"))
}

/// The player that `#N` names (N from 1 to 4).
pub fn parse_player_num(s: &str) -> (r: Result<PlayerNum, String>)
    ensures
        match player_num(s@) {
            Some(p) => r == Ok::<PlayerNum, String>(p as PlayerNum),
            None => r matches Err(e) && e@ == "invalid player number"@,
        },
{
    let t = chars_of(s);
    player_num_of(&t)
}

fn read_card_words(ws: &Vec<Vec<char>>) -> (r: Result<Vec<Card>, String>)
    ensures
        match read_cards(views(ws@), seq![]) {
            Ok(cs) => r matches Ok(v) && v@ == cs,
            Err(e) => r matches Err(x) && x@ == e,
        },
{
    let mut cards: Vec<Card> = Vec::new();
    let mut i: usize = 0;
    assert(views(ws@).subrange(0, ws@.len() as int) =~= views(ws@));
    while i < ws.len()
        invariant
            i <= ws@.len(),
            read_cards(views(ws@), seq![]) == read_cards(views(ws@).subrange(i as int, ws@.len() as int), cards@),
        decreases ws@.len() - i,
    {
        let ghost rest = views(ws@).subrange(i as int, ws@.len() as int);
        assert(rest.drop_first() =~= views(ws@).subrange(i + 1, ws@.len() as int));
        assert(rest[0] == ws@[i as int]@);
        match Card::from_chars(&ws[i]) {
            Err(e) => {
                return Err(e);
            },
            Ok(c) => {
                cards.push(c);
            },
        }
        i = i + 1;
    }
    Ok(cards)
}

fn read_num_words(ws: &Vec<Vec<char>>) -> (r: Result<Vec<PlayerNum>, String>)
    ensures
        match read_nums(views(ws@), seq![]) {
            Ok(ns) => r matches Ok(v) && v@.map_values(|w: PlayerNum| w as int) == ns,
            Err(e) => r matches Err(x) && x@ == e,
        },
{
    let mut nums: Vec<PlayerNum> = Vec::new();
    let mut i: usize = 0;
    assert(views(ws@).subrange(0, ws@.len() as int) =~= views(ws@));
    assert(nums@.map_values(|w: PlayerNum| w as int) =~= Seq::<int>::empty());
    while i < ws.len()
        invariant
            i <= ws@.len(),
            read_nums(views(ws@), seq![]) == read_nums(
                views(ws@).subrange(i as int, ws@.len() as int),
                nums@.map_values(|w: PlayerNum| w as int),
            ),
        decreases ws@.len() - i,
    {
        let ghost rest = views(ws@).subrange(i as int, ws@.len() as int);
        assert(rest.drop_first() =~= views(ws@).subrange(i + 1, ws@.len() as int));
        assert(rest[0] == ws@[i as int]@);
        let ghost before = nums@.map_values(|w: PlayerNum| w as int);
        match player_num_of(&ws[i]) {
            Err(e) => {
                return Err(e);
            },
            Ok(p) => {
                nums.push(p);
                assert(nums@.map_values(|w: PlayerNum| w as int) =~= before.push(p as int));
            },
        }
        i = i + 1;
    }
    Ok(nums)
}

impl ServerInput {
    /// Reads a line from the dealer.
    pub fn parse(s: &str) -> (r: Result<ServerInput, String>)
        ensures
            match server_line(s@) {
                Ok(v) => r matches Ok(x) && x@ == v,
                Err(e) => r matches Err(x) && x@ == e,
            },
    {
        proof {
            reveal_strlit("no args");
            reveal_strlit("invalid input");
            reveal_strlit("invalid args for T");
            reveal_strlit("invalid turn type ");
            reveal_strlit("invalid player number");
        }
        let line = chars_of(s);
        let k = match find_space(&line) {
            None => {
                return Err(String::from_str("no args"));
            },
            Some(k) => k,
        };
        let n = line.len();
        assert(k < n);
        let h = slice_chars(&line, 0, k);
        let a = slice_chars(&line, k + 1, n);
        if is_one(&h, 'U') {
            match player_num_of(&a) {
                Ok(p) => Ok(ServerInput::You(p)),
                Err(e) => Err(e),
            }
        } else if is_one(&h, 'D') {
            let ws = split_words(&a);
            match read_card_words(&ws) {
                Ok(cs) => Ok(ServerInput::Deal(cs)),
                Err(e) => Err(e),
            }
        } else if is_one(&h, 'P') {
            let (a0, rest) = match find_space(&a) {
                Some(k2) => (slice_chars(&a, 0, k2), slice_chars(&a, k2 + 1, a.len())),
                None => (slice_chars(&a, 0, a.len()), Vec::new()),
            };
            proof {
                assert(a@.subrange(0, a@.len() as int) =~= a@);
                assert(Seq::<char>::empty() =~= seq![]);
            }
            match player_num_of(&a0) {
                Err(e) => Err(e),
                Ok(p) => {
                    let parsed = Cards::from_chars(&rest);
                    match parsed {
                        Err(e) => Err(e),
                        Ok(cards) => Ok(ServerInput::Play(p, cards)),
                    }
                },
            }
        } else if is_one(&h, 'T') {
            let ws = split_words(&a);
            if ws.len() == 2 {
                assert(views(ws@)[0] == ws@[0]@ && views(ws@)[1] == ws@[1]@);
                match player_num_of(&ws[0]) {
                    Err(e) => Err(e),
                    Ok(p) => {
                        if is_one(&ws[1], 'S') {
                            Ok(ServerInput::Turn(Turn::Start(p)))
                        } else if is_one(&ws[1], 'F') {
                            Ok(ServerInput::Turn(Turn::Follow(p)))
                        } else if is_one(&ws[1], 'A') {
                            Ok(ServerInput::Turn(Turn::Any(p)))
                        } else {
                            let mut m = String::from_str("invalid turn type ");
                            crate::text::push_chars(&mut m, &ws[1]);
                            Err(m)
                        }
                    },
                }
            } else {
                Err(String::from_str("invalid args for T"))
            }
        } else if is_one(&h, 'W') {
            match player_num_of(&a) {
                Ok(p) => Ok(ServerInput::Win(p)),
                Err(e) => Err(e),
            }
        } else if is_one(&h, 'E') {
            let ws = split_words(&a);
            match read_num_words(&ws) {
                Ok(ns) => Ok(ServerInput::End(ns)),
                Err(e) => Err(e),
            }
        } else if is_one(&h, '?') {
            let mut m = String::new();
            crate::text::push_chars(&mut m, &a);
            Ok(ServerInput::InvalidInput(m))
        } else if is_one(&h, '!') {
            let mut m = String::new();
            crate::text::push_chars(&mut m, &a);
            Ok(ServerInput::Error(m))
        } else {
            Err(String::from_str("invalid input"))
        }
    }
}

impl std::str::FromStr for ServerInput {
    type Err = String;

    fn from_str(s: &str) -> Result<ServerInput, String> {
        ServerInput::parse(s)
    }
}

impl ServerOutput {
    /// The line that carries this output to the dealer.
    pub fn to_text(&self) -> (s: String)
        ensures
            match self {
                ServerOutput::Game => s@ == seq!['G'],
                ServerOutput::Play(c) => s@ == seq!['P', ' '] + cards_text(c@),
            },
    {
        match self {
            ServerOutput::Game => {
                let mut s = String::new();
                push_char(&mut s, 'G');
                assert(s@ =~= seq!['G']);
                s
            },
            ServerOutput::Play(c) => {
                let mut s = String::new();
                push_char(&mut s, 'P');
                push_char(&mut s, ' ');
                let t = c.to_text();
                s.append(t.as_str());
                assert(s@ =~= seq!['P', ' '] + cards_text(c@));
                s
            },
        }
    }
}

} // verus!
