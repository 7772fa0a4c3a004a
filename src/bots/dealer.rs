//! The dealer: the authority that sequences a session, one input line at a time.
use vstd::prelude::*;
use crate::game::{
    Card, Cards, Game, GameView, PlayerNum, Turn, full_deck, deal_view, parse_card_list,
    parse_cards_result, combo_value, combo_error, remove_all,
};
use crate::text::{trim, trim_end, trim_chars, trim_end_chars, chars_of, slice_chars, push_char};

verus! {

/// A session's phase, as the dealer's contracts speak of it.
pub enum DealerState {
    Start,
    Wait(int),
    Deal,
    Play(GameView),
    Error,
    End,
}

/// What an output event says.
pub enum OutputView {
    You(int),
    Deal(int, Seq<Card>),
    Turn(Turn),
    Play(int, Seq<Card>),
    Win(int),
    End(Seq<int>),
    Error(Seq<char>),
    PlayError(int, Seq<char>),
}

enum State {
    Start,
    Wait(PlayerNum),
    Deal,
    Play(Game),
    Error,
    End,
}

pub enum Output {
    You(PlayerNum),
    Deal(PlayerNum, Vec<Card>),
    Turn(Turn),
    Play(PlayerNum, Cards),
    Win(PlayerNum),
    End(Vec<PlayerNum>),
    Error(String),
    PlayError(PlayerNum, String),
}

impl View for Output {
    type V = OutputView;

    open spec fn view(&self) -> OutputView {
        match self {
            Output::You(p) => OutputView::You(*p as int),
            Output::Deal(p, cs) => OutputView::Deal(*p as int, cs@),
            Output::Turn(t) => OutputView::Turn(*t),
            Output::Play(p, cs) => OutputView::Play(*p as int, cs@),
            Output::Win(p) => OutputView::Win(*p as int),
            Output::End(ws) => OutputView::End(ws@.map_values(|w: PlayerNum| w as int)),
            Output::Error(m) => OutputView::Error(m@),
            Output::PlayError(p, m) => OutputView::PlayError(*p as int, m@),
        }
    }
}

/// Every output of `v` names players 1 to 4, and none announces the end as a turn.
pub open spec fn outputs_ok(v: Seq<OutputView>) -> bool {
    forall|i: int| 0 <= i < v.len() ==> crate::protocol::output_wf(#[trigger] v[i])
}

/// What each output of `v` says.
pub open spec fn outputs_view(v: Seq<Output>) -> Seq<OutputView> {
    v.map_values(|o: Output| o@)
}

pub open spec fn digit(x: int) -> char {
    if x == 1 { '1' } else if x == 2 { '2' } else if x == 3 { '3' } else { '4' }
}

/// The message that sends a session to its error state in the lobby.
pub open spec fn not_ready_text(x: int) -> Seq<char> {
    seq!['#', digit(x)] + " is not ready."@
}

/// The line is the ready signal: `G`, trailing whitespace aside.
pub open spec fn is_ready_line(line: Seq<char>) -> bool {
    trim_end(line) == seq!['G']
}

/// The argument of a play line: the text after the verb `P`, or `None`
/// where the line does not start with that verb.
pub open spec fn play_args(line: Seq<char>) -> Option<Seq<char>> {
    let t = trim(line);
    if t.len() == 1 && t[0] == 'P' {
        Some(seq![])
    } else if t.len() >= 2 && t[0] == 'P' && t[1] == ' ' {
        Some(t.subrange(2, t.len() as int))
    } else {
        None
    }
}

/// The combination that `line` plays with its rank value, or the notice for
/// a malformed line.
pub open spec fn requested_play(line: Seq<char>) -> Result<(Seq<Card>, int), Seq<char>> {
    match play_args(line) {
        None => Err("invalid input"@),
        Some(rest) => match parse_card_list(rest) {
            Err(e) => Err(e),
            Ok(cs) => match combo_value(cs) {
                None => Err(combo_error(cs)),
                Some(v) => Ok((cs, v)),
            },
        },
    }
}

/// The dealer's answer in a game `g` to the line `line` from the player whose
/// turn it is.
pub open spec fn play_step(g: GameView, line: Seq<char>) -> (DealerState, Seq<OutputView>) {
    let p = g.curr;
    match requested_play(line) {
        Err(e) => (DealerState::Play(g), seq![OutputView::PlayError(p, e)]),
        Ok((cs, v)) => match g.play_error(cs, v) {
            Some(e) => (DealerState::Play(g), seq![OutputView::PlayError(p, e)]),
            None => {
                let g2 = g.after_play(cs, v);
                let won = remove_all(g.hands[p - 1], cs).len() == 0;
                let head = if won {
                    seq![OutputView::Play(p, cs), OutputView::Win(p)]
                } else {
                    seq![OutputView::Play(p, cs)]
                };
                if g2.turn() is End {
                    (DealerState::End, head.push(OutputView::End(g2.winners)))
                } else {
                    (DealerState::Play(g2), head.push(OutputView::Turn(g2.turn())))
                }
            },
        },
    }
}

/// The dealer's answer to `line` in state `st`, where a deal uses `deck`.
pub open spec fn step_spec(st: DealerState, line: Seq<char>, deck: Seq<Card>) -> (DealerState, Seq<OutputView>) {
    match st {
        DealerState::Start => (DealerState::Wait(1), seq![OutputView::You(1)]),
        DealerState::Wait(x) => if !is_ready_line(line) {
            (DealerState::Error, seq![OutputView::Error(not_ready_text(x))])
        } else if x == 4 {
            (DealerState::Deal, seq![])
        } else {
            (DealerState::Wait(x + 1), seq![OutputView::You(x + 1)])
        },
        DealerState::Deal => {
            let g = deal_view(deck);
            (
                DealerState::Play(g),
                seq![
                    OutputView::Deal(1, g.hands[0]),
                    OutputView::Deal(2, g.hands[1]),
                    OutputView::Deal(3, g.hands[2]),
                    OutputView::Deal(4, g.hands[3]),
                    OutputView::Turn(g.turn()),
                ],
            )
        },
        DealerState::Play(g) => play_step(g, line),
        DealerState::Error => (DealerState::Error, seq![]),
        DealerState::End => (DealerState::End, seq![]),
    }
}

/// The player whose line the dealer reads next, if any.
pub open spec fn input_from(st: DealerState) -> Option<int> {
    match st {
        DealerState::Wait(x) => Some(x),
        DealerState::Play(g) => Some(g.turn().spec_player()),
        _ => None,
    }
}

/// The session is over.
pub open spec fn is_over(st: DealerState) -> bool {
    st is End || st is Error
}

pub open spec fn state_wf(st: DealerState) -> bool {
    match st {
        DealerState::Wait(x) => 1 <= x <= 4,
        DealerState::Play(g) => g.wf() && !(g.turn() is End),
        _ => true,
    }
}

pub struct Dealer {
    state: State,
}

impl View for Dealer {
    type V = DealerState;

    closed spec fn view(&self) -> DealerState {
        match &self.state {
            State::Start => DealerState::Start,
            State::Wait(x) => DealerState::Wait(*x as int),
            State::Deal => DealerState::Deal,
            State::Play(g) => DealerState::Play(g@),
            State::Error => DealerState::Error,
            State::End => DealerState::End,
        }
    }
}

/// A dealer at the start of a session.
pub fn new() -> (d: Dealer)
    ensures
        d@ == DealerState::Start,
{
    Dealer { state: State::Start }
}

/// The text of player number `x` (1 to 4).
fn digit_char(x: PlayerNum) -> (c: char)
    requires
        1 <= x <= 4,
    ensures
        c == digit(x as int),
{
    if x == 1 { '1' } else if x == 2 { '2' } else if x == 3 { '3' } else { '4' }
}

fn one_output(o: Output) -> (v: Vec<Output>)
    ensures
        outputs_view(v@) == seq![o@],
{
    let mut v: Vec<Output> = Vec::new();
    v.push(o);
    assert(outputs_view(v@) =~= seq![o@]);
    v
}

/// The dealer's answer in `game` to `inp` from the player whose turn it is;
/// the flag says that the game has ended.
fn play_turn(game: &mut Game, inp: &str) -> (r: (Vec<Output>, bool))
    requires
        old(game)@.wf(),
        !(old(game)@.turn() is End),
    ensures
        final(game)@.wf(),
        r.1 == (play_step(old(game)@, inp@).0 is End),
        !r.1 ==> play_step(old(game)@, inp@).0 == DealerState::Play(final(game)@),
        outputs_view(r.0@) == play_step(old(game)@, inp@).1,
        outputs_ok(outputs_view(r.0@)),
{
    proof {
        reveal_strlit("invalid input");
    }
    let ghost g0 = game@;
    let chars = chars_of(inp);
    let t = trim_chars(&chars);
    let player = game.turn().player();
    let verb_ok = t.len() >= 1 && t[0] == 'P' && (t.len() == 1 || t[1] == ' ');
    if !verb_ok {
        return (one_output(Output::PlayError(player, String::from_str("invalid input"))), false);
    }
    let rest = if t.len() >= 2 { slice_chars(&t, 2, t.len()) } else { Vec::new() };
    assert(play_args(inp@) == Some(rest@)) by {
        if t.len() < 2 {
            assert(rest@ =~= Seq::<char>::empty());
        }
    }
    let parsed = Cards::from_chars(&rest);
    assert(parse_cards_result(rest@, parsed));
    match parsed {
        Err(e) => (one_output(Output::PlayError(player, e)), false),
        Ok(cards) => {
            assert(requested_play(inp@) == Ok::<(Seq<Card>, int), Seq<char>>((cards@, cards.rank_value())));
            match game.play(&cards) {
                Err(e) => (one_output(Output::PlayError(player, e)), false),
                Ok(wins) => {
                    let ghost g2 = game@;
                    let mut outputs: Vec<Output> = Vec::new();
                    outputs.push(Output::Play(player, cards));
                    if wins {
                        outputs.push(Output::Win(player));
                    }
                    let turn = game.turn();
                    let ended = match turn {
                        Turn::End => {
                            outputs.push(Output::End(game.winners()));
                            true
                        },
                        _ => {
                            outputs.push(Output::Turn(turn));
                            false
                        },
                    };
                    proof {
                        let (st, outs) = play_step(g0, inp@);
                        assert(outputs_view(outputs@) =~= outs);
                        let g2 = game@;
                        if g2.turn() is End {
                            assert(crate::protocol::players_ok(g2.winners));
                        }
                        assert(outputs_ok(outputs_view(outputs@)));
                    }
                    (outputs, ended)
                },
            }
        },
    }
}

impl Dealer {
    /// The session is in a state that the dealer can be in.
    pub open spec fn wf(&self) -> bool {
        state_wf(self@)
    }

    /// The dealer is about to deal and needs a shuffled deck.
    pub fn is_dealing(&self) -> (r: bool)
        ensures
            r == (self@ is Deal),
    {
        match self.state {
            State::Deal => true,
            _ => false,
        }
    }

    fn player_input(&self) -> (r: Option<PlayerNum>)
        requires
            self.wf(),
        ensures
            r matches Some(p) ==> input_from(self@) == Some(p as int),
            r is None ==> input_from(self@) is None,
    {
        match &self.state {
            State::Wait(x) => Some(*x),
            State::Play(g) => Some(g.turn().player()),
            _ => None,
        }
    }

    fn has_ended(&self) -> (r: bool)
        ensures
            r == is_over(self@),
    {
        match self.state {
            State::End | State::Error => true,
            _ => false,
        }
    }

    /// Processes one input line, dealing `deck` where the session reaches the
    /// deal. Returns the outputs, the player whose line is read next (none
    /// while dealing or once the session is over) and whether it is over.
    pub fn step(&mut self, inp: &str, deck: Vec<Card>) -> (r: (Vec<Output>, Option<PlayerNum>, bool))
        requires
            old(self).wf(),
            !is_over(old(self)@),
            old(self)@ is Deal ==> full_deck(deck@),
        ensures
            final(self).wf(),
            final(self)@ == step_spec(old(self)@, inp@, deck@).0,
            outputs_view(r.0@) == step_spec(old(self)@, inp@, deck@).1,
            outputs_ok(outputs_view(r.0@)),
            r.1 matches Some(p) ==> input_from(final(self)@) == Some(p as int),
            r.1 is None ==> input_from(final(self)@) is None,
            r.2 == is_over(final(self)@),
    {
        proof {
            reveal_strlit(" is not ready.");
        }
        let mut st = State::End;
        std::mem::swap(&mut self.state, &mut st);
        let ghost s0 = st;
        let (new_state, outputs) = match st {
            State::Start => (State::Wait(1), one_output(Output::You(1))),
            State::Wait(x) => {
                let chars = chars_of(inp);
                let t = trim_end_chars(&chars);
                let ready = t.len() == 1 && t[0] == 'G';
                assert(ready == (t@ == seq!['G'])) by {
                    if ready {
                        assert(t@ =~= seq!['G']);
                    }
                }
                if !ready {
                    let mut m = String::new();
                    push_char(&mut m, '#');
                    push_char(&mut m, digit_char(x));
                    m.append(" is not ready.");
                    assert(m@ =~= not_ready_text(x as int));
                    (State::Error, one_output(Output::Error(m)))
                } else if x == 4 {
                    let v: Vec<Output> = Vec::new();
                    assert(outputs_view(v@) =~= seq![]);
                    (State::Deal, v)
                } else {
                    (State::Wait(x + 1), one_output(Output::You(x + 1)))
                }
            },
            State::Deal => {
                let ghost dk = deck@;
                let game = Game::from_deck(deck);
                let mut outputs: Vec<Output> = Vec::new();
                let mut p: usize = 1;
                while p < 5
                    invariant
                        1 <= p <= 5,
                        game@.wf(),
                        game@ == deal_view(dk),
                        outputs_view(outputs@) == Seq::new((p - 1) as nat, |i: int| OutputView::Deal(i + 1, game@.hands[i])),
                    decreases 5 - p,
                {
                    let ghost before = outputs_view(outputs@);
                    let h = game.hand(p);
                    outputs.push(Output::Deal(p, h));
                    assert(outputs_view(outputs@) =~= before.push(OutputView::Deal(p as int, game@.hands[p - 1])));
                    p = p + 1;
                    assert(outputs_view(outputs@) =~= Seq::new((p - 1) as nat, |i: int| OutputView::Deal(i + 1, game@.hands[i])));
                }
                let turn = game.turn();
                outputs.push(Output::Turn(turn));
                proof {
                    let g = deal_view(dk);
                    let full = Seq::new(4, |i: int| OutputView::Deal(i + 1, game@.hands[i]));
                    assert(full[0] == OutputView::Deal(1, g.hands[0]));
                    assert(full[1] == OutputView::Deal(2, g.hands[1]));
                    assert(full[2] == OutputView::Deal(3, g.hands[2]));
                    assert(full[3] == OutputView::Deal(4, g.hands[3]));
                    assert(outputs_view(outputs@) =~= seq![
                        OutputView::Deal(1, g.hands[0]),
                        OutputView::Deal(2, g.hands[1]),
                        OutputView::Deal(3, g.hands[2]),
                        OutputView::Deal(4, g.hands[3]),
                        OutputView::Turn(g.turn()),
                    ]);
                }
                (State::Play(game), outputs)
            },
            State::Play(game) => {
                let mut game = game;
                let (outputs, ended) = play_turn(&mut game, inp);
                if ended {
                    (State::End, outputs)
                } else {
                    (State::Play(game), outputs)
                }
            },
            State::Error => (State::Error, Vec::new()),
            State::End => (State::End, Vec::new()),
        };
        self.state = new_state;
        let next = self.player_input();
        (outputs, next, self.has_ended())
    }

    /// Processes one input line; where the session reaches the deal, the
    /// cards are shuffled first.
    pub fn actuate(&mut self, inp: &str) -> (r: (Vec<Output>, Option<PlayerNum>, bool))
        requires
            old(self).wf(),
            !is_over(old(self)@),
        ensures
            final(self).wf(),
            exists|deck: Seq<Card>|
                full_deck(deck) && {
                    &&& final(self)@ == step_spec(old(self)@, inp@, deck).0
                    &&& outputs_view(r.0@) == step_spec(old(self)@, inp@, deck).1
                },
            outputs_ok(outputs_view(r.0@)),
            r.1 matches Some(p) ==> input_from(final(self)@) == Some(p as int),
            r.1 is None ==> input_from(final(self)@) is None,
            r.2 == is_over(final(self)@),
    {
        let deck = crate::game::new_deck();
        self.step(inp, deck)
    }
}

} // verus!
