//! A player's side of the session: what it has learnt from the dealer and
//! when it must answer.
use vstd::prelude::*;
use crate::game::{Card, Cards, PlayerNum, Turn, remove_all, remove_cards, copy_cards, combo_value, all_valid, lowest, lowest_card, holds};

verus! {

enum State {
    Start,
    WaitForId,
    WaitForCards,
    Game,
    MyTurn,
    MyPlay,
    End,
}

/// Where a player's state machine is.
pub enum PlayerPhase {
    Start,
    WaitForId,
    WaitForCards,
    Game,
    MyTurn,
    MyPlay,
    End,
}

/// Whose input the player's state machine needs next.
#[derive(Debug, Copy, Clone, PartialEq, Eq, Structural)]
pub enum Status {
    ServerInput,
    UserInput,
    End,
}

/// A line from the dealer, read.
#[derive(Debug)]
pub enum ServerInput {
    You(PlayerNum),
    Deal(Vec<Card>),
    Play(PlayerNum, Cards),
    Turn(Turn),
    Win(PlayerNum),
    End(Vec<PlayerNum>),
    InvalidInput(String),
    Error(String),
}

/// What a line from the dealer says; a combination comes with its rank value.
pub enum ServerInputView {
    You(int),
    Deal(Seq<Card>),
    Play(int, Seq<Card>, int),
    Turn(Turn),
    Win(int),
    End(Seq<int>),
    InvalidInput(Seq<char>),
    Error(Seq<char>),
}

impl View for ServerInput {
    type V = ServerInputView;

    open spec fn view(&self) -> ServerInputView {
        match self {
            ServerInput::You(p) => ServerInputView::You(*p as int),
            ServerInput::Deal(cs) => ServerInputView::Deal(cs@),
            ServerInput::Play(p, cs) => ServerInputView::Play(*p as int, cs@, cs.rank_value()),
            ServerInput::Turn(t) => ServerInputView::Turn(*t),
            ServerInput::Win(p) => ServerInputView::Win(*p as int),
            ServerInput::End(ws) => ServerInputView::End(ws@.map_values(|w: PlayerNum| w as int)),
            ServerInput::InvalidInput(m) => ServerInputView::InvalidInput(m@),
            ServerInput::Error(m) => ServerInputView::Error(m@),
        }
    }
}

pub enum UserInput {
    Play(Cards),
}

pub enum ServerOutput {
    Game,
    Play(Cards),
}

/// What a player knows: its phase and number, its hand, the last turn
/// announced, the last play seen (player, cards, rank value) and the cards
/// it has just sent.
pub struct PlayerView {
    pub phase: PlayerPhase,
    pub num: int,
    pub hand: Seq<Card>,
    pub turn: Option<Turn>,
    pub last_play: Option<(int, Seq<Card>, int)>,
    pub played: Option<Seq<Card>>,
}

pub open spec fn phase_status(ph: PlayerPhase) -> Status {
    match ph {
        PlayerPhase::MyTurn => Status::UserInput,
        PlayerPhase::End => Status::End,
        _ => Status::ServerInput,
    }
}

/// The inputs that the player's state machine expects in phase `ph`; a
/// dealer's error notice is taken, and ignored, in any phase but the last.
pub open spec fn accepts(ph: PlayerPhase, s: Option<ServerInputView>, u: bool) -> bool {
    if s matches Some(ServerInputView::Error(_)) {
        true
    } else {
        match ph {
            PlayerPhase::Start => true,
            PlayerPhase::WaitForId => s matches Some(ServerInputView::You(_)),
            PlayerPhase::WaitForCards => s matches Some(ServerInputView::Deal(_)),
            PlayerPhase::Game => s matches Some(ServerInputView::Play(_, _, _)) || s matches Some(ServerInputView::Turn(_))
                || s matches Some(ServerInputView::Win(_)) || s matches Some(ServerInputView::End(_)),
            PlayerPhase::MyTurn => u,
            PlayerPhase::MyPlay => s matches Some(ServerInputView::Play(_, _, _)) || s matches Some(ServerInputView::InvalidInput(_)),
            PlayerPhase::End => false,
        }
    }
}

/// The player after taking the dealer's input `s` or the user's play `u`,
/// with what it sends to the dealer.
pub open spec fn player_step(v: PlayerView, s: Option<ServerInputView>, u: Option<Seq<Card>>) -> (PlayerView, Option<Option<Seq<Card>>>) {
    if s matches Some(ServerInputView::Error(_)) {
        (v, None)
    } else {
        match v.phase {
            PlayerPhase::Start => (PlayerView { phase: PlayerPhase::WaitForId, ..v }, None),
            PlayerPhase::WaitForId => match s {
                Some(ServerInputView::You(p)) => (PlayerView { phase: PlayerPhase::WaitForCards, num: p, ..v }, Some(None)),
                _ => (v, None),
            },
            PlayerPhase::WaitForCards => match s {
                Some(ServerInputView::Deal(cs)) => (PlayerView { phase: PlayerPhase::Game, hand: cs, ..v }, None),
                _ => (v, None),
            },
            PlayerPhase::Game => match s {
                Some(ServerInputView::Play(p, cs, val)) => if cs.len() > 0 {
                    (PlayerView { last_play: Some((p, cs, val)), ..v }, None)
                } else {
                    (v, None)
                },
                Some(ServerInputView::Turn(t)) => if !(t is End) && t.spec_player() == v.num {
                    (PlayerView { phase: PlayerPhase::MyTurn, turn: Some(t), ..v }, None)
                } else {
                    (PlayerView { turn: Some(t), ..v }, None)
                },
                Some(ServerInputView::End(_)) => (PlayerView { phase: PlayerPhase::End, ..v }, None),
                _ => (v, None),
            },
            PlayerPhase::MyTurn => match u {
                Some(cs) => (PlayerView { phase: PlayerPhase::MyPlay, played: Some(cs), ..v }, Some(Some(cs))),
                None => (v, None),
            },
            PlayerPhase::MyPlay => match s {
                Some(ServerInputView::Play(p, cs, val)) => (
                    PlayerView {
                        phase: PlayerPhase::Game,
                        last_play: Some((p, cs, val)),
                        hand: remove_all(v.hand, v.played.unwrap_or(seq![])),
                        played: None,
                        ..v
                    },
                    None,
                ),
                Some(ServerInputView::InvalidInput(_)) => (PlayerView { phase: PlayerPhase::MyTurn, ..v }, None),
                _ => (v, None),
            },
            PlayerPhase::End => (v, None),
        }
    }
}

pub struct Player {
    state: State,
    num: PlayerNum,
    hand: Vec<Card>,
    turn: Option<Turn>,
    last_play: Option<(PlayerNum, Cards)>,
    played: Option<Cards>,
}

impl View for Player {
    type V = PlayerView;

    closed spec fn view(&self) -> PlayerView {
        PlayerView {
            phase: match self.state {
                State::Start => PlayerPhase::Start,
                State::WaitForId => PlayerPhase::WaitForId,
                State::WaitForCards => PlayerPhase::WaitForCards,
                State::Game => PlayerPhase::Game,
                State::MyTurn => PlayerPhase::MyTurn,
                State::MyPlay => PlayerPhase::MyPlay,
                State::End => PlayerPhase::End,
            },
            num: self.num as int,
            hand: self.hand@,
            turn: self.turn,
            last_play: match &self.last_play {
                Some((p, c)) => Some((*p as int, c@, c.rank_value())),
                None => None,
            },
            played: match &self.played {
                Some(c) => Some(c@),
                None => None,
            },
        }
    }
}

/// What an optional dealer's line says.
pub open spec fn server_input_view(s: Option<ServerInput>) -> Option<ServerInputView> {
    match s {
        Some(x) => Some(x@),
        None => None,
    }
}

/// The cards of an optional user's play.
pub open spec fn user_input_view(u: Option<UserInput>) -> Option<Seq<Card>> {
    match u {
        Some(UserInput::Play(c)) => Some(c@),
        None => None,
    }
}

/// What an optional line to the dealer says: `Some(None)` for ready,
/// `Some(Some(cs))` for a play of `cs`.
pub open spec fn server_output_view(o: Option<ServerOutput>) -> Option<Option<Seq<Card>>> {
    match o {
        Some(ServerOutput::Game) => Some(None),
        Some(ServerOutput::Play(c)) => Some(Some(c@)),
        None => None,
    }
}

/// A player that has not heard from the dealer yet.
pub fn new() -> (p: Player)
    ensures
        p@ == (PlayerView {
            phase: PlayerPhase::Start,
            num: 0,
            hand: seq![],
            turn: None,
            last_play: None,
            played: None,
        }),
{
    let p = Player {
        state: State::Start,
        num: 0,
        hand: Vec::new(),
        turn: None,
        last_play: None,
        played: None,
    };
    assert(p@.hand =~= Seq::<Card>::empty());
    p
}

impl Player {
    /// Whether the state machine takes these inputs now.
    pub fn accepts(&self, s_inp: &Option<ServerInput>, u_inp: &Option<UserInput>) -> (r: bool)
        ensures
            r == accepts(self@.phase, server_input_view(*s_inp), u_inp.is_some()),
    {
        if let Some(ServerInput::Error(_)) = s_inp {
            return true;
        }
        match self.state {
            State::Start => true,
            State::WaitForId => matches!(s_inp, Some(ServerInput::You(_))),
            State::WaitForCards => matches!(s_inp, Some(ServerInput::Deal(_))),
            State::Game => matches!(s_inp, Some(ServerInput::Play(_, _))) || matches!(s_inp, Some(ServerInput::Turn(_)))
                || matches!(s_inp, Some(ServerInput::Win(_))) || matches!(s_inp, Some(ServerInput::End(_))),
            State::MyTurn => u_inp.is_some(),
            State::MyPlay => matches!(s_inp, Some(ServerInput::Play(_, _))) || matches!(s_inp, Some(ServerInput::InvalidInput(_))),
            State::End => false,
        }
    }

    fn status(&self) -> (r: Status)
        ensures
            r == phase_status(self@.phase),
    {
        match self.state {
            State::MyTurn => Status::UserInput,
            State::End => Status::End,
            _ => Status::ServerInput,
        }
    }

    /// Takes one input, from the dealer or from the user, and says what to send
    /// the dealer and whose input is needed next.
    pub fn actuate(&mut self, s_inp: Option<ServerInput>, u_inp: Option<UserInput>) -> (r: (Option<ServerOutput>, Status))
        requires
            accepts(old(self)@.phase, server_input_view(s_inp), u_inp.is_some()),
        ensures
            final(self)@ == player_step(old(self)@, server_input_view(s_inp), user_input_view(u_inp)).0,
            server_output_view(r.0) == player_step(old(self)@, server_input_view(s_inp), user_input_view(u_inp)).1,
            r.1 == phase_status(final(self)@.phase),
    {
        if let Some(ServerInput::Error(_)) = &s_inp {
            return (None, self.status());
        }
        let ghost v0 = self@;
        let output = match self.state {
            State::Start => {
                self.state = State::WaitForId;
                None
            },
            State::WaitForId => {
                if let Some(ServerInput::You(p)) = s_inp {
                    self.num = p;
                    self.state = State::WaitForCards;
                    Some(ServerOutput::Game)
                } else {
                    None
                }
            },
            State::WaitForCards => {
                if let Some(ServerInput::Deal(cards)) = s_inp {
                    self.hand = cards;
                    self.state = State::Game;
                }
                None
            },
            State::Game => {
                match s_inp {
                    Some(ServerInput::Play(p, cards)) => {
                        if !cards.is_pass() {
                            self.last_play = Some((p, cards));
                        }
                    },
                    Some(ServerInput::Turn(turn)) => {
                        self.turn = Some(turn);
                        let mine = match turn {
                            Turn::Start(p) | Turn::Follow(p) | Turn::Any(p) => p == self.num,
                            Turn::End => false,
                        };
                        if mine {
                            self.state = State::MyTurn;
                        }
                    },
                    Some(ServerInput::End(_)) => {
                        self.state = State::End;
                    },
                    _ => {},
                }
                None
            },
            State::MyTurn => {
                match u_inp {
                    Some(UserInput::Play(cards)) => {
                        self.played = Some(cards.duplicate());
                        self.state = State::MyPlay;
                        Some(ServerOutput::Play(cards))
                    },
                    None => None,
                }
            },
            State::MyPlay => {
                match s_inp {
                    Some(ServerInput::Play(p, cards)) => {
                        self.last_play = Some((p, cards));
                        let left = match &self.played {
                            Some(c) => remove_cards(&self.hand, c),
                            None => {
                                let h = copy_cards(&self.hand);
                                proof {
                                    lemma_remove_nothing(self.hand@);
                                }
                                h
                            },
                        };
                        self.hand = left;
                        self.played = None;
                        self.state = State::Game;
                    },
                    Some(ServerInput::InvalidInput(_)) => {
                        self.state = State::MyTurn;
                    },
                    _ => {},
                }
                None
            },
            State::End => None,
        };
        (output, self.status())
    }

    /// The last play seen that was not a pass (for a play of its own, the last play).
    pub fn last_play(&self) -> (r: &Option<(PlayerNum, Cards)>)
        ensures
            match r {
                Some((p, c)) => self@.last_play == Some((*p as int, c@, c.rank_value())),
                None => self@.last_play is None,
            },
    {
        &self.last_play
    }

    /// The cards still in the player's hand.
    pub fn hand(&self) -> (r: &Vec<Card>)
        ensures
            r@ == self@.hand,
    {
        &self.hand
    }
}

proof fn lemma_remove_nothing(h: Seq<Card>)
    ensures
        remove_all(h, seq![]) == h,
    decreases h.len(),
{
    if h.len() > 0 {
        lemma_remove_nothing(h.drop_last());
        assert(h.drop_last().push(h.last()) =~= h);
    }
}

pub open spec fn two_to(n: nat) -> nat
    decreases n,
{
    if n == 0 {
        1
    } else {
        2 * two_to((n - 1) as nat)
    }
}

proof fn lemma_two_to_mono(i: nat, j: nat)
    requires
        i <= j,
    ensures
        two_to(i) <= two_to(j),
    decreases j - i,
{
    if i < j {
        lemma_two_to_mono(i, (j - 1) as nat);
    }
}

/// The cards `h[i]`, `h[i+1]`, ... whose bits are set in `bits`, read from
/// the lowest bit up.
pub open spec fn subset_from(h: Seq<Card>, bits: nat, i: int) -> Seq<Card>
    decreases h.len() - i,
{
    if i < 0 || i >= h.len() {
        seq![]
    } else {
        let rest = subset_from(h, bits / 2, i + 1);
        if bits % 2 == 1 {
            seq![h[i]] + rest
        } else {
            rest
        }
    }
}

/// The cards of `h` that the bit mask `m` selects.
pub open spec fn subset_of(h: Seq<Card>, m: nat) -> Seq<Card> {
    subset_from(h, m, 0)
}

/// `cs` is a play that player `v` could make now.
pub open spec fn is_hint(v: PlayerView, cs: Seq<Card>) -> bool {
    match v.turn {
        Some(Turn::Start(p)) => p == v.num && cs.contains(lowest()) && combo_value(cs) is Some,
        Some(Turn::Follow(_)) => match v.last_play {
            Some((_, lc, lv)) => cs.len() == lc.len() && combo_value(cs) is Some && combo_value(cs)->0 > lv,
            None => false,
        },
        Some(Turn::Any(p)) => p == v.num && combo_value(cs) is Some,
        _ => false,
    }
}

/// The plays among the sub-hands of masks 1 to `m - 1`, in mask order.
pub open spec fn hints_below(v: PlayerView, m: nat) -> Seq<Seq<Card>>
    decreases m,
{
    if m <= 1 {
        seq![]
    } else {
        let rest = hints_below(v, (m - 1) as nat);
        let cs = subset_of(v.hand, (m - 1) as nat);
        if is_hint(v, cs) {
            rest.push(cs)
        } else {
            rest
        }
    }
}

/// What each combination of `v` holds.
pub open spec fn combos_view(v: Seq<Cards>) -> Seq<Seq<Card>> {
    v.map_values(|c: Cards| c@)
}

/// The cards of `h` that the bit mask `mask` selects.
fn pick(h: &Vec<Card>, mask: u64) -> (r: Vec<Card>)
    ensures
        r@ == subset_of(h@, mask as nat),
{
    let mut r: Vec<Card> = Vec::new();
    let mut bits: u64 = mask;
    let mut i: usize = 0;
    while i < h.len()
        invariant
            i <= h@.len(),
            r@ + subset_from(h@, bits as nat, i as int) == subset_of(h@, mask as nat),
        decreases h@.len() - i,
    {
        let ghost before = r@;
        if bits % 2 == 1 {
            r.push(h[i]);
            assert(r@ + subset_from(h@, (bits / 2) as nat, i + 1) =~= before + (seq![h@[i as int]] + subset_from(h@, (bits / 2) as nat, i + 1)));
        }
        bits = bits / 2;
        i = i + 1;
    }
    assert(r@ =~= r@ + subset_from(h@, bits as nat, i as int));
    r
}

impl Player {
    /// Whether `hints` can be asked for now: a turn has been announced, a
    /// follow has a play to follow, and the hand is of cards of the game and
    /// small enough to enumerate.
    pub fn can_hint(&self) -> (r: bool)
        ensures
            r == (self@.turn is Some && !(self@.turn->0 is End) && (self@.turn->0 is Follow
                ==> self@.last_play is Some) && self@.hand.len() < 32 && all_valid(self@.hand)),
    {
        let turn_ok = match self.turn {
            None => false,
            Some(Turn::End) => false,
            Some(Turn::Follow(_)) => self.last_play.is_some(),
            Some(_) => true,
        };
        if !turn_ok || self.hand.len() >= 32 {
            return false;
        }
        let mut i: usize = 0;
        while i < self.hand.len()
            invariant
                i <= self.hand@.len(),
                forall|j: int| 0 <= j < i ==> (#[trigger] self.hand@[j]).valid(),
            decreases self.hand@.len() - i,
        {
            if !self.hand[i].is_valid() {
                return false;
            }
            i = i + 1;
        }
        true
    }

    /// Every play the player could make now, over the sub-hands of its hand
    /// in the order of their bit masks (bit `i` for the `i`-th card).
    pub fn hints(&self) -> (r: Vec<Cards>)
        requires
            self@.turn is Some,
            !(self@.turn->0 is End),
            self@.turn->0 is Follow ==> self@.last_play is Some,
            self@.hand.len() < 32,
            all_valid(self@.hand),
        ensures
            combos_view(r@) == hints_below(self@, two_to(self@.hand.len())),
            forall|i: int| 0 <= i < r@.len() ==> (#[trigger] r@[i]).wf(),
    {
        let ghost v = self@;
        let n = self.hand.len();
        let mut limit: u64 = 1;
        let mut k: usize = 0;
        while k < n
            invariant
                k <= n < 32,
                1 <= limit,
                limit == two_to(k as nat),
            decreases n - k,
        {
            proof {
                lemma_two_to_mono((k + 1) as nat, 32);
                reveal_with_fuel(two_to, 33);
            }
            limit = limit * 2;
            k = k + 1;
        }
        let turn = self.turn.unwrap();
        let (start, follow, mine) = match turn {
            Turn::Start(p) => (true, false, p == self.num),
            Turn::Follow(_) => (false, true, true),
            Turn::Any(p) => (false, false, p == self.num),
            Turn::End => (false, false, false),
        };
        let (cmp_len, cmp_val) = match &self.last_play {
            Some((_, c)) => (c.len(), c.strength()),
            None => (0, 0),
        };
        let low = lowest_card();
        let mut out: Vec<Cards> = Vec::new();
        if !mine {
            proof {
                assert forall|m: nat| m <= limit implies hints_below(v, m) == Seq::<Seq<Card>>::empty() by {
                    lemma_no_hints(v, m);
                }
            }
            assert(combos_view(out@) =~= Seq::<Seq<Card>>::empty());
            return out;
        }
        let mut mask: u64 = 1;
        assert(combos_view(out@) =~= hints_below(v, 1));
        while mask < limit
            invariant
                1 <= mask <= limit,
                v == self@,
                all_valid(v.hand),
                limit == two_to(n as nat),
                n == v.hand.len(),
                low == lowest(),
                mine,
                start == (v.turn->0 is Start),
                follow == (v.turn->0 is Follow),
                v.turn is Some,
                !(v.turn->0 is End),
                follow ==> (v.last_play matches Some((_, lc, lv)) && cmp_len == lc.len() && cmp_val == lv),
                !(v.turn->0 is Follow) ==> v.turn->0.spec_player() == v.num,
                combos_view(out@) == hints_below(v, mask as nat),
                forall|i: int| 0 <= i < out@.len() ==> (#[trigger] out@[i]).wf(),
            decreases limit - mask,
        {
            let cards = pick(&self.hand, mask);
            let ghost cs = cards@;
            assert(all_valid(cs)) by {
                lemma_subset_valid(v.hand, mask as nat, 0);
            }
            let ghost before = combos_view(out@);
            let mut keep = true;
            if start && !holds(&cards, &low) {
                keep = false;
            }
            if follow && cards.len() != cmp_len {
                keep = false;
            }
            if keep {
                match Cards::new(cards) {
                    Ok(c) => {
                        if !follow || c.strength() > cmp_val {
                            out.push(c);
                            assert(combos_view(out@) =~= before.push(cs));
                        }
                    },
                    Err(_) => {},
                }
            }
            assert(hints_below(v, (mask + 1) as nat) == if is_hint(v, cs) { before.push(cs) } else { before });
            mask = mask + 1;
        }
        out
    }
}

impl Player {
    /// The greedy choice: the first hint, or a pass where there is none.
    pub fn greedy_choice(&self) -> (r: Cards)
        requires
            self@.turn is Some,
            !(self@.turn->0 is End),
            self@.turn->0 is Follow ==> self@.last_play is Some,
            self@.hand.len() < 32,
            all_valid(self@.hand),
        ensures
            r.wf(),
            r@ == if hints_below(self@, two_to(self@.hand.len())).len() == 0 {
                Seq::<Card>::empty()
            } else {
                hints_below(self@, two_to(self@.hand.len()))[0]
            },
    {
        let mut hints = self.hints();
        if hints.len() == 0 {
            Cards::pass()
        } else {
            let ghost hv = combos_view(hints@);
            assert(hints@[0].wf());
            assert(hv[0] == hints@[0]@);
            hints.swap_remove(0)
        }
    }
}

proof fn lemma_no_hints(v: PlayerView, m: nat)
    requires
        v.turn is Some,
        (v.turn->0 is Start || v.turn->0 is Any) && v.turn->0.spec_player() != v.num,
    ensures
        hints_below(v, m) == Seq::<Seq<Card>>::empty(),
    decreases m,
{
    if m > 1 {
        lemma_no_hints(v, (m - 1) as nat);
    }
}

proof fn lemma_subset_valid(h: Seq<Card>, bits: nat, i: int)
    requires
        all_valid(h),
        0 <= i,
    ensures
        all_valid(subset_from(h, bits, i)),
    decreases h.len() - i,
{
    if i < h.len() {
        lemma_subset_valid(h, bits / 2, i + 1);
        let rest = subset_from(h, bits / 2, i + 1);
        assert(h[i].valid());
        assert forall|j: int| 0 <= j < rest.len() + 1 implies #[trigger] (seq![h[i]] + rest)[j].valid() by {
            if j > 0 {
                assert((seq![h[i]] + rest)[j] == rest[j - 1]);
            }
        }
    }
}

} // verus!
