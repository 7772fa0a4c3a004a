//! Cards, combinations and the state of one game.
use vstd::prelude::*;
use crate::text::{push_char, words, split_words, chars_of, views};
use std::cmp::Ordering;
use rand::seq::SliceRandom;

verus! {

pub type PlayerNum = usize;

pub type Value = usize;

/// Position of a rank symbol in the order `3456789TJQKA2`, or -1.
pub open spec fn rank_index(c: char) -> int {
    if c == '3' { 0 }
    else if c == '4' { 1 }
    else if c == '5' { 2 }
    else if c == '6' { 3 }
    else if c == '7' { 4 }
    else if c == '8' { 5 }
    else if c == '9' { 6 }
    else if c == 'T' { 7 }
    else if c == 'J' { 8 }
    else if c == 'Q' { 9 }
    else if c == 'K' { 10 }
    else if c == 'A' { 11 }
    else if c == '2' { 12 }
    else { -1 }
}

/// Position of a suit symbol in the order `CSHD`, or -1.
pub open spec fn suit_index(c: char) -> int {
    if c == 'C' { 0 }
    else if c == 'S' { 1 }
    else if c == 'H' { 2 }
    else if c == 'D' { 3 }
    else { -1 }
}

pub open spec fn rank_symbol(i: int) -> char {
    if i == 0 { '3' }
    else if i == 1 { '4' }
    else if i == 2 { '5' }
    else if i == 3 { '6' }
    else if i == 4 { '7' }
    else if i == 5 { '8' }
    else if i == 6 { '9' }
    else if i == 7 { 'T' }
    else if i == 8 { 'J' }
    else if i == 9 { 'Q' }
    else if i == 10 { 'K' }
    else if i == 11 { 'A' }
    else { '2' }
}

pub open spec fn suit_symbol(i: int) -> char {
    if i == 0 { 'C' }
    else if i == 1 { 'S' }
    else if i == 2 { 'H' }
    else { 'D' }
}

fn find_rank(c: char) -> (r: Option<usize>)
    ensures
        match r {
            Some(i) => i == rank_index(c) && i < 13,
            None => rank_index(c) == -1,
        },
{
    if c == '3' { Some(0) }
    else if c == '4' { Some(1) }
    else if c == '5' { Some(2) }
    else if c == '6' { Some(3) }
    else if c == '7' { Some(4) }
    else if c == '8' { Some(5) }
    else if c == '9' { Some(6) }
    else if c == 'T' { Some(7) }
    else if c == 'J' { Some(8) }
    else if c == 'Q' { Some(9) }
    else if c == 'K' { Some(10) }
    else if c == 'A' { Some(11) }
    else if c == '2' { Some(12) }
    else { None }
}

fn find_suit(c: char) -> (r: Option<usize>)
    ensures
        match r {
            Some(i) => i == suit_index(c) && i < 4,
            None => suit_index(c) == -1,
        },
{
    if c == 'C' { Some(0) }
    else if c == 'S' { Some(1) }
    else if c == 'H' { Some(2) }
    else if c == 'D' { Some(3) }
    else { None }
}

fn rank_char(i: usize) -> (c: char)
    requires
        i < 13,
    ensures
        c == rank_symbol(i as int),
        rank_index(c) == i,
{
    if i == 0 { '3' }
    else if i == 1 { '4' }
    else if i == 2 { '5' }
    else if i == 3 { '6' }
    else if i == 4 { '7' }
    else if i == 5 { '8' }
    else if i == 6 { '9' }
    else if i == 7 { 'T' }
    else if i == 8 { 'J' }
    else if i == 9 { 'Q' }
    else if i == 10 { 'K' }
    else if i == 11 { 'A' }
    else { '2' }
}

fn suit_char(i: usize) -> (c: char)
    requires
        i < 4,
    ensures
        c == suit_symbol(i as int),
        suit_index(c) == i,
{
    if i == 0 { 'C' }
    else if i == 1 { 'S' }
    else if i == 2 { 'H' }
    else { 'D' }
}

#[derive(Debug, PartialEq, Eq, Structural, Copy, Clone, Hash)]
pub struct Card {
    pub rank: char,
    pub suit: char,
}

/// The three of clubs, the lowest card of the game.
pub open spec fn lowest() -> Card {
    Card { rank: '3', suit: 'C' }
}

pub fn lowest_card() -> (c: Card)
    ensures
        c == lowest(),
{
    Card { rank: '3', suit: 'C' }
}

impl Card {
    /// The rank and the suit are both symbols of the game.
    pub open spec fn valid(self) -> bool {
        rank_index(self.rank) >= 0 && suit_index(self.suit) >= 0
    }

    pub open spec fn rank_of(self) -> int {
        rank_index(self.rank)
    }

    pub open spec fn suit_of(self) -> int {
        suit_index(self.suit)
    }

    /// The card's place in the total order of the 52 cards.
    pub open spec fn spec_value(self) -> int {
        self.rank_of() * 4 + self.suit_of()
    }

    pub fn is_valid(&self) -> (r: bool)
        ensures
            r == self.valid(),
    {
        find_rank(self.rank).is_some() && find_suit(self.suit).is_some()
    }

    pub fn value(&self) -> (v: Value)
        requires
            self.valid(),
        ensures
            v == self.spec_value(),
            v < 52,
    {
        let r = find_rank(self.rank).unwrap();
        let s = find_suit(self.suit).unwrap();
        r * 4 + s
    }

    /// The two-character text of the card: rank symbol, then suit symbol.
    pub open spec fn text(self) -> Seq<char> {
        seq![self.rank, self.suit]
    }

    pub fn to_text(&self) -> (s: String)
        ensures
            s@ == self.text(),
    {
        let mut s = String::new();
        push_char(&mut s, self.rank);
        push_char(&mut s, self.suit);
        assert(s@ =~= self.text());
        s
    }

    /// The card written by `t`, if `t` writes one.
    pub open spec fn from_text(t: Seq<char>) -> Option<Card> {
        if t.len() == 2 && rank_index(t[0]) >= 0 && suit_index(t[1]) >= 0 {
            Some(Card { rank: t[0], suit: t[1] })
        } else {
            None
        }
    }

    /// Why `t` writes no card.
    pub open spec fn text_error(t: Seq<char>) -> Seq<char> {
        if t.len() != 2 {
            "must be of length 2"@
        } else if rank_index(t[0]) < 0 {
            "invalid rank "@.push(t[0])
        } else {
            "invalid suit "@.push(t[1])
        }
    }

    pub fn from_chars(t: &Vec<char>) -> (r: Result<Card, String>)
        ensures
            match r {
                Ok(c) => Card::from_text(t@) == Some(c) && c.valid(),
                Err(e) => Card::from_text(t@) is None && e@ == Card::text_error(t@),
            },
    {
        proof {
            reveal_strlit("must be of length 2");
            reveal_strlit("invalid rank ");
            reveal_strlit("invalid suit ");
        }
        if t.len() != 2 {
            return Err(String::from_str("must be of length 2"));
        }
        let (rank, suit) = (t[0], t[1]);
        if find_rank(rank).is_none() {
            let mut e = String::from_str("invalid rank ");
            push_char(&mut e, rank);
            Err(e)
        } else if find_suit(suit).is_none() {
            let mut e = String::from_str("invalid suit ");
            push_char(&mut e, suit);
            Err(e)
        } else {
            Ok(Card { rank, suit })
        }
    }

    pub fn parse(s: &str) -> (r: Result<Card, String>)
        ensures
            match r {
                Ok(c) => Card::from_text(s@) == Some(c) && c.valid(),
                Err(e) => Card::from_text(s@) is None && e@ == Card::text_error(s@),
            },
    {
        let t = chars_of(s);
        Card::from_chars(&t)
    }
}

/// Reading back the text of a card gives the card.
pub proof fn lemma_card_text_round_trip(c: Card)
    requires
        c.valid(),
    ensures
        Card::from_text(c.text()) == Some(c),
{
}

/// Every card of `s` is one of the 52.
pub open spec fn all_valid(s: Seq<Card>) -> bool {
    forall|i: int| 0 <= i < s.len() ==> #[trigger] s[i].valid()
}

/// How many cards of `s` have rank `r`.
pub open spec fn rank_count(s: Seq<Card>, r: int) -> nat
    decreases s.len(),
{
    if s.len() == 0 {
        0
    } else {
        rank_count(s.drop_last(), r) + if s.last().rank_of() == r { 1nat } else { 0nat }
    }
}

/// The highest value among the cards of `s` of rank `r`, or -1 if there is none.
pub open spec fn top_of_rank(s: Seq<Card>, r: int) -> int
    decreases s.len(),
{
    if s.len() == 0 {
        -1
    } else {
        let m = top_of_rank(s.drop_last(), r);
        let c = s.last();
        if c.rank_of() == r && c.spec_value() > m {
            c.spec_value()
        } else {
            m
        }
    }
}

/// The highest rank index among the cards of `s`, or -1 if `s` is empty.
pub open spec fn top_rank(s: Seq<Card>) -> int
    decreases s.len(),
{
    if s.len() == 0 {
        -1
    } else {
        let m = top_rank(s.drop_last());
        if s.last().rank_of() > m {
            s.last().rank_of()
        } else {
            m
        }
    }
}

pub open spec fn same_rank(s: Seq<Card>) -> bool {
    forall|i: int| 0 <= i < s.len() ==> #[trigger] s[i].rank_of() == s[0].rank_of()
}

pub open spec fn same_suit(s: Seq<Card>) -> bool {
    forall|i: int| 0 <= i < s.len() ==> #[trigger] s[i].suit_of() == s[0].suit_of()
}

/// The `j`-th rank (0 to 4) of the `k`-th run of five (0 to 9): run 0 is
/// A-2-3-4-5, run 1 is 2-3-4-5-6, run 9 is T-J-Q-K-A.
pub open spec fn run_rank(k: int, j: int) -> int {
    (k + j + 11) % 13
}

/// `s` holds exactly one card of each rank of run `k`.
pub open spec fn is_run(s: Seq<Card>, k: int) -> bool {
    forall|j: int| 0 <= j < 5 ==> #[trigger] rank_count(s, run_rank(k, j)) == 1
}

/// The first run from `k` on that `s` forms, or -1.
pub open spec fn run_from(s: Seq<Card>, k: int) -> int
    decreases 10 - k,
{
    if 0 <= k < 10 {
        if is_run(s, k) {
            k
        } else {
            run_from(s, k + 1)
        }
    } else {
        -1
    }
}

/// The run that the five cards `s` form, or -1.
pub open spec fn straight_run(s: Seq<Card>) -> int {
    run_from(s, 0)
}

/// The first rank from `r` on that `s` holds exactly `n` times, or -1.
pub open spec fn rank_with_count(s: Seq<Card>, n: nat, r: int) -> int
    decreases 13 - r,
{
    if 0 <= r < 13 {
        if rank_count(s, r) == n {
            r
        } else {
            rank_with_count(s, n, r + 1)
        }
    } else {
        -1
    }
}

pub const STRAIGHT: Value = 1;
pub const FLUSH: Value = 2;
pub const FULL_HOUSE: Value = 3;
pub const QUADRO: Value = 4;
pub const STRAIGHT_FLUSH: Value = 5;

/// The kind of the five cards `s` (0 when they form none).
pub open spec fn five_kind(s: Seq<Card>) -> int {
    if straight_run(s) >= 0 {
        if same_suit(s) { STRAIGHT_FLUSH as int } else { STRAIGHT as int }
    } else if same_suit(s) {
        FLUSH as int
    } else if rank_with_count(s, 4, 0) >= 0 {
        QUADRO as int
    } else if rank_with_count(s, 3, 0) >= 0 && rank_with_count(s, 2, 0) >= 0 {
        FULL_HOUSE as int
    } else {
        0
    }
}

/// The tie-break of the five cards `s` within their kind.
pub open spec fn five_tie_break(s: Seq<Card>) -> int {
    let k = five_kind(s);
    if k == STRAIGHT || k == STRAIGHT_FLUSH {
        top_of_rank(s, run_rank(straight_run(s), 4))
    } else if k == FLUSH {
        s[0].suit_of() * 13 + top_rank(s)
    } else if k == QUADRO {
        top_of_rank(s, rank_with_count(s, 4, 0))
    } else {
        top_of_rank(s, rank_with_count(s, 3, 0))
    }
}

/// The rank value of the combination `s`, or `None` where `s` is no combination.
pub open spec fn combo_value(s: Seq<Card>) -> Option<int> {
    if !s.no_duplicates() {
        None
    } else if s.len() == 0 {
        Some(0)
    } else if s.len() == 1 {
        Some(s[0].spec_value())
    } else if s.len() == 2 || s.len() == 3 {
        if same_rank(s) {
            Some(top_of_rank(s, s[0].rank_of()))
        } else {
            None
        }
    } else if s.len() == 5 && five_kind(s) > 0 {
        Some(five_kind(s) * 1000 + five_tie_break(s))
    } else {
        None
    }
}

/// Why `s` is no combination.
pub open spec fn combo_error(s: Seq<Card>) -> Seq<char> {
    if !s.no_duplicates() {
        "cards are not unique"@
    } else if s.len() == 2 {
        "pair doesn't match"@
    } else if s.len() == 3 {
        "trio doesn't match"@
    } else if s.len() == 5 {
        "invalid 5-card combination"@
    } else {
        "invalid length"@
    }
}

proof fn lemma_top_of_rank(s: Seq<Card>, r: int)
    requires
        all_valid(s),
    ensures
        rank_count(s, r) == 0 ==> top_of_rank(s, r) == -1,
        rank_count(s, r) > 0 ==> 4 * r <= top_of_rank(s, r) < 4 * r + 4,
        rank_count(s, r) <= s.len(),
    decreases s.len(),
{
    if s.len() > 0 {
        assert(s[s.len() - 1].valid());
        assert(all_valid(s.drop_last())) by {
            assert forall|i: int| 0 <= i < s.drop_last().len() implies #[trigger] s.drop_last()[i].valid() by {
                assert(s[i].valid());
            }
        }
        lemma_top_of_rank(s.drop_last(), r);
    }
}

proof fn lemma_rank_count_member(s: Seq<Card>, i: int)
    requires
        0 <= i < s.len(),
    ensures
        rank_count(s, s[i].rank_of()) > 0,
    decreases s.len(),
{
    if i < s.len() - 1 {
        lemma_rank_count_member(s.drop_last(), i);
    }
}

fn count_rank(v: &Vec<Card>, r: usize) -> (n: usize)
    ensures
        n == rank_count(v@, r as int),
{
    let mut n: usize = 0;
    let mut i: usize = 0;
    while i < v.len()
        invariant
            i <= v@.len(),
            n <= i,
            n == rank_count(v@.subrange(0, i as int), r as int),
        decreases v@.len() - i,
    {
        assert(v@.subrange(0, i + 1).drop_last() =~= v@.subrange(0, i as int));
        if find_rank(v[i].rank) == Some(r) {
            n = n + 1;
        }
        i = i + 1;
    }
    assert(v@.subrange(0, v@.len() as int) =~= v@);
    n
}

fn top_value_of_rank(v: &Vec<Card>, r: usize) -> (m: i64)
    requires
        all_valid(v@),
    ensures
        m == top_of_rank(v@, r as int),
        -1 <= m < 52,
{
    let mut m: i64 = -1;
    let mut i: usize = 0;
    while i < v.len()
        invariant
            i <= v@.len(),
            all_valid(v@),
            -1 <= m < 52,
            m == top_of_rank(v@.subrange(0, i as int), r as int),
        decreases v@.len() - i,
    {
        assert(v@.subrange(0, i + 1).drop_last() =~= v@.subrange(0, i as int));
        assert(v@[i as int].valid());
        if find_rank(v[i].rank) == Some(r) && v[i].value() as i64 > m {
            m = v[i].value() as i64;
        }
        i = i + 1;
    }
    assert(v@.subrange(0, v@.len() as int) =~= v@);
    m
}

fn top_rank_exec(v: &Vec<Card>) -> (m: i64)
    requires
        all_valid(v@),
    ensures
        m == top_rank(v@),
        -1 <= m < 13,
        v@.len() > 0 ==> m >= 0,
{
    let mut m: i64 = -1;
    let mut i: usize = 0;
    while i < v.len()
        invariant
            i <= v@.len(),
            all_valid(v@),
            -1 <= m < 13,
            i > 0 ==> m >= 0,
            m == top_rank(v@.subrange(0, i as int)),
        decreases v@.len() - i,
    {
        assert(v@.subrange(0, i + 1).drop_last() =~= v@.subrange(0, i as int));
        assert(v@[i as int].valid());
        let k = find_rank(v[i].rank).unwrap() as i64;
        if k > m {
            m = k;
        }
        i = i + 1;
    }
    assert(v@.subrange(0, v@.len() as int) =~= v@);
    m
}

fn all_same_rank(v: &Vec<Card>) -> (b: bool)
    requires
        v@.len() > 0,
        all_valid(v@),
    ensures
        b == same_rank(v@),
{
    let mut i: usize = 1;
    while i < v.len()
        invariant
            1 <= i <= v@.len(),
            all_valid(v@),
            forall|j: int| 0 <= j < i ==> #[trigger] v@[j].rank_of() == v@[0].rank_of(),
        decreases v@.len() - i,
    {
        if v[i].rank != v[0].rank {
            assert(v@[i as int].valid() && v@[0].valid());
            assert(v@[i as int].rank_of() != v@[0].rank_of());
            return false;
        }
        i = i + 1;
    }
    true
}

fn all_same_suit(v: &Vec<Card>) -> (b: bool)
    requires
        v@.len() > 0,
        all_valid(v@),
    ensures
        b == same_suit(v@),
{
    let mut i: usize = 1;
    while i < v.len()
        invariant
            1 <= i <= v@.len(),
            all_valid(v@),
            forall|j: int| 0 <= j < i ==> #[trigger] v@[j].suit_of() == v@[0].suit_of(),
        decreases v@.len() - i,
    {
        if v[i].suit != v[0].suit {
            assert(v@[i as int].valid() && v@[0].valid());
            assert(v@[i as int].suit_of() != v@[0].suit_of());
            return false;
        }
        i = i + 1;
    }
    true
}

fn has_duplicates(v: &Vec<Card>) -> (b: bool)
    ensures
        b == !v@.no_duplicates(),
{
    let mut i: usize = 0;
    while i < v.len()
        invariant
            i <= v@.len(),
            forall|a: int, b: int| 0 <= a < b < i ==> v@[a] != v@[b],
        decreases v@.len() - i,
    {
        let mut j: usize = 0;
        while j < i
            invariant
                i < v@.len(),
                j <= i,
                forall|a: int| 0 <= a < j ==> v@[a] != v@[i as int],
            decreases i - j,
        {
            if v[j] == v[i] {
                return true;
            }
            j = j + 1;
        }
        i = i + 1;
    }
    false
}

fn find_run(v: &Vec<Card>) -> (k: i64)
    ensures
        k == straight_run(v@),
        -1 <= k < 10,
{
    let mut k: usize = 0;
    while k < 10
        invariant
            k <= 10,
            run_from(v@, 0) == run_from(v@, k as int),
        decreases 10 - k,
    {
        let mut j: usize = 0;
        let mut all = true;
        while j < 5
            invariant
                j <= 5,
                k < 10,
                all == forall|jj: int| 0 <= jj < j ==> #[trigger] rank_count(v@, run_rank(k as int, jj)) == 1,
            decreases 5 - j,
        {
            assert(run_rank(k as int, j as int) == ((k + j + 11) % 13) as int);
            if count_rank(v, (k + j + 11) % 13) != 1 {
                all = false;
            }
            j = j + 1;
        }
        if all {
            return k as i64;
        }
        k = k + 1;
    }
    -1
}

fn find_rank_with_count(v: &Vec<Card>, n: usize) -> (r: i64)
    ensures
        r == rank_with_count(v@, n as nat, 0),
        -1 <= r < 13,
{
    let mut r: usize = 0;
    while r < 13
        invariant
            r <= 13,
            rank_with_count(v@, n as nat, 0) == rank_with_count(v@, n as nat, r as int),
        decreases 13 - r,
    {
        if count_rank(v, r) == n {
            return r as i64;
        }
        r = r + 1;
    }
    -1
}

proof fn lemma_run_found(s: Seq<Card>, k: int)
    requires
        0 <= k,
    ensures
        run_from(s, k) >= 0 ==> is_run(s, run_from(s, k)) && run_from(s, k) < 10,
    decreases 10 - k,
{
    if 0 <= k < 10 && !is_run(s, k) {
        lemma_run_found(s, k + 1);
    }
}

proof fn lemma_count_found(s: Seq<Card>, n: nat, r: int)
    requires
        0 <= r,
    ensures
        rank_with_count(s, n, r) >= 0 ==> rank_count(s, rank_with_count(s, n, r)) == n
            && rank_with_count(s, n, r) < 13,
    decreases 13 - r,
{
    if 0 <= r < 13 && rank_count(s, r) != n {
        lemma_count_found(s, n, r + 1);
    }
}

/// A copy of the cards of `v`.
pub fn copy_cards(v: &Vec<Card>) -> (r: Vec<Card>)
    ensures
        r@ == v@,
{
    let mut r: Vec<Card> = Vec::new();
    let mut i: usize = 0;
    while i < v.len()
        invariant
            i <= v@.len(),
            r@ == v@.subrange(0, i as int),
        decreases v@.len() - i,
    {
        r.push(v[i]);
        i = i + 1;
        assert(r@ =~= v@.subrange(0, i as int));
    }
    assert(v@.subrange(0, v@.len() as int) =~= v@);
    r
}

/// A set of cards played together, with its rank value.
#[derive(Debug, Clone)]
pub struct Cards(Vec<Card>, Value);

impl View for Cards {
    type V = Seq<Card>;

    closed spec fn view(&self) -> Seq<Card> {
        self.0@
    }
}

impl Cards {
    /// The rank value that the cards were classified with.
    pub closed spec fn rank_value(self) -> int {
        self.1 as int
    }

    /// The cards are a legal combination and carry its rank value.
    pub open spec fn wf(self) -> bool {
        all_valid(self@) && combo_value(self@) == Some(self.rank_value())
    }

    /// Classifies `cards`: their rank value, or why they form no combination.
    pub fn value(cards: &Vec<Card>) -> (r: Result<Value, String>)
        requires
            all_valid(cards@),
        ensures
            match r {
                Ok(x) => combo_value(cards@) == Some(x as int),
                Err(e) => combo_value(cards@) is None && e@ == combo_error(cards@),
            },
    {
        proof {
            reveal_strlit("cards are not unique");
            reveal_strlit("pair doesn't match");
            reveal_strlit("trio doesn't match");
            reveal_strlit("invalid 5-card combination");
            reveal_strlit("invalid length");
        }
        let v = cards;
        if has_duplicates(v) {
            return Err(String::from_str("cards are not unique"));
        }
        let n = v.len();
        if n == 0 {
            Ok(0)
        } else if n == 1 {
            assert(v@[0].valid());
            Ok(v[0].value())
        } else if n == 2 || n == 3 {
            if all_same_rank(v) {
                assert(v@[0].valid());
                let r = find_rank(v[0].rank).unwrap();
                proof {
                    lemma_rank_count_member(v@, 0);
                    lemma_top_of_rank(v@, r as int);
                }
                let m = top_value_of_rank(v, r);
                Ok(m as usize)
            } else if n == 2 {
                Err(String::from_str("pair doesn't match"))
            } else {
                Err(String::from_str("trio doesn't match"))
            }
        } else if n == 5 {
            let k = find_run(v);
            let flush = all_same_suit(v);
            if k >= 0 {
                let hr = ((k as usize) + 15) % 13;
                proof {
                    lemma_run_found(v@, 0);
                    assert(run_rank(k as int, 4) == hr as int);
                    assert(rank_count(v@, run_rank(k as int, 4)) == 1);
                    lemma_top_of_rank(v@, hr as int);
                }
                let m = top_value_of_rank(v, hr);
                let kind = if flush { STRAIGHT_FLUSH } else { STRAIGHT };
                Ok(kind * 1000 + m as usize)
            } else if flush {
                assert(v@[0].valid());
                let s = find_suit(v[0].suit).unwrap();
                let tr = top_rank_exec(v);
                Ok(FLUSH * 1000 + s * 13 + tr as usize)
            } else {
                let q = find_rank_with_count(v, 4);
                if q >= 0 {
                    proof {
                        lemma_count_found(v@, 4, 0);
                        lemma_top_of_rank(v@, q as int);
                    }
                    let m = top_value_of_rank(v, q as usize);
                    Ok(QUADRO * 1000 + m as usize)
                } else {
                    let t3 = find_rank_with_count(v, 3);
                    let t2 = find_rank_with_count(v, 2);
                    if t3 >= 0 && t2 >= 0 {
                        proof {
                            lemma_count_found(v@, 3, 0);
                            lemma_top_of_rank(v@, t3 as int);
                        }
                        let m = top_value_of_rank(v, t3 as usize);
                        Ok(FULL_HOUSE * 1000 + m as usize)
                    } else {
                        Err(String::from_str("invalid 5-card combination"))
                    }
                }
            }
        } else {
            Err(String::from_str("invalid length"))
        }
    }

    /// Makes a combination of `cards`, or says why they form none.
    pub fn new(cards: Vec<Card>) -> (r: Result<Cards, String>)
        requires
            all_valid(cards@),
        ensures
            match r {
                Ok(c) => c.wf() && c@ == cards@,
                Err(e) => combo_value(cards@) is None && e@ == combo_error(cards@),
            },
    {
        let val = Cards::value(&cards)?;
        Ok(Cards(cards, val))
    }

    /// The combination of no cards: a pass.
    pub fn pass() -> (r: Cards)
        ensures
            r.wf(),
            r@ == Seq::<Card>::empty(),
    {
        let r = Cards(Vec::new(), 0);
        assert(r@ =~= Seq::<Card>::empty());
        r
    }

    pub fn is_pass(&self) -> (r: bool)
        ensures
            r == (self@.len() == 0),
    {
        self.0.len() == 0
    }

    pub fn len(&self) -> (r: usize)
        ensures
            r == self@.len(),
    {
        self.0.len()
    }

    /// The rank value, for comparing combinations of equal size.
    pub fn strength(&self) -> (r: Value)
        ensures
            r == self.rank_value(),
    {
        self.1
    }

    /// The `i`-th card.
    pub fn get(&self, i: usize) -> (c: Card)
        requires
            i < self@.len(),
        ensures
            c == self@[i as int],
    {
        self.0[i]
    }

    /// The cards, in the order they were given.
    pub fn to_vec(&self) -> (r: Vec<Card>)
        ensures
            r@ == self@,
    {
        copy_cards(&self.0)
    }

    /// A copy whose contents and rank value are known to be the same.
    pub fn duplicate(&self) -> (r: Cards)
        ensures
            r@ == self@,
            r.rank_value() == self.rank_value(),
    {
        Cards(copy_cards(&self.0), self.1)
    }

    /// Whether the combination holds `card`.
    pub fn contains(&self, card: &Card) -> (r: bool)
        ensures
            r == self@.contains(*card),
    {
        holds(&self.0, card)
    }
}

/// Reads the words `ws` as cards after the cards `acc`; a repeated card is refused.
pub open spec fn parse_words(ws: Seq<Seq<char>>, acc: Seq<Card>) -> Result<Seq<Card>, Seq<char>>
    decreases ws.len(),
{
    if ws.len() == 0 {
        Ok(acc)
    } else {
        match Card::from_text(ws[0]) {
            None => Err(Card::text_error(ws[0])),
            Some(c) => if acc.contains(c) {
                Err("cards are not unique"@)
            } else {
                parse_words(ws.drop_first(), acc.push(c))
            },
        }
    }
}

/// The cards that the whitespace-separated card tokens of `s` name.
pub open spec fn parse_card_list(s: Seq<char>) -> Result<Seq<Card>, Seq<char>> {
    parse_words(words(s), seq![])
}

/// What reading `s` as a combination gives: the cards, or the error text.
pub open spec fn parse_cards_result(s: Seq<char>, r: Result<Cards, String>) -> bool {
    match parse_card_list(s) {
        Err(e) => r matches Err(x) && x@ == e,
        Ok(cs) => match r {
            Ok(c) => c.wf() && c@ == cs,
            Err(x) => combo_value(cs) is None && x@ == combo_error(cs),
        },
    }
}

/// The text of the cards `s`, separated by single spaces.
pub open spec fn cards_text(s: Seq<Card>) -> Seq<char>
    decreases s.len(),
{
    if s.len() == 0 {
        seq![]
    } else if s.len() == 1 {
        s[0].text()
    } else {
        cards_text(s.drop_last()).push(' ') + s.last().text()
    }
}

/// Whether `v` holds `card`.
pub fn holds(v: &Vec<Card>, card: &Card) -> (r: bool)
    ensures
        r == v@.contains(*card),
{
    let mut i: usize = 0;
    while i < v.len()
        invariant
            i <= v@.len(),
            forall|j: int| 0 <= j < i ==> v@[j] != *card,
        decreases v@.len() - i,
    {
        if v[i] == *card {
            return true;
        }
        i = i + 1;
    }
    false
}

/// The text of the cards of `v`, separated by single spaces.
pub fn cards_to_text(v: &Vec<Card>) -> (s: String)
    ensures
        s@ == cards_text(v@),
{
    let mut s = String::new();
    let mut i: usize = 0;
    assert(s@ =~= cards_text(v@.subrange(0, 0)));
    while i < v.len()
        invariant
            i <= v@.len(),
            s@ == cards_text(v@.subrange(0, i as int)),
        decreases v@.len() - i,
    {
        let ghost before = s@;
        assert(v@.subrange(0, i + 1).drop_last() =~= v@.subrange(0, i as int));
        if i > 0 {
            push_char(&mut s, ' ');
        }
        push_char(&mut s, v[i].rank);
        push_char(&mut s, v[i].suit);
        i = i + 1;
        if i == 1 {
            assert(s@ =~= cards_text(v@.subrange(0, i as int)));
        } else {
            assert(s@ =~= before.push(' ') + v@[i - 1].text());
        }
    }
    assert(v@.subrange(0, v@.len() as int) =~= v@);
    s
}

impl Cards {
    /// Reads a combination from whitespace-separated card tokens.
    pub fn from_chars(s: &Vec<char>) -> (r: Result<Cards, String>)
        ensures
            parse_cards_result(s@, r),
    {
        proof {
            reveal_strlit("cards are not unique");
        }
        let ws = split_words(s);
        let mut cards: Vec<Card> = Vec::new();
        let mut i: usize = 0;
        assert(views(ws@).subrange(0, views(ws@).len() as int) =~= views(ws@));
        while i < ws.len()
            invariant
                views(ws@) == words(s@),
                i <= ws@.len(),
                all_valid(cards@),
                parse_card_list(s@) == parse_words(
                    views(ws@).subrange(i as int, ws@.len() as int),
                    cards@,
                ),
            decreases ws@.len() - i,
        {
            let ghost rest = views(ws@).subrange(i as int, ws@.len() as int);
            assert(rest.drop_first() =~= views(ws@).subrange(i + 1, ws@.len() as int));
            assert(rest[0] == ws@[i as int]@);
            match Card::from_chars(&ws[i]) {
                Err(e) => {
                    return Err(e);
                },
                Ok(c) => {
                    if holds(&cards, &c) {
                        return Err(String::from_str("cards are not unique"));
                    }
                    cards.push(c);
                },
            }
            i = i + 1;
        }
        Cards::new(cards)
    }

    /// Reads a combination from whitespace-separated card tokens.
    pub fn parse(s: &str) -> (r: Result<Cards, String>)
        ensures
            parse_cards_result(s@, r),
    {
        let v = chars_of(s);
        Cards::from_chars(&v)
    }

    /// The cards as text, separated by single spaces.
    pub fn to_text(&self) -> (s: String)
        ensures
            s@ == cards_text(self@),
    {
        cards_to_text(&self.0)
    }
}

/// The order of two combinations: by rank value where their sizes agree;
/// otherwise the larger set comes first.
pub open spec fn cards_order(a: Cards, b: Cards) -> Ordering {
    if a@.len() == b@.len() {
        if a.rank_value() < b.rank_value() {
            Ordering::Less
        } else if a.rank_value() > b.rank_value() {
            Ordering::Greater
        } else {
            Ordering::Equal
        }
    } else if b@.len() < a@.len() {
        Ordering::Less
    } else {
        Ordering::Greater
    }
}

impl PartialEq for Cards {
    fn eq(&self, other: &Cards) -> (r: bool) {
        self.0.len() == other.0.len() && self.1 == other.1
    }
}

impl vstd::std_specs::cmp::PartialEqSpecImpl for Cards {
    open spec fn obeys_eq_spec() -> bool {
        true
    }

    open spec fn eq_spec(&self, other: &Cards) -> bool {
        self@.len() == other@.len() && self.rank_value() == other.rank_value()
    }
}

impl Eq for Cards {
}

impl PartialOrd for Cards {
    fn partial_cmp(&self, other: &Cards) -> (r: Option<Ordering>) {
        let (len1, len2) = (self.0.len(), other.0.len());
        if len1 == len2 {
            if self.1 < other.1 {
                Some(Ordering::Less)
            } else if self.1 > other.1 {
                Some(Ordering::Greater)
            } else {
                Some(Ordering::Equal)
            }
        } else if len2 < len1 {
            Some(Ordering::Less)
        } else {
            Some(Ordering::Greater)
        }
    }
}

impl vstd::std_specs::cmp::PartialOrdSpecImpl for Cards {
    open spec fn obeys_partial_cmp_spec() -> bool {
        true
    }

    open spec fn partial_cmp_spec(&self, other: &Cards) -> Option<Ordering> {
        Some(cards_order(*self, *other))
    }
}

impl std::str::FromStr for Cards {
    type Err = String;

    fn from_str(s: &str) -> Result<Cards, String> {
        Cards::parse(s)
    }
}

#[derive(Debug, Copy, Clone, PartialEq, Eq, Structural)]
pub enum Turn {
    Start(PlayerNum),
    Follow(PlayerNum),
    Any(PlayerNum),
    End,
}

impl Turn {
    /// The player who must act, for every turn but `End`.
    pub open spec fn spec_player(self) -> int {
        match self {
            Turn::Start(p) => p as int,
            Turn::Follow(p) => p as int,
            Turn::Any(p) => p as int,
            Turn::End => 0,
        }
    }

    pub fn player(&self) -> (p: PlayerNum)
        requires
            !(*self is End),
        ensures
            p == self.spec_player(),
    {
        match *self {
            Turn::Start(p) => p,
            Turn::Follow(p) => p,
            Turn::Any(p) => p,
            Turn::End => 0,
        }
    }
}

/// What a game is: the turn pointer, the four hands, the discarded cards, the
/// last play that was not a pass (player, cards, rank value) and the finishers.
pub struct GameView {
    pub curr: int,
    pub hands: Seq<Seq<Card>>,
    pub discard: Seq<Card>,
    pub last: Option<(int, Seq<Card>, int)>,
    pub winners: Seq<int>,
}

/// The player after `p`, cyclically from 4 back to 1.
pub open spec fn succ(p: int) -> int {
    p % 4 + 1
}

/// The first player after `p`, within `fuel` steps, whose hand is not empty.
pub open spec fn next_holder_from(hands: Seq<Seq<Card>>, p: int, fuel: nat) -> int
    decreases fuel,
{
    if fuel == 0 {
        p
    } else if hands[succ(p) - 1].len() > 0 {
        succ(p)
    } else {
        next_holder_from(hands, succ(p), (fuel - 1) as nat)
    }
}

/// The next player after `p` who still holds cards.
pub open spec fn next_holder(hands: Seq<Seq<Card>>, p: int) -> int {
    next_holder_from(hands, p, 4)
}

/// The cards of `h` that are not in `cs`, in the order of `h`.
pub open spec fn remove_all(h: Seq<Card>, cs: Seq<Card>) -> Seq<Card>
    decreases h.len(),
{
    if h.len() == 0 {
        seq![]
    } else if cs.contains(h.last()) {
        remove_all(h.drop_last(), cs)
    } else {
        remove_all(h.drop_last(), cs).push(h.last())
    }
}

/// Every card of `a` is in `b`.
pub open spec fn all_in(a: Seq<Card>, b: Seq<Card>) -> bool {
    forall|i: int| 0 <= i < a.len() ==> b.contains(#[trigger] a[i])
}

impl GameView {
    /// The state that a game keeps between plays.
    pub open spec fn wf(self) -> bool {
        &&& self.hands.len() == 4
        &&& 1 <= self.curr <= 4
        &&& forall|p: int| 0 <= p < 4 ==> all_valid(#[trigger] self.hands[p]) && self.hands[p].no_duplicates()
        &&& self.winners.len() <= 3
        &&& self.winners.no_duplicates()
        &&& forall|i: int| 0 <= i < self.winners.len() ==> 1 <= #[trigger] self.winners[i] <= 4
        &&& forall|p: int| 1 <= p <= 4 ==> (#[trigger] self.hands[p - 1].len() == 0 <==> self.winners.contains(p))
        &&& self.winners.len() < 3 ==> self.hands[self.curr - 1].len() > 0
        &&& self.last matches Some((p, cs, val)) ==> 1 <= p <= 4 && combo_value(cs) == Some(val)
    }

    pub open spec fn turn(self) -> Turn {
        if self.winners.len() == 3 {
            Turn::End
        } else {
            match self.last {
                Some((p, _, _)) => if p == self.curr || self.hands[p - 1].len() == 0 {
                    Turn::Any(self.curr as usize)
                } else {
                    Turn::Follow(self.curr as usize)
                },
                None => Turn::Start(self.curr as usize),
            }
        }
    }

    /// Why the player whose turn it is may not play `cs` (with rank value
    /// `val`), or `None` where the play is legal.
    pub open spec fn play_error(self, cs: Seq<Card>, val: int) -> Option<Seq<char>> {
        let t = self.turn();
        if !all_in(cs, self.hands[self.curr - 1]) {
            Some("some cards are not in player's hands"@)
        } else {
            match t {
                Turn::Start(_) => if cs.len() == 0 {
                    Some("cannot pass"@)
                } else if !cs.contains(lowest()) {
                    Some("first play must include three of clubs"@)
                } else {
                    None
                },
                Turn::Follow(_) => match self.last {
                    Some((_, lc, lv)) => if cs.len() == 0 {
                        None
                    } else if lc.len() != cs.len() {
                        Some("should follow the number of cards of last play"@)
                    } else if val <= lv {
                        Some("played cards are lower than last"@)
                    } else {
                        None
                    },
                    None => None,
                },
                Turn::Any(_) => if cs.len() == 0 {
                    Some("cannot pass"@)
                } else {
                    None
                },
                Turn::End => None,
            }
        }
    }

    /// The game after the player whose turn it is legally plays `cs`.
    pub open spec fn after_play(self, cs: Seq<Card>, val: int) -> GameView {
        let p = self.curr;
        let nh = remove_all(self.hands[p - 1], cs);
        let hands = self.hands.update(p - 1, nh);
        let winners = if nh.len() == 0 { self.winners.push(p) } else { self.winners };
        GameView {
            curr: if winners.len() == 3 { p } else { next_holder(hands, p) },
            hands,
            discard: self.discard + cs,
            last: if cs.len() == 0 { self.last } else { Some((p, cs, val)) },
            winners,
        }
    }
}

/// The 13 cards that player `p` is dealt from `deck`.
pub open spec fn dealt_hand(deck: Seq<Card>, p: int) -> Seq<Card> {
    deck.subrange(13 * (p - 1), 13 * p)
}

/// A deck of the 52 distinct cards.
pub open spec fn full_deck(deck: Seq<Card>) -> bool {
    deck.len() == 52 && deck.no_duplicates() && all_valid(deck) && deck.contains(lowest())
}

/// Who is dealt the three of clubs from `deck`.
pub open spec fn lowest_holder(deck: Seq<Card>) -> int {
    if dealt_hand(deck, 1).contains(lowest()) {
        1
    } else if dealt_hand(deck, 2).contains(lowest()) {
        2
    } else if dealt_hand(deck, 3).contains(lowest()) {
        3
    } else {
        4
    }
}

/// The game that dealing `deck` starts.
pub open spec fn deal_view(deck: Seq<Card>) -> GameView {
    GameView {
        curr: lowest_holder(deck),
        hands: Seq::new(4, |i: int| dealt_hand(deck, i + 1)),
        discard: seq![],
        last: None,
        winners: seq![],
    }
}

pub struct Game {
    curr_player: PlayerNum,
    hands: Vec<Vec<Card>>,
    discard_pile: Vec<Card>,
    last_play: Option<(PlayerNum, Cards)>,
    winners: Vec<PlayerNum>,
}

impl View for Game {
    type V = GameView;

    closed spec fn view(&self) -> GameView {
        GameView {
            curr: self.curr_player as int,
            hands: self.hands@.map_values(|h: Vec<Card>| h@),
            discard: self.discard_pile@,
            last: match self.last_play {
                Some((p, c)) => Some((p as int, c@, c.rank_value())),
                None => None,
            },
            winners: self.winners@.map_values(|w: PlayerNum| w as int),
        }
    }
}

proof fn lemma_remove_all(h: Seq<Card>, cs: Seq<Card>)
    ensures
        forall|x: Card| #[trigger] remove_all(h, cs).contains(x) <==> h.contains(x) && !cs.contains(x),
        h.no_duplicates() ==> remove_all(h, cs).no_duplicates(),
        all_valid(h) ==> all_valid(remove_all(h, cs)),
        remove_all(h, cs).len() <= h.len(),
    decreases h.len(),
{
    if h.len() > 0 {
        let h0 = h.drop_last();
        lemma_remove_all(h0, cs);
        assert(h =~= h0.push(h.last()));
        assert forall|x: Card| h.contains(x) <==> h0.contains(x) || x == h.last() by {
            if h.contains(x) {
                let i = choose|i: int| 0 <= i < h.len() && h[i] == x;
                if i < h.len() - 1 {
                    assert(h0[i] == x);
                }
            }
            if h0.contains(x) {
                let i = choose|i: int| 0 <= i < h0.len() && h0[i] == x;
                assert(h[i] == x);
            }
        }
        let r0 = remove_all(h0, cs);
        if !cs.contains(h.last()) {
            assert forall|x: Card| #[trigger] r0.push(h.last()).contains(x) <==> r0.contains(x) || x == h.last() by {
                if r0.push(h.last()).contains(x) {
                    let i = choose|i: int| 0 <= i < r0.len() + 1 && r0.push(h.last())[i] == x;
                    if i < r0.len() {
                        assert(r0[i] == x);
                    }
                }
                if r0.contains(x) {
                    let i = choose|i: int| 0 <= i < r0.len() && r0[i] == x;
                    assert(r0.push(h.last())[i] == x);
                }
                if x == h.last() {
                    assert(r0.push(h.last())[r0.len() as int] == x);
                }
            }
            if h.no_duplicates() {
                assert(!h0.contains(h.last())) by {
                    if h0.contains(h.last()) {
                        let i = choose|i: int| 0 <= i < h0.len() && h0[i] == h.last();
                        assert(h[i] == h[h.len() - 1]);
                    }
                }
                assert(!r0.contains(h.last()));
                let r = r0.push(h.last());
                assert forall|a: int, b: int| 0 <= a < r.len() && 0 <= b < r.len() && a != b implies r[a] != r[b] by {
                    if a < r0.len() && b < r0.len() {
                        assert(r[a] == r0[a] && r[b] == r0[b]);
                    } else if a < r0.len() {
                        assert(r0.contains(r[a]));
                    } else {
                        assert(r0.contains(r[b]));
                    }
                }
            }
            if all_valid(h) {
                assert(h[h.len() - 1].valid());
                assert forall|i: int| 0 <= i < h0.len() implies #[trigger] h0[i].valid() by {
                    assert(h[i].valid());
                }
                let r = r0.push(h.last());
                assert forall|i: int| 0 <= i < r.len() implies #[trigger] r[i].valid() by {
                    if i < r0.len() {
                        assert(r0[i].valid());
                    }
                }
            }
        } else if all_valid(h) {
            assert forall|i: int| 0 <= i < h0.len() implies #[trigger] h0[i].valid() by {
                assert(h[i].valid());
            }
        }
        if h.no_duplicates() {
            assert(h0.no_duplicates()) by {
                assert forall|a: int, b: int| 0 <= a < h0.len() && 0 <= b < h0.len() && a != b implies h0[a] != h0[b] by {
                    assert(h[a] != h[b]);
                }
            }
        }
    }
}

proof fn lemma_next_holder(hands: Seq<Seq<Card>>, p: int)
    requires
        hands.len() == 4,
        1 <= p <= 4,
        exists|q: int| 1 <= q <= 4 && #[trigger] hands[q - 1].len() > 0,
    ensures
        1 <= next_holder(hands, p) <= 4,
        hands[next_holder(hands, p) - 1].len() > 0,
{
    let q = choose|q: int| 1 <= q <= 4 && #[trigger] hands[q - 1].len() > 0;
    let s1 = succ(p);
    let s2 = succ(s1);
    let s3 = succ(s2);
    let s4 = succ(s3);
    assert(s4 == p);
    assert(q == s1 || q == s2 || q == s3 || q == s4);
    assert(next_holder_from(hands, s3, 1) == if hands[s4 - 1].len() > 0 { s4 } else { next_holder_from(hands, s4, 0) });
    assert(next_holder_from(hands, s2, 2) == if hands[s3 - 1].len() > 0 { s3 } else { next_holder_from(hands, s3, 1) });
    assert(next_holder_from(hands, s1, 3) == if hands[s2 - 1].len() > 0 { s2 } else { next_holder_from(hands, s2, 2) });
    assert(next_holder_from(hands, p, 4) == if hands[s1 - 1].len() > 0 { s1 } else { next_holder_from(hands, s1, 3) });
}

/// The cards of `h` that are not in `cs`.
pub fn remove_cards(h: &Vec<Card>, cs: &Cards) -> (r: Vec<Card>)
    ensures
        r@ == remove_all(h@, cs@),
{
    let mut r: Vec<Card> = Vec::new();
    let mut i: usize = 0;
    while i < h.len()
        invariant
            i <= h@.len(),
            r@ == remove_all(h@.subrange(0, i as int), cs@),
        decreases h@.len() - i,
    {
        assert(h@.subrange(0, i + 1).drop_last() =~= h@.subrange(0, i as int));
        if !cs.contains(&h[i]) {
            r.push(h[i]);
        }
        i = i + 1;
    }
    assert(h@.subrange(0, h@.len() as int) =~= h@);
    r
}

/// The cards `deck[from..to]`.
fn slice_cards(deck: &Vec<Card>, from: usize, to: usize) -> (r: Vec<Card>)
    requires
        from <= to <= deck@.len(),
    ensures
        r@ == deck@.subrange(from as int, to as int),
{
    let mut r: Vec<Card> = Vec::new();
    let mut i: usize = from;
    while i < to
        invariant
            from <= i <= to <= deck@.len(),
            r@ == deck@.subrange(from as int, i as int),
        decreases to - i,
    {
        r.push(deck[i]);
        i = i + 1;
        assert(r@ =~= deck@.subrange(from as int, i as int));
    }
    r
}

impl Game {
    /// Deals `deck` in four runs of 13 cards to players 1 to 4; the holder
    /// of the three of clubs starts.
    pub fn from_deck(deck: Vec<Card>) -> (g: Game)
        requires
            full_deck(deck@),
        ensures
            g@.wf(),
            g@ == deal_view(deck@),
            g@.hands.len() == 4,
            forall|p: int| 1 <= p <= 4 ==> #[trigger] g@.hands[p - 1] == dealt_hand(deck@, p),
            g@.hands[g@.curr - 1].contains(lowest()),
            g@.discard == Seq::<Card>::empty(),
            g@.last is None,
            g@.winners == Seq::<int>::empty(),
    {
        let low = lowest_card();
        let mut at: usize = 0;
        while at < deck.len()
            invariant
                at <= deck@.len(),
                full_deck(deck@),
                low == lowest(),
                forall|j: int| 0 <= j < at ==> deck@[j] != lowest(),
            ensures
                at < deck@.len() ==> deck@[at as int] == lowest(),
            decreases deck@.len() - at,
        {
            if deck[at] == low {
                break;
            }
            at = at + 1;
        }
        if at == deck.len() {
            assert(false);
        }
        let mut hands: Vec<Vec<Card>> = Vec::new();
        let mut p: usize = 0;
        while p < 4
            invariant
                p <= 4,
                deck@.len() == 52,
                hands@.len() == p,
                forall|q: int| 0 <= q < p ==> (#[trigger] hands@[q])@ == dealt_hand(deck@, q + 1),
            decreases 4 - p,
        {
            hands.push(slice_cards(&deck, 13 * p, 13 * p + 13));
            p = p + 1;
        }
        let g = Game {
            curr_player: at / 13 + 1,
            hands,
            discard_pile: Vec::new(),
            last_play: None,
            winners: Vec::new(),
        };
        proof {
            let k = (at / 13) as int;
            assert(13 * k <= at < 13 * k + 13);
            assert(g@.hands[k] == dealt_hand(deck@, k + 1));
            assert(g@.hands[k][at - 13 * k] == deck@[at as int]);
            assert(g@.hands[g@.curr - 1].contains(lowest()));
            assert forall|q: int| 0 <= q < 4 implies all_valid(#[trigger] g@.hands[q]) && g@.hands[q].no_duplicates() by {
                assert(g@.hands[q] == dealt_hand(deck@, q + 1));
                assert forall|i: int| 0 <= i < g@.hands[q].len() implies #[trigger] g@.hands[q][i].valid() by {
                    assert(deck@[13 * q + i].valid());
                }
                assert forall|a: int, b: int| 0 <= a < 13 && 0 <= b < 13 && a != b implies g@.hands[q][a] != g@.hands[q][b] by {
                    assert(deck@[13 * q + a] != deck@[13 * q + b]);
                }
            }
            assert(g@.discard =~= Seq::<Card>::empty());
            assert(g@.winners =~= Seq::<int>::empty());
            assert forall|q: int| 1 <= q <= 4 && q != k + 1 implies !#[trigger] dealt_hand(deck@, q).contains(lowest()) by {
                if dealt_hand(deck@, q).contains(lowest()) {
                    let j = choose|j: int| 0 <= j < 13 && dealt_hand(deck@, q)[j] == lowest();
                    assert(deck@[13 * (q - 1) + j] == deck@[at as int]);
                }
            }
            assert(dealt_hand(deck@, k + 1).contains(lowest()));
            assert(g@.hands =~= Seq::new(4, |i: int| dealt_hand(deck@, i + 1)));
            assert(g@.curr == lowest_holder(deck@));
        }
        g
    }

    pub fn turn(&self) -> (t: Turn)
        requires
            self@.wf(),
        ensures
            t == self@.turn(),
    {
        if self.winners.len() == 3 {
            Turn::End
        } else {
            match &self.last_play {
                Some((p, _)) => {
                    assert(self.hands@.map_values(|h: Vec<Card>| h@)[*p as int - 1] == self.hands@[*p as int - 1]@);
                    if *p == self.curr_player || self.hands[*p - 1].len() == 0 {
                        Turn::Any(self.curr_player)
                    } else {
                        Turn::Follow(self.curr_player)
                    }
                },
                None => Turn::Start(self.curr_player),
            }
        }
    }
}

/// Relies on `rand::seq::SliceRandom::shuffle` (with `rand::thread_rng`):
/// it only swaps elements, so the cards stay the same, in some order.
#[verifier::external_body]
fn shuffle_cards(d: &mut Vec<Card>)
    ensures
        final(d)@.to_multiset() == old(d)@.to_multiset(),
{
    d.shuffle(&mut rand::thread_rng())
}

/// The 52 cards, shuffled.
pub fn new_deck() -> (d: Vec<Card>)
    ensures
        full_deck(d@),
{
    let mut d: Vec<Card> = Vec::new();
    let mut r: usize = 0;
    while r < 13
        invariant
            r <= 13,
            d@.len() == 4 * r,
            forall|i: int| 0 <= i < d@.len() ==> (#[trigger] d@[i]).valid() && d@[i].spec_value() == i,
        decreases 13 - r,
    {
        let mut s: usize = 0;
        while s < 4
            invariant
                r < 13,
                s <= 4,
                d@.len() == 4 * r + s,
                forall|i: int| 0 <= i < d@.len() ==> (#[trigger] d@[i]).valid() && d@[i].spec_value() == i,
            decreases 4 - s,
        {
            d.push(Card { rank: rank_char(r), suit: suit_char(s) });
            s = s + 1;
        }
        r = r + 1;
    }
    proof {
        assert(d@[0] == lowest());
        assert(d@.no_duplicates()) by {
            assert forall|a: int, b: int| 0 <= a < d@.len() && 0 <= b < d@.len() && a != b implies d@[a] != d@[b] by {
                assert(d@[a].spec_value() == a && d@[b].spec_value() == b);
            }
        }
    }
    let ghost before = d@;
    shuffle_cards(&mut d);
    proof {
        broadcast use vstd::seq_lib::group_to_multiset_ensures;
        before.lemma_multiset_has_no_duplicates();
        d@.lemma_multiset_has_no_duplicates_conv();
        assert(before.to_multiset().count(lowest()) > 0);
        assert(d@.to_multiset().count(lowest()) > 0);
        assert(d@.contains(lowest()));
        assert(d@.len() == d@.to_multiset().len());
        assert(before.len() == before.to_multiset().len());
        assert forall|i: int| 0 <= i < d@.len() implies #[trigger] d@[i].valid() by {
            assert(d@.to_multiset().count(d@[i]) > 0);
            assert(before.contains(d@[i]));
        }
    }
    d
}

impl Game {
    /// A game dealt from a freshly shuffled deck.
    pub fn new() -> (g: Game)
        ensures
            g@.wf(),
            exists|deck: Seq<Card>| full_deck(deck) && g@ == deal_view(deck),
            g@.hands[g@.curr - 1].contains(lowest()),
            forall|p: int| 0 <= p < 4 ==> (#[trigger] g@.hands[p]).len() == 13,
            g@.last is None,
            g@.winners == Seq::<int>::empty(),
    {
        let deck = new_deck();
        let g = Game::from_deck(deck);
        assert forall|p: int| 0 <= p < 4 implies (#[trigger] g@.hands[p]).len() == 13 by {
            assert(g@.hands[(p + 1) - 1] == dealt_hand(deck@, p + 1));
        }
        g
    }

    /// The cards in player `p`'s hand.
    pub fn hand(&self, p: PlayerNum) -> (r: Vec<Card>)
        requires
            self@.wf(),
            1 <= p <= 4,
        ensures
            r@ == self@.hands[p - 1],
    {
        copy_cards(&self.hands[p - 1])
    }

    /// The players who emptied their hands, first to finish first.
    pub fn winners(&self) -> (r: Vec<PlayerNum>)
        ensures
            r@.map_values(|w: PlayerNum| w as int) == self@.winners,
    {
        let mut r: Vec<PlayerNum> = Vec::new();
        let mut i: usize = 0;
        while i < self.winners.len()
            invariant
                i <= self.winners@.len(),
                r@ == self.winners@.subrange(0, i as int),
            decreases self.winners@.len() - i,
        {
            r.push(self.winners[i]);
            i = i + 1;
            assert(r@ =~= self.winners@.subrange(0, i as int));
        }
        assert(r@ =~= self.winners@);
        r
    }

    /// Whether every card of `cards` is in player `p`'s hand.
    fn is_in_hand(&self, p: PlayerNum, cards: &Cards) -> (r: bool)
        requires
            self@.wf(),
            1 <= p <= 4,
        ensures
            r == all_in(cards@, self@.hands[p - 1]),
    {
        let v = cards.to_vec();
        let h = &self.hands[p - 1];
        assert(h@ == self@.hands[p - 1]);
        let mut i: usize = 0;
        while i < v.len()
            invariant
                i <= v@.len(),
                h@ == self@.hands[p - 1],
                v@ == cards@,
                forall|j: int| 0 <= j < i ==> h@.contains(#[trigger] v@[j]),
            decreases v@.len() - i,
        {
            if !holds(h, &v[i]) {
                return false;
            }
            i = i + 1;
        }
        true
    }

    /// The next player after the current one who still holds cards.
    fn next_player(&self) -> (r: PlayerNum)
        requires
            self.hands@.len() == 4,
            1 <= self.curr_player <= 4,
        ensures
            r == next_holder(self@.hands, self@.curr),
            1 <= r <= 4,
    {
        let ghost hs = self@.hands;
        let mut c: usize = self.curr_player;
        let mut step: usize = 0;
        while step < 4
            invariant
                step <= 4,
                1 <= c <= 4,
                self.hands@.len() == 4,
                hs == self@.hands,
                next_holder(hs, self@.curr) == next_holder_from(hs, c as int, (4 - step) as nat),
            decreases 4 - step,
        {
            c = c % 4 + 1;
            step = step + 1;
            assert(hs[c - 1] == self.hands@[c - 1]@);
            if self.hands[c - 1].len() > 0 {
                return c;
            }
        }
        c
    }
}

impl Game {
    /// The player whose turn it is plays `cards` (no cards: a pass). On
    /// success the result says whether that emptied their hand.
    pub fn play(&mut self, cards: &Cards) -> (r: Result<bool, String>)
        requires
            old(self)@.wf(),
            cards.wf(),
            !(old(self)@.turn() is End),
        ensures
            final(self)@.wf(),
            match old(self)@.play_error(cards@, cards.rank_value()) {
                Some(e) => r matches Err(x) && x@ == e && final(self)@ == old(self)@,
                None => r == Ok::<bool, String>(remove_all(old(self)@.hands[old(self)@.curr - 1], cards@).len() == 0)
                    && final(self)@ == old(self)@.after_play(cards@, cards.rank_value()),
            },
    {
        proof {
            reveal_strlit("some cards are not in player's hands");
            reveal_strlit("cannot pass");
            reveal_strlit("first play must include three of clubs");
            reveal_strlit("should follow the number of cards of last play");
            reveal_strlit("played cards are lower than last");
        }
        let ghost g0 = self@;
        let t = self.turn();
        let p = t.player();
        assert(p == self.curr_player);
        if !self.is_in_hand(p, cards) {
            return Err(String::from_str("some cards are not in player's hands"));
        }
        match t {
            Turn::Start(_) => {
                if cards.is_pass() {
                    return Err(String::from_str("cannot pass"));
                } else if !cards.contains(&lowest_card()) {
                    return Err(String::from_str("first play must include three of clubs"));
                }
            },
            Turn::Follow(_) => {
                if !cards.is_pass() {
                    if let Some((_, last)) = &self.last_play {
                        if last.len() != cards.len() {
                            return Err(String::from_str("should follow the number of cards of last play"));
                        }
                        if cards.strength() <= last.strength() {
                            return Err(String::from_str("played cards are lower than last"));
                        }
                    }
                }
            },
            Turn::Any(_) => {
                if cards.is_pass() {
                    return Err(String::from_str("cannot pass"));
                }
            },
            Turn::End => {},
        }
        assert(g0.play_error(cards@, cards.rank_value()) is None);
        let nh = remove_cards(&self.hands[p - 1], cards);
        let emptied = nh.len() == 0;
        proof {
            lemma_remove_all(g0.hands[p - 1], cards@);
        }
        let ghost old_hands = self.hands@;
        self.hands.set(p - 1, nh);
        assert(self@.hands =~= g0.hands.update(p - 1, remove_all(g0.hands[p - 1], cards@)));
        let played = cards.to_vec();
        let mut pile = copy_cards(&self.discard_pile);
        let mut i: usize = 0;
        let ghost d0 = pile@;
        while i < played.len()
            invariant
                i <= played@.len(),
                played@ == cards@,
                pile@ == d0 + played@.subrange(0, i as int),
            decreases played@.len() - i,
        {
            pile.push(played[i]);
            i = i + 1;
            assert(pile@ =~= d0 + played@.subrange(0, i as int));
        }
        assert(played@.subrange(0, played@.len() as int) =~= played@);
        self.discard_pile = pile;
        if !cards.is_pass() {
            self.last_play = Some((p, cards.duplicate()));
        }
        if emptied {
            self.winners.push(p);
            assert(self@.winners =~= g0.winners.push(p as int));
        }
        let ghost g1 = self@;
        proof {
            let hs = g1.hands;
            assert forall|q: int| 0 <= q < 4 implies all_valid(#[trigger] hs[q]) && hs[q].no_duplicates() by {
                if q != p - 1 {
                    assert(hs[q] == g0.hands[q]);
                }
            }
            if emptied {
                assert(!g0.winners.contains(p as int));
            }
            assert forall|q: int| 1 <= q <= 4 implies (#[trigger] hs[q - 1].len() == 0 <==> g1.winners.contains(q)) by {
                if q != p {
                    assert(hs[q - 1] == g0.hands[q - 1]);
                    if g1.winners.contains(q) && !g0.winners.contains(q) {
                        let j = choose|j: int| 0 <= j < g1.winners.len() && g1.winners[j] == q;
                        assert(j == g0.winners.len());
                    }
                    if g0.winners.contains(q) {
                        let j = choose|j: int| 0 <= j < g0.winners.len() && g0.winners[j] == q;
                        assert(g1.winners[j] == q);
                    }
                } else if emptied {
                    assert(g1.winners[g1.winners.len() - 1] == q);
                }
            }
            if g1.winners.len() < 3 {
                assert(exists|q: int| 1 <= q <= 4 && #[trigger] hs[q - 1].len() > 0) by {
                    if forall|q: int| 1 <= q <= 4 ==> #[trigger] hs[q - 1].len() == 0 {
                        assert(hs[1 - 1].len() == 0 && hs[2 - 1].len() == 0);
                        assert(hs[3 - 1].len() == 0 && hs[4 - 1].len() == 0);
                        assert(g1.winners.contains(1) && g1.winners.contains(2));
                        assert(g1.winners.contains(3) && g1.winners.contains(4));
                        let i1 = choose|j: int| 0 <= j < g1.winners.len() && g1.winners[j] == 1;
                        let i2 = choose|j: int| 0 <= j < g1.winners.len() && g1.winners[j] == 2;
                        let i3 = choose|j: int| 0 <= j < g1.winners.len() && g1.winners[j] == 3;
                        let i4 = choose|j: int| 0 <= j < g1.winners.len() && g1.winners[j] == 4;
                        assert(false);
                    }
                }
                lemma_next_holder(hs, p as int);
            }
            assert forall|j: int| 0 <= j < g1.winners.len() implies 1 <= #[trigger] g1.winners[j] <= 4 by {
                if j < g0.winners.len() {
                    assert(g1.winners[j] == g0.winners[j]);
                }
            }
        }
        if self.winners.len() < 3 {
            self.curr_player = self.next_player();
        }
        proof {
            assert(self@.hands == g1.hands);
            assert(self@.winners == g1.winners);
            assert(self@ == g0.after_play(cards@, cards.rank_value()));
        }
        Ok(emptied)
    }
}

proof fn lemma_top_rank(s: Seq<Card>)
    requires
        all_valid(s),
        s.len() > 0,
    ensures
        0 <= top_rank(s) < 13,
    decreases s.len(),
{
    assert(s[s.len() - 1].valid());
    if s.len() > 1 {
        assert forall|i: int| 0 <= i < s.drop_last().len() implies #[trigger] s.drop_last()[i].valid() by {
            assert(s[i].valid());
        }
        lemma_top_rank(s.drop_last());
    }
}

/// Five distinct cards that form a straight are a combination; among
/// straights that are all flushes, or all not flushes, the rank value grows
/// strictly with the rank of the run's high card (the Ace counts high in
/// T-J-Q-K-A and low in A-2-3-4-5).
pub proof fn lemma_straight_order(a: Seq<Card>, b: Seq<Card>)
    requires
        a.len() == 5,
        b.len() == 5,
        all_valid(a),
        all_valid(b),
        a.no_duplicates(),
        b.no_duplicates(),
        straight_run(a) >= 0,
        straight_run(b) >= 0,
        same_suit(a) == same_suit(b),
        run_rank(straight_run(a), 4) < run_rank(straight_run(b), 4),
    ensures
        combo_value(a) is Some,
        combo_value(b) is Some,
        combo_value(a)->0 < combo_value(b)->0,
{
    lemma_run_found(a, 0);
    lemma_run_found(b, 0);
    let ka = straight_run(a);
    let kb = straight_run(b);
    assert(rank_count(a, run_rank(ka, 4)) == 1);
    assert(rank_count(b, run_rank(kb, 4)) == 1);
    lemma_top_of_rank(a, run_rank(ka, 4));
    lemma_top_of_rank(b, run_rank(kb, 4));
}

/// Five distinct cards of one suit that form no straight are a flush: its
/// rank value orders by suit first, then by the highest rank.
pub proof fn lemma_flush_order(a: Seq<Card>, b: Seq<Card>)
    requires
        a.len() == 5,
        b.len() == 5,
        all_valid(a),
        all_valid(b),
        a.no_duplicates(),
        b.no_duplicates(),
        same_suit(a),
        same_suit(b),
        straight_run(a) < 0,
        straight_run(b) < 0,
    ensures
        combo_value(a) == Some(FLUSH * 1000 + a[0].suit_of() * 13 + top_rank(a)),
        combo_value(b) == Some(FLUSH * 1000 + b[0].suit_of() * 13 + top_rank(b)),
        a[0].suit_of() < b[0].suit_of() ==> combo_value(a)->0 < combo_value(b)->0,
        a[0].suit_of() == b[0].suit_of() && top_rank(a) < top_rank(b) ==> combo_value(a)->0 < combo_value(b)->0,
{
    lemma_top_rank(a);
    lemma_top_rank(b);
}

/// Classification gives no rank value to a set of any size but 0, 1, 2, 3
/// or 5, to a pair or triple of mixed ranks, nor to five cards that form no
/// named hand.
pub proof fn lemma_rejections(s: Seq<Card>)
    ensures
        !(s.len() == 0 || s.len() == 1 || s.len() == 2 || s.len() == 3 || s.len() == 5) ==> combo_value(s) is None,
        (s.len() == 2 || s.len() == 3) && !same_rank(s) ==> combo_value(s) is None,
        s.len() == 5 && five_kind(s) == 0 ==> combo_value(s) is None,
{
}

/// Right after a legal play of some cards: if the player still holds cards
/// and the turn passed to someone else, that player must follow; if the play
/// emptied the hand and the game goes on, the next player may lead anything.
pub proof fn lemma_turn_after_play(g: GameView, cs: Seq<Card>, v: int)
    requires
        g.wf(),
        !(g.turn() is End),
        cs.len() > 0,
        combo_value(cs) == Some(v),
        g.play_error(cs, v) is None,
    ensures
        remove_all(g.hands[g.curr - 1], cs).len() > 0 && g.after_play(cs, v).curr != g.curr
            ==> g.after_play(cs, v).turn() is Follow,
        remove_all(g.hands[g.curr - 1], cs).len() == 0 && !(g.after_play(cs, v).turn() is End)
            ==> g.after_play(cs, v).turn() is Any,
{
    let g2 = g.after_play(cs, v);
    assert(g2.hands[g.curr - 1] == remove_all(g.hands[g.curr - 1], cs));
}

/// The cards of `s` whose rank is not `r`.
pub open spec fn without_rank(s: Seq<Card>, r: int) -> Seq<Card>
    decreases s.len(),
{
    if s.len() == 0 {
        seq![]
    } else if s.last().rank_of() == r {
        without_rank(s.drop_last(), r)
    } else {
        without_rank(s.drop_last(), r).push(s.last())
    }
}

proof fn lemma_without_rank(s: Seq<Card>, r: int)
    ensures
        without_rank(s, r).len() + rank_count(s, r) == s.len(),
        forall|q: int| q != r ==> #[trigger] rank_count(without_rank(s, r), q) == rank_count(s, q),
    decreases s.len(),
{
    if s.len() > 0 {
        lemma_without_rank(s.drop_last(), r);
        let w = without_rank(s.drop_last(), r);
        if s.last().rank_of() != r {
            assert(w.push(s.last()).drop_last() =~= w);
            assert forall|q: int| q != r implies #[trigger] rank_count(without_rank(s, r), q) == rank_count(s, q) by {
                assert(rank_count(w.push(s.last()), q) == rank_count(w, q) + if s.last().rank_of() == q { 1nat } else { 0nat });
            }
        } else {
            assert forall|q: int| q != r implies #[trigger] rank_count(without_rank(s, r), q) == rank_count(s, q) by {
                assert(rank_count(s, q) == rank_count(s.drop_last(), q));
            }
        }
    }
}

/// No five cards form both the run with the Ace low (A-2-3-4-5) and the
/// run with the Ace high (T-J-Q-K-A).
pub proof fn lemma_ace_high_or_low(s: Seq<Card>)
    requires
        s.len() == 5,
    ensures
        !(is_run(s, 0) && is_run(s, 9)),
{
    if is_run(s, 0) && is_run(s, 9) {
        assert(rank_count(s, run_rank(0, 1)) == 1);
        assert(rank_count(s, run_rank(0, 2)) == 1);
        assert(rank_count(s, run_rank(0, 3)) == 1);
        assert(rank_count(s, run_rank(0, 4)) == 1);
        assert(rank_count(s, run_rank(9, 0)) == 1);
        assert(rank_count(s, run_rank(9, 1)) == 1);
        let s1 = without_rank(s, 12);
        lemma_without_rank(s, 12);
        let s2 = without_rank(s1, 0);
        lemma_without_rank(s1, 0);
        let s3 = without_rank(s2, 1);
        lemma_without_rank(s2, 1);
        let s4 = without_rank(s3, 2);
        lemma_without_rank(s3, 2);
        let s5 = without_rank(s4, 7);
        lemma_without_rank(s4, 7);
        let s6 = without_rank(s5, 8);
        lemma_without_rank(s5, 8);
        assert(s6.len() + 6 == s.len());
    }
}

proof fn lemma_lowest_holder(deck: Seq<Card>)
    requires
        full_deck(deck),
    ensures
        1 <= lowest_holder(deck) <= 4,
        dealt_hand(deck, lowest_holder(deck)).contains(lowest()),
        forall|q: int| 1 <= q <= 4 && q != lowest_holder(deck) ==> !(#[trigger] dealt_hand(deck, q)).contains(lowest()),
{
    let i = choose|i: int| 0 <= i < deck.len() && deck[i] == lowest();
    let k = i / 13;
    assert(13 * k <= i < 13 * k + 13);
    assert(dealt_hand(deck, k + 1)[i - 13 * k] == lowest());
    assert forall|q: int| 1 <= q <= 4 && q != k + 1 implies !(#[trigger] dealt_hand(deck, q)).contains(lowest()) by {
        if dealt_hand(deck, q).contains(lowest()) {
            let j = choose|j: int| 0 <= j < 13 && dealt_hand(deck, q)[j] == lowest();
            assert(deck[13 * (q - 1) + j] == deck[i]);
        }
    }
    assert(dealt_hand(deck, k + 1).contains(lowest()));
}

/// The game right after the holder of the three of clubs, dealt from
/// `deck`, opens with that card alone.
pub open spec fn opened(deck: Seq<Card>) -> GameView {
    deal_view(deck).after_play(seq![lowest()], 0)
}

/// Dealt from a full deck, the holder of the three of clubs may open with it
/// alone; then the next player must follow, and a play of cards from their
/// hand is legal exactly when it is a single.
pub proof fn lemma_follow_opening_single(deck: Seq<Card>, cs: Seq<Card>, v: int)
    requires
        full_deck(deck),
        cs.len() > 0,
        combo_value(cs) == Some(v),
    ensures
        deal_view(deck).play_error(seq![lowest()], 0) is None,
        opened(deck).turn() == Turn::Follow(succ(deal_view(deck).curr) as usize),
        all_in(cs, opened(deck).hands[opened(deck).curr - 1])
            ==> (opened(deck).play_error(cs, v) is None <==> cs.len() == 1),
{
    lemma_lowest_holder(deck);
    let g = deal_view(deck);
    let p = g.curr;
    let q = succ(p);
    let low = seq![lowest()];
    let hp = dealt_hand(deck, p);
    assert(g.hands[p - 1] == hp);
    assert(low[0] == lowest());
    assert(all_in(low, hp));
    assert(low.contains(lowest()));
    assert(g.turn() == Turn::Start(p as usize));
    // The opener keeps twelve cards.
    assert(hp[0] == deck[13 * (p - 1)] && hp[1] == deck[13 * (p - 1) + 1]);
    let keep = if hp[0] != lowest() { hp[0] } else { hp[1] };
    assert(hp.contains(keep));
    assert(!low.contains(keep)) by {
        if low.contains(keep) {
            let j = choose|j: int| 0 <= j < low.len() && low[j] == keep;
        }
    }
    lemma_remove_all(hp, low);
    let nh = remove_all(hp, low);
    assert(nh.contains(keep));
    assert(nh.len() > 0);
    let g2 = opened(deck);
    let hands2 = g.hands.update(p - 1, nh);
    assert(g2.hands == hands2);
    assert(g2.winners == g.winners);
    assert(q != p && 1 <= q <= 4);
    assert(hands2[q - 1] == dealt_hand(deck, q));
    assert(hands2[q - 1].len() == 13);
    assert(next_holder_from(hands2, p, 4) == q);
    assert(g2.curr == q);
    assert(g2.hands[p - 1] == nh);
    assert(g2.turn() == Turn::Follow(q as usize));
    if all_in(cs, g2.hands[q - 1]) && cs.len() == 1 {
        let c = cs[0];
        assert(g2.hands[q - 1].contains(c));
        let j = choose|j: int| 0 <= j < 13 && dealt_hand(deck, q)[j] == c;
        assert(deck[13 * (q - 1) + j] == c);
        assert(c.valid());
        assert(c != lowest());
        assert(v == c.spec_value());
        assert(v > 0);
    }
}

impl std::str::FromStr for Card {
    type Err = String;

    fn from_str(s: &str) -> Result<Card, String> {
        Card::parse(s)
    }
}

} // verus!
