//! The line protocol that an agent speaks with a referee, and an agent that
//! answers each `wait` with a random legal action.
use vstd::prelude::*;
use rand::seq::SliceRandom;
use crate::board::{initial, lemma_legal_puts, ActError, Action, Reversi};

verus! {

/// One line of the referee's protocol.
#[derive(Debug, Clone, Copy, PartialEq, Eq, Structural)]
pub enum Input {
    Init(usize),
    PlayedPut(usize, usize),
    PlayedPass,
    Res(isize),
    Wait,
}

/// A line that is not a message of the protocol.
#[derive(Debug, Clone, Copy, PartialEq, Eq, Structural)]
pub struct ParseError;

/// Splits on every space, as `str::split(" ")` does: `n` spaces give `n + 1`
/// words, some of them possibly empty.
pub open spec fn split_words(s: Seq<char>) -> Seq<Seq<char>>
    decreases s.len(),
{
    if s.len() == 0 {
        seq![Seq::empty()]
    } else {
        let p = split_words(s.drop_last());
        if s.last() == ' ' {
            p.push(Seq::empty())
        } else {
            p.update(p.len() - 1, p.last().push(s.last()))
        }
    }
}

pub open spec fn is_digit(c: char) -> bool {
    '0' <= c <= '9'
}

/// The value of a string of decimal digits.
pub open spec fn digits_value(t: Seq<char>) -> nat
    decreases t.len(),
{
    if t.len() == 0 {
        0
    } else {
        digits_value(t.drop_last()) * 10 + (t.last() as nat - '0' as nat) as nat
    }
}

/// A non-empty run of decimal digits, and its value.
pub open spec fn magnitude(t: Seq<char>) -> Option<nat> {
    if t.len() > 0 && forall|i: int| 0 <= i < t.len() ==> is_digit(#[trigger] t[i]) {
        Some(digits_value(t))
    } else {
        None
    }
}

/// An unsigned decimal with an optional leading `+`.
pub open spec fn unsigned_of(t: Seq<char>) -> Option<nat> {
    if t.len() > 0 && t[0] == '+' {
        magnitude(t.drop_first())
    } else {
        magnitude(t)
    }
}

/// A signed decimal with an optional leading `+` or `-`.
pub open spec fn signed_of(t: Seq<char>) -> Option<int> {
    if t.len() > 0 && t[0] == '-' {
        match magnitude(t.drop_first()) {
            Some(v) => Some(-v),
            None => None,
        }
    } else {
        match unsigned_of(t) {
            Some(v) => Some(v as int),
            None => None,
        }
    }
}

/// A board coordinate: an unsigned decimal below 8.
pub open spec fn coord_of(t: Seq<char>) -> Option<usize> {
    match unsigned_of(t) {
        Some(v) => if v < 8 {
            Some(v as usize)
        } else {
            None
        },
        None => None,
    }
}

/// The action that a `put <y> <x>` or `pass` line names; words past those
/// the form needs are ignored.
pub open spec fn action_of(s: Seq<char>) -> Option<Action> {
    let v = split_words(s);
    if v[0] == seq!['p', 'u', 't'] {
        if v.len() >= 3 && coord_of(v[1]) is Some && coord_of(v[2]) is Some {
            Some(Action::Put(coord_of(v[1])->Some_0, coord_of(v[2])->Some_0))
        } else {
            None
        }
    } else if v[0] == seq!['p', 'a', 's', 's'] {
        Some(Action::Pass)
    } else {
        None
    }
}

/// The message that a line of the protocol holds.
pub open spec fn input_of(s: Seq<char>) -> Option<Input> {
    let v = split_words(s);
    if v[0] == seq!['i', 'n', 'i', 't'] {
        if v.len() >= 2 && unsigned_of(v[1]) is Some && unsigned_of(v[1])->Some_0 <= usize::MAX {
            Some(Input::Init(unsigned_of(v[1])->Some_0 as usize))
        } else {
            None
        }
    } else if v[0] == seq!['p', 'l', 'a', 'y', 'e', 'd'] {
        if v.len() >= 2 && v[1] == seq!['p', 'u', 't'] {
            if v.len() >= 4 && coord_of(v[2]) is Some && coord_of(v[3]) is Some {
                Some(Input::PlayedPut(coord_of(v[2])->Some_0, coord_of(v[3])->Some_0))
            } else {
                None
            }
        } else if v.len() >= 2 && v[1] == seq!['p', 'a', 's', 's'] {
            Some(Input::PlayedPass)
        } else {
            None
        }
    } else if v[0] == seq!['r', 'e', 's'] {
        if v.len() >= 2 && signed_of(v[1]) is Some && isize::MIN <= signed_of(v[1])->Some_0
            <= isize::MAX {
            Some(Input::Res(signed_of(v[1])->Some_0 as isize))
        } else {
            None
        }
    } else if v[0] == seq!['w', 'a', 'i', 't'] {
        Some(Input::Wait)
    } else {
        None
    }
}

pub open spec fn digit_char(n: int) -> char {
    if n == 0 {
        '0'
    } else if n == 1 {
        '1'
    } else if n == 2 {
        '2'
    } else if n == 3 {
        '3'
    } else if n == 4 {
        '4'
    } else if n == 5 {
        '5'
    } else if n == 6 {
        '6'
    } else if n == 7 {
        '7'
    } else if n == 8 {
        '8'
    } else {
        '9'
    }
}

/// The line that announces an action: `put <y> <x>` or `pass`.
pub open spec fn line_of(a: Action) -> Seq<char> {
    match a {
        Action::Put(y, x) => seq!['p', 'u', 't', ' ', digit_char(y as int), ' ', digit_char(x as int)],
        Action::Pass => seq!['p', 'a', 's', 's'],
    }
}

proof fn lemma_split_nonempty(s: Seq<char>)
    ensures
        split_words(s).len() >= 1,
    decreases s.len(),
{
    if s.len() > 0 {
        lemma_split_nonempty(s.drop_last());
    }
}

/// The words of a line, split on every space.
fn words(s: &str) -> (r: Vec<Vec<char>>)
    ensures
        r@.map_values(|w: Vec<char>| w@) == split_words(s@),
{
    let n = s.unicode_len();
    let mut done: Vec<Vec<char>> = Vec::new();
    let mut cur: Vec<char> = Vec::new();
    let mut i: usize = 0;
    while i < n
        invariant
            i <= n,
            n == s@.len(),
            done@.map_values(|w: Vec<char>| w@).push(cur@) == split_words(s@.take(i as int)),
        decreases n - i,
    {
        let c = s.get_char(i);
        let ghost before = done@.map_values(|w: Vec<char>| w@).push(cur@);
        assert(s@.take(i + 1).drop_last() =~= s@.take(i as int));
        if c == ' ' {
            done.push(cur);
            cur = Vec::new();
            assert(done@.map_values(|w: Vec<char>| w@).push(cur@) =~= before.push(Seq::empty()));
        } else {
            cur.push(c);
            proof {
                lemma_split_nonempty(s@.take(i as int));
            }
            assert(done@.map_values(|w: Vec<char>| w@).push(cur@) =~= before.update(
                before.len() - 1,
                before.last().push(c),
            ));
        }
        i = i + 1;
    }
    assert(s@.take(n as int) =~= s@);
    done.push(cur);
    assert(done@.map_values(|w: Vec<char>| w@) =~= split_words(s@));
    done
}

/// The word equals the literal `w`.
fn is_word(t: &Vec<char>, w: &str) -> (r: bool)
    ensures
        r == (t@ == w@),
{
    let n = w.unicode_len();
    if t.len() != n {
        return false;
    }
    let mut i: usize = 0;
    while i < n
        invariant
            i <= n,
            n == w@.len(),
            t@.len() == n,
            forall|j: int| 0 <= j < i ==> t@[j] == w@[j],
        decreases n - i,
    {
        if t[i] != w.get_char(i) {
            return false;
        }
        i = i + 1;
    }
    assert(t@ =~= w@);
    true
}

/// Reads the digits of `t` from position `from` on, saturating at 2^64.
fn read_magnitude(t: &Vec<char>, from: usize) -> (r: Option<u128>)
    requires
        from <= t@.len(),
    ensures
        match magnitude(t@.skip(from as int)) {
            Some(v) => r == Some(if v < 0x1_0000_0000_0000_0000 {
                v as u128
            } else {
                0x1_0000_0000_0000_0000u128
            }),
            None => r is None,
        },
{
    let cap: u128 = 0x1_0000_0000_0000_0000;
    if from >= t.len() {
        return None;
    }
    let mut v: u128 = 0;
    let mut i: usize = from;
    while i < t.len()
        invariant
            from <= i <= t@.len(),
            v <= cap,
            cap == 0x1_0000_0000_0000_0000u128,
            forall|j: int| from <= j < i ==> is_digit(#[trigger] t@[j]),
            v == if digits_value(t@.subrange(from as int, i as int)) < cap {
                digits_value(t@.subrange(from as int, i as int))
            } else {
                cap as nat
            },
        decreases t@.len() - i,
    {
        let c = t[i];
        if !('0' <= c && c <= '9') {
            assert(!is_digit(t@.skip(from as int)[i - from]));
            return None;
        }
        let d: u128 = (c as u32 - '0' as u32) as u128;
        assert(t@.subrange(from as int, i + 1).drop_last() =~= t@.subrange(from as int, i as int));
        if v < cap {
            v = v * 10 + d;
            if v > cap {
                v = cap;
            }
        }
        i = i + 1;
    }
    assert(t@.subrange(from as int, t@.len() as int) =~= t@.skip(from as int));
    Some(v)
}

fn read_unsigned(t: &Vec<char>) -> (r: Option<u128>)
    ensures
        match unsigned_of(t@) {
            Some(v) => r == Some(if v < 0x1_0000_0000_0000_0000 {
                v as u128
            } else {
                0x1_0000_0000_0000_0000u128
            }),
            None => r is None,
        },
{
    if t.len() > 0 && t[0] == '+' {
        assert(t@.skip(1) =~= t@.drop_first());
        read_magnitude(t, 1)
    } else {
        assert(t@.skip(0) =~= t@);
        read_magnitude(t, 0)
    }
}

fn read_coord(t: &Vec<char>) -> (r: Option<usize>)
    ensures
        r == coord_of(t@),
{
    match read_unsigned(t) {
        Some(v) => if v < 8 {
            Some(v as usize)
        } else {
            None
        },
        None => None,
    }
}

fn read_signed(t: &Vec<char>) -> (r: Option<isize>)
    ensures
        match signed_of(t@) {
            Some(v) => if isize::MIN <= v <= isize::MAX {
                r == Some(v as isize)
            } else {
                r is None
            },
            None => r is None,
        },
{
    if t.len() > 0 && t[0] == '-' {
        assert(t@.skip(1) =~= t@.drop_first());
        match read_magnitude(t, 1) {
            Some(v) => if v <= isize::MAX as u128 + 1 {
                Some((0 - (v as i128)) as isize)
            } else {
                None
            },
            None => None,
        }
    } else {
        match read_unsigned(t) {
            Some(v) => if v <= isize::MAX as u128 {
                Some(v as isize)
            } else {
                None
            },
            None => None,
        }
    }
}

impl Input {
    /// Reads one line of the protocol; a line that is none of its messages is
    /// refused.
    pub fn parse(input: &str) -> (r: Result<Input, ParseError>)
        ensures
            match input_of(input@) {
                Some(i) => r == Ok::<Input, ParseError>(i),
                None => r == Err::<Input, ParseError>(ParseError),
            },
    {
        let v = words(input);
        proof {
            lemma_split_nonempty(input@);
            reveal_strlit("init");
            reveal_strlit("played");
            reveal_strlit("put");
            reveal_strlit("pass");
            reveal_strlit("res");
            reveal_strlit("wait");
            assert("init"@ =~= seq!['i', 'n', 'i', 't']);
            assert("played"@ =~= seq!['p', 'l', 'a', 'y', 'e', 'd']);
            assert("put"@ =~= seq!['p', 'u', 't']);
            assert("pass"@ =~= seq!['p', 'a', 's', 's']);
            assert("res"@ =~= seq!['r', 'e', 's']);
            assert("wait"@ =~= seq!['w', 'a', 'i', 't']);
        }
        let ghost sv = split_words(input@);
        assert(v@.len() == sv.len());
        assert(forall|i: int| 0 <= i < v@.len() ==> #[trigger] v@[i]@ == sv[i]);
        if is_word(&v[0], "init") {
            if v.len() < 2 {
                return Err(ParseError);
            }
            match read_unsigned(&v[1]) {
                Some(n) => if n <= usize::MAX as u128 {
                    Ok(Input::Init(n as usize))
                } else {
                    Err(ParseError)
                },
                None => Err(ParseError),
            }
        } else if is_word(&v[0], "played") {
            if v.len() >= 2 && is_word(&v[1], "put") {
                if v.len() < 4 {
                    return Err(ParseError);
                }
                match (read_coord(&v[2]), read_coord(&v[3])) {
                    (Some(y), Some(x)) => Ok(Input::PlayedPut(y, x)),
                    _ => Err(ParseError),
                }
            } else if v.len() >= 2 && is_word(&v[1], "pass") {
                Ok(Input::PlayedPass)
            } else {
                Err(ParseError)
            }
        } else if is_word(&v[0], "res") {
            if v.len() < 2 {
                return Err(ParseError);
            }
            match read_signed(&v[1]) {
                Some(n) => Ok(Input::Res(n)),
                None => Err(ParseError),
            }
        } else if is_word(&v[0], "wait") {
            Ok(Input::Wait)
        } else {
            Err(ParseError)
        }
    }
}

impl Action {
    /// Reads an action line, `put <y> <x>` or `pass`.
    pub fn parse(s: &str) -> (r: Result<Action, ParseError>)
        ensures
            match action_of(s@) {
                Some(a) => r == Ok::<Action, ParseError>(a),
                None => r == Err::<Action, ParseError>(ParseError),
            },
            r is Ok ==> r->Ok_0.valid(),
    {
        let v = words(s);
        proof {
            lemma_split_nonempty(s@);
            reveal_strlit("put");
            reveal_strlit("pass");
            assert("put"@ =~= seq!['p', 'u', 't']);
            assert("pass"@ =~= seq!['p', 'a', 's', 's']);
        }
        let ghost sv = split_words(s@);
        assert(v@.len() == sv.len());
        assert(forall|i: int| 0 <= i < v@.len() ==> #[trigger] v@[i]@ == sv[i]);
        if is_word(&v[0], "put") {
            if v.len() < 3 {
                return Err(ParseError);
            }
            match (read_coord(&v[1]), read_coord(&v[2])) {
                (Some(y), Some(x)) => Ok(Action::Put(y, x)),
                _ => Err(ParseError),
            }
        } else if is_word(&v[0], "pass") {
            Ok(Action::Pass)
        } else {
            Err(ParseError)
        }
    }

    /// The line that announces this action.
    pub fn line(&self) -> (r: String)
        requires
            self.valid(),
        ensures
            r@ == line_of(*self),
    {
        match *self {
            Action::Put(y, x) => {
                let mut s = String::from_str("put ");
                s.append(digit_text(y));
                s.append(" ");
                s.append(digit_text(x));
                proof {
                    reveal_strlit("put ");
                    reveal_strlit(" ");
                }
                assert(s@ =~= line_of(*self));
                s
            },
            Action::Pass => {
                proof {
                    reveal_strlit("pass");
                }
                String::from_str("pass")
            },
        }
    }
}

/// The decimal digit `n` as text.
pub fn digit_text(n: usize) -> (r: &'static str)
    requires
        n < 10,
    ensures
        r@ == seq![digit_char(n as int)],
{
    proof {
        reveal_strlit("0");
        reveal_strlit("1");
        reveal_strlit("2");
        reveal_strlit("3");
        reveal_strlit("4");
        reveal_strlit("5");
        reveal_strlit("6");
        reveal_strlit("7");
        reveal_strlit("8");
        reveal_strlit("9");
    }
    if n == 0 {
        "0"
    } else if n == 1 {
        "1"
    } else if n == 2 {
        "2"
    } else if n == 3 {
        "3"
    } else if n == 4 {
        "4"
    } else if n == 5 {
        "5"
    } else if n == 6 {
        "6"
    } else if n == 7 {
        "7"
    } else if n == 8 {
        "8"
    } else {
        "9"
    }
}

/// Why the agent could not handle a line.
#[derive(Debug, Clone, Copy, PartialEq, Eq, Structural)]
pub enum PlayError {
    Parse(ParseError),
    NotStarted,
    Rule(ActError),
}

/// An agent that plays one side with uniformly random legal actions. It
/// holds no board until the referee sends `init`.
#[derive(Debug, Clone, Copy)]
pub struct RandomPlayer {
    pub board: Option<Reversi>,
    pub first: bool,
}

/// Whether a call succeeded, and with which error.
pub open spec fn outcome<T>(r: Result<T, PlayError>) -> Result<(), PlayError> {
    match r {
        Ok(_) => Ok(()),
        Err(e) => Err(e),
    }
}

/// `new` is the agent after applying `a` to the board of `old`, with
/// outcome `r`: refused without a board, and the board left as it was where
/// the rules refuse `a`.
pub open spec fn applied(old: RandomPlayer, a: Action, r: Result<(), PlayError>, new: RandomPlayer) -> bool {
    &&& new.first == old.first
    &&& match old.board {
        None => r == Err::<(), PlayError>(PlayError::NotStarted) && new.board is None,
        Some(b) => new.board is Some && match b@.step(a) {
            Ok(n) => r is Ok && new.board->Some_0@ == n,
            Err(e) => r == Err::<(), PlayError>(PlayError::Rule(e)) && new.board->Some_0@ == b@,
        },
    }
}

/// Relies on rand's `SliceRandom::choose` with `thread_rng`: one element of a
/// non-empty slice, `None` for an empty one.
#[verifier::external_body]
fn pick(actions: &Vec<Action>) -> (r: Option<Action>)
    ensures
        r is None <==> actions@.len() == 0,
        r is Some ==> actions@.contains(r->Some_0),
{
    actions.choose(&mut rand::thread_rng()).copied()
}

impl RandomPlayer {
    /// An agent that has not been told its side yet.
    pub fn new() -> (r: RandomPlayer)
        ensures
            r.board is None,
            !r.first,
    {
        RandomPlayer { board: None, first: false }
    }

    /// Applies `a` to the agent's board.
    pub fn apply_move(&mut self, a: Action) -> (r: Result<(), PlayError>)
        requires
            a.valid(),
        ensures
            applied(*old(self), a, r, *final(self)),
    {
        match self.board {
            None => Err(PlayError::NotStarted),
            Some(b) => {
                let mut b = b;
                let res = b.act(a);
                self.board = Some(b);
                match res {
                    Ok(()) => Ok(()),
                    Err(e) => Err(PlayError::Rule(e)),
                }
            },
        }
    }

    /// Plays `a` as the agent's own move and returns the line announcing it.
    pub fn commit(&mut self, a: Action) -> (r: Result<String, PlayError>)
        requires
            a.valid(),
        ensures
            applied(*old(self), a, outcome(r), *final(self)),
            r is Ok ==> r->Ok_0@ == line_of(a),
    {
        match self.apply_move(a) {
            Ok(()) => Ok(a.line()),
            Err(e) => Err(e),
        }
    }

    /// Handles one line from the referee. `init` starts a fresh game, a
    /// `played` line applies the opponent's action, `res` is taken note of,
    /// and `wait` picks one of the legal actions at random, plays it and
    /// returns the line announcing it.
    pub fn play(&mut self, input: &str) -> (r: Result<Option<String>, PlayError>)
        ensures
            match input_of(input@) {
                None => r == Err::<Option<String>, PlayError>(PlayError::Parse(ParseError))
                    && *final(self) == *old(self),
                Some(Input::Init(p)) => r == Ok::<Option<String>, PlayError>(None)
                    && final(self).first == (p == 0) && final(self).board is Some
                    && final(self).board->Some_0@ == initial(),
                Some(Input::PlayedPut(y, x)) => applied(
                    *old(self),
                    Action::Put(y, x),
                    outcome(r),
                    *final(self),
                ) && (r is Ok ==> r->Ok_0 is None),
                Some(Input::PlayedPass) => applied(*old(self), Action::Pass, outcome(r), *final(self))
                    && (r is Ok ==> r->Ok_0 is None),
                Some(Input::Res(_)) => r == Ok::<Option<String>, PlayError>(None) && *final(self)
                    == *old(self),
                Some(Input::Wait) => match old(self).board {
                    None => r == Err::<Option<String>, PlayError>(PlayError::NotStarted)
                        && *final(self) == *old(self),
                    Some(b) => exists|a: Action|
                        b@.legal_actions().contains(a) && #[trigger] applied(
                            *old(self),
                            a,
                            outcome(r),
                            *final(self),
                        ) && (r is Ok ==> r->Ok_0 is Some && r->Ok_0->Some_0@ == line_of(a)),
                },
            },
    {
        let i = match Input::parse(input) {
            Ok(i) => i,
            Err(e) => return Err(PlayError::Parse(e)),
        };
        match i {
            Input::Init(p) => {
                self.first = p == 0;
                self.board = Some(Reversi::new());
                Ok(None)
            },
            Input::PlayedPut(y, x) => match self.apply_move(Action::Put(y, x)) {
                Ok(()) => Ok(None),
                Err(e) => Err(e),
            },
            Input::PlayedPass => match self.apply_move(Action::Pass) {
                Ok(()) => Ok(None),
                Err(e) => Err(e),
            },
            Input::Res(_) => Ok(None),
            Input::Wait => match self.board {
                None => Err(PlayError::NotStarted),
                Some(b) => {
                    let p = b.playable();
                    proof {
                        lemma_legal_puts(b@);
                    }
                    match pick(&p) {
                        Some(a) => {
                            let ghost j = choose|j: int| 0 <= j < p@.len() && p@[j] == a;
                            assert(a.valid()) by {
                                if a is Put {
                                    assert(b@.legal_puts()[j] == a);
                                }
                            }
                            match self.commit(a) {
                                Ok(line) => Ok(Some(line)),
                                Err(e) => Err(e),
                            }
                        },
                        // `playable` never returns an empty list, so `pick` finds one.
                        None => Err(PlayError::NotStarted),
                    }
                },
            },
        }
    }
}

} // verus!
