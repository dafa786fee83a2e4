//! Facts about whole games that follow from the rules of `board`.
use vstd::prelude::*;
use crate::protocol::{applied, PlayError, RandomPlayer};
use crate::board::{count_row, count_rows, initial, lemma_legal_puts, lemma_put_fills_one, ActError, Action, BoardModel, Piece};

verus! {

/// Applies the actions in order; the first refusal ends the run.
pub open spec fn run(b: BoardModel, acts: Seq<Action>) -> Result<BoardModel, ActError>
    decreases acts.len(),
{
    if acts.len() == 0 {
        Ok(b)
    } else {
        match b.step(acts[0]) {
            Ok(n) => run(n, acts.drop_first()),
            Err(e) => Err(e),
        }
    }
}

/// Number of placements in a sequence of actions.
pub open spec fn put_count(acts: Seq<Action>) -> nat
    decreases acts.len(),
{
    if acts.len() == 0 {
        0
    } else {
        put_count(acts.drop_first()) + if acts[0] is Put {
            1nat
        } else {
            0nat
        }
    }
}

/// Every action that the generator lists is accepted: the list is never
/// empty, and each placement in it is on the board, on an empty cell, and
/// applies without error.
pub proof fn lemma_listed_actions_apply(b: BoardModel)
    requires
        b.wf(),
    ensures
        b.legal_actions().len() > 0,
        forall|i: int|
            0 <= i < b.legal_actions().len() && (#[trigger] b.legal_actions()[i]) is Put ==> {
                let a = b.legal_actions()[i];
                &&& a.valid()
                &&& b.at(a->Put_0 as int, a->Put_1 as int) == Piece::Empty
                &&& b.step(a) is Ok
            },
{
    lemma_legal_puts(b);
    assert forall|i: int|
        0 <= i < b.legal_actions().len() && (#[trigger] b.legal_actions()[i]) is Put implies {
            let a = b.legal_actions()[i];
            &&& a.valid()
            &&& b.at(a->Put_0 as int, a->Put_1 as int) == Piece::Empty
            &&& b.step(a) is Ok
        } by {
        let a = b.legal_actions()[i];
        let (y, x) = (a->Put_0 as int, a->Put_1 as int);
        assert(b.legal_puts()[i] == a);
        let d = choose|d: int| 0 <= d < 8 && #[trigger] b.dir_count(y, x, d) > 0;
        assert(b.has_put());
    }
}

/// Away from the end of the game, a pass is accepted exactly when the
/// generator offers nothing but a pass.
pub proof fn lemma_pass_iff_only_pass(b: BoardModel)
    requires
        b.wf(),
        !b.terminal(),
    ensures
        b.step(Action::Pass) is Ok <==> b.legal_actions() == seq![Action::Pass],
{
    lemma_legal_puts(b);
    if b.legal_puts().len() > 0 {
        assert(b.legal_actions()[0] is Put);
    }
}

/// The game is over exactly when the generator offers only a pass both to the
/// side to move and to the other side.
pub proof fn lemma_terminal_iff_both_pass(b: BoardModel)
    requires
        b.wf(),
    ensures
        b.terminal() <==> (b.legal_actions() == seq![Action::Pass] && b.toggled().legal_actions()
            == seq![Action::Pass]),
{
    lemma_legal_puts(b);
    lemma_legal_puts(b.toggled());
    if b.legal_puts().len() > 0 {
        assert(b.legal_actions()[0] is Put);
    }
    if b.toggled().legal_puts().len() > 0 {
        assert(b.toggled().legal_actions()[0] is Put);
    }
}

/// When one color has no piece left, the score is the wipeout margin,
/// however many cells are still empty.
pub proof fn lemma_wipeout_score(b: BoardModel)
    requires
        b.count(Piece::First) == 0 || b.count(Piece::Second) == 0,
    ensures
        b.score() == if b.count(Piece::First) == 0 {
            -64
        } else {
            64
        },
{
}

/// In any accepted run of actions, there are no more placements than empty
/// cells at the start, and passes never come twice in a row, so the run is at
/// most one longer than twice its placements.
pub proof fn lemma_game_length(b: BoardModel, acts: Seq<Action>)
    requires
        b.wf(),
        run(b, acts) is Ok,
    ensures
        put_count(acts) <= b.count(Piece::Empty),
        acts.len() <= 2 * put_count(acts) + 1,
    decreases acts.len(),
{
    if acts.len() > 0 {
        let a = acts[0];
        let n = b.step(a)->Ok_0;
        let rest = acts.drop_first();
        match a {
            Action::Put(y, x) => {
                lemma_put_fills_one(b, y as int, x as int);
                lemma_game_length(n, rest);
            },
            Action::Pass => {
                assert(n.cells == b.cells);
                assert(n.wf());
                lemma_game_length(n, rest);
                if rest.len() > 0 {
                    assert(n.has_put());
                    assert(rest[0] is Put);
                    let (y, x) = (rest[0]->Put_0, rest[0]->Put_1);
                    let n2 = n.step(rest[0])->Ok_0;
                    lemma_put_fills_one(n, y as int, x as int);
                    let rest2 = rest.drop_first();
                    lemma_game_length(n2, rest2);
                }
            },
        }
    }
}

proof fn lemma_initial_empties()
    ensures
        initial().count(Piece::Empty) == 60,
{
    let b = initial();
    reveal_with_fuel(count_row, 9);
    reveal_with_fuel(count_rows, 9);
    assert(count_row(b.cells[0], Piece::Empty, 8) == 8);
    assert(count_row(b.cells[1], Piece::Empty, 8) == 8);
    assert(count_row(b.cells[2], Piece::Empty, 8) == 8);
    assert(count_row(b.cells[3], Piece::Empty, 8) == 6);
    assert(count_row(b.cells[4], Piece::Empty, 8) == 6);
    assert(count_row(b.cells[5], Piece::Empty, 8) == 8);
    assert(count_row(b.cells[6], Piece::Empty, 8) == 8);
    assert(count_row(b.cells[7], Piece::Empty, 8) == 8);
}

/// From the opening position, every accepted run holds at most 60
/// placements (one per empty cell) and at most 121 actions in all.
pub proof fn lemma_opening_game_length(acts: Seq<Action>)
    requires
        run(initial(), acts) is Ok,
    ensures
        put_count(acts) <= 60,
        acts.len() <= 121,
{
    lemma_initial_empties();
    lemma_game_length(initial(), acts);
}

/// Two agents whose boards agree stay in step when both apply the same
/// action, the one that chose it and the one that was told of it: they get
/// the same outcome, equal boards, and see the end of the game together.
pub proof fn lemma_agents_stay_in_step(
    p: RandomPlayer,
    q: RandomPlayer,
    a: Action,
    rp: Result<(), PlayError>,
    rq: Result<(), PlayError>,
    p2: RandomPlayer,
    q2: RandomPlayer,
)
    requires
        p.board is Some,
        q.board is Some,
        p.board->Some_0@ == q.board->Some_0@,
        applied(p, a, rp, p2),
        applied(q, a, rq, q2),
    ensures
        rp is Ok <==> rq is Ok,
        rp is Err ==> rp == rq,
        p2.board is Some && q2.board is Some,
        p2.board->Some_0@ == q2.board->Some_0@,
        p2.board->Some_0@.terminal() == q2.board->Some_0@.terminal(),
{
}

} // verus!
