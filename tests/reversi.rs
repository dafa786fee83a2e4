use reversi::board::{ActError, Action, Piece, Reversi};
use reversi::protocol::{Input, ParseError, PlayError, RandomPlayer};

fn same_action(e: Vec<Action>, g: Vec<(usize, usize)>) {
    assert_eq!(e.len(), g.len());
    for (y, x) in g {
        assert!(e.iter().any(|a| a == &Action::Put(y, x)))
    }
}

fn count(b: &Reversi, p: Piece) -> usize {
    let mut n = 0;
    for y in 0..8 {
        for x in 0..8 {
            if b.get(y, x) == p {
                n += 1;
            }
        }
    }
    n
}

#[test]
fn test_board() {
    let mut b = Reversi::new();
    let c = b.playable();
    assert_eq!(c.len(), 4);
    let a = vec![(2, 3), (3, 2), (4, 5), (5, 4)];
    same_action(c, a);
    println!("{}", b.render());
    b.act(Action::Put(2, 3)).unwrap();
    println!("{}", b.render());
    b.act(Action::Put(2, 2)).unwrap();
    println!("{}", b.render());
    for _ in 0..8 * 8 {
        if b.is_end() {
            break;
        }
        let c = b.playable();
        b.act(c[0]).unwrap();
    }
    assert!(b.is_end());
    println!("{}", b.render());
}

#[test]
fn test_player() {
    let mut p0 = RandomPlayer::new();
    let mut p1 = RandomPlayer::new();
    p0.play("init 0").unwrap();
    p1.play("init 1").unwrap();
    for _ in 0..100 {
        let r = p0.play("wait").unwrap().unwrap();
        println!("{:?}", r);
        let p = Action::parse(&r).unwrap();
        p1.board.as_mut().unwrap().act(p).unwrap();
        println!("X\n{}", p0.board.as_mut().unwrap().render());
        if p1.board.as_mut().unwrap().is_end() {
            break;
        }

        let r = p1.play("wait").unwrap().unwrap();
        println!("{:?}", r);
        let p = Action::parse(&r).unwrap();
        p0.board.as_mut().unwrap().act(p).unwrap();
        println!("O\n{}", p1.board.as_mut().unwrap().render());
        if p0.board.as_mut().unwrap().is_end() {
            break;
        }
    }
}

#[test]
fn opening_position() {
    let b = Reversi::new();
    assert!(b.is_first());
    assert_eq!(b.get(4, 3), Piece::First);
    assert_eq!(b.get(3, 4), Piece::First);
    assert_eq!(b.get(3, 3), Piece::Second);
    assert_eq!(b.get(4, 4), Piece::Second);
    assert_eq!(b.get(0, 0), Piece::Empty);
    assert_eq!(count(&b, Piece::Empty), 60);
    assert!(!b.is_end());
    assert_eq!(b.result(), 0);
}

#[test]
fn opening_moves_in_row_major_order() {
    let b = Reversi::new();
    assert_eq!(
        b.playable(),
        vec![Action::Put(2, 3), Action::Put(3, 2), Action::Put(4, 5), Action::Put(5, 4)]
    );
}

#[test]
fn opening_reversal_vectors() {
    let b = Reversi::new();
    // South of (2,3) lies the Second piece at (3,3), then First at (4,3).
    assert_eq!(b.reversal(2, 3), [0, 0, 1, 0, 0, 0, 0, 0]);
    assert_eq!(b.reversal(3, 2), [1, 0, 0, 0, 0, 0, 0, 0]);
    assert_eq!(b.reversal(0, 0), [0; 8]);
    assert_eq!(b.reversal(3, 3), [0; 8]);
}

#[test]
fn first_move_flips_one() {
    let mut b = Reversi::new();
    assert_eq!(b.act(Action::Put(2, 3)), Ok(()));
    assert_eq!(b.get(2, 3), Piece::First);
    assert_eq!(b.get(3, 3), Piece::First);
    assert_eq!(b.get(4, 4), Piece::Second);
    assert!(!b.is_first());
    assert_eq!(count(&b, Piece::First), 4);
    assert_eq!(count(&b, Piece::Second), 1);
    assert_eq!(b.result(), 3);
}

#[test]
fn second_move_flips_diagonal() {
    let mut b = Reversi::new();
    b.act(Action::Put(2, 3)).unwrap();
    assert_eq!(b.reversal(2, 2)[1], 1);
    assert_eq!(b.act(Action::Put(2, 2)), Ok(()));
    assert_eq!(b.get(2, 2), Piece::Second);
    assert_eq!(b.get(3, 3), Piece::Second);
    assert_eq!(b.get(4, 4), Piece::Second);
    assert_eq!(b.get(2, 3), Piece::First);
    assert!(b.is_first());
    assert_eq!(count(&b, Piece::First), 3);
    assert_eq!(count(&b, Piece::Second), 3);
}

#[test]
fn mover_gains_one_plus_flips() {
    let mut b = Reversi::new();
    b.act(Action::Put(2, 3)).unwrap();
    b.act(Action::Put(2, 2)).unwrap();
    for a in b.playable() {
        if let Action::Put(y, x) = a {
            let sum: usize = b.reversal(y, x).iter().sum();
            let mut n = b;
            let before = count(&b, Piece::First);
            let total = 64 - count(&b, Piece::Empty);
            n.act(a).unwrap();
            assert_eq!(count(&n, Piece::First), before + 1 + sum);
            assert_eq!(64 - count(&n, Piece::Empty), total + 1);
        }
    }
}

#[test]
fn refused_actions() {
    let mut b = Reversi::new();
    assert_eq!(b.act(Action::Put(3, 3)), Err(ActError::CellOccupied(3, 3)));
    assert_eq!(b.act(Action::Put(0, 0)), Err(ActError::NoCapture(0, 0)));
    assert_eq!(b.act(Action::Pass), Err(ActError::IllegalPass));
    assert_eq!(b, Reversi::new());
}

#[test]
fn self_play_ends_within_sixty_placements() {
    let mut b = Reversi::new();
    let mut puts = 0;
    let mut steps = 0;
    let mut last_pass = false;
    while !b.is_end() {
        let a = b.playable()[0];
        if let Action::Put(y, x) = a {
            assert_eq!(b.get(y, x), Piece::Empty);
            puts += 1;
            last_pass = false;
        } else {
            assert!(!last_pass);
            last_pass = true;
        }
        b.act(a).unwrap();
        steps += 1;
        assert!(steps <= 121);
    }
    assert!(puts <= 60);
    assert_eq!(b.playable(), vec![Action::Pass]);
    assert_eq!(b.act(Action::Pass), Err(ActError::GameOver));
    let r = b.result();
    assert!(-64 <= r && r <= 64);
    let f = count(&b, Piece::First) as isize;
    let s = count(&b, Piece::Second) as isize;
    if f > 0 && s > 0 {
        assert_eq!(r, f - s);
    }
}

#[test]
fn parse_inputs() {
    assert_eq!(Input::parse("init 0"), Ok(Input::Init(0)));
    assert_eq!(Input::parse("init 1"), Ok(Input::Init(1)));
    assert_eq!(Input::parse("played put 2 3"), Ok(Input::PlayedPut(2, 3)));
    assert_eq!(Input::parse("played pass"), Ok(Input::PlayedPass));
    assert_eq!(Input::parse("res -12"), Ok(Input::Res(-12)));
    assert_eq!(Input::parse("res +7"), Ok(Input::Res(7)));
    assert_eq!(Input::parse("wait"), Ok(Input::Wait));
    assert_eq!(Input::parse("bogus"), Err(ParseError));
    assert_eq!(Input::parse("init"), Err(ParseError));
    assert_eq!(Input::parse("init x"), Err(ParseError));
    assert_eq!(Input::parse("played put 8 0"), Err(ParseError));
    assert_eq!(Input::parse("played put 1"), Err(ParseError));
    assert_eq!(Input::parse("played jump"), Err(ParseError));
    assert_eq!(Input::parse("res 99999999999999999999"), Err(ParseError));
    assert_eq!(Input::parse(""), Err(ParseError));
}

#[test]
fn parse_and_print_actions() {
    assert_eq!(Action::parse("put 5 4"), Ok(Action::Put(5, 4)));
    assert_eq!(Action::parse("pass"), Ok(Action::Pass));
    assert_eq!(Action::parse("put 5"), Err(ParseError));
    assert_eq!(Action::parse("put -1 4"), Err(ParseError));
    assert_eq!(Action::parse("move 1 2"), Err(ParseError));
    assert_eq!(Action::Put(5, 4).line(), "put 5 4");
    assert_eq!(Action::Pass.line(), "pass");
}

#[test]
fn player_protocol() {
    let mut p = RandomPlayer::new();
    assert_eq!(p.play("wait"), Err(PlayError::NotStarted));
    assert_eq!(p.play("nonsense"), Err(PlayError::Parse(ParseError)));
    assert_eq!(p.play("init 1"), Ok(None));
    assert!(!p.first);
    assert_eq!(p.play("played put 2 3"), Ok(None));
    assert_eq!(p.board.unwrap().get(3, 3), Piece::First);
    assert_eq!(
        p.play("played put 0 0"),
        Err(PlayError::Rule(ActError::NoCapture(0, 0)))
    );
    let before = p.board.unwrap();
    let line = p.play("wait").unwrap().unwrap();
    let a = Action::parse(&line).unwrap();
    assert!(before.playable().contains(&a));
    let mut expect = before;
    expect.act(a).unwrap();
    assert_eq!(p.board.unwrap(), expect);
    assert_eq!(p.play("res 4"), Ok(None));
}

#[test]
fn two_agents_stay_in_step() {
    let mut p0 = RandomPlayer::new();
    let mut p1 = RandomPlayer::new();
    p0.play("init 0").unwrap();
    p1.play("init 1").unwrap();
    assert!(p0.first && !p1.first);
    for _ in 0..200 {
        let r = p0.play("wait").unwrap().unwrap();
        p1.play(&format!("played {}", r)).unwrap();
        assert_eq!(p0.board, p1.board);
        assert_eq!(p0.board.unwrap().is_end(), p1.board.unwrap().is_end());
        if p1.board.unwrap().is_end() {
            break;
        }
        let r = p1.play("wait").unwrap().unwrap();
        p0.play(&format!("played {}", r)).unwrap();
        assert_eq!(p0.board, p1.board);
        if p0.board.unwrap().is_end() {
            break;
        }
    }
    assert!(p0.board.unwrap().is_end());
}

#[test]
fn render_opening() {
    let b = Reversi::new();
    assert_eq!(
        b.render(),
        "........\n........\n........\n...XO...\n...OX...\n........\n........\n........\nX's turn\n"
    );
}

#[test]
fn render_after_one_move() {
    let mut b = Reversi::new();
    b.act(Action::Put(2, 3)).unwrap();
    assert!(b.render().ends_with("...O....\n...OO...\n...OX...\n........\n........\n........\nO's turn\n"));
}

#[test]
fn render_finished_game() {
    let mut b = Reversi::new();
    while !b.is_end() {
        let a = b.playable()[0];
        b.act(a).unwrap();
    }
    let text = b.render();
    assert!(text.ends_with(&format!("Over! Result: {}\n", b.result())));
    assert_eq!(text.lines().count(), 9);
}
