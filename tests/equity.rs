use backgammon::board::{Board, State};
use backgammon::game::Match;
use backgammon::pieces::Player;
use backgammon::met::fetch_match_equities;

#[test]
fn match_eq() {
    let p = fetch_match_equities(&Match {
        length: 5,
        score: (0, 0),
        crawford: false,
    }) as f64
        / 100.0;
    assert!((p - 0.5) < 1e-5, "{}", p);
    let p = fetch_match_equities(&Match {
        length: 5,
        score: (4, 1),
        crawford: true,
    }) as f64
        / 100.0;
    assert!((p - 0.81) < 1e-5, "{}", p);
    let p = fetch_match_equities(&Match {
        length: 5,
        score: (4, 1),
        crawford: false,
    }) as f64
        / 100.0;
    assert!((p - 0.69) < 1e-5, "{}", p);
}

#[test]
fn equity_exact_values() {
    let m = |w: usize, b: usize, crawford: bool| Match {
        length: 5,
        score: (w, b),
        crawford,
    };
    assert_eq!(fetch_match_equities(&m(0, 0, false)), 50);
    assert_eq!(fetch_match_equities(&m(1, 0, false)), 53);
    assert_eq!(fetch_match_equities(&m(0, 3, false)), 34);
    assert_eq!(fetch_match_equities(&m(4, 1, true)), 81);
    assert_eq!(fetch_match_equities(&m(4, 1, false)), 69);
    assert_eq!(fetch_match_equities(&m(1, 4, false)), 100 - 69);
    assert_eq!(fetch_match_equities(&m(4, 4, false)), 50);
    assert_eq!(fetch_match_equities(&m(5, 2, false)), 100);
    assert_eq!(fetch_match_equities(&m(2, 5, false)), -100);
}

#[test]
fn equity_terminal_one_point() {
    let mut m = Match::single();
    m.add_score(Player::White, 1);
    assert_eq!(fetch_match_equities(&m), 100);
    let mut m = Match::single();
    m.add_score(Player::Black, 2);
    assert_eq!(m.score, (0, 1));
    assert_eq!(fetch_match_equities(&m), -100);
}

#[test]
fn equity_long_match_decided() {
    let m = Match {
        length: 9,
        score: (9, 3),
        crawford: false,
    };
    assert_eq!(fetch_match_equities(&m), 100);
}

#[test]
fn finished_one_point_game_is_worth_the_match() {
    let mut b = Board::from_xgid("XGID=-A----------------------a-:0:0:1:11:0:0:0:1:10").unwrap();
    let act = b.actions()[0].clone();
    b.act(&act);
    assert_eq!(b.state(), State::MatchEnd);
    assert_eq!(b.game.winner(), Some(Player::White));
    assert_eq!(fetch_match_equities(&b.game), 100);

    let mut b = Board::from_xgid("XGID=-A----------------------a-:0:0:0:11:0:0:0:1:10").unwrap();
    let act = b.actions()[0].clone();
    b.act(&act);
    assert_eq!(b.state(), State::MatchEnd);
    assert_eq!(b.game.winner(), Some(Player::Black));
    assert_eq!(fetch_match_equities(&b.game) as f64 / 100.0, -1.0);
}
