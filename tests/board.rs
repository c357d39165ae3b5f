use backgammon::board::{Action, Board, State};
use backgammon::game::{Cube, Dice, Result};
use backgammon::moves::Move;
use backgammon::pieces::{Piece, Pieces, Player};

#[test]
fn board_print_board() {
    let b = Board::new();
    println!("{}", b.xgid());
    assert_eq!(b.state(), State::Init);
}

#[test]
fn board_print_moves() {
    let mut b = Board::new();
    b.init_roll(Dice(2, 1));
    println!("{}", b.xgid());
    let moves = b.moves();
    assert_eq!(moves.len(), 15);
    for m in moves {
        println!("{}", m.to_str());
    }
}

#[test]
fn board_single_game() {
    let mut b = Board::new();
    b.init_roll(Dice(2, 1));
    println!("{}", b.xgid());

    let act = &b.actions()[0];
    println!("{:?}", act);
    b.act(&act);
    println!("{}", b.xgid());

    assert_eq!(b.state(), State::ToDouble);
    assert_eq!(b.player, Some(Player::Black));
    b.act(&Action::NoDouble);

    assert_eq!(b.state(), State::ToRoll);
    assert_eq!(b.player, Some(Player::Black));

    b.act(&Action::Roll(Dice(2, 1)));
    println!("{}", b.xgid());
    assert_eq!(b.state(), State::ToMove);
    assert_eq!(b.player, Some(Player::Black));

    let moves = b.moves();
    for m in moves {
        println!("{}", m.to_str());
    }
    let m = Move(vec![(6, 4, false), (4, 3, true)]);
    b.act(&Action::Move(m));
    println!("{}", b.xgid());
    assert_eq!(b.pieces.get(Pieces::BAR), Some((Player::White, 1)));
}

#[test]
fn board_big_roll() {
    let mut b = Board::new();
    b.init_roll(Dice(5, 6));
    let act = &b.actions()[0];
    b.act(&act);
    let mut i = 0;
    while b.state() != State::MatchEnd {
        b.act(&Action::NoDouble);
        b.act(&Action::Roll(Dice(5, 6)));
        println!("{}", b.xgid());
        let act = &b.actions()[0];
        println!("{:?}", act);
        b.act(&act);
        i += 1;
        if i > 39 {
            assert!(false, "infinite loop")
        }
    }
    println!("{}", b.xgid());
    assert_eq!(
        b.result,
        Some(Result {
            player: Player::Black,
            score: 1
        })
    );
}

#[test]
fn double_pass() {
    let mut b = Board::new();
    b.game.length = 3;
    b.init_roll(Dice(5, 6));
    let act = &b.actions()[0];
    b.act(&act);

    assert_eq!(b.player, Some(Player::White));
    b.act(&Action::Double);
    assert_eq!(b.state(), State::Doubled);
    assert_eq!(b.player, Some(Player::Black));
    b.act(&Action::Pass);
    assert_eq!(b.state(), State::End);
    assert_eq!(
        b.result,
        Some(Result {
            player: Player::White,
            score: 1
        })
    );
}

#[test]
fn double_take() {
    let mut b = Board::new();
    b.game.length = 3;
    b.init_roll(Dice(5, 6));
    let act = &b.actions()[0];
    b.act(&act);

    assert_eq!(b.player, Some(Player::White));
    b.act(&Action::Double);

    assert_eq!(b.state(), State::Doubled);
    assert_eq!(b.player, Some(Player::Black));
    b.act(&Action::Take);

    assert_eq!(b.player, Some(Player::White));
    assert_eq!(b.state(), State::ToRoll);
    assert_eq!(
        b.cube,
        Cube {
            position: Some(Player::Black),
            level: 1,
            max_level: Cube::DEFAULT_MAX_LEVEL,
            doubled: false
        }
    )
}

#[test]
fn board_move_ord() {
    assert!(
        Move(vec![(24, 22, false), (24, 23, false)]) < Move(vec![(24, 23, false), (24, 22, false)])
    );
}

#[test]
fn board_move_to_str() {
    assert_eq!(Move(vec![(6, 4, false), (4, 3, true)]).to_str(), "6/3*")
}

#[test]
fn xgid_test() {
    let b = Board::new();
    assert_eq!(
        b.xgid(),
        "XGID=-b----E-C---eE---c-e----B---:0:0:::0:0:0:1:10"
    );

    let id = "XGID=-b----E-C---eE---c-e----B---:1:1:1:11:1:2:1:3:10";
    let b = Board::from_xgid(id).unwrap();
    assert_eq!(b.xgid(), id);
}

#[test]
fn moves() {
    let b = Board::from_xgid("XGID=-A----------------------a-:0:0:1:11:0:0:0:1:10").unwrap();
    let moves = b.moves();
    println!("{:?}", moves);
    assert_eq!(moves, vec![Move(vec![(1, 0, false)])]);

    let b = Board::from_xgid("XGID=-a------------------A-----:0:0:1:11:0:0:0:1:10").unwrap();
    println!("{}", b.xgid());
    let moves = b.moves();
    println!("{:?}", moves);
    assert_eq!(
        moves,
        vec![Move(vec![
            (20, 19, false),
            (19, 18, false),
            (18, 17, false),
            (17, 16, false),
        ])]
    );
}

#[test]
fn reverse() {
    let ps = Pieces(
        vec![
            1, 2, 3, 0, 0, 0, 0, 0, 0, 0, 0, 0, 0, 0, 0, 0, 0, 0, 0, 0, 0, 0, 0, 0, 4, 5, -6, -7,
        ]
        .into_iter()
        .map(Piece)
        .collect(),
    );
    let r = ps.reverse();
    assert_eq!(
        r.0,
        vec![
            -6, 4, 0, 0, 0, 0, 0, 0, 0, 0, 0, 0, 0, 0, 0, 0, 0, 0, 0, 0, 0, 0, 0, 3, 2, -7, 1, 5
        ]
        .into_iter()
        .map(Piece)
        .collect::<Vec<_>>()
    )
}

#[test]
fn lib_print_board() {
    let b = Board::new();
    println!("{}", b.xgid());
    assert_eq!(b.state(), State::Init);
}

#[test]
fn lib_print_moves() {
    let mut b = Board::new();
    b.init_roll(Dice(2, 1));
    println!("{}", b.xgid());
    let moves = b.moves();
    assert_eq!(moves.len(), 15);
    for m in moves {
        println!("{}", m.to_str());
    }
}

#[test]
fn lib_move_ord() {
    assert!(
        Move(vec![(24, 22, false), (24, 23, false)]) < Move(vec![(24, 23, false), (24, 22, false)])
    );
}

#[test]
fn lib_move_to_str() {
    assert_eq!(Move(vec![(6, 4, false), (4, 3, true)]).to_str(), "6/3*")
}
