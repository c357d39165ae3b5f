use backgammon::board::{Action, Board, State};
use backgammon::game::{Cube, Dice, DiceRoll, Match};
use backgammon::moves::Move;
use backgammon::pieces::{Piece, Pieces, Player};

const START: &str = "XGID=-b----E-C---eE---c-e----B---:0:0:::0:0:0:1:10";

fn slots(marks: &[(usize, char)]) -> String {
    let mut c = vec!['-'; 28];
    for (i, ch) in marks {
        c[*i] = *ch;
    }
    c.iter().collect()
}

fn count(b: &Board, white: bool) -> isize {
    b.pieces
        .0
        .iter()
        .map(|p| if white { p.0.max(0) } else { (-p.0).max(0) })
        .sum()
}

/// The (from, to) hops a notation names: each path from its start through
/// every point written after a slash.
fn hops(s: &str) -> Vec<(usize, usize)> {
    let mut r = vec![];
    for group in s.split(' ') {
        let points: Vec<usize> = group
            .split('/')
            .map(|p| p.trim_end_matches('*').parse().unwrap())
            .collect();
        for w in points.windows(2) {
            r.push((w[0], w[1]));
        }
    }
    r
}

#[test]
fn opening_two_one_has_fifteen_distinct_plays() {
    let mut b = Board::new();
    b.init_roll(Dice(2, 1));
    assert_eq!(b.player, Some(Player::White));
    let moves = b.moves();
    assert_eq!(moves.len(), 15);
    let mut names: Vec<String> = moves.iter().map(|m| m.to_str()).collect();
    names.sort();
    names.dedup();
    assert_eq!(names.len(), 15);
    assert!(names.contains(&"13/11 6/5".to_string()));
    assert!(names.contains(&"24/21".to_string()));
    for w in moves.windows(2) {
        assert!(!(w[1] < w[0]));
    }
}

#[test]
fn start_string_round_trip() {
    let b = Board::from_xgid(START).unwrap();
    assert_eq!(b.xgid(), START);
    assert_eq!(b.pieces, Board::new().pieces);
}

#[test]
fn borne_off_checkers_survive_round_trip() {
    let s = format!("XGID={}:0:0:1:11:0:0:0:1:10", slots(&[(1, 'A'), (24, 'a')]));
    let b = Board::from_xgid(&s).unwrap();
    let text = b.xgid();
    assert!(text.starts_with("XGID=NA"));
    let again = Board::from_xgid(&text).unwrap();
    assert_eq!(again.xgid(), text);
    assert_eq!(again.pieces, b.pieces);
}

#[test]
fn mirror_twice_is_identity() {
    let b = Board::new();
    let twice = b.pieces.reverse().reverse();
    assert_eq!(twice, b.pieces);
    assert_ne!(b.pieces.reverse(), b.pieces);
}

#[test]
fn checkers_conserved_through_play() {
    let mut b = Board::new();
    b.game.length = 5;
    b.init_roll(Dice(3, 1));
    for _ in 0..12 {
        match b.state() {
            State::ToDouble => b.act(&Action::NoDouble),
            State::ToRoll => b.act(&Action::Roll(Dice(4, 2))),
            State::ToMove => {
                let act = b.actions().last().unwrap().clone();
                b.act(&act);
            }
            _ => break,
        }
        assert_eq!(count(&b, true), 15);
        assert_eq!(count(&b, false), 15);
    }
}

#[test]
fn after_white_opens_black_decides_on_the_cube() {
    let mut b = Board::new();
    b.game.length = 3;
    b.init_roll(Dice(2, 1));
    assert_eq!(b.player, Some(Player::White));
    let act = b.actions()[0].clone();
    b.act(&act);
    assert_eq!(b.state(), State::ToDouble);
    assert_eq!(b.player, Some(Player::Black));
    let acts = b.actions();
    assert_eq!(acts.len(), 2);
    assert!(matches!(acts[0], Action::Double));
    assert!(matches!(acts[1], Action::NoDouble));
    b.act(&Action::NoDouble);
    assert_eq!(b.state(), State::ToRoll);
    assert_eq!(b.player, Some(Player::Black));
    assert!(b.actions().iter().all(|a| matches!(a, Action::Roll(_))));
    assert_eq!(b.actions().len(), 21);
}

#[test]
fn no_offer_in_crawford_game() {
    let b = Board::from_xgid("XGID=-b----E-C---eE---c-e----B---:0:0:1::0:2:1:3:10").unwrap();
    assert_eq!(b.state(), State::ToDouble);
    assert!(b.game.crawford);
    let acts = b.actions();
    assert_eq!(acts.len(), 1);
    assert!(matches!(acts[0], Action::NoDouble));
}

#[test]
fn no_offer_at_max_level() {
    let b = Board::from_xgid("XGID=-b----E-C---eE---c-e----B---:10:1:1::0:0:0:3:10").unwrap();
    assert_eq!(b.state(), State::ToDouble);
    let acts = b.actions();
    assert_eq!(acts.len(), 1);
    assert!(matches!(acts[0], Action::NoDouble));
}

#[test]
fn no_offer_when_opponent_owns_cube() {
    let mut b = Board::new();
    b.game.length = 3;
    b.init_roll(Dice(5, 6));
    let act = b.actions()[0].clone();
    b.act(&act);
    b.act(&Action::Double);
    b.act(&Action::Take);
    assert_eq!(b.cube.position, Some(Player::Black));
    assert_eq!(b.state(), State::ToRoll);
    b.act(&Action::Roll(Dice(4, 2)));
    let act = b.actions()[0].clone();
    b.act(&act);
    assert_eq!(b.player, Some(Player::Black));
    assert_eq!(b.state(), State::ToDouble);
    assert_eq!(b.actions().len(), 2);
    b.act(&Action::NoDouble);
    b.act(&Action::Roll(Dice(4, 2)));
    let act = b.actions()[0].clone();
    b.act(&act);
    assert_eq!(b.player, Some(Player::White));
    assert_eq!(b.state(), State::ToDouble);
    let acts = b.actions();
    assert_eq!(acts.len(), 1);
    assert!(matches!(acts[0], Action::NoDouble));
}

#[test]
fn single_checker_bears_off_against_black_on_two() {
    let s = format!("XGID={}:0:0:1:11:0:0:0:1:10", slots(&[(1, 'A'), (2, 'a')]));
    let b = Board::from_xgid(&s).unwrap();
    assert_eq!(b.moves(), vec![Move(vec![(1, 0, false)])]);
}

#[test]
fn closed_board_is_a_dance() {
    let s = format!(
        "XGID={}:0:0:1:65:0:0:0:1:10",
        slots(&[(19, 'b'), (20, 'b'), (21, 'b'), (22, 'b'), (23, 'b'), (24, 'b'), (25, 'A')])
    );
    let b = Board::from_xgid(&s).unwrap();
    assert_eq!(b.moves(), vec![Move(vec![])]);
    let acts = b.actions();
    assert_eq!(acts.len(), 1);
    let mut b2 = b.clone();
    b2.act(&acts[0]);
    assert_eq!(b2.player, Some(Player::Black));
    assert_eq!(b2.pieces, b.pieces);
}

#[test]
fn checker_on_bar_enters_first() {
    let s = format!(
        "XGID={}:0:0:1:31:0:0:0:1:10",
        slots(&[(6, 'E'), (8, 'C'), (13, 'E'), (24, 'A'), (25, 'A'), (1, 'b'), (12, 'e'), (17, 'c'), (19, 'e')])
    );
    let b = Board::from_xgid(&s).unwrap();
    let moves = b.moves();
    assert!(!moves.is_empty());
    for m in &moves {
        assert_eq!(m.0.iter().filter(|s| s.0 == 25).count(), 1, "{:?}", m);
        assert!(m.0.iter().any(|s| s.0 == 25));
    }
    assert!(moves.iter().any(|m| m.0.contains(&(25, 22, false)) || m.0.contains(&(25, 24, false))));
}

#[test]
fn only_the_larger_die_when_one_can_be_played() {
    let s = format!("XGID={}:0:0:1:65:0:0:0:1:10", slots(&[(2, 'b'), (13, 'A')]));
    let b = Board::from_xgid(&s).unwrap();
    assert_eq!(b.moves(), vec![Move(vec![(13, 7, false)])]);
}

#[test]
fn over_roll_bears_off_the_last_checker() {
    let s = format!("XGID={}:0:0:1:61:0:0:0:1:10", slots(&[(2, 'A'), (24, 'a')]));
    let b = Board::from_xgid(&s).unwrap();
    assert_eq!(b.moves(), vec![Move(vec![(2, 0, false)])]);
}

#[test]
fn notation_groups_and_hits() {
    assert_eq!(Move(vec![(13, 11, false), (24, 18, false)]).to_str(), "24/18 13/11");
    assert_eq!(Move(vec![(6, 4, true), (4, 3, false)]).to_str(), "6/4*/3");
    assert_eq!(Move(vec![(8, 5, false), (5, 2, false)]).to_str(), "8/2");
    assert_eq!(Move(vec![(8, 6, false), (8, 6, false)]).to_str(), "8/6 8/6");
    assert_eq!(Move(vec![]).to_str(), "");
    assert_eq!(Move(vec![(25, 22, true)]).to_str(), "25/22*");
}

#[test]
fn notation_gives_back_the_moves() {
    let cases: Vec<(Move, Vec<(usize, usize)>)> = vec![
        (Move(vec![(24, 18, false), (13, 11, false)]), vec![(24, 18), (13, 11)]),
        (Move(vec![(6, 4, true), (4, 3, false)]), vec![(6, 4), (4, 3)]),
        (Move(vec![(6, 4, false), (4, 3, true)]), vec![(6, 3)]),
        (Move(vec![(8, 5, true), (5, 2, true)]), vec![(8, 5), (5, 2)]),
    ];
    for (m, want) in cases {
        assert_eq!(hops(&m.to_str()), want, "{}", m.to_str());
    }
}

#[test]
fn move_order_and_equality() {
    let a = Move(vec![(24, 22, false)]);
    let b = Move(vec![(24, 22, false), (22, 21, false)]);
    assert!(a < b);
    assert!(!(b < a));
    assert_eq!(a.partial_cmp(&a), Some(std::cmp::Ordering::Equal));
    assert_ne!(Move(vec![(24, 22, true)]), a);
}

#[test]
fn malformed_strings_are_refused() {
    assert!(Board::from_xgid("-b----E-C---eE---c-e----B---:0:0:::0:0:0:1:10").is_none());
    assert!(Board::from_xgid("XGID=-b----E-C---eE---c-e----B---:0:0:::0:0:0:1").is_none());
    assert!(Board::from_xgid("XGID=-b----E-C---eE---c-e----Z---:0:0:::0:0:0:1:10").is_none());
    assert!(Board::from_xgid("XGID=-b----E-C---eE---c-e----B---:x:0:::0:0:0:1:10").is_none());
    assert!(Board::from_xgid("XGID=-b----E-C---eE---c-e----B---:0:0:1:17:0:0:0:1:10").is_none());
    assert!(Board::from_xgid("XGID=-b----E-C---eE---c-e----B----:0:0:::0:0:0:1:10").is_none());
    assert!(Board::from_xgid("XGID=-b----O-C---eE---c-e----B---:0:0:::0:0:0:1:10").is_none());
    assert!(Board::from_xgid("XGID=-b----E-C---eE---c-e----B---:0:0::21:0:0:0:1:10").is_none());
    assert!(Board::from_xgid("XGID=-b----E-C---eE---c-e----B---:0:0:::0:0:0:0:10").is_none());
    assert!(Board::from_xgid("XGID=-b----E-C---eE---c-e----B---:0:0:::4:0:0:3:10").is_none());
    assert!(Board::from_xgid("XGID=-b----E-C---eE---c-e----B---:11:0:::0:0:0:3:10").is_none());
    assert!(Board::from_xgid("XGID=-b----E-C---eE---c-e----B---:0:0:::0:0:0:3:31").is_none());
    assert!(Board::from_xgid("XGID=-b----E-C---eE---c-e----Ba--:0:0:::0:0:0:3:10").is_none());
    assert!(Board::from_xgid("XGID=-b----E-C---eE---c-e----B---:0:0:1::0:0:0:99999999999999999999999:10").is_none());
}

#[test]
fn player_codes_read_back() {
    let b = Board::from_xgid("XGID=-b----E-C---eE---c-e----B---:0:0:0:21:0:0:0:3:10").unwrap();
    assert_eq!(b.player, Some(Player::Black));
    assert_eq!(b.state(), State::ToMove);
    let b = Board::from_xgid("XGID=-b----E-C---eE---c-e----B---:1:-1:1::0:0:0:3:10").unwrap();
    assert_eq!(b.cube.position, Some(Player::Black));
    assert!(b.to_roll);
    assert_eq!(b.state(), State::ToRoll);
    let b = Board::from_xgid("XGID=-b----E-C---eE---c-e----B---:1:1:0:D:0:0:0:3:10").unwrap();
    assert_eq!(b.state(), State::Doubled);
    assert!(b.xgid().contains(":D:"));
}

#[test]
fn start_string_without_player_rolls_for_the_start() {
    let b = Board::from_xgid(START).unwrap();
    assert_eq!(b.state(), State::ToRoll);
    let acts = b.actions();
    assert_eq!(acts.len(), 21);
    assert!(acts.iter().all(|a| matches!(a, Action::InitRoll(_))));
}

#[test]
fn finish_classes() {
    let mut v = vec![0isize; 28];
    v[0] = 15;
    v[12] = -15;
    let ps = Pieces(v.iter().copied().map(Piece).collect());
    assert_eq!(ps.goal(Player::White), 2);
    assert_eq!(ps.goal(Player::Black), 0);
    v[12] = -14;
    v[3] = -1;
    let ps = Pieces(v.iter().copied().map(Piece).collect());
    assert_eq!(ps.goal(Player::White), 3);
    v[3] = 0;
    v[27] = -1;
    let ps = Pieces(v.iter().copied().map(Piece).collect());
    assert_eq!(ps.goal(Player::White), 3);
    v[27] = 0;
    v[26] = -1;
    let ps = Pieces(v.iter().copied().map(Piece).collect());
    assert_eq!(ps.goal(Player::White), 1);
}

#[test]
fn gammon_counts_twice_the_cube() {
    let s = format!("XGID={}:1:1:1:11:0:0:0:5:10", slots(&[(0, 'N'), (1, 'A'), (12, 'o')]));
    let mut b = Board::from_xgid(&s).unwrap();
    let act = b.actions()[0].clone();
    b.act(&act);
    assert_eq!(b.state(), State::End);
    assert_eq!(b.result.unwrap().score, 4);
    assert_eq!(b.result.unwrap().player, Player::White);
    assert_eq!(b.game.score, (4, 0));
    assert!(b.game.crawford);
}

#[test]
fn black_win_counts_the_cube() {
    let s = format!("XGID={}:1:-1:0:11:0:0:0:5:10", slots(&[(24, 'a'), (2, 'B')]));
    let mut b = Board::from_xgid(&s).unwrap();
    let act = b.actions()[0].clone();
    b.act(&act);
    assert_eq!(b.result.unwrap().player, Player::Black);
    assert_eq!(b.result.unwrap().score, 2);
}

#[test]
fn reset_starts_next_game_keeping_score() {
    let mut b = Board::new();
    b.game.length = 3;
    b.init_roll(Dice(5, 6));
    let act = b.actions()[0].clone();
    b.act(&act);
    b.act(&Action::Double);
    b.act(&Action::Pass);
    assert_eq!(b.state(), State::End);
    let acts = b.actions();
    assert!(matches!(acts[0], Action::Reset));
    b.act(&Action::Reset);
    assert_eq!(b.state(), State::Init);
    assert_eq!(b.game.score, (1, 0));
    assert_eq!(b.pieces, Board::new().pieces);
    assert_eq!(b.cube, Cube::center());
}

#[test]
fn crawford_game_comes_once() {
    let mut m = Match::with_length(3);
    m.add_score(Player::White, 2);
    assert_eq!(m.score, (2, 0));
    assert!(m.crawford);
    m.add_score(Player::Black, 1);
    assert!(!m.crawford);
    m.add_score(Player::Black, 1);
    assert!(!m.crawford);
    assert_eq!(m.winner(), None);
    m.add_score(Player::Black, 8);
    assert_eq!(m.score, (2, 3));
    assert_eq!(m.winner(), Some(Player::Black));
}

#[test]
fn dice_rolls_and_orders() {
    let all = DiceRoll::all();
    assert_eq!(all.len(), 21);
    assert_eq!(all[0], Dice(1, 1));
    assert_eq!(all[1], Dice(1, 2));
    assert_eq!(all[20], Dice(6, 6));
    let total: usize = all.iter().map(|d| d.weight()).sum();
    assert_eq!(total, 36);
    assert_eq!(DiceRoll::roll(3, 5).moves(), vec![vec![3, 5], vec![5, 3]]);
    assert_eq!(DiceRoll::roll(4, 4).moves(), vec![vec![4, 4, 4, 4]]);
    assert_eq!(DiceRoll::roll(2, 1).init_player(), Some(Player::White));
    assert_eq!(DiceRoll::roll(1, 2).init_player(), Some(Player::Black));
    assert_eq!(DiceRoll::new().init_player(), None);
    assert_eq!(DiceRoll::roll(6, 3).to_str(), "63");
    assert_eq!(DiceRoll::new().to_str(), "-");
}

#[test]
fn cube_values() {
    let c = Cube::center();
    assert_eq!(c.value(), 1);
    let d = c.double(Player::White);
    assert_eq!(d.position, Some(Player::Black));
    assert!(d.doubled);
    let t = d.take();
    assert_eq!(t.level, 1);
    assert_eq!(t.value(), 2);
    assert!(!t.doubled);
    let mut big = t;
    big.level = 10;
    assert_eq!(big.value(), 1024);
    assert!(big.reach_max());
}

#[test]
fn slot_access() {
    let mut ps = Pieces::new();
    assert_eq!(ps.get(6), Some((Player::White, 5)));
    assert_eq!(ps.get(1), Some((Player::Black, 2)));
    assert_eq!(ps.get(2), None);
    assert!(!ps.hittable(1, Player::White));
    ps.set(2, Player::Black, 1);
    assert!(ps.hittable(2, Player::White));
    assert!(ps.movable(6, 2, Player::White));
    assert!(!ps.movable(6, 1, Player::White));
    assert!(!ps.movable(7, 1, Player::White));
    assert_eq!(ps.backman(Player::White), 24);
    assert_eq!(Pieces::new().backman(Player::Black), 19);
    assert_eq!(Player::White.opponent(), Player::Black);
}
