//! The match equity table: White's chance of winning the match from a
//! score, in hundredths, where the equity search stops.
use crate::game::{scored, winner_of, Match};
use crate::pieces::Player;
use vstd::prelude::*;

verus! {

/// White's chances when White needs one point and Black needs `k + 1`,
/// outside the Crawford game.
pub open spec fn one_away() -> Seq<int> {
    seq![50, 51, 68, 69, 81]
}

/// White's chances when White needs `a + 1` points and Black `b + 1`.
pub open spec fn met_table() -> Seq<Seq<int>> {
    seq![
        seq![50, 68, 75, 81, 84],
        seq![32, 50, 57, 63, 66],
        seq![25, 43, 50, 56, 59],
        seq![19, 37, 44, 50, 53],
        seq![16, 34, 41, 47, 50],
    ]
}

/// White's equity in hundredths: +100 once White has won the match, -100
/// once Black has, else White's chance of winning from the score.
pub open spec fn match_equity(m: Match) -> int {
    match winner_of(m) {
        Some(Player::White) => 100,
        Some(Player::Black) => -100,
        None => {
            let aw = m.length - m.score.0;
            let ab = m.length - m.score.1;
            if aw == 1 && !m.crawford {
                one_away()[ab - 1]
            } else if ab == 1 && !m.crawford {
                100 - one_away()[aw - 1]
            } else {
                met_table()[aw - 1][ab - 1]
            }
        },
    }
}

/// White's equity in hundredths at the match score `game`. Matches longer
/// than five points are only supported once decided.
pub fn fetch_match_equities(game: &Match) -> (r: i64)
    requires
        game.wf(),
        winner_of(*game) is Some || game.length <= 5,
    ensures
        r == match_equity(*game),
{
    match game.winner() {
        Some(Player::White) => 100,
        Some(Player::Black) => -100,
        None => {
            let pc: [i64; 5] = [50, 51, 68, 69, 81];
            let table: [[i64; 5]; 5] = [
                [50, 68, 75, 81, 84],
                [32, 50, 57, 63, 66],
                [25, 43, 50, 56, 59],
                [19, 37, 44, 50, 53],
                [16, 34, 41, 47, 50],
            ];
            assert(pc@.map_values(|x: i64| x as int) =~= one_away());
            let aw = game.length - game.score.0;
            let ab = game.length - game.score.1;
            if aw == 1 && !game.crawford {
                return pc[ab - 1];
            }
            if ab == 1 && !game.crawford {
                return 100 - pc[aw - 1];
            }
            let row = table[aw - 1];
            assert(row@.map_values(|x: i64| x as int) =~= met_table()[aw - 1]);
            row[ab - 1]
        },
    }
}

/// In a one-point match, the game that decides it leaves the winner with
/// the whole match: equity exactly +1 for White, -1 for Black.
pub proof fn lemma_single_point_decided(m: Match, p: Player, score: nat)
    requires
        m.wf(),
        m.length == 1,
        winner_of(m) is None,
        score >= 1,
    ensures
        match_equity(scored(m, p, score)) == if p == Player::White {
            100int
        } else {
            -100int
        },
{
}

} // verus!
