//! The game and match controller: a state machine over the actions of a
//! backgammon game (rolling, doubling, moving) and the match score.
use crate::game::{
    all_rolls_listed, dice_ok, dice_orders, first_player, scored, winner_of, Cube, Dice, DiceRoll,
    Match, Result,
};
use crate::moves::{
    choice_list, keep, lemma_choice_list_unique, lemma_listed_push, listed, max_len, max_single,
    must_play, same_steps, views, Move, Step,
};
use crate::pieces::{
    checkers, finish_class, generated, lemma_mirror_wf, lemma_seen_by_wf, lemma_step_wf,
    movable_at, opp, pos_wf, seen_by, start_board, step_board, Pieces, Player,
};
use vstd::arithmetic::power2::pow2;
use vstd::prelude::*;

verus! {

/// Where a game stands; derived from the board's fields.
#[derive(Debug, Clone, Copy, PartialEq, Eq, Structural)]
pub enum State {
    Init,
    ToDouble,
    ToRoll,
    Doubled,
    ToMove,
    End,
    MatchEnd,
}

/// What a player (or chance) does next.
#[derive(Debug, Clone)]
pub enum Action {
    InitRoll(Dice),
    Roll(Dice),
    Move(Move),
    NoDouble,
    Double,
    Pass,
    Take,
    Reset,
    /// A placeholder for search; never applied.
    NoAction,
}

/// A game in a match: the checkers, the dice, the cube, whether the player
/// to act must roll next, the player to act, the match and the game's
/// result once decided.
#[derive(Debug, Clone)]
pub struct Board {
    pub pieces: Pieces,
    pub dice: DiceRoll,
    pub cube: Cube,
    pub to_roll: bool,
    pub player: Option<Player>,
    pub game: Match,
    pub result: Option<Result>,
}

/// The board after the steps `m` are played one after another.
pub open spec fn apply_all(s: Seq<int>, m: Seq<Step>, p: Player) -> Seq<int>
    decreases m.len(),
{
    if m.len() == 0 {
        s
    } else {
        apply_all(step_board(s, m[0].0 as int, m[0].1 as int, p), m.drop_first(), p)
    }
}

/// Each step of `m` can be played in turn on `s`.
pub open spec fn applicable(s: Seq<int>, m: Seq<Step>, p: Player) -> bool
    decreases m.len(),
{
    if m.len() == 0 {
        true
    } else {
        &&& 1 <= m[0].0 <= 25
        &&& m[0].1 <= 24
        &&& m[0].0 != m[0].1
        &&& movable_at(s, m[0].0 as int, m[0].1 as int, p)
        &&& applicable(step_board(s, m[0].0 as int, m[0].1 as int, p), m.drop_first(), p)
    }
}

/// The result once the board `s` (seen by White) shows a finished game:
/// the finishing side wins its finish class times the cube's value.
pub open spec fn end_result(s: Seq<int>, cube: Cube) -> Option<Result> {
    let w = finish_class(s, Player::White);
    let k = finish_class(s, Player::Black);
    if w > 0 {
        Some(Result { player: Player::White, score: (w * pow2(cube.level as nat)) as usize })
    } else if k > 0 {
        Some(Result { player: Player::Black, score: (k * pow2(cube.level as nat)) as usize })
    } else {
        None
    }
}

/// The moves the player to act may consider with the dice on the table,
/// in any order of the dice.
pub open spec fn playable(b: Board) -> spec_fn(Seq<Step>) -> bool {
    let p = b.player->0;
    let d = b.dice.0->0;
    |m: Seq<Step>|
        exists|k: int|
            0 <= k < dice_orders(d).len() && generated(
                seen_by(b.pieces@, p),
                #[trigger] dice_orders(d)[k],
                p,
                m,
            )
}

/// `out` is the list of moves to choose from: one per notation among the
/// playable moves, pruned to those that play the most dice.
pub open spec fn move_choices(b: Board, out: Seq<Seq<Step>>) -> bool {
    exists|u: Seq<Seq<Step>>| choice_list(playable(b), u) && out == must_play(u)
}

impl Board {
    pub open spec fn wf(&self) -> bool {
        &&& pos_wf(self.pieces@, Player::White)
        &&& (self.dice.0 matches Some(d) ==> dice_ok(d))
        &&& (self.dice.0 is Some ==> self.player is Some)
        &&& (self.cube.doubled && self.result is None ==> self.player is Some && self.dice.0 is None)
        &&& self.cube.wf()
        &&& self.game.wf()
    }

    pub open spec fn spec_state(&self) -> State {
        if winner_of(self.game) is Some {
            State::MatchEnd
        } else if self.result is Some {
            State::End
        } else if self.dice.0 is Some {
            State::ToMove
        } else if self.cube.doubled {
            State::Doubled
        } else if self.to_roll {
            State::ToRoll
        } else if self.player is Some {
            State::ToDouble
        } else {
            State::Init
        }
    }

    /// The player to act may offer the cube: not in the Crawford game, the
    /// cube below its maximum, and not owned by the opponent.
    pub open spec fn doubling_allowed(&self) -> bool {
        &&& !self.game.crawford
        &&& self.cube.level < self.cube.max_level
        &&& (self.cube.position is None || self.cube.position == self.player)
    }

    /// `a` may be applied to this board.
    pub open spec fn allowed(&self, a: Action) -> bool {
        match a {
            Action::InitRoll(d) => dice_ok(d) && (self.spec_state() == State::Init || (
            self.spec_state() == State::ToRoll && self.player is None)),
            Action::Roll(d) => dice_ok(d) && self.spec_state() == State::ToRoll && self.player is Some,
            Action::Move(m) => self.spec_state() == State::ToMove && applicable(
                seen_by(self.pieces@, self.player->0),
                m@,
                self.player->0,
            ),
            Action::NoDouble => self.spec_state() == State::ToDouble,
            Action::Double => self.spec_state() == State::ToDouble && self.doubling_allowed(),
            Action::Pass => self.spec_state() == State::Doubled,
            Action::Take => self.spec_state() == State::Doubled,
            Action::Reset => self.spec_state() == State::End,
            Action::NoAction => false,
        }
    }
}

/// `n` is the board `b` after the action `a`.
pub open spec fn board_after(b: Board, a: Action, n: Board) -> bool {
    let p = b.player->0;
    match a {
        Action::InitRoll(d) => {
            &&& n.pieces@ == b.pieces@
            &&& n.dice == DiceRoll(Some(d))
            &&& n.player == first_player(Some(d))
            &&& n.cube == b.cube
            &&& n.to_roll == b.to_roll
            &&& n.game == b.game
            &&& n.result == b.result
        },
        Action::Roll(d) => {
            &&& n.pieces@ == b.pieces@
            &&& n.dice == DiceRoll(Some(d))
            &&& n.player == b.player
            &&& n.cube == b.cube
            &&& n.to_roll == false
            &&& n.game == b.game
            &&& n.result == b.result
        },
        Action::Move(m) => {
            let s = seen_by(apply_all(seen_by(b.pieces@, p), m@, p), p);
            let r = end_result(s, b.cube);
            &&& n.pieces@ == s
            &&& n.dice == DiceRoll(None)
            &&& n.cube == b.cube
            &&& n.to_roll == b.to_roll
            &&& n.result == (if r is Some {
                r
            } else {
                b.result
            })
            &&& n.player == (if r is Some {
                None
            } else {
                Some(opp(p))
            })
            &&& n.game == (if r is Some {
                scored(b.game, r->0.player, r->0.score as nat)
            } else {
                b.game
            })
        },
        Action::NoDouble => {
            &&& n.pieces@ == b.pieces@
            &&& n.dice == b.dice
            &&& n.player == b.player
            &&& n.cube == b.cube
            &&& n.to_roll == true
            &&& n.game == b.game
            &&& n.result == b.result
        },
        Action::Double => {
            &&& n.pieces@ == b.pieces@
            &&& n.dice == b.dice
            &&& n.player == Some(opp(p))
            &&& n.cube == (Cube { position: Some(opp(p)), doubled: true, ..b.cube })
            &&& n.to_roll == b.to_roll
            &&& n.game == b.game
            &&& n.result == b.result
        },
        Action::Pass => {
            let r = Result { player: opp(p), score: pow2(b.cube.level as nat) as usize };
            &&& n.pieces@ == b.pieces@
            &&& n.dice == b.dice
            &&& n.player == None::<Player>
            &&& n.cube == b.cube
            &&& n.to_roll == b.to_roll
            &&& n.game == scored(b.game, r.player, r.score as nat)
            &&& n.result == Some(r)
        },
        Action::Take => {
            &&& n.pieces@ == b.pieces@
            &&& n.dice == b.dice
            &&& n.player == Some(opp(p))
            &&& n.cube == (Cube { doubled: false, level: (b.cube.level + 1) as usize, ..b.cube })
            &&& n.to_roll == true
            &&& n.game == b.game
            &&& n.result == b.result
        },
        Action::Reset => {
            &&& n.pieces@ == start_board()
            &&& n.dice == DiceRoll(None)
            &&& n.player == None::<Player>
            &&& n.cube == (Cube {
                position: None,
                level: 0,
                doubled: false,
                max_level: b.cube.max_level,
            })
            &&& n.to_roll == false
            &&& n.game == b.game
            &&& n.result == None::<Result>
        },
        Action::NoAction => false,
    }
}

/// The actions listed for board `b`, state by state.
pub open spec fn actions_listed(b: Board, r: Seq<Action>) -> bool {
    match b.spec_state() {
        State::Init => {
            &&& forall|k: int| 0 <= k < r.len() ==> #[trigger] r[k] is InitRoll
            &&& all_rolls_listed(Seq::new(r.len(), |k: int| r[k]->InitRoll_0))
        },
        State::ToRoll => if b.player is Some {
            &&& forall|k: int| 0 <= k < r.len() ==> #[trigger] r[k] is Roll
            &&& all_rolls_listed(Seq::new(r.len(), |k: int| r[k]->Roll_0))
        } else {
            &&& forall|k: int| 0 <= k < r.len() ==> #[trigger] r[k] is InitRoll
            &&& all_rolls_listed(Seq::new(r.len(), |k: int| r[k]->InitRoll_0))
        },
        State::ToMove => {
            &&& forall|k: int| 0 <= k < r.len() ==> #[trigger] r[k] is Move
            &&& move_choices(b, Seq::new(r.len(), |k: int| (r[k]->Move_0)@))
        },
        State::ToDouble => if b.doubling_allowed() {
            r.len() == 2 && r[0] is Double && r[1] is NoDouble
        } else {
            r.len() == 1 && r[0] is NoDouble
        },
        State::Doubled => r.len() == 2 && r[0] is Pass && r[1] is Take,
        State::End => r.len() == 1 && r[0] is Reset,
        State::MatchEnd => r.len() == 0,
    }
}

/// Sequences generated on one board that play the same steps hit the same
/// blots, whatever the order of the dice.
pub proof fn lemma_generated_same_steps(
    s: Seq<int>,
    d1: Seq<usize>,
    d2: Seq<usize>,
    p: Player,
    m1: Seq<Step>,
    m2: Seq<Step>,
)
    requires
        generated(s, d1, p, m1),
        generated(s, d2, p, m2),
        same_steps(m1, m2),
    ensures
        m1 == m2,
    decreases m1.len(),
{
    if m1.len() == 0 {
        assert(m1 =~= m2);
    } else {
        assert(m1[0].0 == m2[0].0 && m1[0].1 == m2[0].1);
        assert(m1[0] == m2[0]);
        let next = step_board(s, m1[0].0 as int, m1[0].1 as int, p);
        assert forall|i: int| 0 <= i < m1.drop_first().len() implies (
        #[trigger] m1.drop_first()[i]).0 == m2.drop_first()[i].0 && m1.drop_first()[i].1
            == m2.drop_first()[i].1 by {
            assert(m1.drop_first()[i] == m1[i + 1]);
            assert(m2.drop_first()[i] == m2[i + 1]);
        }
        lemma_generated_same_steps(next, d1.drop_first(), d2.drop_first(), p, m1.drop_first(), m2.drop_first());
        assert(m1 =~= seq![m1[0]] + m1.drop_first());
        assert(m2 =~= seq![m2[0]] + m2.drop_first());
    }
}

/// The moves to choose from are determined by the board: the list that
/// `moves` returns is the only one that meets its contract.
pub proof fn lemma_move_choices_exact(b: Board, out1: Seq<Seq<Step>>, out2: Seq<Seq<Step>>)
    requires
        b.dice.0 is Some,
        move_choices(b, out1),
        move_choices(b, out2),
    ensures
        out1 == out2,
{
    let g = playable(b);
    let p = b.player->0;
    let d = b.dice.0->0;
    let s = seen_by(b.pieces@, p);
    let u1 = choose|u: Seq<Seq<Step>>| choice_list(g, u) && out1 == must_play(u);
    let u2 = choose|u: Seq<Seq<Step>>| choice_list(g, u) && out2 == must_play(u);
    assert forall|x: Seq<Step>, y: Seq<Step>| #[trigger] g(x) && #[trigger] g(y) && same_steps(x, y) implies x
        == y by {
        let t1 = choose|t: int| 0 <= t < dice_orders(d).len() && generated(s, #[trigger] dice_orders(d)[t], p, x);
        let t2 = choose|t: int| 0 <= t < dice_orders(d).len() && generated(s, #[trigger] dice_orders(d)[t], p, y);
        lemma_generated_same_steps(s, dice_orders(d)[t1], dice_orders(d)[t2], p, x, y);
    }
    lemma_choice_list_unique(g, u1, u2);
}

/// Every well-formed board, and so every board that `new`, `from_xgid` and
/// `act` produce, holds fifteen checkers of each side across the points, the
/// bars and the goals.
pub proof fn lemma_checkers_conserved(b: Board)
    requires
        b.wf(),
    ensures
        checkers(b.pieces@, Player::White) == 15,
        checkers(b.pieces@, Player::Black) == 15,
{
}

pub proof fn lemma_generated_forward(s: Seq<int>, dice: Seq<usize>, p: Player, m: Seq<Step>)
    requires
        generated(s, dice, p, m),
        m.len() > 0,
        dice.len() > 0,
        dice[0] >= 1,
    ensures
        m[0].1 < m[0].0,
{
}

/// The 21 rolls, as opening rolls or as ordinary rolls.
fn roll_actions(initial: bool) -> (r: Vec<Action>)
    ensures
        initial ==> forall|k: int| 0 <= k < r@.len() ==> #[trigger] r@[k] is InitRoll,
        initial ==> all_rolls_listed(Seq::new(r@.len(), |k: int| r@[k]->InitRoll_0)),
        !initial ==> forall|k: int| 0 <= k < r@.len() ==> #[trigger] r@[k] is Roll,
        !initial ==> all_rolls_listed(Seq::new(r@.len(), |k: int| r@[k]->Roll_0)),
{
    let rolls = DiceRoll::all();
    let mut r: Vec<Action> = Vec::new();
    let mut k: usize = 0;
    while k < rolls.len()
        invariant
            k <= rolls@.len(),
            r@.len() == k,
            forall|j: int|
                0 <= j < k ==> if initial {
                    #[trigger] r@[j] == Action::InitRoll(rolls@[j])
                } else {
                    r@[j] == Action::Roll(rolls@[j])
                },
        decreases rolls@.len() - k,
    {
        if initial {
            r.push(Action::InitRoll(rolls[k]));
        } else {
            r.push(Action::Roll(rolls[k]));
        }
        k = k + 1;
    }
    if initial {
        assert(Seq::new(r@.len(), |k: int| r@[k]->InitRoll_0) =~= rolls@);
    } else {
        assert(Seq::new(r@.len(), |k: int| r@[k]->Roll_0) =~= rolls@);
    }
    r
}

/// Every generated sequence can be played step by step.
pub proof fn lemma_generated_applicable(s: Seq<int>, dice: Seq<usize>, p: Player, m: Seq<Step>)
    requires
        pos_wf(s, p),
        generated(s, dice, p, m),
        forall|k: int| 0 <= k < dice.len() ==> 1 <= #[trigger] dice[k],
    ensures
        applicable(s, m, p),
    decreases dice.len(),
{
    if m.len() > 0 {
        let from = m[0].0 as int;
        let to = m[0].1 as int;
        lemma_step_wf(s, from, to, p);
        let rest = dice.drop_first();
        assert forall|k: int| 0 <= k < rest.len() implies 1 <= #[trigger] rest[k] by {
            assert(rest[k] == dice[k + 1]);
        }
        lemma_generated_applicable(step_board(s, from, to, p), rest, p, m.drop_first());
    }
}

/// The moves kept by the pruning are among those it was given.
pub proof fn lemma_keep_members(ms: Seq<Seq<Step>>, mx: nat, md: int, k: int)
    requires
        0 <= k < keep(ms, mx, md).len(),
    ensures
        exists|j: int| 0 <= j < ms.len() && #[trigger] ms[j] == keep(ms, mx, md)[k],
    decreases ms.len(),
{
    let r = keep(ms.drop_last(), mx, md);
    if k < r.len() {
        lemma_keep_members(ms.drop_last(), mx, md, k);
        let j = choose|j: int| 0 <= j < ms.drop_last().len() && #[trigger] ms.drop_last()[j] == r[k];
        assert(ms[j] == r[k]);
    } else {
        assert(ms[ms.len() - 1] == keep(ms, mx, md)[k]);
    }
}

/// Every move left to choose from can be played step by step.
pub proof fn lemma_choices_applicable(b: Board, u: Seq<Seq<Step>>, out: Seq<Seq<Step>>)
    requires
        b.wf(),
        b.dice.0 is Some,
        choice_list(playable(b), u),
        out == must_play(u),
    ensures
        forall|k: int|
            0 <= k < out.len() ==> applicable(seen_by(b.pieces@, b.player->0), #[trigger] out[k], b.player->0),
{
    let p = b.player->0;
    let d = b.dice.0->0;
    let s = seen_by(b.pieces@, p);
    lemma_seen_by_wf(b.pieces@, p);
    assert forall|k: int| 0 <= k < out.len() implies applicable(s, #[trigger] out[k], p) by {
        if u.len() > 0 && max_len(u) == 0 {
            assert(out[k] == Seq::<Step>::empty());
        } else if u.len() > 0 {
            lemma_keep_members(u, max_len(u), max_single(u), k);
            let j = choose|j: int|
                0 <= j < u.len() && #[trigger] u[j] == keep(u, max_len(u), max_single(u))[k];
            assert(playable(b)(u[j]));
            let t = choose|t: int|
                0 <= t < dice_orders(d).len() && generated(s, #[trigger] dice_orders(d)[t], p, u[j]);
            assert forall|i: int| 0 <= i < dice_orders(d)[t].len() implies 1 <= #[trigger] dice_orders(d)[t][i] by {}
            lemma_generated_applicable(s, dice_orders(d)[t], p, u[j]);
        }
    }
}

impl Board {
    /// A new one-point match at the starting position.
    pub fn new() -> (r: Board)
        ensures
            r.wf(),
            r.pieces@ == start_board(),
            r.dice.0 is None,
            r.cube == Cube::center_spec(),
            r.to_roll == false,
            r.player is None,
            r.result is None,
            r.game == (Match { score: (0, 0), length: 1, crawford: false }),
            r.spec_state() == State::Init,
    {
        Board {
            pieces: Pieces::new(),
            dice: DiceRoll::new(),
            cube: Cube::center(),
            to_roll: false,
            player: None,
            result: None,
            game: Match::single(),
        }
    }

    /// Applies an action that the board allows.
    pub fn act(&mut self, act: &Action)
        requires
            old(self).wf(),
            old(self).allowed(*act),
        ensures
            board_after(*old(self), *act, *final(self)),
            final(self).wf(),
    {
        match act {
            Action::InitRoll(d) => self.init_roll(*d),
            Action::Roll(d) => self.roll(*d),
            Action::Move(m) => self.act_move(m),
            Action::NoDouble => self.no_double(),
            Action::Double => self.double(),
            Action::Pass => self.pass(),
            Action::Take => self.take(),
            Action::Reset => self.reset(),
            Action::NoAction => {
                assert(false);
            },
        }
    }

    /// The actions open in the current state: the 21 rolls to start a game
    /// or to roll, the moves to choose from, the cube decisions, or the
    /// start of the next game. The cube is never offered in the Crawford
    /// game, at its maximum level, or by the side that does not own it.
    pub fn actions(&self) -> (r: Vec<Action>)
        requires
            self.wf(),
        ensures
            actions_listed(*self, r@),
            forall|k: int| 0 <= k < r@.len() ==> self.allowed(#[trigger] r@[k]),
            forall|k: int|
                0 <= k < r@.len() && #[trigger] r@[k] is Double ==> {
                    &&& !self.game.crawford
                    &&& self.cube.level < self.cube.max_level
                    &&& (self.cube.position is None || self.cube.position == self.player)
                },
    {
        match self.state() {
            State::Init => {
                let r = roll_actions(true);
                proof {
                    assert forall|k: int| 0 <= k < r@.len() implies self.allowed(#[trigger] r@[k]) by {
                        assert(Seq::new(r@.len(), |k: int| r@[k]->InitRoll_0)[k] == r@[k]->InitRoll_0);
                    }
                }
                r
            },
            State::ToMove => {
                let ms = self.moves();
                let mut r: Vec<Action> = Vec::new();
                let mut k: usize = 0;
                while k < ms.len()
                    invariant
                        k <= ms@.len(),
                        r@.len() == k,
                        forall|j: int|
                            0 <= j < k ==> #[trigger] r@[j] is Move && (r@[j]->Move_0)@ == ms@[j]@,
                        forall|j: int|
                            0 <= j < ms@.len() ==> applicable(
                                seen_by(self.pieces@, self.player->0),
                                (#[trigger] ms@[j])@,
                                self.player->0,
                            ),
                    decreases ms@.len() - k,
                {
                    r.push(Action::Move(ms[k].copy()));
                    k = k + 1;
                }
                assert(Seq::new(r@.len(), |j: int| (r@[j]->Move_0)@) =~= views(ms@));
                r
            },
            State::ToDouble => {
                if self.can_double() {
                    vec![Action::Double, Action::NoDouble]
                } else {
                    vec![Action::NoDouble]
                }
            },
            State::ToRoll => {
                let r = roll_actions(self.player.is_none());
                proof {
                    assert forall|k: int| 0 <= k < r@.len() implies self.allowed(#[trigger] r@[k]) by {
                        if self.player is None {
                            assert(Seq::new(r@.len(), |k: int| r@[k]->InitRoll_0)[k] == r@[k]->InitRoll_0);
                        } else {
                            assert(Seq::new(r@.len(), |k: int| r@[k]->Roll_0)[k] == r@[k]->Roll_0);
                        }
                    }
                }
                r
            },
            State::Doubled => vec![Action::Pass, Action::Take],
            State::End => vec![Action::Reset],
            State::MatchEnd => Vec::new(),
        }
    }

    /// Where the game stands.
    pub fn state(&self) -> (r: State)
        ensures
            r == self.spec_state(),
    {
        if self.game.winner().is_some() {
            return State::MatchEnd;
        }
        if self.result.is_some() {
            return State::End;
        }
        if self.dice.0.is_some() {
            return State::ToMove;
        }
        if self.cube.doubled {
            return State::Doubled;
        }
        if self.to_roll {
            return State::ToRoll;
        }
        if self.player.is_some() {
            return State::ToDouble;
        }
        State::Init
    }

    /// The player to act may offer the cube.
    pub fn can_double(&self) -> (r: bool)
        ensures
            r == self.doubling_allowed(),
    {
        !self.game.crawford && !self.cube.reach_max() && (self.cube.position.is_none()
            || self.cube.position == self.player)
    }

    /// The opening roll: it is on the table and decides who plays first.
    pub fn init_roll(&mut self, dice: Dice)
        requires
            old(self).wf(),
            old(self).allowed(Action::InitRoll(dice)),
        ensures
            board_after(*old(self), Action::InitRoll(dice), *final(self)),
            final(self).wf(),
    {
        self.dice = DiceRoll(Some(dice));
        self.player = self.dice.init_player();
    }

    fn roll(&mut self, dice: Dice)
        requires
            old(self).wf(),
            old(self).allowed(Action::Roll(dice)),
        ensures
            board_after(*old(self), Action::Roll(dice), *final(self)),
            final(self).wf(),
    {
        self.dice = DiceRoll(Some(dice));
        self.to_roll = false;
    }

    fn act_move(&mut self, mov: &Move)
        requires
            old(self).wf(),
            old(self).allowed(Action::Move(*mov)),
        ensures
            board_after(*old(self), Action::Move(*mov), *final(self)),
            final(self).wf(),
    {
        let p = self.player.unwrap();
        let ghost s0 = seen_by(self.pieces@, p);
        proof {
            lemma_seen_by_wf(self.pieces@, p);
        }
        let mut ps = self.pieces.reversed(p);
        let mut k: usize = 0;
        assert(mov@.subrange(0, mov@.len() as int) =~= mov@);
        while k < mov.0.len()
            invariant
                k <= mov@.len(),
                pos_wf(ps@, p),
                applicable(ps@, mov@.subrange(k as int, mov@.len() as int), p),
                apply_all(s0, mov@, p) == apply_all(ps@, mov@.subrange(k as int, mov@.len() as int), p),
            decreases mov@.len() - k,
        {
            let ghost rest = mov@.subrange(k as int, mov@.len() as int);
            assert(rest.drop_first() =~= mov@.subrange(k + 1, mov@.len() as int));
            let st = mov.0[k];
            ps.mov(st.0, st.1, p);
            k = k + 1;
        }
        assert(mov@.subrange(k as int, mov@.len() as int) =~= Seq::<Step>::empty());
        self.pieces = ps.reversed(p);
        proof {
            if p == Player::Black {
                lemma_mirror_wf(ps@, p);
            }
        }
        self.dice = DiceRoll(None);
        self.player = Some(p.opponent());
        self.check_end();
    }

    /// The moves the player to act may choose from with the dice on the
    /// table.
    pub fn moves(&self) -> (r: Vec<Move>)
        requires
            self.wf(),
            self.dice.0 is Some,
        ensures
            move_choices(*self, views(r@)),
            forall|k: int|
                0 <= k < r@.len() ==> applicable(
                    seen_by(self.pieces@, self.player->0),
                    (#[trigger] r@[k])@,
                    self.player->0,
                ),
    {
        let p = self.player.unwrap();
        let ghost d = self.dice.0->0;
        let orders = self.dice.moves();
        let mut all: Vec<Move> = Vec::new();
        let ghost g = playable(*self);
        let mut i: usize = 0;
        proof {
            lemma_seen_by_wf(self.pieces@, p);
        }
        while i < orders.len()
            invariant
                i <= orders@.len(),
                orders@.len() == dice_orders(d).len(),
                forall|k: int| 0 <= k < orders@.len() ==> (#[trigger] orders@[k])@ == dice_orders(d)[k],
                self.wf(),
                p == self.player->0,
                d == self.dice.0->0,
                dice_ok(d),
                pos_wf(seen_by(self.pieces@, p), p),
                forall|m: Seq<Step>| #[trigger]
                    listed(all@, m) <==> exists|k: int|
                        0 <= k < i && generated(
                            seen_by(self.pieces@, p),
                            #[trigger] dice_orders(d)[k],
                            p,
                            m,
                        ),
            decreases orders@.len() - i,
        {
            let ps = self.pieces.reversed(p);
            assert(orders@[i as int]@ == dice_orders(d)[i as int]);
            let part = ps.listup(orders[i].as_slice(), p);
            let ghost before = all@;
            let mut j: usize = 0;
            while j < part.len()
                invariant
                    j <= part@.len(),
                    forall|m: Seq<Step>| #[trigger]
                        listed(all@, m) <==> (listed(before, m) || exists|t: int|
                            0 <= t < j && #[trigger] part@[t]@ == m),
                decreases part@.len() - j,
            {
                let c = part[j].copy();
                proof {
                    assert forall|m: Seq<Step>| #[trigger]
                        listed(all@.push(c), m) <==> (listed(before, m) || exists|t: int|
                            0 <= t < j + 1 && #[trigger] part@[t]@ == m) by {
                        lemma_listed_push(all@, c, m);
                    }
                }
                all.push(c);
                j = j + 1;
            }
            proof {
                assert forall|m: Seq<Step>| #[trigger] listed(all@, m) <==> exists|k: int|
                    0 <= k < i + 1 && generated(
                        seen_by(self.pieces@, p),
                        #[trigger] dice_orders(d)[k],
                        p,
                        m,
                    ) by {
                    if generated(seen_by(self.pieces@, p), dice_orders(d)[i as int], p, m) {
                        assert(listed(part@, m));
                    }
                    if exists|t: int| 0 <= t < part@.len() && #[trigger] part@[t]@ == m {
                        assert(listed(part@, m));
                        assert(generated(seen_by(self.pieces@, p), dice_orders(d)[i as int], p, m));
                    }
                }
            }
            i = i + 1;
        }
        let u = Move::uniq_moves(all.as_slice());
        proof {
            assert forall|m: Seq<Step>| #[trigger] listed(all@, m) == g(m) by {}
            let g1 = |m: Seq<Step>| listed(all@, m);
            assert(g1 =~= g);
            assert forall|k: int|
                0 <= k < u@.len() && (#[trigger] u@[k])@.len() == 1 implies u@[k]@[0].0 >= u@[k]@[0].1 by {
                assert(views(u@)[k] == u@[k]@);
                let t = choose|t: int|
                    0 <= t < dice_orders(d).len() && generated(
                        seen_by(self.pieces@, p),
                        #[trigger] dice_orders(d)[t],
                        p,
                        u@[k]@,
                    );
                lemma_generated_forward(seen_by(self.pieces@, p), dice_orders(d)[t], p, u@[k]@);
            }
        }
        let r = Move::filter_moves(u.as_slice());
        proof {
            lemma_choices_applicable(*self, views(u@), views(r@));
            assert forall|k: int| 0 <= k < r@.len() implies applicable(
                seen_by(self.pieces@, p),
                (#[trigger] r@[k])@,
                p,
            ) by {
                assert(views(r@)[k] == r@[k]@);
            }
        }
        r
    }

    fn no_double(&mut self)
        requires
            old(self).wf(),
        ensures
            board_after(*old(self), Action::NoDouble, *final(self)),
            final(self).wf(),
    {
        self.to_roll = true;
    }

    fn double(&mut self)
        requires
            old(self).wf(),
            old(self).allowed(Action::Double),
        ensures
            board_after(*old(self), Action::Double, *final(self)),
            final(self).wf(),
    {
        let p = self.player.unwrap();
        self.cube = self.cube.double(p);
        self.player = Some(p.opponent());
    }

    fn pass(&mut self)
        requires
            old(self).wf(),
            old(self).allowed(Action::Pass),
        ensures
            board_after(*old(self), Action::Pass, *final(self)),
            final(self).wf(),
    {
        let p = self.player.unwrap();
        let v = self.cube.value();
        self.result = Some(Result { player: p.opponent(), score: v });
        self.game_end();
    }

    fn take(&mut self)
        requires
            old(self).wf(),
            old(self).allowed(Action::Take),
        ensures
            board_after(*old(self), Action::Take, *final(self)),
            final(self).wf(),
    {
        self.cube = self.cube.take();
        self.player = Some(self.player.unwrap().opponent());
        self.to_roll = true;
    }

    /// Starts the next game of the match from the starting position; the
    /// match score and the cube's maximum level carry over.
    fn reset(&mut self)
        requires
            old(self).wf(),
        ensures
            board_after(*old(self), Action::Reset, *final(self)),
            final(self).wf(),
    {
        let max_level = self.cube.max_level;
        self.pieces = Pieces::new();
        self.dice = DiceRoll::new();
        self.cube = Cube { position: None, level: 0, doubled: false, max_level };
        self.to_roll = false;
        self.player = None;
        self.result = None;
    }

    /// Records the result once a side has borne off all its checkers.
    fn check_end(&mut self)
        requires
            pos_wf(old(self).pieces@, Player::White),
            old(self).cube.wf(),
            old(self).game.wf(),
        ensures
            ({
                let r = end_result(old(self).pieces@, old(self).cube);
                &&& final(self).pieces == old(self).pieces
                &&& final(self).dice == old(self).dice
                &&& final(self).cube == old(self).cube
                &&& final(self).to_roll == old(self).to_roll
                &&& final(self).result == (if r is Some {
                    r
                } else {
                    old(self).result
                })
                &&& final(self).player == (if r is Some {
                    None
                } else {
                    old(self).player
                })
                &&& final(self).game == (if r is Some {
                    scored(old(self).game, r->0.player, r->0.score as nat)
                } else {
                    old(self).game
                })
                &&& final(self).game.wf()
            }),
    {
        let white = self.pieces.goal(Player::White);
        let black = self.pieces.goal(Player::Black);
        if white > 0 {
            let v = self.cube.value();
            assert(white * v <= 3 * 0x40000000) by (nonlinear_arith)
                requires
                    white <= 3,
                    v <= 0x40000000,
            ;
            self.result = Some(Result { player: Player::White, score: white * v });
            self.game_end();
        } else if black > 0 {
            let v = self.cube.value();
            assert(black * v <= 3 * 0x40000000) by (nonlinear_arith)
                requires
                    black <= 3,
                    v <= 0x40000000,
            ;
            self.result = Some(Result { player: Player::Black, score: black * v });
            self.game_end();
        }
    }

    /// Ends the game: nobody is to act and the result goes to the match.
    fn game_end(&mut self)
        requires
            old(self).result is Some,
            old(self).game.wf(),
        ensures
            final(self).pieces == old(self).pieces,
            final(self).dice == old(self).dice,
            final(self).cube == old(self).cube,
            final(self).to_roll == old(self).to_roll,
            final(self).result == old(self).result,
            final(self).player is None,
            final(self).game == scored(
                old(self).game,
                old(self).result->0.player,
                old(self).result->0.score as nat,
            ),
            final(self).game.wf(),
    {
        self.player = None;
        let result = self.result.unwrap();
        self.game.add_score(result.player, result.score);
    }
}

} // verus!
