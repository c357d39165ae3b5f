//! Dice, the doubling cube, match scoring and the result of a game.
use crate::pieces::{opp, Player};
use vstd::arithmetic::power2::{lemma_pow2_strictly_increases, pow2};
use vstd::prelude::*;

verus! {

/// Two die values.
#[derive(Debug, Clone, Copy, PartialEq, Eq, Structural)]
pub struct Dice(pub usize, pub usize);

/// The dice on the table, if rolled.
#[derive(Debug, Clone, Copy, PartialEq, Eq, Structural)]
pub struct DiceRoll(pub Option<Dice>);

pub open spec fn die_ok(x: usize) -> bool {
    1 <= x <= 6
}

pub open spec fn dice_ok(d: Dice) -> bool {
    die_ok(d.0) && die_ok(d.1)
}

/// The orders in which the dice are played: both orders of two different
/// values, four of the same value for doubles.
pub open spec fn dice_orders(d: Dice) -> Seq<Seq<usize>> {
    if d.0 == d.1 {
        seq![seq![d.0, d.0, d.0, d.0]]
    } else {
        seq![seq![d.0, d.1], seq![d.1, d.0]]
    }
}

/// The 21 distinct rolls, `(x, y)` with `x <= y`, in increasing order.
pub open spec fn all_rolls_listed(r: Seq<Dice>) -> bool {
    &&& r.len() == 21
    &&& forall|k: int| 0 <= k < r.len() ==> 1 <= (#[trigger] r[k]).0 <= r[k].1 <= 6
    &&& forall|a: int, b: int|
        0 <= a < b < r.len() ==> (#[trigger] r[a]).0 < (#[trigger] r[b]).0 || (r[a].0 == r[b].0
            && r[a].1 < r[b].1)
    &&& forall|x: usize, y: usize| 1 <= x <= y <= 6 ==> #[trigger] has_roll(r, x, y)
}

pub open spec fn has_roll(r: Seq<Dice>, x: usize, y: usize) -> bool {
    exists|k: int| 0 <= k < r.len() && r[k] == Dice(x, y)
}

impl Dice {
    /// The chances of this roll out of 36: 1 for doubles, 2 otherwise.
    pub fn weight(&self) -> (r: usize)
        ensures
            r == (if self.0 == self.1 {
                1usize
            } else {
                2usize
            }),
    {
        if self.0 == self.1 {
            1
        } else {
            2
        }
    }
}

impl DiceRoll {
    pub fn new() -> (r: DiceRoll)
        ensures
            r.0 is None,
    {
        DiceRoll(None)
    }

    pub fn roll(x: usize, y: usize) -> (r: DiceRoll)
        ensures
            r.0 == Some(Dice(x, y)),
    {
        DiceRoll(Some(Dice(x, y)))
    }

    /// Who starts after the opening roll: White on a higher first die,
    /// else Black.
    pub fn init_player(&self) -> (r: Option<Player>)
        ensures
            r == first_player(self.0),
    {
        match self.0 {
            None => None,
            Some(Dice(a, b)) => {
                if a > b {
                    Some(Player::White)
                } else {
                    Some(Player::Black)
                }
            },
        }
    }

    /// The orders in which the dice are played.
    pub fn moves(&self) -> (r: Vec<Vec<usize>>)
        requires
            self.0 is Some,
        ensures
            r@.len() == dice_orders(self.0->0).len(),
            forall|k: int| 0 <= k < r@.len() ==> (#[trigger] r@[k])@ == dice_orders(self.0->0)[k],
    {
        let Dice(x, y) = self.0.unwrap();
        let mut r: Vec<Vec<usize>> = Vec::new();
        if x == y {
            r.push(vec![x, x, x, x]);
        } else {
            r.push(vec![x, y]);
            r.push(vec![y, x]);
        }
        proof {
            if x == y {
                assert(r@[0]@ =~= seq![x, x, x, x]);
            } else {
                assert(r@[0]@ =~= seq![x, y]);
                assert(r@[1]@ =~= seq![y, x]);
            }
        }
        r
    }

    /// The 21 distinct rolls.
    pub fn all() -> (r: Vec<Dice>)
        ensures
            all_rolls_listed(r@),
    {
        let mut v: Vec<Dice> = Vec::new();
        let mut x: usize = 1;
        while x <= 6
            invariant
                1 <= x <= 7,
                v@.len() == (x - 1) * (14 - x) / 2,
                forall|k: int| 0 <= k < v@.len() ==> 1 <= (#[trigger] v@[k]).0 < x && v@[k].0 <= v@[k].1 <= 6,
                forall|a: int, b: int|
                    0 <= a < b < v@.len() ==> (#[trigger] v@[a]).0 < (#[trigger] v@[b]).0 || (v@[a].0
                        == v@[b].0 && v@[a].1 < v@[b].1),
                forall|i: usize, j: usize| 1 <= i < x && i <= j <= 6 ==> #[trigger] has_roll(v@, i, j),
            decreases 7 - x,
        {
            let mut y: usize = x;
            let ghost base = v@.len();
            while y <= 6
                invariant
                    1 <= x <= 6,
                    x <= y <= 7,
                    base == (x - 1) * (14 - x) / 2,
                    v@.len() == base + (y - x),
                    forall|k: int| 0 <= k < base ==> (#[trigger] v@[k]).0 < x,
                    forall|k: int|
                        base <= k < v@.len() ==> (#[trigger] v@[k]).0 == x && v@[k].1 == x + (k - base),
                    forall|k: int| 0 <= k < v@.len() ==> 1 <= (#[trigger] v@[k]).0 <= x && v@[k].0 <= v@[k].1 <= 6,
                    forall|a: int, b: int|
                        0 <= a < b < v@.len() ==> (#[trigger] v@[a]).0 < (#[trigger] v@[b]).0 || (v@[a].0
                            == v@[b].0 && v@[a].1 < v@[b].1),
                    forall|i: usize, j: usize| 1 <= i < x && i <= j <= 6 ==> #[trigger] has_roll(v@, i, j),
                decreases 7 - y,
            {
                let ghost before = v@;
                v.push(Dice(x, y));
                proof {
                    assert forall|i: usize, j: usize| 1 <= i < x && i <= j <= 6 implies #[trigger] has_roll(v@, i, j) by {
                        assert(has_roll(before, i, j));
                        let k = choose|k: int| 0 <= k < before.len() && before[k] == Dice(i, j);
                        assert(v@[k] == before[k]);
                    }
                }
                y = y + 1;
            }
            proof {
                assert forall|i: usize, j: usize| 1 <= i < x + 1 && i <= j <= 6 implies #[trigger] has_roll(v@, i, j) by {
                    if i == x {
                        let k = base + (j - x);
                        assert(v@[k] == Dice(i, j));
                    }
                }
                assert((x - 1) * (14 - x) / 2 + (7 - x) == x * (13 - x) / 2) by (nonlinear_arith)
                    requires
                        1 <= x <= 6,
                ;
            }
            x = x + 1;
        }
        assert(x == 7);
        assert(v@.len() == 21);
        v
    }
}

/// Who starts after the opening roll.
pub open spec fn first_player(d: Option<Dice>) -> Option<Player> {
    match d {
        None => None,
        Some(d) => if d.0 > d.1 {
            Some(Player::White)
        } else {
            Some(Player::Black)
        },
    }
}

/// The doubling cube: its owner (the side that may double next), its level
/// (the value is two to that power), whether it has just been offered, and
/// the highest level allowed.
#[derive(Debug, Clone, Copy, PartialEq, Eq, Structural)]
pub struct Cube {
    pub position: Option<Player>,
    pub level: usize,
    pub doubled: bool,
    pub max_level: usize,
}

impl Cube {
    pub const DEFAULT_MAX_LEVEL: usize = 10;

    /// The highest maximum level: three times the cube's value must fit a
    /// machine word on every target.
    pub const LEVEL_LIMIT: usize = 30;

    pub open spec fn wf(&self) -> bool {
        &&& self.level <= self.max_level <= Cube::LEVEL_LIMIT
        &&& self.doubled ==> self.level < self.max_level
    }

    pub open spec fn center_spec() -> Cube {
        Cube { position: None, level: 0, doubled: false, max_level: Cube::DEFAULT_MAX_LEVEL }
    }

    /// The cube in the middle at level 0.
    pub fn center() -> (r: Cube)
        ensures
            r == (Cube {
                position: None,
                level: 0,
                doubled: false,
                max_level: Cube::DEFAULT_MAX_LEVEL,
            }),
            r.wf(),
    {
        Cube { position: None, level: 0, doubled: false, max_level: Cube::DEFAULT_MAX_LEVEL }
    }

    /// `p` offers the cube: the opponent now holds the decision.
    pub fn double(&self, p: Player) -> (r: Cube)
        ensures
            r == (Cube { position: Some(opp(p)), doubled: true, ..*self }),
    {
        Cube { position: Some(p.opponent()), level: self.level, doubled: true, max_level: self.max_level }
    }

    pub fn reach_max(self) -> (r: bool)
        ensures
            r == (self.level >= self.max_level),
    {
        self.level >= self.max_level
    }

    /// The offer is taken: the level goes up by one.
    pub fn take(&self) -> (r: Cube)
        requires
            self.level < usize::MAX,
        ensures
            r == (Cube { doubled: false, level: (self.level + 1) as usize, ..*self }),
    {
        let mut cube = *self;
        cube.doubled = false;
        cube.level = cube.level + 1;
        cube
    }

    /// Two to the power of the level.
    pub fn value(&self) -> (r: usize)
        requires
            self.level <= Cube::LEVEL_LIMIT,
        ensures
            r as nat == pow2(self.level as nat),
            r <= 0x40000000,
    {
        let mut v: usize = 1;
        let mut i: usize = 0;
        proof {
            vstd::arithmetic::power2::lemma2_to64();
        }
        while i < self.level
            invariant
                i <= self.level <= 30,
                v as nat == pow2(i as nat),
                pow2(30) == 0x40000000,
            decreases self.level - i,
        {
            proof {
                lemma_pow2_strictly_increases(i as nat, 30);
                vstd::arithmetic::power2::lemma_pow2_unfold((i + 1) as nat);
            }
            v = v * 2;
            i = i + 1;
        }
        proof {
            if i < 30 {
                lemma_pow2_strictly_increases(i as nat, 30);
            }
        }
        v
    }
}

/// The score, the number of points to win, and whether this game is the
/// Crawford game.
#[derive(Debug, Clone, Copy, PartialEq, Eq)]
pub struct Match {
    pub score: (usize, usize),
    pub length: usize,
    pub crawford: bool,
}

/// The match after `player` wins `score` points: scores stop at the
/// length, and the Crawford game is the one game after either side first
/// reaches one point short of it.
pub open spec fn scored(m: Match, player: Player, score: nat) -> Match {
    let not_reached = m.score.0 < m.length - 1 && m.score.1 < m.length - 1;
    let w: int = if player == Player::White {
        m.score.0 + score
    } else {
        m.score.0 as int
    };
    let b: int = if player == Player::Black {
        m.score.1 + score
    } else {
        m.score.1 as int
    };
    let w: int = if w >= m.length {
        m.length as int
    } else {
        w
    };
    let b: int = if b >= m.length {
        m.length as int
    } else {
        b
    };
    Match {
        score: (w as usize, b as usize),
        length: m.length,
        crawford: if m.crawford {
            false
        } else {
            not_reached && (w == m.length - 1 || b == m.length - 1)
        },
    }
}

pub open spec fn winner_of(m: Match) -> Option<Player> {
    if m.score.0 >= m.length {
        Some(Player::White)
    } else if m.score.1 >= m.length {
        Some(Player::Black)
    } else {
        None
    }
}

impl Match {
    pub open spec fn wf(&self) -> bool {
        &&& 1 <= self.length
        &&& self.score.0 <= self.length
        &&& self.score.1 <= self.length
    }

    /// A one-point match.
    pub fn single() -> (r: Match)
        ensures
            r == (Match { score: (0, 0), length: 1, crawford: false }),
            r.wf(),
    {
        Match { score: (0, 0), length: 1, crawford: false }
    }

    /// A match to `length` points.
    pub fn with_length(length: usize) -> (r: Match)
        requires
            length >= 1,
        ensures
            r == (Match { score: (0, 0), length, crawford: false }),
            r.wf(),
    {
        Match { score: (0, 0), length, crawford: false }
    }

    /// Credits `player` with `score` points.
    pub fn add_score(&mut self, player: Player, score: usize)
        requires
            old(self).wf(),
        ensures
            *final(self) == scored(*old(self), player, score as nat),
            final(self).wf(),
    {
        let not_reached = self.score.0 < self.length - 1 && self.score.1 < self.length - 1;
        if player == Player::White {
            if score >= self.length - self.score.0 {
                self.score.0 = self.length;
            } else {
                self.score.0 = self.score.0 + score;
            }
        } else {
            if score >= self.length - self.score.1 {
                self.score.1 = self.length;
            } else {
                self.score.1 = self.score.1 + score;
            }
        }
        if self.crawford {
            self.crawford = false;
        } else if not_reached && (self.score.0 == self.length - 1 || self.score.1 == self.length - 1) {
            self.crawford = true;
        }
    }

    /// The side that has won the match, if any.
    pub fn winner(&self) -> (r: Option<Player>)
        ensures
            r == winner_of(*self),
    {
        if self.score.0 >= self.length {
            Some(Player::White)
        } else if self.score.1 >= self.length {
            Some(Player::Black)
        } else {
            None
        }
    }
}

/// The winner of a game and the points won.
#[derive(Debug, Clone, Copy, PartialEq, Eq, Structural)]
pub struct Result {
    pub player: Player,
    pub score: usize,
}

} // verus!
