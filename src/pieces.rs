//! Checker placement on the 28 slots of a board, seen from one side.
//!
//! Slot 0 is the mover's goal, slots 1 to 24 are the points (1 to 6 being
//! the mover's home board), slot 25 the mover's bar, slot 26 the
//! opponent's goal and slot 27 the opponent's bar. A positive count is
//! White's, a negative count Black's.
use crate::moves::{lemma_listed_push, listed, Move, Step};
use vstd::prelude::*;
use vstd::slice::slice_subrange;

verus! {

#[derive(Debug, Clone, Copy, PartialEq, Eq, Structural)]
pub enum Player {
    White,
    Black,
}

pub open spec fn opp(p: Player) -> Player {
    match p {
        Player::White => Player::Black,
        Player::Black => Player::White,
    }
}

impl Player {
    pub fn opponent(&self) -> (r: Player)
        ensures
            r == opp(*self),
    {
        match self {
            Player::White => Player::Black,
            Player::Black => Player::White,
        }
    }
}

/// The signed number of checkers on one slot.
#[derive(Debug, Clone, Copy, PartialEq, Eq, Structural)]
pub struct Piece(pub isize);

/// The 28 slots of a board.
#[derive(Debug, Clone, PartialEq, Eq)]
pub struct Pieces(pub Vec<Piece>);

/// How many checkers of `p` a signed slot count stands for.
pub open spec fn amount(v: int, p: Player) -> int {
    match p {
        Player::White => if v > 0 { v } else { 0 },
        Player::Black => if v < 0 { -v } else { 0 },
    }
}

pub open spec fn owns(v: int, p: Player) -> bool {
    amount(v, p) > 0
}

/// +1 for White, -1 for Black: the sign a count of `p` carries.
pub open spec fn sign(p: Player) -> int {
    match p {
        Player::White => 1,
        Player::Black => -1,
    }
}

/// The checkers of `p` on the slots `lo .. hi`.
pub open spec fn sum_range(s: Seq<int>, p: Player, lo: int, hi: int) -> int
    decreases hi - lo,
{
    if hi <= lo {
        0
    } else {
        sum_range(s, p, lo, hi - 1) + amount(s[hi - 1], p)
    }
}

/// All the checkers of `p` on a board.
pub open spec fn checkers(s: Seq<int>, p: Player) -> int {
    sum_range(s, p, 0, s.len() as int)
}

/// A well-formed board seen by `p`: 28 slots, fifteen checkers a side, the
/// mover's goal and bar hold none of the opponent's and the opponent's goal
/// and bar none of the mover's.
pub open spec fn pos_wf(s: Seq<int>, p: Player) -> bool {
    &&& s.len() == 28
    &&& checkers(s, Player::White) == 15
    &&& checkers(s, Player::Black) == 15
    &&& !owns(s[0], opp(p))
    &&& !owns(s[25], opp(p))
    &&& !owns(s[26], p)
    &&& !owns(s[27], p)
}

/// The board seen from the other side: points mirrored, goals and bars
/// swapped.
pub open spec fn mirror(s: Seq<int>) -> Seq<int> {
    Seq::new(
        28,
        |i: int|
            if i == 0 {
                s[26]
            } else if i == 25 {
                s[27]
            } else if i == 26 {
                s[0]
            } else if i == 27 {
                s[25]
            } else {
                s[25 - i]
            },
    )
}

/// The board as `p` sees it: unchanged for White, mirrored for Black.
pub open spec fn seen_by(s: Seq<int>, p: Player) -> Seq<int> {
    match p {
        Player::White => s,
        Player::Black => mirror(s),
    }
}

pub open spec fn slot_view(v: int) -> Option<(Player, usize)> {
    if v > 0 {
        Some((Player::White, v as usize))
    } else if v < 0 {
        Some((Player::Black, (-v) as usize))
    } else {
        None
    }
}

/// The slot `to` holds a single checker of `p`'s opponent.
pub open spec fn hittable_at(s: Seq<int>, to: int, p: Player) -> bool {
    owns(s[to], opp(p)) && amount(s[to], opp(p)) == 1
}

/// A checker of `p` on `from` may go to `to`: the target is empty, `p`'s own,
/// or a single opposing checker.
pub open spec fn movable_at(s: Seq<int>, from: int, to: int, p: Player) -> bool {
    owns(s[from], p) && (!owns(s[to], opp(p)) || amount(s[to], opp(p)) == 1)
}

/// The board after a blot of `p`'s opponent on `to`, if any, is sent to the
/// opponent's bar.
pub open spec fn after_hit(s: Seq<int>, to: int, p: Player) -> Seq<int> {
    if hittable_at(s, to, p) {
        s.update(to, 0).update(27, s[27] + sign(opp(p)))
    } else {
        s
    }
}

/// The board after one checker of `p` goes from `from` to `to`.
pub open spec fn step_board(s: Seq<int>, from: int, to: int, p: Player) -> Seq<int> {
    let h = after_hit(s, to, p);
    let m = h.update(from, h[from] - sign(p));
    m.update(to, m[to] + sign(p))
}

/// The highest slot at or below `k` that holds a checker of `p`, or -1.
pub open spec fn back_from(s: Seq<int>, p: Player, k: int) -> int
    decreases k + 1,
{
    if k < 0 {
        -1
    } else if owns(s[k], p) {
        k
    } else {
        back_from(s, p, k - 1)
    }
}

/// `p`'s rearmost checker, counting the bar (25) and the goal (0).
pub open spec fn backman_of(s: Seq<int>, p: Player) -> int {
    back_from(s, p, 25)
}

pub proof fn lemma_sum_split(s: Seq<int>, p: Player, lo: int, mid: int, hi: int)
    requires
        lo <= mid <= hi,
    ensures
        sum_range(s, p, lo, hi) == sum_range(s, p, lo, mid) + sum_range(s, p, mid, hi),
    decreases hi - mid,
{
    if hi > mid {
        lemma_sum_split(s, p, lo, mid, hi - 1);
    }
}

pub proof fn lemma_sum_nonneg(s: Seq<int>, p: Player, lo: int, hi: int)
    ensures
        sum_range(s, p, lo, hi) >= 0,
    decreases hi - lo,
{
    if hi > lo {
        lemma_sum_nonneg(s, p, lo, hi - 1);
    }
}

pub proof fn lemma_amount_le_sum(s: Seq<int>, p: Player, lo: int, hi: int, k: int)
    requires
        lo <= k < hi,
    ensures
        amount(s[k], p) <= sum_range(s, p, lo, hi),
{
    lemma_sum_split(s, p, lo, k, hi);
    lemma_sum_split(s, p, k, k + 1, hi);
    lemma_sum_nonneg(s, p, lo, k);
    lemma_sum_nonneg(s, p, k + 1, hi);
    assert(sum_range(s, p, k, k) == 0);
}

pub proof fn lemma_sum_update(s: Seq<int>, p: Player, lo: int, hi: int, k: int, v: int)
    requires
        0 <= lo,
        hi <= s.len(),
        0 <= k < s.len(),
    ensures
        sum_range(s.update(k, v), p, lo, hi) == if lo <= k < hi {
            sum_range(s, p, lo, hi) - amount(s[k], p) + amount(v, p)
        } else {
            sum_range(s, p, lo, hi)
        },
    decreases hi - lo,
{
    if hi > lo {
        lemma_sum_update(s, p, lo, hi - 1, k, v);
    }
}

/// Summing a stretch read backwards gives the same total.
pub proof fn lemma_sum_reversed(t: Seq<int>, s: Seq<int>, p: Player, a: int, b: int, c: int)
    requires
        a <= b,
        forall|i: int| a <= i < b ==> t[i] == s[c - i],
    ensures
        sum_range(t, p, a, b) == sum_range(s, p, c - b + 1, c - a + 1),
    decreases b - a,
{
    if b > a {
        lemma_sum_reversed(t, s, p, a, b - 1, c);
        lemma_sum_split(s, p, c - b + 1, c - b + 2, c - a + 1);
        assert(sum_range(s, p, c - b + 1, c - b + 1) == 0);
    }
}

pub proof fn lemma_sum_none(s: Seq<int>, p: Player, lo: int, hi: int)
    requires
        forall|i: int| lo <= i < hi ==> !owns(#[trigger] s[i], p),
    ensures
        sum_range(s, p, lo, hi) == 0,
    decreases hi - lo,
{
    if hi > lo {
        lemma_sum_none(s, p, lo, hi - 1);
    }
}

/// Mirroring keeps each side's count of checkers.
pub proof fn lemma_mirror_checkers(s: Seq<int>, p: Player)
    requires
        s.len() == 28,
    ensures
        checkers(mirror(s), p) == checkers(s, p),
{
    let t = mirror(s);
    lemma_sum_split(t, p, 0, 1, 28);
    lemma_sum_split(t, p, 1, 25, 28);
    lemma_sum_split(t, p, 25, 26, 28);
    lemma_sum_split(t, p, 26, 27, 28);
    lemma_sum_split(s, p, 0, 1, 28);
    lemma_sum_split(s, p, 1, 25, 28);
    lemma_sum_split(s, p, 25, 26, 28);
    lemma_sum_split(s, p, 26, 27, 28);
    lemma_sum_reversed(t, s, p, 1, 25, 25);
    assert forall|k: int| 0 <= k < 28 implies sum_range(t, p, k, k + 1) == amount(t[k], p)
        && sum_range(s, p, k, k + 1) == amount(s[k], p) by {
        assert(sum_range(t, p, k, k) == 0);
        assert(sum_range(s, p, k, k) == 0);
    }
    assert(sum_range(t, p, 0, 1) == amount(s[26], p));
    assert(sum_range(t, p, 25, 26) == amount(s[27], p));
    assert(sum_range(t, p, 26, 27) == amount(s[0], p));
    assert(sum_range(t, p, 27, 28) == amount(s[25], p));
}

/// Mirroring twice gives the board back.
pub proof fn lemma_mirror_involution(s: Seq<int>)
    requires
        s.len() == 28,
    ensures
        mirror(mirror(s)) == s,
{
    assert(mirror(mirror(s)) =~= s);
}

pub proof fn lemma_mirror_wf(s: Seq<int>, p: Player)
    requires
        pos_wf(s, p),
    ensures
        pos_wf(mirror(s), opp(p)),
{
    lemma_mirror_checkers(s, Player::White);
    lemma_mirror_checkers(s, Player::Black);
}

pub proof fn lemma_seen_by_wf(s: Seq<int>, p: Player)
    requires
        pos_wf(s, Player::White),
    ensures
        pos_wf(seen_by(s, p), p),
{
    if p == Player::Black {
        lemma_mirror_wf(s, Player::White);
    }
}

/// On a well-formed board every slot holds at most fifteen checkers.
pub proof fn lemma_wf_bounds(s: Seq<int>, p: Player)
    requires
        pos_wf(s, p),
    ensures
        forall|i: int| 0 <= i < 28 ==> -15 <= #[trigger] s[i] <= 15,
{
    assert forall|i: int| 0 <= i < 28 implies -15 <= #[trigger] s[i] <= 15 by {
        lemma_amount_le_sum(s, Player::White, 0, 28, i);
        lemma_amount_le_sum(s, Player::Black, 0, 28, i);
    }
}

pub proof fn lemma_back_from_none(s: Seq<int>, p: Player, k: int)
    requires
        back_from(s, p, k) < 0,
        k < s.len(),
    ensures
        forall|i: int| 0 <= i <= k ==> !owns(#[trigger] s[i], p),
    decreases k + 1,
{
    if k >= 0 {
        lemma_back_from_none(s, p, k - 1);
    }
}

/// On a well-formed board the mover always has a rearmost checker.
pub proof fn lemma_backman_exists(s: Seq<int>, p: Player)
    requires
        pos_wf(s, p),
    ensures
        backman_of(s, p) >= 0,
{
    if backman_of(s, p) < 0 {
        lemma_back_from_none(s, p, 25);
        lemma_sum_split(s, p, 0, 26, 28);
        lemma_sum_none(s, p, 0, 26);
        lemma_sum_none(s, p, 26, 28);
    }
}


/// One checker step keeps a board well-formed.
pub proof fn lemma_step_wf(s: Seq<int>, from: int, to: int, p: Player)
    requires
        pos_wf(s, p),
        1 <= from <= 25,
        0 <= to <= 24,
        from != to,
        movable_at(s, from, to, p),
    ensures
        pos_wf(step_board(s, from, to, p), p),
{
    let o = opp(p);
    let h = after_hit(s, to, p);
    if hittable_at(s, to, p) {
        let h1 = s.update(to, 0);
        lemma_sum_update(s, p, 0, 28, to, 0);
        lemma_sum_update(s, o, 0, 28, to, 0);
        lemma_sum_update(h1, p, 0, 28, 27, s[27] + sign(o));
        lemma_sum_update(h1, o, 0, 28, 27, s[27] + sign(o));
    }
    assert(checkers(h, p) == 15);
    assert(checkers(h, o) == 15);
    let m = h.update(from, h[from] - sign(p));
    lemma_sum_update(h, p, 0, 28, from, h[from] - sign(p));
    lemma_sum_update(h, o, 0, 28, from, h[from] - sign(p));
    lemma_sum_update(m, p, 0, 28, to, m[to] + sign(p));
    lemma_sum_update(m, o, 0, 28, to, m[to] + sign(p));
    let r = step_board(s, from, to, p);
    assert(checkers(r, p) == 15);
    assert(checkers(r, o) == 15);
}

/// The start of a game, seen by White.
pub open spec fn start_board() -> Seq<int> {
    seq![
        0int, -2, 0, 0, 0, 0, 5, 0, 3, 0, 0, 0, -5, 5, 0, 0, 0, -3, 0, -5, 0, 0, 0, 0, 2, 0, 0, 0,
    ]
}

/// How far a checker on `from` goes with die `d` when `p`'s rearmost checker
/// is on `b`: a die larger than needed bears off the rearmost checker.
pub open spec fn eff_die(from: int, b: int, d: int) -> int {
    if from == b && b <= 6 && from < d {
        b
    } else {
        d
    }
}

/// `st` is a step that `p` may play with die `d` on board `s`.
pub open spec fn legal_step(s: Seq<int>, d: int, p: Player, st: Step) -> bool {
    let from = st.0 as int;
    let to = st.1 as int;
    let b = backman_of(s, p);
    let e = eff_die(from, b, d);
    &&& 1 <= from <= 26
    &&& !(owns(s[25], p) && from != 25)
    &&& !(b > 6 && from == e)
    &&& from >= e
    &&& to == from - e
    &&& movable_at(s, from, to, p)
    &&& st.2 == hittable_at(s, to, p)
}

pub open spec fn can_step(s: Seq<int>, d: int, p: Player) -> bool {
    exists|st: Step| legal_step(s, d, p, st)
}

/// `m` is a maximal sequence of steps that `p` may play on `s` with the dice
/// used in the order `dice`: play stops when the dice are used up, when `p`
/// has no checker left off the goal, or when the next die cannot be played.
pub open spec fn generated(s: Seq<int>, dice: Seq<usize>, p: Player, m: Seq<Step>) -> bool
    decreases dice.len(),
{
    if dice.len() == 0 || backman_of(s, p) <= 0 || !can_step(s, dice[0] as int, p) {
        m.len() == 0
    } else {
        &&& m.len() > 0
        &&& legal_step(s, dice[0] as int, p, m[0])
        &&& generated(
            step_board(s, m[0].0 as int, m[0].1 as int, p),
            dice.drop_first(),
            p,
            m.drop_first(),
        )
    }
}

pub proof fn lemma_generated_exists(s: Seq<int>, dice: Seq<usize>, p: Player)
    ensures
        exists|m: Seq<Step>| generated(s, dice, p, m),
    decreases dice.len(),
{
    if dice.len() == 0 || backman_of(s, p) <= 0 || !can_step(s, dice[0] as int, p) {
        assert(generated(s, dice, p, Seq::<Step>::empty()));
    } else {
        let st = choose|st: Step| legal_step(s, dice[0] as int, p, st);
        let next = step_board(s, st.0 as int, st.1 as int, p);
        lemma_generated_exists(next, dice.drop_first(), p);
        let r = choose|r: Seq<Step>| generated(next, dice.drop_first(), p, r);
        let m = seq![st] + r;
        assert(m.drop_first() =~= r);
        assert(generated(s, dice, p, m));
    }
}

/// How `p` finished the game on board `s` (seen by White): 0 not yet,
/// 1 single, 2 gammon (the opponent bore off nothing), 3 backgammon (and
/// still has a checker in `p`'s home board or on the bar).
pub open spec fn finish_class(s: Seq<int>, p: Player) -> usize {
    let ps = seen_by(s, p);
    let os = mirror(ps);
    if backman_of(ps, p) > 0 {
        0
    } else if owns(os[0], opp(p)) {
        1
    } else if backman_of(os, opp(p)) < 19 {
        2
    } else {
        3
    }
}

impl View for Pieces {
    type V = Seq<int>;

    open spec fn view(&self) -> Seq<int> {
        self.0@.map_values(|x: Piece| x.0 as int)
    }
}

impl Pieces {
    pub const BOARD_SIZE: usize = 26;

    pub const INNER_BOARD: usize = 6;

    pub const BAR: usize = 25;

    pub const GOAL: usize = 0;

    pub const BLACK_GOAL: usize = 26;

    pub const BLACK_BAR: usize = 27;

    pub const MAX_PIECES: usize = 15;

    /// A board with no checkers at all.
    pub fn empty() -> (r: Pieces)
        ensures
            r@ == Seq::new(28, |i: int| 0int),
    {
        let mut v: Vec<Piece> = Vec::new();
        let mut i: usize = 0;
        while i < 28
            invariant
                i <= 28,
                v@.len() == i,
                forall|k: int| 0 <= k < i ==> v@[k].0 == 0,
            decreases 28 - i,
        {
            v.push(Piece(0));
            i = i + 1;
        }
        let r = Pieces(v);
        assert(r@ =~= Seq::new(28, |i: int| 0int));
        r
    }

    /// A copy with the same slots.
    pub fn copy(&self) -> (r: Pieces)
        ensures
            r@ == self@,
    {
        let mut v: Vec<Piece> = Vec::new();
        let mut i: usize = 0;
        while i < self.0.len()
            invariant
                i <= self.0@.len(),
                v@.len() == i,
                forall|k: int| 0 <= k < i ==> v@[k] == self.0@[k],
            decreases self.0@.len() - i,
        {
            v.push(self.0[i]);
            i = i + 1;
        }
        let r = Pieces(v);
        assert(r@ =~= self@);
        r
    }

    /// The board mirrored to the other side's point of view.
    pub fn reverse(&self) -> (r: Pieces)
        requires
            self@.len() == 28,
        ensures
            r@ == mirror(self@),
    {
        let mut v: Vec<Piece> = Vec::new();
        let mut i: usize = 0;
        while i < 28
            invariant
                i <= 28,
                self@.len() == 28,
                v@.len() == i,
                forall|k: int| 0 <= k < i ==> v@[k].0 as int == mirror(self@)[k],
            decreases 28 - i,
        {
            let x = if i == Pieces::GOAL {
                self.0[Pieces::BLACK_GOAL]
            } else if i == Pieces::BAR {
                self.0[Pieces::BLACK_BAR]
            } else if i == Pieces::BLACK_GOAL {
                self.0[Pieces::GOAL]
            } else if i == Pieces::BLACK_BAR {
                self.0[Pieces::BAR]
            } else {
                self.0[Pieces::BOARD_SIZE - i - 1]
            };
            v.push(x);
            i = i + 1;
        }
        let r = Pieces(v);
        assert(r@ =~= mirror(self@));
        r
    }

    /// The board as `p` sees it.
    pub fn reversed(&self, p: Player) -> (r: Pieces)
        requires
            self@.len() == 28,
        ensures
            r@ == seen_by(self@, p),
    {
        if p == Player::White {
            self.copy()
        } else {
            self.reverse()
        }
    }

    /// The owner and number of checkers on slot `i`, if any.
    pub fn get(&self, i: usize) -> (r: Option<(Player, usize)>)
        requires
            i < self@.len(),
            self@[i as int] > isize::MIN,
        ensures
            r == slot_view(self@[i as int]),
    {
        let v = self.0[i].0;
        if v > 0 {
            Some((Player::White, v as usize))
        } else if v < 0 {
            Some((Player::Black, (-v) as usize))
        } else {
            None
        }
    }

    /// Puts `c` checkers of `p` on slot `i`.
    pub fn set(&mut self, i: usize, p: Player, c: usize)
        requires
            i < old(self)@.len(),
            c <= isize::MAX,
        ensures
            final(self)@ == old(self)@.update(i as int, sign(p) * c),
    {
        let x = if c == 0 {
            Piece(0)
        } else if p == Player::White {
            Piece(c as isize)
        } else {
            Piece(-(c as isize))
        };
        self.0.set(i, x);
        assert(final(self)@ =~= old(self)@.update(i as int, sign(p) * c));
    }

    /// Adds `d` checkers of `p` to slot `i`.
    pub fn add(&mut self, i: usize, p: Player, d: isize)
        requires
            i < old(self)@.len(),
            isize::MIN <= old(self)@[i as int] + sign(p) * d <= isize::MAX,
        ensures
            final(self)@ == old(self)@.update(i as int, old(self)@[i as int] + sign(p) * d),
    {
        let v = self.0[i].0;
        let x = if p == Player::White {
            Piece(v + d)
        } else {
            Piece(v - d)
        };
        self.0.set(i, x);
        assert(final(self)@ =~= old(self)@.update(i as int, old(self)@[i as int] + sign(p) * d));
    }

    /// Slot `to` holds exactly one checker of `player`'s opponent.
    pub fn hittable(&self, to: usize, player: Player) -> (r: bool)
        requires
            to < self@.len(),
            self@[to as int] > isize::MIN,
        ensures
            r == hittable_at(self@, to as int, player),
    {
        match self.get(to) {
            Some((p, c)) => p != player && c == 1,
            None => false,
        }
    }

    /// Sends the single opposing checker on `to` to its bar.
    pub fn hit(&mut self, to: usize, p: Player)
        requires
            pos_wf(old(self)@, p),
            to < 27,
            hittable_at(old(self)@, to as int, p),
        ensures
            final(self)@ == after_hit(old(self)@, to as int, p),
    {
        proof {
            lemma_wf_bounds(self@, p);
        }
        self.set(to, p.opponent(), 0);
        self.add(Pieces::BLACK_BAR, p.opponent(), 1);
    }

    /// A checker of `player` on `from` may go to `to`.
    pub fn movable(&self, from: usize, to: usize, player: Player) -> (r: bool)
        requires
            from < self@.len(),
            to < self@.len(),
            self@[from as int] > isize::MIN,
            self@[to as int] > isize::MIN,
        ensures
            r == movable_at(self@, from as int, to as int, player),
    {
        if let Some((p, _)) = self.get(from) {
            if p != player {
                return false;
            }
            if let Some((o, d)) = self.get(to) {
                if o == player {
                    true
                } else {
                    d == 1
                }
            } else {
                true
            }
        } else {
            false
        }
    }

    /// Moves one checker of `player` from `from` to `to`, hitting a blot there.
    pub fn mov(&mut self, from: usize, to: usize, player: Player)
        requires
            pos_wf(old(self)@, player),
            1 <= from <= 25,
            to <= 24,
            from != to,
            movable_at(old(self)@, from as int, to as int, player),
        ensures
            final(self)@ == step_board(old(self)@, from as int, to as int, player),
            pos_wf(final(self)@, player),
    {
        proof {
            lemma_wf_bounds(self@, player);
            lemma_step_wf(self@, from as int, to as int, player);
        }
        let ghost s0 = self@;
        if self.hittable(to, player) {
            self.hit(to, player);
        }
        assert(self@ == after_hit(s0, to as int, player));
        proof {
            lemma_wf_bounds(s0, player);
        }
        self.add(from, player, -1);
        self.add(to, player, 1);
    }

    /// The start of a game.
    pub fn new() -> (r: Pieces)
        ensures
            r@ == start_board(),
            pos_wf(r@, Player::White),
    {
        let p: Vec<isize> = vec![
            0, -2, 0, 0, 0, 0, 5, 0, 3, 0, 0, 0, -5, 5, 0, 0, 0, -3, 0, -5, 0, 0, 0, 0, 2, 0, 0, 0,
        ];
        let mut v: Vec<Piece> = Vec::new();
        let mut i: usize = 0;
        while i < p.len()
            invariant
                i <= p@.len(),
                v@.len() == i,
                forall|k: int| 0 <= k < i ==> v@[k].0 == p@[k],
            decreases p@.len() - i,
        {
            v.push(Piece(p[i]));
            i = i + 1;
        }
        let r = Pieces(v);
        assert(r@ =~= start_board());
        proof {
            reveal_with_fuel(sum_range, 30);
        }
        assert(checkers(start_board(), Player::White) == 15);
        assert(checkers(start_board(), Player::Black) == 15);
        r
    }

    /// The highest slot from the bar down that holds a checker of `p`.
    pub fn backman(&self, p: Player) -> (r: usize)
        requires
            pos_wf(self@, p),
        ensures
            r as int == backman_of(self@, p),
    {
        proof {
            lemma_backman_exists(self@, p);
            lemma_wf_bounds(self@, p);
        }
        let mut i: usize = Pieces::BAR;
        loop
            invariant
                i <= 25,
                pos_wf(self@, p),
                back_from(self@, p, i as int) == backman_of(self@, p),
                backman_of(self@, p) >= 0,
                forall|k: int| 0 <= k < 28 ==> -15 <= #[trigger] self@[k] <= 15,
            decreases i,
        {
            if let Some((o, _)) = self.get(i) {
                if o == p {
                    return i;
                }
            }
            if i == 0 {
                assert(back_from(self@, p, -1) == -1);
                return 0;
            }
            i = i - 1;
        }
    }

    /// All maximal sequences of steps `p` may play with the dice in the
    /// order given, on this board as `p` sees it. The list may repeat a
    /// sequence; when the first die cannot be played it holds the empty
    /// sequence alone.
    pub fn listup(&self, dice: &[usize], p: Player) -> (r: Vec<Move>)
        requires
            pos_wf(self@, p),
            forall|k: int| 0 <= k < dice@.len() ==> 1 <= #[trigger] dice@[k] <= 6,
        ensures
            forall|m: Seq<Step>| #[trigger] listed(r@, m) <==> generated(self@, dice@, p, m),
        decreases dice@.len(),
    {
        let ghost s = self@;
        proof {
            lemma_wf_bounds(s, p);
        }
        let b = self.backman(p);
        if dice.len() == 0 || b == 0 {
            let mut r: Vec<Move> = Vec::new();
            r.push(Move::dance());
            proof {
                assert forall|m: Seq<Step>| #[trigger] listed(r@, m) <==> generated(s, dice@, p, m) by {
                    lemma_listed_push(Seq::<Move>::empty(), r@[0], m);
                    assert(r@ =~= Seq::<Move>::empty().push(r@[0]));
                    if m.len() == 0 {
                        assert(m =~= Seq::<Step>::empty());
                    }
                }
            }
            return r;
        }
        let d = dice[0];
        let rest = slice_subrange(dice, 1, dice.len());
        assert(rest@ =~= dice@.drop_first());
        let on_bar = match self.get(Pieces::BAR) {
            Some((o, _)) => o == p,
            None => false,
        };
        let mut out: Vec<Move> = Vec::new();
        let mut i: usize = 26;
        while i > 0
            invariant
                i <= 26,
                s == self@,
                pos_wf(s, p),
                forall|k: int| 0 <= k < 28 ==> -15 <= #[trigger] s[k] <= 15,
                b as int == backman_of(s, p),
                b > 0,
                1 <= d <= 6,
                d == dice@[0],
                dice@.len() > 0,
                rest@ == dice@.drop_first(),
                forall|k: int| 0 <= k < rest@.len() ==> 1 <= #[trigger] rest@[k] <= 6,
                on_bar == owns(s[25], p),
                forall|m: Seq<Step>| #[trigger]
                    listed(out@, m) <==> (m.len() > 0 && m[0].0 > i && legal_step(
                        s,
                        d as int,
                        p,
                        m[0],
                    ) && generated(
                        step_board(s, m[0].0 as int, m[0].1 as int, p),
                        rest@,
                        p,
                        m.drop_first(),
                    )),
            decreases i,
        {
            let e = if i == b && b <= Pieces::INNER_BOARD && i < d {
                b
            } else {
                d
            };
            assert(e as int == eff_die(i as int, b as int, d as int));
            if !(on_bar && i != Pieces::BAR) && !(b > Pieces::INNER_BOARD && i == e) && i >= e
                && self.movable(i, i - e, p) {
                let to = i - e;
                let hit = self.hittable(to, p);
                let step: Step = (i, to, hit);
                assert(legal_step(s, d as int, p, step));
                let mut np = self.copy();
                np.mov(i, to, p);
                let sub = np.listup(rest, p);
                let ghost next = np@;
                let ghost out0 = out@;
                let mut j: usize = 0;
                while j < sub.len()
                    invariant
                        j <= sub@.len(),
                        forall|m: Seq<Step>| #[trigger]
                            listed(sub@, m) <==> generated(next, rest@, p, m),
                        forall|m: Seq<Step>| #[trigger]
                            listed(out@, m) <==> (listed(out0, m) || (m.len() > 0 && m[0]
                                == step && exists|k: int|
                                0 <= k < j && #[trigger] sub@[k]@ == m.drop_first())),
                    decreases sub@.len() - j,
                {
                    let mv = Move::prepend(step, &sub[j]);
                    proof {
                        assert forall|m: Seq<Step>| #[trigger]
                            listed(out@.push(mv), m) <==> (listed(out0, m) || (m.len() > 0
                                && m[0] == step && exists|k: int|
                                0 <= k < j + 1 && #[trigger] sub@[k]@ == m.drop_first())) by {
                            lemma_listed_push(out@, mv, m);
                            if mv@ == m {
                                assert(m.drop_first() =~= sub@[j as int]@);
                            }
                            if m.len() > 0 && m[0] == step && sub@[j as int]@ == m.drop_first() {
                                assert(m =~= mv@);
                            }
                        }
                    }
                    out.push(mv);
                    j = j + 1;
                }
                proof {
                    assert forall|m: Seq<Step>| #[trigger]
                        listed(out@, m) <==> (m.len() > 0 && m[0].0 > i - 1 && legal_step(
                            s,
                            d as int,
                            p,
                            m[0],
                        ) && generated(
                            step_board(s, m[0].0 as int, m[0].1 as int, p),
                            rest@,
                            p,
                            m.drop_first(),
                        )) by {
                        if m.len() > 0 && m[0].0 == i && legal_step(s, d as int, p, m[0]) {
                            assert(m[0] == step);
                        }
                        if m.len() > 0 && m[0] == step {
                            assert(listed(sub@, m.drop_first()) <==> generated(
                                next,
                                rest@,
                                p,
                                m.drop_first(),
                            ));
                        }
                    }
                }
            } else {
                proof {
                    assert forall|m: Seq<Step>| #[trigger]
                        listed(out@, m) <==> (m.len() > 0 && m[0].0 > i - 1 && legal_step(
                            s,
                            d as int,
                            p,
                            m[0],
                        ) && generated(
                            step_board(s, m[0].0 as int, m[0].1 as int, p),
                            rest@,
                            p,
                            m.drop_first(),
                        )) by {
                        if m.len() > 0 && m[0].0 == i && legal_step(s, d as int, p, m[0]) {
                            assert(i >= e && movable_at(s, i as int, i - e, p));
                        }
                    }
                }
            }
            i = i - 1;
        }
        proof {
            if out@.len() == 0 && can_step(s, d as int, p) {
                let st = choose|st: Step| legal_step(s, d as int, p, st);
                let next = step_board(s, st.0 as int, st.1 as int, p);
                lemma_generated_exists(next, rest@, p);
                let r = choose|r: Seq<Step>| generated(next, rest@, p, r);
                let m = seq![st] + r;
                assert(m.drop_first() =~= r);
                assert(listed(out@, m));
            }
            if out@.len() > 0 {
                assert(listed(out@, out@[0]@));
            }
        }
        if out.len() == 0 {
            out.push(Move::dance());
            proof {
                assert forall|m: Seq<Step>| #[trigger] listed(out@, m) <==> generated(s, dice@, p, m) by {
                    lemma_listed_push(Seq::<Move>::empty(), out@[0], m);
                    assert(out@ =~= Seq::<Move>::empty().push(out@[0]));
                    if m.len() == 0 {
                        assert(m =~= Seq::<Step>::empty());
                    }
                }
            }
        }
        out
    }

    /// How `p` finished the game on this board (seen by White): 0 not yet,
    /// 1 single, 2 gammon, 3 backgammon.
    pub fn goal(&self, p: Player) -> (r: usize)
        requires
            pos_wf(self@, Player::White),
        ensures
            r == finish_class(self@, p),
    {
        proof {
            lemma_seen_by_wf(self@, p);
            lemma_mirror_wf(seen_by(self@, p), p);
            lemma_wf_bounds(self@, Player::White);
        }
        let ps = self.reversed(p);
        if ps.backman(p) > 0 {
            return 0;
        }
        let os = ps.reverse();
        proof {
            lemma_wf_bounds(os@, opp(p));
        }
        let o = p.opponent();
        let borne_off = match os.get(Pieces::GOAL) {
            Some((q, _)) => q == o,
            None => false,
        };
        if borne_off {
            return 1;
        }
        if os.backman(o) < 19 {
            2
        } else {
            3
        }
    }
}

} // verus!
