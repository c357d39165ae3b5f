//! The canonical position string: one character per slot followed by the
//! cube, the player to act, the dice, the score and the match settings,
//! separated by colons. It tells apart every two boards that behave
//! differently.
use crate::board::{Board, State};
use crate::game::{dice_ok, winner_of, Cube, Dice, DiceRoll, Match};
use crate::moves::{decimal, push_decimal, string_of};
use crate::pieces::{checkers, opp, pos_wf, sum_range, Piece, Pieces, Player};
use vstd::string::StrSliceExecFns;
use vstd::prelude::*;

verus! {

pub open spec fn upper() -> Seq<char> {
    seq!['A', 'B', 'C', 'D', 'E', 'F', 'G', 'H', 'I', 'J', 'K', 'L', 'M', 'N', 'O']
}

pub open spec fn lower() -> Seq<char> {
    seq!['a', 'b', 'c', 'd', 'e', 'f', 'g', 'h', 'i', 'j', 'k', 'l', 'm', 'n', 'o']
}

/// A slot's character: `A`..`O` for 1 to 15 White checkers, `a`..`o` for
/// Black's, `-` for none.
pub open spec fn slot_char(v: int) -> char {
    if v > 0 {
        upper()[v - 1]
    } else if v < 0 {
        lower()[-v - 1]
    } else {
        '-'
    }
}

pub open spec fn owner_code(o: Option<Player>) -> Seq<char> {
    match o {
        Some(Player::White) => seq!['1'],
        Some(Player::Black) => seq!['-', '1'],
        None => seq!['0'],
    }
}

pub open spec fn player_code(o: Option<Player>) -> Seq<char> {
    match o {
        Some(Player::White) => seq!['1'],
        Some(Player::Black) => seq!['0'],
        None => Seq::empty(),
    }
}

/// The dice while a move is due, `D` while the cube is offered, else nothing.
pub open spec fn dice_code(b: Board) -> Seq<char> {
    match b.spec_state() {
        State::ToMove => decimal((b.dice.0->0).0 as nat) + decimal((b.dice.0->0).1 as nat),
        State::Doubled => seq!['D'],
        _ => Seq::empty(),
    }
}

pub open spec fn colon() -> Seq<char> {
    seq![':']
}

/// The canonical string of a board.
pub open spec fn xgid_text(b: Board) -> Seq<char> {
    seq!['X', 'G', 'I', 'D', '='] + Seq::new(28, |i: int| slot_char(b.pieces@[i])) + colon()
        + decimal(b.cube.level as nat) + colon() + owner_code(b.cube.position) + colon()
        + player_code(b.player) + colon() + dice_code(b) + colon() + decimal(
        b.game.score.0 as nat,
    ) + colon() + decimal(b.game.score.1 as nat) + colon() + seq![
        if b.game.crawford {
            '1'
        } else {
            '0'
        },
    ] + colon() + decimal(b.game.length as nat) + colon() + decimal(b.cube.max_level as nat)
}

fn push_colon(s: &mut Vec<char>)
    ensures
        final(s)@ == old(s)@ + colon(),
{
    s.push(':');
    assert(final(s)@ =~= old(s)@ + colon());
}

/// The character for a slot holding `v` checkers (signed).
fn slot_letter(v: isize) -> (r: char)
    requires
        -15 <= v <= 15,
    ensures
        r == slot_char(v as int),
{
    let up = ['A', 'B', 'C', 'D', 'E', 'F', 'G', 'H', 'I', 'J', 'K', 'L', 'M', 'N', 'O'];
    let low = ['a', 'b', 'c', 'd', 'e', 'f', 'g', 'h', 'i', 'j', 'k', 'l', 'm', 'n', 'o'];
    assert(up@ == upper());
    assert(low@ == lower());
    if v > 0 {
        up[(v - 1) as usize]
    } else if v < 0 {
        low[(-v - 1) as usize]
    } else {
        '-'
    }
}

impl DiceRoll {
    /// The dice as two digits, or `-` before a roll.
    pub fn to_str(&self) -> (r: String)
        ensures
            r@ == match self.0 {
                None => seq!['-'],
                Some(d) => decimal(d.0 as nat) + decimal(d.1 as nat),
            },
    {
        let mut s: Vec<char> = Vec::new();
        match self.0 {
            None => s.push('-'),
            Some(Dice(x, y)) => {
                push_decimal(&mut s, x);
                push_decimal(&mut s, y);
            },
        }
        proof {
            if self.0 is None {
                assert(s@ =~= seq!['-']);
            }
        }
        string_of(&s)
    }
}

impl Board {
    /// The canonical string of this board.
    pub fn xgid(&self) -> (r: String)
        requires
            self.wf(),
        ensures
            r@ == xgid_text(*self),
    {
        let mut s: Vec<char> = Vec::new();
        s.push('X');
        s.push('G');
        s.push('I');
        s.push('D');
        s.push('=');
        let ghost head = s@;
        assert(head =~= seq!['X', 'G', 'I', 'D', '=']);
        proof {
            crate::pieces::lemma_wf_bounds(self.pieces@, Player::White);
        }
        let mut i: usize = 0;
        while i < 28
            invariant
                i <= 28,
                pos_wf(self.pieces@, Player::White),
                forall|k: int| 0 <= k < 28 ==> -15 <= #[trigger] self.pieces@[k] <= 15,
                s@ == head + Seq::new(i as nat, |k: int| slot_char(self.pieces@[k])),
            decreases 28 - i,
        {
            assert(self.pieces@[i as int] == self.pieces.0@[i as int].0 as int);
            let c = slot_letter(self.pieces.0[i].0);
            s.push(c);
            i = i + 1;
            assert(s@ =~= head + Seq::new(i as nat, |k: int| slot_char(self.pieces@[k])));
        }
        push_colon(&mut s);
        push_decimal(&mut s, self.cube.level);
        push_colon(&mut s);
        let ghost before_owner = s@;
        match self.cube.position {
            Some(Player::White) => s.push('1'),
            Some(Player::Black) => {
                s.push('-');
                s.push('1');
            },
            None => s.push('0'),
        }
        assert(s@ =~= before_owner + owner_code(self.cube.position));
        push_colon(&mut s);
        let ghost before_player = s@;
        match self.player {
            Some(Player::White) => s.push('1'),
            Some(Player::Black) => s.push('0'),
            None => {},
        }
        assert(s@ =~= before_player + player_code(self.player));
        push_colon(&mut s);
        let ghost before_dice = s@;
        match self.state() {
            State::ToMove => {
                let Dice(x, y) = self.dice.0.unwrap();
                push_decimal(&mut s, x);
                push_decimal(&mut s, y);
            },
            State::Doubled => s.push('D'),
            _ => {},
        }
        assert(s@ =~= before_dice + dice_code(*self));
        push_colon(&mut s);
        push_decimal(&mut s, self.game.score.0);
        push_colon(&mut s);
        push_decimal(&mut s, self.game.score.1);
        push_colon(&mut s);
        s.push(if self.game.crawford { '1' } else { '0' });
        push_colon(&mut s);
        push_decimal(&mut s, self.game.length);
        push_colon(&mut s);
        push_decimal(&mut s, self.cube.max_level);
        assert(s@ =~= xgid_text(*self));
        string_of(&s)
    }
}

/// The text after the first `=`, if there is one.
pub open spec fn after_eq(t: Seq<char>) -> Option<Seq<char>>
    decreases t.len(),
{
    if t.len() == 0 {
        None
    } else if t[0] == '=' {
        Some(t.drop_first())
    } else {
        after_eq(t.drop_first())
    }
}

/// The fields of `t` between colons; `t` without a colon is one field.
pub open spec fn split_fields(t: Seq<char>) -> Seq<Seq<char>>
    decreases t.len(),
{
    if t.len() == 0 {
        seq![Seq::empty()]
    } else {
        let r = split_fields(t.drop_last());
        if t.last() == ':' {
            r.push(Seq::empty())
        } else {
            r.update(r.len() - 1, r.last().push(t.last()))
        }
    }
}

pub proof fn lemma_split_nonempty(t: Seq<char>)
    ensures
        split_fields(t).len() >= 1,
    decreases t.len(),
{
    if t.len() > 0 {
        lemma_split_nonempty(t.drop_last());
    }
}

pub open spec fn is_digit(c: char) -> bool {
    '0' <= c <= '9'
}

pub open spec fn digit_val(c: char) -> int {
    c as int - '0' as int
}

/// The value of the decimal digits `f`.
pub open spec fn dec_value(f: Seq<char>) -> int
    decreases f.len(),
{
    if f.len() == 0 {
        0
    } else {
        dec_value(f.drop_last()) * 10 + digit_val(f.last())
    }
}

/// A nonempty run of decimal digits whose value fits a `usize`.
pub open spec fn number(f: Seq<char>) -> Option<usize> {
    if f.len() > 0 && (forall|i: int| 0 <= i < f.len() ==> is_digit(#[trigger] f[i])) && dec_value(
        f,
    ) <= usize::MAX {
        Some(dec_value(f) as usize)
    } else {
        None
    }
}

/// The signed count a slot character stands for.
pub open spec fn slot_value(c: char) -> Option<int> {
    if c == '-' {
        Some(0)
    } else if 'A' <= c <= 'O' {
        Some(c as int - 'A' as int + 1)
    } else if 'a' <= c <= 'o' {
        Some(-(c as int - 'a' as int + 1))
    } else {
        None
    }
}

/// The slots the first field gives, before the goals are filled in:
/// unnamed slots are empty, and the goal slots are left empty too.
pub open spec fn raw_slots(f: Seq<char>) -> Seq<int> {
    Seq::new(
        28,
        |i: int|
            if i < f.len() && i != 0 && i != 26 {
                slot_value(f[i])->0
            } else {
                0
            },
    )
}

/// The board the first field describes: each goal holds the checkers of
/// its side that are not elsewhere.
pub open spec fn board_slots(f: Seq<char>) -> Option<Seq<int>> {
    let raw = raw_slots(f);
    if f.len() <= 28 && (forall|i: int| 0 <= i < f.len() ==> (#[trigger] slot_value(f[i])) is Some)
        && checkers(raw, Player::White) <= 15 && checkers(raw, Player::Black) <= 15 {
        Some(raw.update(0, 15 - checkers(raw, Player::White)).update(26, checkers(raw, Player::Black) - 15))
    } else {
        None
    }
}

/// The dice field: empty or `D` for no dice, else two dice.
pub open spec fn dice_field(f: Seq<char>) -> Option<Option<Dice>> {
    if f.len() == 0 || f == seq!['D'] {
        Some(None)
    } else if f.len() == 2 && '1' <= f[0] <= '6' && '1' <= f[1] <= '6' {
        Some(Some(Dice(digit_val(f[0]) as usize, digit_val(f[1]) as usize)))
    } else {
        None
    }
}

pub open spec fn owner_of(f: Seq<char>) -> Option<Player> {
    if f == seq!['1'] {
        Some(Player::White)
    } else if f == seq!['-', '1'] {
        Some(Player::Black)
    } else {
        None
    }
}

pub open spec fn player_of(f: Seq<char>) -> Option<Player> {
    if f == seq!['1'] {
        Some(Player::White)
    } else if f == seq!['0'] || f == seq!['-', '1'] {
        Some(Player::Black)
    } else {
        None
    }
}

pub open spec fn opp_of(p: Option<Player>) -> Option<Player> {
    match p {
        Some(q) => Some(opp(q)),
        None => None,
    }
}

/// What a board is made of, in plain values.
pub type BoardParts = (Seq<int>, DiceRoll, Cube, bool, Option<Player>, Match);

pub open spec fn parts_of(b: Board) -> BoardParts {
    (b.pieces@, b.dice, b.cube, b.to_roll, b.player, b.game)
}

/// The parts a canonical string describes, if it is well formed. The
/// player must roll next when the cube is with the player's opponent.
pub open spec fn decode(t: Seq<char>) -> Option<BoardParts> {
    match after_eq(t) {
        None => None,
        Some(rest) => {
            let f = split_fields(rest);
            if f.len() < 10 {
                None
            } else {
                let slots = board_slots(f[0]);
                let level = number(f[1]);
                let dice = dice_field(f[4]);
                let s0 = number(f[5]);
                let s1 = number(f[6]);
                let length = number(f[8]);
                let max_level = number(f[9]);
                if slots is None || level is None || dice is None || s0 is None || s1 is None
                    || length is None || max_level is None {
                    None
                } else {
                    let position = owner_of(f[2]);
                    let player = player_of(f[3]);
                    Some(
                        (
                            slots->0,
                            DiceRoll(dice->0),
                            Cube {
                                position,
                                level: level->0,
                                doubled: f[4] == seq!['D'],
                                max_level: max_level->0,
                            },
                            position == opp_of(player),
                            player,
                            Match { score: (s0->0, s1->0), length: length->0, crawford: f[7] == seq!['1'] },
                        ),
                    )
                }
            }
        },
    }
}

/// The characters of `id`.
fn chars_of(id: &str) -> (r: Vec<char>)
    ensures
        r@ == id@,
{
    let n = id.unicode_len();
    let mut v: Vec<char> = Vec::new();
    let mut i: usize = 0;
    while i < n
        invariant
            n == id@.len(),
            i <= n,
            v@ == id@.subrange(0, i as int),
        decreases n - i,
    {
        v.push(id.get_char(i));
        i = i + 1;
        assert(v@ =~= id@.subrange(0, i as int));
    }
    assert(id@.subrange(0, n as int) =~= id@);
    v
}

/// The characters after the first `=`.
fn text_after_eq(t: &Vec<char>) -> (r: Option<Vec<char>>)
    ensures
        match after_eq(t@) {
            None => r is None,
            Some(x) => r matches Some(v) && v@ == x,
        },
{
    let mut k: usize = 0;
    assert(t@.subrange(0, t@.len() as int) =~= t@);
    while k < t.len()
        invariant
            k <= t@.len(),
            after_eq(t@) == after_eq(t@.subrange(k as int, t@.len() as int)),
        decreases t@.len() - k,
    {
        let ghost tail = t@.subrange(k as int, t@.len() as int);
        assert(tail.drop_first() =~= t@.subrange(k + 1, t@.len() as int));
        if t[k] == '=' {
            let mut v: Vec<char> = Vec::new();
            let mut j = k + 1;
            while j < t.len()
                invariant
                    k < j <= t@.len(),
                    v@ == t@.subrange(k + 1, j as int),
                decreases t@.len() - j,
            {
                v.push(t[j]);
                j = j + 1;
                assert(v@ =~= t@.subrange(k + 1, j as int));
            }
            return Some(v);
        }
        k = k + 1;
    }
    assert(t@.subrange(k as int, t@.len() as int) =~= Seq::<char>::empty());
    None
}

/// The fields of `t` between colons.
fn fields_of(t: &Vec<char>) -> (r: Vec<Vec<char>>)
    ensures
        r@.len() == split_fields(t@).len(),
        forall|i: int| 0 <= i < r@.len() ==> (#[trigger] r@[i])@ == split_fields(t@)[i],
{
    let mut done: Vec<Vec<char>> = Vec::new();
    let mut cur: Vec<char> = Vec::new();
    let mut k: usize = 0;
    while k < t.len()
        invariant
            k <= t@.len(),
            ({
                let f = split_fields(t@.subrange(0, k as int));
                &&& f.len() == done@.len() + 1
                &&& forall|i: int| 0 <= i < done@.len() ==> (#[trigger] done@[i])@ == f[i]
                &&& cur@ == f.last()
            }),
        decreases t@.len() - k,
    {
        proof {
            lemma_split_nonempty(t@.subrange(0, k as int));
            assert(t@.subrange(0, k + 1).drop_last() =~= t@.subrange(0, k as int));
        }
        if t[k] == ':' {
            done.push(cur);
            cur = Vec::new();
        } else {
            cur.push(t[k]);
        }
        k = k + 1;
    }
    proof {
        assert(t@.subrange(0, k as int) =~= t@);
    }
    done.push(cur);
    done
}

/// The value of a nonempty run of digits that fits a `usize`.
fn parse_number(f: &Vec<char>) -> (r: Option<usize>)
    ensures
        r == number(f@),
{
    if f.len() == 0 {
        return None;
    }
    let mut v: usize = 0;
    let mut k: usize = 0;
    while k < f.len()
        invariant
            k <= f@.len(),
            forall|i: int| 0 <= i < k ==> is_digit(#[trigger] f@[i]),
            v == dec_value(f@.subrange(0, k as int)),
        decreases f@.len() - k,
    {
        let c = f[k];
        assert(f@.subrange(0, k + 1).drop_last() =~= f@.subrange(0, k as int));
        if !('0' <= c && c <= '9') {
            return None;
        }
        let d = (c as u32 - '0' as u32) as usize;
        assert(d as int == digit_val(c));
        if v > (usize::MAX - d) / 10 {
            proof {
                assert(v * 10 + d > usize::MAX) by (nonlinear_arith)
                    requires
                        v > (usize::MAX - d) / 10,
                        d <= 9,
                ;
                assert(dec_value(f@.subrange(0, k + 1)) == v * 10 + d);
                if forall|i: int| 0 <= i < f@.len() ==> is_digit(#[trigger] f@[i]) {
                    lemma_dec_value_grows(f@, k as int + 1);
                }
            }
            return None;
        }
        assert(v * 10 + d <= usize::MAX) by (nonlinear_arith)
            requires
                v <= (usize::MAX - d) / 10,
                d <= 9,
        ;
        v = v * 10 + d;
        k = k + 1;
    }
    assert(f@.subrange(0, k as int) =~= f@);
    Some(v)
}

/// A number only grows as digits are added.
proof fn lemma_dec_value_grows(f: Seq<char>, k: int)
    requires
        0 <= k <= f.len(),
        forall|i: int| 0 <= i < f.len() ==> is_digit(#[trigger] f[i]),
    ensures
        dec_value(f.subrange(0, k)) <= dec_value(f),
        dec_value(f.subrange(0, k)) >= 0,
    decreases f.len() - k,
{
    if k < f.len() {
        lemma_dec_value_grows(f, k + 1);
        assert(f.subrange(0, k + 1).drop_last() =~= f.subrange(0, k));
        lemma_dec_value_nonneg(f.subrange(0, k));
        assert(is_digit(f[k]));
    } else {
        assert(f.subrange(0, k) =~= f);
        lemma_dec_value_nonneg(f);
    }
}

proof fn lemma_dec_value_nonneg(f: Seq<char>)
    requires
        forall|i: int| 0 <= i < f.len() ==> is_digit(#[trigger] f[i]),
    ensures
        dec_value(f) >= 0,
    decreases f.len(),
{
    if f.len() > 0 {
        lemma_dec_value_nonneg(f.drop_last());
        assert(is_digit(f.last()));
    }
}

/// The parts make a well-formed board with no result yet.
pub open spec fn parts_ok(x: BoardParts) -> bool {
    &&& pos_wf(x.0, Player::White)
    &&& (x.1.0 matches Some(d) ==> dice_ok(d))
    &&& (x.1.0 is Some ==> x.4 is Some)
    &&& (x.2.doubled ==> x.4 is Some && x.1.0 is None)
    &&& x.2.wf()
    &&& x.5.wf()
}

fn slot_val(c: char) -> (r: Option<isize>)
    ensures
        r is Some <==> slot_value(c) is Some,
        r matches Some(v) ==> v as int == slot_value(c)->0 && -15 <= v <= 15,
{
    if c == '-' {
        Some(0)
    } else if 'A' <= c && c <= 'O' {
        Some((c as u32 - 'A' as u32 + 1) as isize)
    } else if 'a' <= c && c <= 'o' {
        Some(-((c as u32 - 'a' as u32 + 1) as isize))
    } else {
        None
    }
}

/// The checkers of `p` on a board with at most fifteen on a slot.
fn checker_count(ps: &Pieces, p: Player) -> (r: usize)
    requires
        ps@.len() == 28,
        forall|k: int| 0 <= k < 28 ==> -15 <= #[trigger] ps@[k] <= 15,
    ensures
        r == checkers(ps@, p),
{
    let mut r: usize = 0;
    let mut k: usize = 0;
    while k < 28
        invariant
            k <= 28,
            ps@.len() == 28,
            forall|k: int| 0 <= k < 28 ==> -15 <= #[trigger] ps@[k] <= 15,
            r == sum_range(ps@, p, 0, k as int),
            r <= 15 * k,
        decreases 28 - k,
    {
        let v = ps.0[k].0;
        assert(ps@[k as int] == v as int);
        if p == Player::White && v > 0 {
            r = r + v as usize;
        } else if p == Player::Black && v < 0 {
            r = r + (-v) as usize;
        }
        k = k + 1;
    }
    r
}

/// The board of the first field.
fn parse_slots(f: &Vec<char>) -> (r: Option<Pieces>)
    ensures
        match board_slots(f@) {
            None => r is None,
            Some(x) => r matches Some(p) && p@ == x,
        },
        r matches Some(p) ==> forall|k: int| 0 <= k < 28 ==> -15 <= #[trigger] p@[k] <= 15,
{
    if f.len() > 28 {
        return None;
    }
    let mut raw = Pieces::empty();
    assert(raw.0@.len() == raw@.len());
    let mut i: usize = 0;
    while i < f.len()
        invariant
            i <= f@.len() <= 28,
            raw.0@.len() == 28,
            forall|j: int| 0 <= j < i ==> (#[trigger] slot_value(f@[j])) is Some,
            raw@ == Seq::new(
                28,
                |j: int|
                    if j < i && j != 0 && j != 26 {
                        slot_value(f@[j])->0
                    } else {
                        0
                    },
            ),
            forall|k: int| 0 <= k < 28 ==> -15 <= #[trigger] raw@[k] <= 15,
        decreases f@.len() - i,
    {
        let v = match slot_val(f[i]) {
            Some(v) => v,
            None => {
                return None;
            },
        };
        let ghost before = raw@;
        if i != 0 && i != 26 {
            raw.0.set(i, Piece(v));
            assert(raw@ =~= before.update(i as int, v as int));
        }
        i = i + 1;
        assert(raw@ =~= Seq::new(
            28,
            |j: int|
                if j < i && j != 0 && j != 26 {
                    slot_value(f@[j])->0
                } else {
                    0
                },
        ));
    }
    assert(raw@ =~= raw_slots(f@));
    let w = checker_count(&raw, Player::White);
    let b = checker_count(&raw, Player::Black);
    if w > 15 || b > 15 {
        return None;
    }
    raw.0.set(0, Piece((15 - w) as isize));
    raw.0.set(26, Piece(-((15 - b) as isize)));
    assert(raw@ =~= raw_slots(f@).update(0, 15 - w).update(26, b - 15));
    Some(raw)
}

fn is_text(f: &Vec<char>, a: char, b: Option<char>) -> (r: bool)
    ensures
        r == (f@ == match b {
            None => seq![a],
            Some(c) => seq![a, c],
        }),
{
    let r = match b {
        None => f.len() == 1 && f[0] == a,
        Some(c) => f.len() == 2 && f[0] == a && f[1] == c,
    };
    proof {
        if r {
            match b {
                None => assert(f@ =~= seq![a]),
                Some(c) => assert(f@ =~= seq![a, c]),
            }
        }
    }
    r
}

fn parse_dice(f: &Vec<char>) -> (r: Option<Option<Dice>>)
    ensures
        r == dice_field(f@),
{
    if f.len() == 0 || is_text(f, 'D', None) {
        return Some(None);
    }
    if f.len() == 2 && '1' <= f[0] && f[0] <= '6' && '1' <= f[1] && f[1] <= '6' {
        let x = (f[0] as u32 - '0' as u32) as usize;
        let y = (f[1] as u32 - '0' as u32) as usize;
        return Some(Some(Dice(x, y)));
    }
    None
}

fn parse_owner(f: &Vec<char>) -> (r: Option<Player>)
    ensures
        r == owner_of(f@),
{
    if is_text(f, '1', None) {
        Some(Player::White)
    } else if is_text(f, '-', Some('1')) {
        Some(Player::Black)
    } else {
        None
    }
}

fn parse_player(f: &Vec<char>) -> (r: Option<Player>)
    ensures
        r == player_of(f@),
{
    if is_text(f, '1', None) {
        Some(Player::White)
    } else if is_text(f, '0', None) || is_text(f, '-', Some('1')) {
        Some(Player::Black)
    } else {
        None
    }
}

/// The parts of `b` make a well-formed board with no result yet.
fn parts_check(b: &Board) -> (r: bool)
    requires
        b.pieces@.len() == 28,
        forall|k: int| 0 <= k < 28 ==> -15 <= #[trigger] b.pieces@[k] <= 15,
    ensures
        r == parts_ok(parts_of(*b)),
{
    let ps = &b.pieces;
    assert(ps@[0] == ps.0@[0].0 as int && ps@[25] == ps.0@[25].0 as int);
    assert(ps@[26] == ps.0@[26].0 as int && ps@[27] == ps.0@[27].0 as int);
    let board_ok = checker_count(ps, Player::White) == 15 && checker_count(ps, Player::Black) == 15
        && ps.0[0].0 >= 0 && ps.0[25].0 >= 0 && ps.0[26].0 <= 0 && ps.0[27].0 <= 0;
    let dice_in_range = match b.dice.0 {
        Some(Dice(x, y)) => 1 <= x && x <= 6 && 1 <= y && y <= 6,
        None => true,
    };
    let dice_player = b.dice.0.is_none() || b.player.is_some();
    let offer_ok = !b.cube.doubled || (b.player.is_some() && b.dice.0.is_none());
    let cube_ok = b.cube.level <= b.cube.max_level && b.cube.max_level <= Cube::LEVEL_LIMIT && (
    !b.cube.doubled || b.cube.level < b.cube.max_level);
    let game_ok = 1 <= b.game.length && b.game.score.0 <= b.game.length && b.game.score.1
        <= b.game.length;
    board_ok && dice_in_range && dice_player && offer_ok && cube_ok && game_ok
}

impl Board {
    /// The board a canonical string describes; `None` when the string is
    /// malformed or describes no well-formed board.
    pub fn from_xgid(id: &str) -> (r: Option<Board>)
        ensures
            match decode(id@) {
                None => r is None,
                Some(x) => (r is Some <==> parts_ok(x)) && (r matches Some(b) ==> parts_of(b) == x
                    && b.result is None && b.wf()),
            },
    {
        let t = chars_of(id);
        let rest = match text_after_eq(&t) {
            Some(v) => v,
            None => {
                return None;
            },
        };
        let f = fields_of(&rest);
        if f.len() < 10 {
            return None;
        }
        let pieces = match parse_slots(&f[0]) {
            Some(p) => p,
            None => {
                return None;
            },
        };
        let level = match parse_number(&f[1]) {
            Some(v) => v,
            None => {
                return None;
            },
        };
        let dice = match parse_dice(&f[4]) {
            Some(d) => d,
            None => {
                return None;
            },
        };
        let s0 = match parse_number(&f[5]) {
            Some(v) => v,
            None => {
                return None;
            },
        };
        let s1 = match parse_number(&f[6]) {
            Some(v) => v,
            None => {
                return None;
            },
        };
        let length = match parse_number(&f[8]) {
            Some(v) => v,
            None => {
                return None;
            },
        };
        let max_level = match parse_number(&f[9]) {
            Some(v) => v,
            None => {
                return None;
            },
        };
        let position = parse_owner(&f[2]);
        let player = parse_player(&f[3]);
        let doubled = is_text(&f[4], 'D', None);
        let crawford = is_text(&f[7], '1', None);
        let to_roll = match (position, player) {
            (Some(a), Some(b)) => a == b.opponent(),
            (None, None) => true,
            _ => false,
        };
        let cube = Cube { position, level, doubled, max_level };
        let b = Board {
            pieces,
            cube,
            player,
            to_roll,
            dice: DiceRoll(dice),
            game: Match { score: (s0, s1), crawford, length },
            result: None,
        };
        if parts_check(&b) {
            Some(b)
        } else {
            None
        }
    }
}

/// The digits of `n` read back give `n`.
pub proof fn lemma_number_decimal(n: nat)
    requires
        n <= usize::MAX,
    ensures
        number(decimal(n)) == Some(n as usize),
        forall|i: int| 0 <= i < decimal(n).len() ==> is_digit(#[trigger] decimal(n)[i]),
    decreases n,
{
    lemma_digits(n);
}

proof fn lemma_digit_round(d: nat)
    requires
        d < 10,
    ensures
        is_digit(crate::moves::digit_of(d)),
        digit_val(crate::moves::digit_of(d)) == d,
{
    assert(d == 0 || d == 1 || d == 2 || d == 3 || d == 4 || d == 5 || d == 6 || d == 7 || d == 8
        || d == 9);
}

proof fn lemma_digits(n: nat)
    ensures
        decimal(n).len() > 0,
        dec_value(decimal(n)) == n,
        forall|i: int| 0 <= i < decimal(n).len() ==> is_digit(#[trigger] decimal(n)[i]),
    decreases n,
{
    if n < 10 {
        lemma_digit_round(n);
        assert(decimal(n).drop_last() =~= Seq::<char>::empty());
        assert(dec_value(decimal(n).drop_last()) == 0);
    } else {
        lemma_digits(n / 10);
        lemma_digit_round(n % 10);
        let t = decimal(n);
        assert(t.drop_last() =~= decimal(n / 10));
        assert(t.last() == crate::moves::digit_of(n % 10));
        vstd::arithmetic::div_mod::lemma_fundamental_div_mod(n as int, 10);
        assert forall|i: int| 0 <= i < t.len() implies is_digit(#[trigger] t[i]) by {
            if i < decimal(n / 10).len() {
                assert(t[i] == decimal(n / 10)[i]);
            }
        }
    }
}

/// The fields joined with colons.
pub open spec fn joined(fs: Seq<Seq<char>>) -> Seq<char>
    decreases fs.len(),
{
    if fs.len() <= 1 {
        if fs.len() == 1 {
            fs[0]
        } else {
            Seq::empty()
        }
    } else {
        joined(fs.drop_last()) + colon() + fs.last()
    }
}

pub open spec fn colon_free(f: Seq<char>) -> bool {
    forall|i: int| 0 <= i < f.len() ==> #[trigger] f[i] != ':'
}

proof fn lemma_split_single(f: Seq<char>)
    requires
        colon_free(f),
    ensures
        split_fields(f) == seq![f],
    decreases f.len(),
{
    if f.len() > 0 {
        assert(colon_free(f.drop_last()));
        lemma_split_single(f.drop_last());
        assert(f.drop_last().push(f.last()) =~= f);
        assert(seq![f.drop_last()].update(0, f.drop_last().push(f.last())) =~= seq![f]);
    } else {
        assert(f =~= Seq::<char>::empty());
    }
}

proof fn lemma_split_append(a: Seq<char>, b: Seq<char>)
    ensures
        split_fields(a + colon() + b) == split_fields(a) + split_fields(b),
    decreases b.len(),
{
    lemma_split_nonempty(a);
    if b.len() == 0 {
        assert((a + colon() + b).drop_last() =~= a);
        assert(split_fields(a + colon() + b) =~= split_fields(a) + split_fields(b));
    } else {
        let t = a + colon() + b;
        assert(t.drop_last() =~= a + colon() + b.drop_last());
        lemma_split_append(a, b.drop_last());
        lemma_split_nonempty(b.drop_last());
        assert(t.last() == b.last());
        let r = split_fields(t.drop_last());
        if b.last() == ':' {
            assert(split_fields(t) =~= split_fields(a) + split_fields(b));
        } else {
            assert(r.last() == split_fields(b.drop_last()).last());
            assert(split_fields(t) =~= split_fields(a) + split_fields(b));
        }
    }
}

/// Colon-free fields joined with colons split back into the same fields.
pub proof fn lemma_split_joined(fs: Seq<Seq<char>>)
    requires
        fs.len() >= 1,
        forall|i: int| 0 <= i < fs.len() ==> colon_free(#[trigger] fs[i]),
    ensures
        split_fields(joined(fs)) == fs,
    decreases fs.len(),
{
    if fs.len() == 1 {
        lemma_split_single(fs[0]);
        assert(seq![fs[0]] =~= fs);
    } else {
        let init = fs.drop_last();
        assert forall|i: int| 0 <= i < init.len() implies colon_free(#[trigger] init[i]) by {
            assert(init[i] == fs[i]);
        }
        lemma_split_joined(init);
        lemma_split_append(joined(init), fs.last());
        lemma_split_single(fs.last());
        assert(init + seq![fs.last()] =~= fs);
    }
}

proof fn lemma_slot_round(v: int)
    requires
        -15 <= v <= 15,
    ensures
        slot_value(slot_char(v)) == Some(v),
        slot_char(v) != ':',
{
    if v > 0 {
        assert(v == 1 || v == 2 || v == 3 || v == 4 || v == 5 || v == 6 || v == 7 || v == 8 || v == 9
            || v == 10 || v == 11 || v == 12 || v == 13 || v == 14 || v == 15);
    } else if v < 0 {
        assert(v == -1 || v == -2 || v == -3 || v == -4 || v == -5 || v == -6 || v == -7 || v == -8
            || v == -9 || v == -10 || v == -11 || v == -12 || v == -13 || v == -14 || v == -15);
    }
}

/// The first field of a well-formed board's string gives the board back.
pub proof fn lemma_board_slots_round(s: Seq<int>)
    requires
        pos_wf(s, Player::White),
    ensures
        board_slots(Seq::new(28, |i: int| slot_char(s[i]))) == Some(s),
        colon_free(Seq::new(28, |i: int| slot_char(s[i]))),
{
    let f = Seq::new(28, |i: int| slot_char(s[i]));
    crate::pieces::lemma_wf_bounds(s, Player::White);
    assert forall|i: int| 0 <= i < f.len() implies (#[trigger] slot_value(f[i])) is Some && slot_value(
        f[i],
    ) == Some(s[i]) && f[i] != ':' by {
        lemma_slot_round(s[i]);
    }
    let raw = raw_slots(f);
    assert(raw =~= s.update(0, 0).update(26, 0));
    let s1 = s.update(0, 0);
    crate::pieces::lemma_sum_update(s, Player::White, 0, 28, 0, 0);
    crate::pieces::lemma_sum_update(s, Player::Black, 0, 28, 0, 0);
    crate::pieces::lemma_sum_update(s1, Player::White, 0, 28, 26, 0);
    crate::pieces::lemma_sum_update(s1, Player::Black, 0, 28, 26, 0);
    assert(raw.update(0, 15 - checkers(raw, Player::White)).update(
        26,
        checkers(raw, Player::Black) - 15,
    ) =~= s);
}

/// The fields of a board's canonical string.
pub open spec fn text_fields(b: Board) -> Seq<Seq<char>> {
    seq![
        Seq::new(28, |i: int| slot_char(b.pieces@[i])),
        decimal(b.cube.level as nat),
        owner_code(b.cube.position),
        player_code(b.player),
        dice_code(b),
        decimal(b.game.score.0 as nat),
        decimal(b.game.score.1 as nat),
        seq![
            if b.game.crawford {
                '1'
            } else {
                '0'
            },
        ],
        decimal(b.game.length as nat),
        decimal(b.cube.max_level as nat),
    ]
}

/// A board its canonical string describes in full: no result yet, the
/// roll flag the string implies, and once the match is decided, no dice
/// and no offer.
pub open spec fn canonical(b: Board) -> bool {
    &&& b.wf()
    &&& b.result is None
    &&& b.to_roll == (b.cube.position == opp_of(b.player))
    &&& (winner_of(b.game) is Some ==> b.dice.0 is None && !b.cube.doubled)
}

proof fn lemma_after_prefix(body: Seq<char>)
    ensures
        after_eq(seq!['X', 'G', 'I', 'D', '='] + body) == Some(body),
{
    let t0 = seq!['X', 'G', 'I', 'D', '='] + body;
    let t1 = seq!['G', 'I', 'D', '='] + body;
    let t2 = seq!['I', 'D', '='] + body;
    let t3 = seq!['D', '='] + body;
    let t4 = seq!['='] + body;
    assert(t0.drop_first() =~= t1);
    assert(t1.drop_first() =~= t2);
    assert(t2.drop_first() =~= t3);
    assert(t3.drop_first() =~= t4);
    assert(t4.drop_first() =~= body);
    assert(after_eq(t4) == Some(body));
    assert(after_eq(t3) == after_eq(t4));
    assert(after_eq(t2) == after_eq(t3));
    assert(after_eq(t1) == after_eq(t2));
    assert(after_eq(t0) == after_eq(t1));
}

proof fn lemma_joined_step(fs: Seq<Seq<char>>, k: int)
    requires
        1 <= k < fs.len(),
    ensures
        joined(fs.subrange(0, k + 1)) == joined(fs.subrange(0, k)) + colon() + fs[k],
{
    assert(fs.subrange(0, k + 1).drop_last() =~= fs.subrange(0, k));
}

proof fn lemma_text_joined(b: Board)
    ensures
        xgid_text(b) == seq!['X', 'G', 'I', 'D', '='] + joined(text_fields(b)),
{
    let fs = text_fields(b);
    let pre = seq!['X', 'G', 'I', 'D', '='];
    assert(joined(fs.subrange(0, 1)) == fs[0]);
    assert forall|k: int| 1 <= k < 10 implies pre + joined(fs.subrange(0, k + 1)) =~= pre + joined(
        fs.subrange(0, k),
    ) + colon() + #[trigger] fs[k] by {
        lemma_joined_step(fs, k);
    }
    assert(fs.subrange(0, 10) =~= fs);
    let t1 = pre + fs[0];
    let t2 = t1 + colon() + fs[1];
    let t3 = t2 + colon() + fs[2];
    let t4 = t3 + colon() + fs[3];
    let t5 = t4 + colon() + fs[4];
    let t6 = t5 + colon() + fs[5];
    let t7 = t6 + colon() + fs[6];
    let t8 = t7 + colon() + fs[7];
    let t9 = t8 + colon() + fs[8];
    let t10 = t9 + colon() + fs[9];
    assert(pre + joined(fs.subrange(0, 1)) == t1);
    assert(pre + joined(fs.subrange(0, 2)) == t2);
    assert(pre + joined(fs.subrange(0, 3)) == t3);
    assert(pre + joined(fs.subrange(0, 4)) == t4);
    assert(pre + joined(fs.subrange(0, 5)) == t5);
    assert(pre + joined(fs.subrange(0, 6)) == t6);
    assert(pre + joined(fs.subrange(0, 7)) == t7);
    assert(pre + joined(fs.subrange(0, 8)) == t8);
    assert(pre + joined(fs.subrange(0, 9)) == t9);
    assert(pre + joined(fs.subrange(0, 10)) == t10);
    assert(xgid_text(b) == t10);
}

/// Reading a board's canonical string gives back the board, for every
/// board the string describes in full: the string tells apart any two such
/// boards that differ.
pub proof fn lemma_xgid_round_trip(b: Board)
    requires
        canonical(b),
    ensures
        decode(xgid_text(b)) == Some(parts_of(b)),
        parts_ok(parts_of(b)),
{
    let fs = text_fields(b);
    lemma_text_joined(b);
    lemma_after_prefix(joined(fs));
    lemma_board_slots_round(b.pieces@);
    lemma_number_decimal(b.cube.level as nat);
    lemma_number_decimal(b.game.score.0 as nat);
    lemma_number_decimal(b.game.score.1 as nat);
    lemma_number_decimal(b.game.length as nat);
    lemma_number_decimal(b.cube.max_level as nat);
    if b.spec_state() == State::ToMove {
        let d = b.dice.0->0;
        lemma_digit_round(d.0 as nat);
        lemma_digit_round(d.1 as nat);
        assert(decimal(d.0 as nat) == seq![crate::moves::digit_of(d.0 as nat)]);
        assert(decimal(d.1 as nat) == seq![crate::moves::digit_of(d.1 as nat)]);
        assert(fs[4] =~= seq![crate::moves::digit_of(d.0 as nat), crate::moves::digit_of(d.1 as nat)]);
        assert(crate::moves::digit_of(d.0 as nat) != ':' && crate::moves::digit_of(d.1 as nat) != ':');
        assert('1' <= crate::moves::digit_of(d.0 as nat) <= '6') by {
            assert(d.0 == 1 || d.0 == 2 || d.0 == 3 || d.0 == 4 || d.0 == 5 || d.0 == 6);
        }
        assert('1' <= crate::moves::digit_of(d.1 as nat) <= '6') by {
            assert(d.1 == 1 || d.1 == 2 || d.1 == 3 || d.1 == 4 || d.1 == 5 || d.1 == 6);
        }
        assert(fs[4] != seq!['D']);
    }
    assert forall|i: int| 0 <= i < fs.len() implies colon_free(#[trigger] fs[i]) by {
        if i == 4 && b.spec_state() != State::ToMove {
            assert(colon_free(fs[4]));
        }
    }
    lemma_split_joined(fs);
    let f = split_fields(joined(fs));
    assert(f == fs);
    assert(seq!['0'] != seq!['1']) by {
        assert(seq!['0'][0] != seq!['1'][0]);
    }
    assert(seq!['-', '1'] != seq!['1']) by {
        assert(seq!['-', '1'].len() != seq!['1'].len());
    }
    assert(seq!['0'] != seq!['-', '1']) by {
        assert(seq!['0'].len() != seq!['-', '1'].len());
    }
    assert(Seq::<char>::empty() != seq!['1'] && Seq::<char>::empty() != seq!['0'] && Seq::<char>::empty() != seq!['-', '1']) by {
        assert(Seq::<char>::empty().len() == 0);
    }
    assert(owner_of(fs[2]) == b.cube.position);
    assert(player_of(fs[3]) == b.player);
    assert((fs[7] == seq!['1']) == b.game.crawford);
    assert((fs[4] == seq!['D']) == b.cube.doubled);
    assert(dice_field(fs[4]) == Some(b.dice.0));
}

/// Two boards that their strings describe in full and that share a string
/// hold the same parts.
pub proof fn lemma_xgid_injective(b1: Board, b2: Board)
    requires
        canonical(b1),
        canonical(b2),
        xgid_text(b1) == xgid_text(b2),
    ensures
        parts_of(b1) == parts_of(b2),
{
    lemma_xgid_round_trip(b1);
    lemma_xgid_round_trip(b2);
}

} // verus!
