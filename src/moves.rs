//! Move sequences: their notation, their order, and the pruning of a
//! generated list down to the sequences a player may choose from.
use vstd::prelude::*;

verus! {

/// One checker step: from, to, and whether it hit a blot.
pub type Step = (usize, usize, bool);

/// An ordered list of checker steps played on one roll.
#[derive(Debug, Clone)]
pub struct Move(pub Vec<Step>);

impl View for Move {
    type V = Seq<Step>;

    open spec fn view(&self) -> Seq<Step> {
        self.0@
    }
}

/// Some element of `ms` has the steps `m`.
pub open spec fn listed(ms: Seq<Move>, m: Seq<Step>) -> bool {
    exists|k: int| 0 <= k < ms.len() && #[trigger] ms[k]@ == m
}

pub proof fn lemma_listed_push(ms: Seq<Move>, x: Move, m: Seq<Step>)
    ensures
        listed(ms.push(x), m) <==> (listed(ms, m) || x@ == m),
{
    let ms2 = ms.push(x);
    if listed(ms, m) {
        let k = choose|k: int| 0 <= k < ms.len() && #[trigger] ms[k]@ == m;
        assert(ms2[k]@ == m);
    }
    if x@ == m {
        assert(ms2[ms.len() as int]@ == m);
    }
    if listed(ms2, m) {
        let k = choose|k: int| 0 <= k < ms2.len() && #[trigger] ms2[k]@ == m;
        if k < ms.len() {
            assert(ms[k]@ == m);
        }
    }
}

/// The decimal digits of `n`.
pub open spec fn decimal(n: nat) -> Seq<char>
    decreases n,
{
    if n < 10 {
        seq![digit_of(n)]
    } else {
        decimal(n / 10) + seq![digit_of(n % 10)]
    }
}

pub open spec fn digit_of(d: nat) -> char {
    seq!['0', '1', '2', '3', '4', '5', '6', '7', '8', '9'][d as int]
}

/// Steps are listed from the highest starting point down, and among equal
/// starting points from the lowest target up.
pub open spec fn key_le(a: Step, b: Step) -> bool {
    a.0 > b.0 || (a.0 == b.0 && a.1 <= b.1)
}

pub open spec fn key_lt(a: Step, b: Step) -> bool {
    a.0 > b.0 || (a.0 == b.0 && a.1 < b.1)
}

/// `x` inserted into the ordered `t` after every step not above it.
pub open spec fn insert_step(t: Seq<Step>, x: Step) -> Seq<Step>
    decreases t.len(),
{
    if t.len() == 0 || key_le(t.last(), x) {
        t.push(x)
    } else {
        insert_step(t.drop_last(), x).push(t.last())
    }
}

/// The steps in notation order; steps of equal key keep their order.
pub open spec fn sort_steps(s: Seq<Step>) -> Seq<Step>
    decreases s.len(),
{
    if s.len() == 0 {
        s
    } else {
        insert_step(sort_steps(s.drop_last()), s.last())
    }
}

/// The text `/p*` for a hit on an intermediate point, else nothing.
pub open spec fn hop(prev: usize, hit: bool) -> Seq<char> {
    if hit {
        seq!['/'] + decimal(prev as nat) + seq!['*']
    } else {
        Seq::empty()
    }
}

/// Follows one checker from `prev` through the later steps that start where
/// it stands. Gives the text for the intermediate hits, the point and hit
/// flag where it ends, and the steps that are not part of its path.
pub open spec fn link(prev: usize, hit: bool, rest: Seq<Step>) -> (Seq<char>, usize, bool, Seq<Step>)
    decreases rest.len(),
{
    if rest.len() == 0 {
        (Seq::empty(), prev, hit, Seq::empty())
    } else if rest[0].0 != prev {
        let r = link(prev, hit, rest.drop_first());
        (r.0, r.1, r.2, seq![rest[0]] + r.3)
    } else {
        let r = link(rest[0].1, rest[0].2, rest.drop_first());
        (hop(prev, hit) + r.0, r.1, r.2, r.3)
    }
}

pub proof fn lemma_link_len(prev: usize, hit: bool, rest: Seq<Step>)
    ensures
        link(prev, hit, rest).3.len() <= rest.len(),
    decreases rest.len(),
{
    if rest.len() > 0 {
        lemma_link_len(prev, hit, rest.drop_first());
        lemma_link_len(rest[0].1, rest[0].2, rest.drop_first());
    }
}

/// The text for the checker path that starts with the first of `ms`.
pub open spec fn group(ms: Seq<Step>, first: bool) -> Seq<char> {
    let r = link(ms[0].1, ms[0].2, ms.drop_first());
    group_text(first, ms[0].0, r.0, r.1, r.2)
}

pub open spec fn group_text(first: bool, from: usize, hops: Seq<char>, end: usize, hit: bool) -> Seq<char> {
    (if first {
        Seq::empty()
    } else {
        seq![' ']
    }) + decimal(from as nat) + hops + seq!['/'] + decimal(end as nat) + (if hit {
        seq!['*']
    } else {
        Seq::empty()
    })
}

/// The text of the ordered steps `ms`: one `from/to` group per checker path,
/// separated by spaces, with `*` after a point where a blot was hit.
pub open spec fn render(ms: Seq<Step>, first: bool) -> Seq<char>
    decreases ms.len(),
    via render_decreases
{
    if ms.len() == 0 {
        Seq::empty()
    } else {
        group(ms, first) + render(link(ms[0].1, ms[0].2, ms.drop_first()).3, false)
    }
}

#[via_fn]
proof fn render_decreases(ms: Seq<Step>, first: bool) {
    if ms.len() > 0 {
        lemma_link_len(ms[0].1, ms[0].2, ms.drop_first());
    }
}

/// The canonical notation of a move, such as `24/18 13/11` or `6/4*/3`.
pub open spec fn notation(m: Seq<Step>) -> Seq<char> {
    render(sort_steps(m), true)
}

/// The order of moves: lexicographic over the steps' keys, a proper prefix
/// coming first.
pub open spec fn seq_lt(a: Seq<Step>, b: Seq<Step>) -> bool
    decreases a.len(),
{
    if a.len() == 0 {
        b.len() > 0
    } else if b.len() == 0 {
        false
    } else if key_lt(a[0], b[0]) {
        true
    } else if key_lt(b[0], a[0]) {
        false
    } else {
        seq_lt(a.drop_first(), b.drop_first())
    }
}

pub proof fn lemma_lt_asym(a: Seq<Step>, b: Seq<Step>)
    ensures
        seq_lt(a, b) ==> !seq_lt(b, a),
    decreases a.len(),
{
    if a.len() > 0 && b.len() > 0 {
        lemma_lt_asym(a.drop_first(), b.drop_first());
    }
}

/// Not below is transitive.
pub proof fn lemma_lt_neg_trans(a: Seq<Step>, b: Seq<Step>, c: Seq<Step>)
    ensures
        !seq_lt(b, a) && !seq_lt(c, b) ==> !seq_lt(c, a),
    decreases a.len(),
{
    if a.len() > 0 && b.len() > 0 && c.len() > 0 {
        lemma_lt_neg_trans(a.drop_first(), b.drop_first(), c.drop_first());
    }
}

pub open spec fn views(ms: Seq<Move>) -> Seq<Seq<Step>> {
    ms.map_values(|m: Move| m@)
}

pub open spec fn sorted_views(ms: Seq<Seq<Step>>) -> bool {
    forall|a: int, b: int| 0 <= a < b < ms.len() ==> !seq_lt(#[trigger] ms[b], #[trigger] ms[a])
}

/// `out` is the list a player chooses from among the moves `g` admits: in
/// the order of moves, one move per notation, each admitted by `g`, and for
/// every admitted move one of the same notation that does not come after it.
pub open spec fn choice_list(g: spec_fn(Seq<Step>) -> bool, out: Seq<Seq<Step>>) -> bool {
    &&& sorted_views(out)
    &&& forall|a: int, b: int|
        0 <= a < b < out.len() ==> notation(#[trigger] out[a]) != notation(#[trigger] out[b])
    &&& forall|k: int| 0 <= k < out.len() ==> g(#[trigger] out[k])
    &&& forall|m: Seq<Step>|
        #[trigger] g(m) ==> exists|k: int|
            0 <= k < out.len() && notation(#[trigger] out[k]) == notation(m) && !seq_lt(m, out[k])
}

/// The longest length among `ms`.
pub open spec fn max_len(ms: Seq<Seq<Step>>) -> nat
    decreases ms.len(),
{
    if ms.len() == 0 {
        0
    } else {
        let r = max_len(ms.drop_last());
        if ms.last().len() > r {
            ms.last().len()
        } else {
            r
        }
    }
}

/// How far the single step of a one-step move goes.
pub open spec fn distance(m: Seq<Step>) -> int {
    m[0].0 - m[0].1
}

/// The longest distance among the one-step moves of `ms`.
pub open spec fn max_single(ms: Seq<Seq<Step>>) -> int
    decreases ms.len(),
{
    if ms.len() == 0 {
        0
    } else {
        let r = max_single(ms.drop_last());
        if ms.last().len() == 1 && distance(ms.last()) > r {
            distance(ms.last())
        } else {
            r
        }
    }
}

/// The moves of `ms` that play `mx` steps, and when that is one step, go
/// the distance `md`; in their order.
pub open spec fn keep(ms: Seq<Seq<Step>>, mx: nat, md: int) -> Seq<Seq<Step>>
    decreases ms.len(),
{
    if ms.len() == 0 {
        Seq::empty()
    } else {
        let r = keep(ms.drop_last(), mx, md);
        let m = ms.last();
        if m.len() == mx && (mx != 1 || distance(m) == md) {
            r.push(m)
        } else {
            r
        }
    }
}

/// A player must play as many dice as possible, and when only one can be
/// played, the larger one. No playable die leaves the empty move alone.
pub open spec fn must_play(ms: Seq<Seq<Step>>) -> Seq<Seq<Step>> {
    if ms.len() == 0 {
        Seq::empty()
    } else if max_len(ms) == 0 {
        seq![Seq::empty()]
    } else {
        keep(ms, max_len(ms), max_single(ms))
    }
}

pub proof fn lemma_listed_insert(ms: Seq<Move>, j: int, x: Move, m: Seq<Step>)
    requires
        0 <= j <= ms.len(),
    ensures
        listed(ms.insert(j, x), m) <==> (listed(ms, m) || x@ == m),
{
    let ms2 = ms.insert(j, x);
    if listed(ms, m) {
        let k = choose|k: int| 0 <= k < ms.len() && #[trigger] ms[k]@ == m;
        if k < j {
            assert(ms2[k]@ == m);
        } else {
            assert(ms2[k + 1]@ == m);
        }
    }
    if x@ == m {
        assert(ms2[j]@ == m);
    }
    if listed(ms2, m) {
        let k = choose|k: int| 0 <= k < ms2.len() && #[trigger] ms2[k]@ == m;
        if k < j {
            assert(ms[k]@ == m);
        } else if k > j {
            assert(ms[k - 1]@ == m);
        }
    }
}

pub proof fn lemma_lt_irrefl(a: Seq<Step>)
    ensures
        !seq_lt(a, a),
{
    lemma_lt_asym(a, a);
}

/// The two moves play the same steps, hits aside.
pub open spec fn same_steps(a: Seq<Step>, b: Seq<Step>) -> bool {
    a.len() == b.len() && forall|i: int|
        0 <= i < a.len() ==> (#[trigger] a[i]).0 == b[i].0 && a[i].1 == b[i].1
}

/// Two moves are ordered one way or the other unless they play the same steps.
pub proof fn lemma_lt_total(a: Seq<Step>, b: Seq<Step>)
    ensures
        seq_lt(a, b) || seq_lt(b, a) || same_steps(a, b),
    decreases a.len(),
{
    if a.len() > 0 && b.len() > 0 && !key_lt(a[0], b[0]) && !key_lt(b[0], a[0]) {
        lemma_lt_total(a.drop_first(), b.drop_first());
        if same_steps(a.drop_first(), b.drop_first()) {
            assert forall|i: int| 0 <= i < a.len() implies (#[trigger] a[i]).0 == b[i].0 && a[i].1
                == b[i].1 by {
                if i > 0 {
                    assert(a.drop_first()[i - 1] == a[i]);
                    assert(b.drop_first()[i - 1] == b[i]);
                }
            }
        }
    }
}

pub open spec fn strictly_sorted(u: Seq<Seq<Step>>) -> bool {
    forall|a: int, b: int| 0 <= a < b < u.len() ==> seq_lt(#[trigger] u[a], #[trigger] u[b])
}

/// Two strictly sorted lists with the same members are the same list.
pub proof fn lemma_sorted_same_members(u1: Seq<Seq<Step>>, u2: Seq<Seq<Step>>)
    requires
        strictly_sorted(u1),
        strictly_sorted(u2),
        forall|x: Seq<Step>| u1.contains(x) <==> u2.contains(x),
    ensures
        u1 == u2,
    decreases u1.len() + u2.len(),
{
    if u1.len() == 0 || u2.len() == 0 {
        if u1.len() > 0 {
            assert(u1.contains(u1[0]));
        }
        if u2.len() > 0 {
            assert(u2.contains(u2[0]));
        }
        assert(u1 =~= u2);
    } else {
        assert(u1.contains(u1[0]));
        assert(u2.contains(u2[0]));
        let j = choose|j: int| 0 <= j < u2.len() && u2[j] == u1[0];
        let i = choose|i: int| 0 <= i < u1.len() && u1[i] == u2[0];
        lemma_lt_irrefl(u1[0]);
        if j > 0 {
            assert(seq_lt(u2[0], u2[j]));
            if i > 0 {
                assert(seq_lt(u1[0], u1[i]));
                lemma_lt_asym(u1[0], u2[0]);
            }
        }
        assert(u1[0] == u2[0]);
        let t1 = u1.drop_first();
        let t2 = u2.drop_first();
        assert forall|x: Seq<Step>| t1.contains(x) <==> t2.contains(x) by {
            if t1.contains(x) {
                let k = choose|k: int| 0 <= k < t1.len() && t1[k] == x;
                assert(u1[k + 1] == x);
                assert(seq_lt(u1[0], u1[k + 1]));
                assert(u2.contains(x));
                let l = choose|l: int| 0 <= l < u2.len() && u2[l] == x;
                if l == 0 {
                    lemma_lt_irrefl(x);
                }
                assert(t2[l - 1] == x);
            }
            if t2.contains(x) {
                let k = choose|k: int| 0 <= k < t2.len() && t2[k] == x;
                assert(u2[k + 1] == x);
                assert(seq_lt(u2[0], u2[k + 1]));
                assert(u1.contains(x));
                let l = choose|l: int| 0 <= l < u1.len() && u1[l] == x;
                if l == 0 {
                    lemma_lt_irrefl(x);
                }
                assert(t1[l - 1] == x);
            }
        }
        assert forall|a: int, b: int| 0 <= a < b < t1.len() implies seq_lt(
            #[trigger] t1[a],
            #[trigger] t1[b],
        ) by {
            assert(t1[a] == u1[a + 1] && t1[b] == u1[b + 1]);
        }
        assert forall|a: int, b: int| 0 <= a < b < t2.len() implies seq_lt(
            #[trigger] t2[a],
            #[trigger] t2[b],
        ) by {
            assert(t2[a] == u2[a + 1] && t2[b] == u2[b + 1]);
        }
        lemma_sorted_same_members(t1, t2);
        assert(u1 =~= seq![u1[0]] + t1);
        assert(u2 =~= seq![u2[0]] + t2);
    }
}

/// When the admitted moves that play the same steps are the same move, there
/// is only one list to choose from.
pub proof fn lemma_choice_list_unique(g: spec_fn(Seq<Step>) -> bool, u1: Seq<Seq<Step>>, u2: Seq<Seq<Step>>)
    requires
        choice_list(g, u1),
        choice_list(g, u2),
        forall|x: Seq<Step>, y: Seq<Step>| #[trigger] g(x) && #[trigger] g(y) && same_steps(x, y) ==> x == y,
    ensures
        u1 == u2,
{
    lemma_choice_strict(g, u1);
    lemma_choice_strict(g, u2);
    assert forall|x: Seq<Step>| u1.contains(x) implies u2.contains(x) by {
        lemma_choice_member(g, u1, u2, x);
    }
    assert forall|x: Seq<Step>| u2.contains(x) implies u1.contains(x) by {
        lemma_choice_member(g, u2, u1, x);
    }
    lemma_sorted_same_members(u1, u2);
}

proof fn lemma_choice_strict(g: spec_fn(Seq<Step>) -> bool, u: Seq<Seq<Step>>)
    requires
        choice_list(g, u),
        forall|x: Seq<Step>, y: Seq<Step>| #[trigger] g(x) && #[trigger] g(y) && same_steps(x, y) ==> x == y,
    ensures
        strictly_sorted(u),
{
    assert forall|a: int, b: int| 0 <= a < b < u.len() implies seq_lt(#[trigger] u[a], #[trigger] u[b]) by {
        lemma_lt_total(u[a], u[b]);
        assert(g(u[a]) && g(u[b]));
        assert(!seq_lt(u[b], u[a]));
        assert(notation(u[a]) != notation(u[b]));
    }
}

proof fn lemma_choice_member(g: spec_fn(Seq<Step>) -> bool, u1: Seq<Seq<Step>>, u2: Seq<Seq<Step>>, x: Seq<Step>)
    requires
        choice_list(g, u1),
        choice_list(g, u2),
        forall|x: Seq<Step>, y: Seq<Step>| #[trigger] g(x) && #[trigger] g(y) && same_steps(x, y) ==> x == y,
        u1.contains(x),
    ensures
        u2.contains(x),
{
    let k = choose|k: int| 0 <= k < u1.len() && u1[k] == x;
    assert(g(u1[k]));
    let j = choose|j: int| 0 <= j < u2.len() && notation(#[trigger] u2[j]) == notation(x) && !seq_lt(x, u2[j]);
    let y = u2[j];
    assert(g(y));
    let i = choose|i: int| 0 <= i < u1.len() && notation(#[trigger] u1[i]) == notation(y) && !seq_lt(y, u1[i]);
    if i != k {
        if i < k {
            assert(notation(u1[i]) != notation(u1[k]));
        } else {
            assert(notation(u1[k]) != notation(u1[i]));
        }
    }
    lemma_lt_total(x, y);
    assert(x == y);
    assert(u2[j] == x);
}

/// The stable insertion sort of moves by the order of moves.
fn sort_moves(ms: &[Move]) -> (r: Vec<Move>)
    ensures
        sorted_views(views(r@)),
        forall|m: Seq<Step>| #[trigger] listed(r@, m) <==> listed(ms@, m),
{
    let mut out: Vec<Move> = Vec::new();
    let mut k: usize = 0;
    while k < ms.len()
        invariant
            k <= ms@.len(),
            sorted_views(views(out@)),
            forall|m: Seq<Step>| #[trigger]
                listed(out@, m) <==> listed(ms@.subrange(0, k as int), m),
        decreases ms@.len() - k,
    {
        let x = ms[k].copy();
        let mut j: usize = out.len();
        while j > 0 && x.less(&out[j - 1])
            invariant
                j <= out@.len(),
                forall|b: int| j <= b < out@.len() ==> seq_lt(x@, #[trigger] out@[b]@),
            decreases j,
        {
            j = j - 1;
        }
        let ghost before = out@;
        proof {
            assert forall|a: int, b: int|
                0 <= a < b < before.len() + 1 implies !seq_lt(
                #[trigger] views(before.insert(j as int, x))[b],
                #[trigger] views(before.insert(j as int, x))[a],
            ) by {
                let v = views(before.insert(j as int, x));
                if a < j && b < j {
                    assert(v[a] == before[a]@ && v[b] == before[b]@);
                    assert(!seq_lt(views(before)[b], views(before)[a]));
                } else if a < j && b == j {
                    lemma_lt_neg_trans(before[a]@, before[j - 1]@, x@);
                    if a < j - 1 {
                        assert(!seq_lt(views(before)[j - 1], views(before)[a]));
                    }
                } else if a < j {
                    assert(!seq_lt(views(before)[b - 1], views(before)[a]));
                } else if a == j {
                    lemma_lt_asym(x@, before[b - 1]@);
                } else {
                    assert(!seq_lt(views(before)[b - 1], views(before)[a - 1]));
                }
            }
            assert forall|m: Seq<Step>| #[trigger]
                listed(before.insert(j as int, x), m) <==> listed(
                ms@.subrange(0, k + 1),
                m,
            ) by {
                lemma_listed_insert(before, j as int, x, m);
                lemma_listed_push(ms@.subrange(0, k as int), ms@[k as int], m);
                assert(ms@.subrange(0, k + 1) =~= ms@.subrange(0, k as int).push(ms@[k as int]));
            }
        }
        out.insert(j, x);
        k = k + 1;
    }
    assert(ms@.subrange(0, ms@.len() as int) =~= ms@);
    out
}

/// Slot `t` of `keys` holds `key`, if any slot does.
fn find_key(keys: &Vec<Vec<char>>, key: &Vec<char>) -> (r: Option<usize>)
    ensures
        match r {
            Some(t) => t < keys@.len() && keys@[t as int]@ == key@,
            None => forall|t: int| 0 <= t < keys@.len() ==> (#[trigger] keys@[t])@ != key@,
        },
{
    let mut t: usize = 0;
    while t < keys.len()
        invariant
            t <= keys@.len(),
            forall|u: int| 0 <= u < t ==> (#[trigger] keys@[u])@ != key@,
        decreases keys@.len() - t,
    {
        if chars_eq(&keys[t], key) {
            return Some(t);
        }
        t = t + 1;
    }
    None
}

/// The character of the digit `d`.
fn digit(d: usize) -> (r: char)
    requires
        d < 10,
    ensures
        r == digit_of(d as nat),
{
    if d == 0 {
        '0'
    } else if d == 1 {
        '1'
    } else if d == 2 {
        '2'
    } else if d == 3 {
        '3'
    } else if d == 4 {
        '4'
    } else if d == 5 {
        '5'
    } else if d == 6 {
        '6'
    } else if d == 7 {
        '7'
    } else if d == 8 {
        '8'
    } else {
        '9'
    }
}

/// Appends the decimal digits of `n`.
pub(crate) fn push_decimal(out: &mut Vec<char>, n: usize)
    ensures
        final(out)@ == old(out)@ + decimal(n as nat),
    decreases n,
{
    if n >= 10 {
        push_decimal(out, n / 10);
    }
    out.push(digit(n % 10));
    assert(final(out)@ =~= old(out)@ + decimal(n as nat));
}

/// Appends the text of one checker path.
fn push_group(s: &mut Vec<char>, first: bool, from: usize, hops: &Vec<char>, end: usize, hit: bool)
    ensures
        final(s)@ == old(s)@ + group_text(first, from, hops@, end, hit),
{
    if !first {
        s.push(' ');
    }
    push_decimal(s, from);
    push_chars(s, hops);
    s.push('/');
    push_decimal(s, end);
    if hit {
        s.push('*');
    }
    assert(final(s)@ =~= old(s)@ + group_text(first, from, hops@, end, hit));
}

/// Appends the characters of `t`.
fn push_chars(out: &mut Vec<char>, t: &Vec<char>)
    ensures
        final(out)@ == old(out)@ + t@,
{
    let mut k: usize = 0;
    while k < t.len()
        invariant
            k <= t@.len(),
            out@ == old(out)@ + t@.subrange(0, k as int),
        decreases t@.len() - k,
    {
        out.push(t[k]);
        k = k + 1;
        assert(out@ =~= old(out)@ + t@.subrange(0, k as int));
    }
    assert(t@.subrange(0, t@.len() as int) =~= t@);
}

/// Relies on `FromIterator<char>` for `String`: the text of the characters in order.
#[verifier::external_body]
pub(crate) fn string_of(v: &Vec<char>) -> (r: String)
    ensures
        r@ == v@,
{
    v.iter().collect::<String>()
}

fn chars_eq(a: &Vec<char>, b: &Vec<char>) -> (r: bool)
    ensures
        r == (a@ == b@),
{
    if a.len() != b.len() {
        return false;
    }
    let mut k: usize = 0;
    while k < a.len()
        invariant
            a@.len() == b@.len(),
            k <= a@.len(),
            forall|i: int| 0 <= i < k ==> a@[i] == b@[i],
        decreases a@.len() - k,
    {
        if a[k] != b[k] {
            return false;
        }
        k = k + 1;
    }
    assert(a@ =~= b@);
    true
}

fn step_le(a: Step, b: Step) -> (r: bool)
    ensures
        r == key_le(a, b),
{
    a.0 > b.0 || (a.0 == b.0 && a.1 <= b.1)
}

fn step_lt(a: Step, b: Step) -> (r: bool)
    ensures
        r == key_lt(a, b),
{
    a.0 > b.0 || (a.0 == b.0 && a.1 < b.1)
}

/// The steps in notation order (a stable insertion sort).
fn sorted_steps(v: &Vec<Step>) -> (r: Vec<Step>)
    ensures
        r@ == sort_steps(v@),
{
    let mut out: Vec<Step> = Vec::new();
    let mut k: usize = 0;
    while k < v.len()
        invariant
            k <= v@.len(),
            out@ == sort_steps(v@.subrange(0, k as int)),
        decreases v@.len() - k,
    {
        let x = v[k];
        let mut j: usize = out.len();
        assert(out@.subrange(0, j as int) =~= out@);
        assert(out@.subrange(j as int, out@.len() as int) =~= Seq::<Step>::empty());
        while j > 0 && !step_le(out[j - 1], x)
            invariant
                j <= out@.len(),
                insert_step(out@, x) == insert_step(out@.subrange(0, j as int), x) + out@.subrange(
                    j as int,
                    out@.len() as int,
                ),
            decreases j,
        {
            let ghost t = out@.subrange(0, j as int);
            assert(t.drop_last() =~= out@.subrange(0, j - 1));
            assert(out@.subrange(j - 1, out@.len() as int) =~= seq![out@[j - 1]] + out@.subrange(
                j as int,
                out@.len() as int,
            ));
            j = j - 1;
            assert(insert_step(out@, x) =~= insert_step(out@.subrange(0, j as int), x)
                + out@.subrange(j as int, out@.len() as int));
        }
        proof {
            let t = out@.subrange(0, j as int);
            if j == 0 {
                assert(t =~= Seq::<Step>::empty());
            }
            assert(insert_step(t, x) == t.push(x));
            assert(v@.subrange(0, k + 1).drop_last() =~= v@.subrange(0, k as int));
        }
        let ghost before = out@;
        out.insert(j, x);
        assert(out@ =~= insert_step(before, x));
        k = k + 1;
    }
    assert(v@.subrange(0, v@.len() as int) =~= v@);
    out
}

/// Follows the checker of step `i` through the later steps that continue
/// its path, taking them out of `mov`. Gives the text for the intermediate
/// hits and the point and hit flag where the path ends.
fn follow(mov: &mut Vec<Step>, i: usize) -> (r: (Vec<char>, usize, bool))
    requires
        i < old(mov)@.len(),
    ensures
        ({
            let big = link(
                old(mov)@[i as int].1,
                old(mov)@[i as int].2,
                old(mov)@.subrange(i + 1, old(mov)@.len() as int),
            );
            &&& r.0@ == big.0
            &&& r.1 == big.1
            &&& r.2 == big.2
            &&& final(mov)@ == old(mov)@.subrange(0, i + 1) + big.3
        }),
{
    let ghost start = mov@;
    let ghost big = link(start[i as int].1, start[i as int].2, start.subrange(i + 1, start.len() as int));
    let mut seg: Vec<char> = Vec::new();
    let mut prev = mov[i].1;
    let mut last_hit = mov[i].2;
    let n = mov.len();
    assert(i < n);
    let mut j = i + 1;
    assert(mov@.subrange(i + 1, j as int) =~= Seq::<Step>::empty());
    assert(mov@.subrange(j as int, mov@.len() as int) =~= start.subrange(i + 1, start.len() as int));
    while j < mov.len()
        invariant
            i < j <= mov@.len(),
            mov@.subrange(0, i + 1) == start.subrange(0, i + 1),
            ({
                let r = link(prev, last_hit, mov@.subrange(j as int, mov@.len() as int));
                &&& seg@ + r.0 == big.0
                &&& r.1 == big.1
                &&& r.2 == big.2
                &&& mov@.subrange(i + 1, j as int) + r.3 == big.3
            }),
        decreases mov@.len() - j,
    {
        let ghost mv0 = mov@;
        let (f, t, h) = mov[j];
        let ghost rest0 = mv0.subrange(j as int, mv0.len() as int);
        assert(rest0.drop_first() =~= mv0.subrange(j + 1, mv0.len() as int));
        if prev != f {
            j = j + 1;
            proof {
                let r = link(prev, last_hit, mov@.subrange(j as int, mov@.len() as int));
                assert(mv0.subrange(i + 1, j - 1) + (seq![rest0[0]] + r.3) =~= mv0.subrange(
                    i + 1,
                    j as int,
                ) + r.3);
            }
        } else {
            mov.remove(j);
            assert(mov@.subrange(j as int, mov@.len() as int) =~= mv0.subrange(
                j + 1,
                mv0.len() as int,
            ));
            assert(mov@.subrange(0, i + 1) =~= mv0.subrange(0, i + 1));
            assert(mov@.subrange(i + 1, j as int) =~= mv0.subrange(i + 1, j as int));
            let ghost seg0 = seg@;
            if last_hit {
                seg.push('/');
                push_decimal(&mut seg, prev);
                seg.push('*');
            }
            assert(seg@ =~= seg0 + hop(prev, last_hit));
            prev = t;
            last_hit = h;
        }
    }
    proof {
        assert(mov@.subrange(j as int, mov@.len() as int) =~= Seq::<Step>::empty());
        assert(mov@ =~= mov@.subrange(0, i + 1) + mov@.subrange(i + 1, j as int));
    }
    (seg, prev, last_hit)
}

impl Move {
    /// The sequence that plays no checker.
    pub fn dance() -> (r: Move)
        ensures
            r@ == Seq::<Step>::empty(),
    {
        Move(Vec::new())
    }

    /// `step` followed by the steps of `m`.
    pub fn prepend(step: Step, m: &Move) -> (r: Move)
        ensures
            r@ == seq![step] + m@,
    {
        let mut v: Vec<Step> = Vec::new();
        v.push(step);
        let mut k: usize = 0;
        while k < m.0.len()
            invariant
                k <= m@.len(),
                v@ == seq![step] + m@.subrange(0, k as int),
            decreases m@.len() - k,
        {
            v.push(m.0[k]);
            k = k + 1;
            assert(v@ =~= seq![step] + m@.subrange(0, k as int));
        }
        assert(m@.subrange(0, m@.len() as int) =~= m@);
        Move(v)
    }

    /// A copy with the same steps.
    pub fn copy(&self) -> (r: Move)
        ensures
            r@ == self@,
    {
        let mut v: Vec<Step> = Vec::new();
        let mut k: usize = 0;
        while k < self.0.len()
            invariant
                k <= self@.len(),
                v@ == self@.subrange(0, k as int),
            decreases self@.len() - k,
        {
            v.push(self.0[k]);
            k = k + 1;
            assert(v@ =~= self@.subrange(0, k as int));
        }
        assert(self@.subrange(0, self@.len() as int) =~= self@);
        Move(v)
    }

    /// The moves in the order of moves with one move per notation, the
    /// first in that order among those that share it.
    pub fn uniq_moves(moves: &[Move]) -> (r: Vec<Move>)
        ensures
            choice_list(|m: Seq<Step>| listed(moves@, m), views(r@)),
    {
        let sorted = sort_moves(moves);
        let mut out: Vec<Move> = Vec::new();
        let mut keys: Vec<Vec<char>> = Vec::new();
        let ghost mut idx: Seq<int> = Seq::empty();
        let mut i: usize = 0;
        while i < sorted.len()
            invariant
                i <= sorted@.len(),
                sorted_views(views(sorted@)),
                keys@.len() == out@.len(),
                idx.len() == out@.len(),
                forall|t: int| 0 <= t < out@.len() ==> (#[trigger] keys@[t])@ == notation(out@[t]@),
                forall|t: int|
                    0 <= t < out@.len() ==> 0 <= #[trigger] idx[t] < i && out@[t]@ == sorted@[idx[t]]@,
                forall|a: int, b: int| 0 <= a < b < out@.len() ==> #[trigger] idx[a] < #[trigger] idx[b],
                forall|a: int, b: int|
                    0 <= a < b < out@.len() ==> notation(#[trigger] out@[a]@) != notation(
                        #[trigger] out@[b]@,
                    ),
                forall|k: int|
                    0 <= k < i ==> exists|t: int|
                        0 <= t < out@.len() && notation(#[trigger] out@[t]@) == notation(
                            #[trigger] sorted@[k]@,
                        ) && !seq_lt(sorted@[k]@, out@[t]@),
            decreases sorted@.len() - i,
        {
            let key = sorted[i].notation_chars();
            match find_key(&keys, &key) {
                Some(t) => {
                    proof {
                        let ti = t as int;
                        assert(!seq_lt(views(sorted@)[i as int], views(sorted@)[idx[ti]]));
                        assert(notation(out@[ti]@) == notation(sorted@[i as int]@));
                    }
                },
                None => {
                    let ghost old_out = out@;
                    let ghost old_keys = keys@;
                    let ghost key_v = key@;
                    let mv = sorted[i].copy();
                    out.push(mv);
                    keys.push(key);
                    proof {
                        idx = idx.push(i as int);
                        lemma_lt_irrefl(sorted@[i as int]@);
                        assert(out@[old_out.len() as int] == mv);
                        assert forall|a: int, b: int| 0 <= a < b < out@.len() implies notation(
                            #[trigger] out@[a]@,
                        ) != notation(#[trigger] out@[b]@) by {
                            if b == old_out.len() {
                                assert(old_keys[a]@ == notation(old_out[a]@));
                                assert(old_keys[a]@ != key_v);
                                assert(out@[a] == old_out[a]);
                            } else {
                                assert(out@[a] == old_out[a] && out@[b] == old_out[b]);
                            }
                        }
                        assert forall|k: int| 0 <= k < i + 1 implies exists|t: int|
                            0 <= t < out@.len() && notation(#[trigger] out@[t]@) == notation(
                                #[trigger] sorted@[k]@,
                            ) && !seq_lt(sorted@[k]@, out@[t]@) by {
                            if k < i {
                                let t = choose|t: int|
                                    0 <= t < old_out.len() && notation(#[trigger] old_out[t]@)
                                        == notation(#[trigger] sorted@[k]@) && !seq_lt(
                                        sorted@[k]@,
                                        old_out[t]@,
                                    );
                                assert(out@[t] == old_out[t]);
                            } else {
                                assert(out@[old_out.len() as int]@ == sorted@[k]@);
                            }
                        }
                    }
                },
            }
            i = i + 1;
        }
        proof {
            let v = views(out@);
            assert forall|a: int, b: int| 0 <= a < b < v.len() implies !seq_lt(
                #[trigger] v[b],
                #[trigger] v[a],
            ) by {
                assert(!seq_lt(views(sorted@)[idx[b]], views(sorted@)[idx[a]]));
            }
            assert forall|k: int| 0 <= k < v.len() implies listed(moves@, #[trigger] v[k]) by {
                assert(listed(sorted@, sorted@[idx[k]]@));
            }
            assert forall|m: Seq<Step>| #[trigger] listed(moves@, m) implies exists|k: int|
                0 <= k < v.len() && notation(#[trigger] v[k]) == notation(m) && !seq_lt(m, v[k]) by {
                assert(listed(sorted@, m));
                let k0 = choose|k: int| 0 <= k < sorted@.len() && #[trigger] sorted@[k]@ == m;
                let t = choose|t: int|
                    0 <= t < out@.len() && notation(#[trigger] out@[t]@) == notation(
                        #[trigger] sorted@[k0]@,
                    ) && !seq_lt(sorted@[k0]@, out@[t]@);
                assert(v[t] == out@[t]@);
            }
            assert forall|a: int, b: int| 0 <= a < b < v.len() implies notation(#[trigger] v[a])
                != notation(#[trigger] v[b]) by {
                assert(v[a] == out@[a]@ && v[b] == out@[b]@);
            }
        }
        out
    }

    /// The moves a player must choose from: those that play the most dice,
    /// and when that is one die, the larger distance.
    pub fn filter_moves(moves: &[Move]) -> (r: Vec<Move>)
        requires
            forall|k: int|
                0 <= k < moves@.len() && (#[trigger] moves@[k])@.len() == 1 ==> moves@[k]@[0].0
                    >= moves@[k]@[0].1,
        ensures
            views(r@) == must_play(views(moves@)),
    {
        let ghost vs = views(moves@);
        let mut mx: usize = 0;
        let mut k: usize = 0;
        while k < moves.len()
            invariant
                k <= moves@.len(),
                mx == max_len(vs.subrange(0, k as int)),
                vs == views(moves@),
            decreases moves@.len() - k,
        {
            assert(vs.subrange(0, k + 1).drop_last() =~= vs.subrange(0, k as int));
            if moves[k].0.len() > mx {
                mx = moves[k].0.len();
            }
            k = k + 1;
        }
        assert(vs.subrange(0, vs.len() as int) =~= vs);
        if moves.len() == 0 {
            let r: Vec<Move> = Vec::new();
            assert(views(r@) =~= must_play(vs));
            return r;
        }
        if mx == 0 {
            let mut r: Vec<Move> = Vec::new();
            r.push(Move::dance());
            assert(views(r@) =~= must_play(vs));
            return r;
        }
        let mut md: usize = 0;
        k = 0;
        while k < moves.len()
            invariant
                k <= moves@.len(),
                md == max_single(vs.subrange(0, k as int)),
                vs == views(moves@),
                forall|k: int|
                    0 <= k < moves@.len() && (#[trigger] moves@[k])@.len() == 1 ==> moves@[k]@[0].0
                        >= moves@[k]@[0].1,
            decreases moves@.len() - k,
        {
            assert(vs.subrange(0, k + 1).drop_last() =~= vs.subrange(0, k as int));
            if moves[k].0.len() == 1 && moves[k].0[0].0 - moves[k].0[0].1 > md {
                md = moves[k].0[0].0 - moves[k].0[0].1;
            }
            k = k + 1;
        }
        let mut out: Vec<Move> = Vec::new();
        k = 0;
        while k < moves.len()
            invariant
                k <= moves@.len(),
                vs == views(moves@),
                mx as nat == max_len(vs),
                md as int == max_single(vs),
                views(out@) == keep(vs.subrange(0, k as int), mx as nat, md as int),
                forall|k: int|
                    0 <= k < moves@.len() && (#[trigger] moves@[k])@.len() == 1 ==> moves@[k]@[0].0
                        >= moves@[k]@[0].1,
            decreases moves@.len() - k,
        {
            assert(vs.subrange(0, k + 1).drop_last() =~= vs.subrange(0, k as int));
            let n = moves[k].0.len();
            if n == mx && (mx != 1 || moves[k].0[0].0 - moves[k].0[0].1 == md) {
                let c = moves[k].copy();
                out.push(c);
                assert(views(out@) =~= keep(vs.subrange(0, k + 1), mx as nat, md as int));
            }
            k = k + 1;
        }
        out
    }

    /// The canonical notation, as characters.
    pub fn notation_chars(&self) -> (r: Vec<char>)
        ensures
            r@ == notation(self@),
    {
        let mut mov = sorted_steps(&self.0);
        let ghost full = mov@;
        let mut s: Vec<char> = Vec::new();
        let mut i: usize = 0;
        assert(mov@.subrange(0, mov@.len() as int) =~= full);
        while i < mov.len()
            invariant
                i <= mov@.len(),
                s@ + render(mov@.subrange(i as int, mov@.len() as int), i == 0) == render(
                    full,
                    true,
                ),
            decreases mov@.len() - i,
        {
            let ghost start = mov@;
            let ghost s0 = s@;
            let (from, to, hit) = mov[i];
            let ghost tail = start.subrange(i as int, start.len() as int);
            let ghost big = link(to, hit, start.subrange(i + 1, start.len() as int));
            let (seg, prev, last_hit) = follow(&mut mov, i);
            push_group(&mut s, i == 0, from, &seg, prev, last_hit);
            proof {
                assert(tail.drop_first() =~= start.subrange(i + 1, start.len() as int));
                assert(mov@.subrange(i + 1, mov@.len() as int) =~= big.3);
                assert(group(tail, i == 0) == group_text(i == 0, from, big.0, big.1, big.2));
                assert(render(tail, i == 0) == group(tail, i == 0) + render(big.3, false));
                assert(s0 + render(tail, i == 0) =~= s@ + render(big.3, false));
                lemma_link_len(to, hit, start.subrange(i + 1, start.len() as int));
            }
            i = i + 1;
        }
        proof {
            assert(mov@.subrange(i as int, mov@.len() as int) =~= Seq::<Step>::empty());
            assert(s@ =~= render(full, true));
        }
        s
    }

    /// The canonical notation of this move, such as `24/18 13/11` or `6/4*/3`.
    pub fn to_str(&self) -> (r: String)
        ensures
            r@ == notation(self@),
    {
        let v = self.notation_chars();
        string_of(&v)
    }

    /// This move comes before `other` in the order of moves.
    pub fn less(&self, other: &Move) -> (r: bool)
        ensures
            r == seq_lt(self@, other@),
    {
        let mut k: usize = 0;
        assert(self@.subrange(0, self@.len() as int) =~= self@);
        assert(other@.subrange(0, other@.len() as int) =~= other@);
        while k < self.0.len() && k < other.0.len()
            invariant
                k <= self@.len(),
                k <= other@.len(),
                seq_lt(self@, other@) == seq_lt(
                    self@.subrange(k as int, self@.len() as int),
                    other@.subrange(k as int, other@.len() as int),
                ),
            decreases self@.len() - k,
        {
            let a = self.0[k];
            let b = other.0[k];
            let ghost sa = self@.subrange(k as int, self@.len() as int);
            let ghost sb = other@.subrange(k as int, other@.len() as int);
            assert(sa.drop_first() =~= self@.subrange(k + 1, self@.len() as int));
            assert(sb.drop_first() =~= other@.subrange(k + 1, other@.len() as int));
            if step_lt(a, b) {
                return true;
            }
            if step_lt(b, a) {
                return false;
            }
            k = k + 1;
        }
        k < other.0.len() && k == self.0.len()
    }
}

impl PartialEq for Move {
    fn eq(&self, other: &Move) -> (r: bool) {
        if self.0.len() != other.0.len() {
            return false;
        }
        let mut k: usize = 0;
        while k < self.0.len()
            invariant
                self@.len() == other@.len(),
                k <= self@.len(),
                forall|i: int| 0 <= i < k ==> self@[i] == other@[i],
            decreases self@.len() - k,
        {
            let a = self.0[k];
            let b = other.0[k];
            if a.0 != b.0 || a.1 != b.1 || a.2 != b.2 {
                return false;
            }
            k = k + 1;
        }
        assert(self@ =~= other@);
        true
    }
}

impl vstd::std_specs::cmp::PartialEqSpecImpl for Move {
    open spec fn obeys_eq_spec() -> bool {
        true
    }

    open spec fn eq_spec(&self, other: &Move) -> bool {
        self@ == other@
    }
}

impl PartialOrd for Move {
    fn partial_cmp(&self, other: &Move) -> (r: Option<core::cmp::Ordering>) {
        if self.less(other) {
            Some(core::cmp::Ordering::Less)
        } else if other.less(self) {
            Some(core::cmp::Ordering::Greater)
        } else {
            Some(core::cmp::Ordering::Equal)
        }
    }
}

impl vstd::std_specs::cmp::PartialOrdSpecImpl for Move {
    open spec fn obeys_partial_cmp_spec() -> bool {
        true
    }

    open spec fn partial_cmp_spec(&self, other: &Move) -> Option<core::cmp::Ordering> {
        if seq_lt(self@, other@) {
            Some(core::cmp::Ordering::Less)
        } else if seq_lt(other@, self@) {
            Some(core::cmp::Ordering::Greater)
        } else {
            Some(core::cmp::Ordering::Equal)
        }
    }
}

} // verus!
