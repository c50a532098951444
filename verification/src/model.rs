//! The mathematical model of a lock: plate states, clicks, wall safety and
//! grouped key sequences.
use vstd::prelude::*;

verus! {

/// +1 for a [D] press, -1 for an [A] press (any key other than 'A' acts as [D]).
pub open spec fn key_sign(key: char) -> int {
    if key == 'A' {
        -1
    } else {
        1
    }
}

/// A plate vector read as mathematical integers.
pub open spec fn ints(v: Seq<i32>) -> Seq<int> {
    Seq::new(v.len(), |i: int| v[i] as int)
}

/// The rows of a delta matrix, each as a sequence of integers.
pub open spec fn rows(mat: Seq<Vec<i32>>) -> Seq<Seq<int>> {
    Seq::new(mat.len(), |i: int| ints(mat[i]@))
}

/// One click on tumbler `tumbler` (1-based): [D] adds the tumbler's delta row, [A] subtracts it.
pub open spec fn click(s: Seq<int>, m: Seq<Seq<int>>, tumbler: int, key: char) -> Seq<int> {
    Seq::new(s.len(), |i: int| s[i] + key_sign(key) * m[tumbler - 1][i])
}

/// Every plate sits on the 1..7 track.
pub open spec fn within_walls(s: Seq<int>) -> bool {
    forall|i: int| 0 <= i < s.len() ==> 1 <= #[trigger] s[i] <= 7
}

/// The solved state: every plate centred on 4.
pub open spec fn goal_state(n: nat) -> Seq<int> {
    Seq::new(n, |i: int| 4)
}

/// The state reached from `start` after the clicks in `moves`.
pub open spec fn run(start: Seq<int>, m: Seq<Seq<int>>, moves: Seq<(usize, char)>) -> Seq<int>
    decreases moves.len(),
{
    if moves.len() == 0 {
        start
    } else {
        click(run(start, m, moves.drop_last()), m, moves.last().0 as int, moves.last().1)
    }
}

/// No click of `moves` leaves a plate off the track.
pub open spec fn wall_safe(start: Seq<int>, m: Seq<Seq<int>>, moves: Seq<(usize, char)>) -> bool
    decreases moves.len(),
{
    moves.len() == 0 || (wall_safe(start, m, moves.drop_last()) && within_walls(
        run(start, m, moves),
    ))
}

/// Every click names a tumbler 1..=n and a key [D] or [A].
pub open spec fn legal_moves(moves: Seq<(usize, char)>, n: nat) -> bool {
    forall|i: int|
        0 <= i < moves.len() ==> 1 <= (#[trigger] moves[i]).0 <= n && (moves[i].1 == 'D'
            || moves[i].1 == 'A')
}

/// `moves` opens the lock from `start`: wall-safe, ending with every plate on 4.
pub open spec fn opens(start: Seq<int>, m: Seq<Seq<int>>, moves: Seq<(usize, char)>) -> bool {
    wall_safe(start, m, moves) && run(start, m, moves) == goal_state(start.len())
}

/// The clicks of a grouped sequence `(tumbler, key, count)`, one per press.
pub open spec fn expand(steps: Seq<(usize, char, usize)>) -> Seq<(usize, char)>
    decreases steps.len(),
{
    if steps.len() == 0 {
        Seq::empty()
    } else {
        expand(steps.drop_last()) + Seq::new(
            steps.last().2 as nat,
            |i: int| (steps.last().0, steps.last().1),
        )
    }
}

/// Every group holds at least one press, and neighbouring groups differ in tumbler or key.
pub open spec fn grouped(steps: Seq<(usize, char, usize)>) -> bool {
    &&& forall|i: int| 0 <= i < steps.len() ==> (#[trigger] steps[i]).2 >= 1
    &&& forall|i: int|
        0 < i < steps.len() ==> ((#[trigger] steps[i]).0 != steps[i - 1].0 || steps[i].1
            != steps[i - 1].1)
}

/// Total number of presses in a grouped sequence.
pub open spec fn press_count(steps: Seq<(usize, char, usize)>) -> int
    decreases steps.len(),
{
    if steps.len() == 0 {
        0
    } else {
        press_count(steps.drop_last()) + steps.last().2
    }
}

pub proof fn lemma_expand_len(steps: Seq<(usize, char, usize)>)
    ensures
        expand(steps).len() == press_count(steps),
    decreases steps.len(),
{
    if steps.len() > 0 {
        lemma_expand_len(steps.drop_last());
    }
}

/// The order in which clicks are tried: (1, D), (1, A), (2, D), (2, A), ...
pub open spec fn click_rank(mv: (usize, char)) -> int {
    2 * (mv.0 as int) + if mv.1 == 'A' {
        1int
    } else {
        0int
    }
}

/// `p` and `q` agree before click `i`, and there `p`'s click comes first.
pub open spec fn first_lower_at(p: Seq<(usize, char)>, q: Seq<(usize, char)>, i: int) -> bool {
    &&& 0 <= i < p.len()
    &&& i < q.len()
    &&& forall|j: int| 0 <= j < i ==> p[j] == q[j]
    &&& click_rank(p[i]) < click_rank(q[i])
}

/// `p` comes before `q`: it is shorter, or as long and first differs by an earlier click.
pub open spec fn shortlex_lt(p: Seq<(usize, char)>, q: Seq<(usize, char)>) -> bool {
    ||| p.len() < q.len()
    ||| (p.len() == q.len() && exists|i: int| #[trigger] first_lower_at(p, q, i))
}

pub proof fn lemma_shortlex_irreflexive(p: Seq<(usize, char)>)
    ensures
        !shortlex_lt(p, p),
{
}

pub proof fn lemma_shortlex_trans(a: Seq<(usize, char)>, b: Seq<(usize, char)>, c: Seq<(usize, char)>)
    requires
        shortlex_lt(a, b),
        shortlex_lt(b, c),
    ensures
        shortlex_lt(a, c),
{
    if a.len() == b.len() && b.len() == c.len() {
        let i1 = choose|i: int| #[trigger] first_lower_at(a, b, i);
        let i2 = choose|i: int| #[trigger] first_lower_at(b, c, i);
        if i1 < i2 {
            assert(b[i1] == c[i1]);
            assert(first_lower_at(a, c, i1));
        } else if i2 < i1 {
            assert(a[i2] == b[i2]);
            assert(first_lower_at(a, c, i2));
        } else {
            assert(first_lower_at(a, c, i1));
        }
    }
}

/// Two legal clicks with the same rank are the same click.
pub proof fn lemma_rank_injective(x: (usize, char), y: (usize, char))
    requires
        x.1 == 'D' || x.1 == 'A',
        y.1 == 'D' || y.1 == 'A',
        click_rank(x) == click_rank(y),
    ensures
        x == y,
{
}

proof fn lemma_first_difference(p: Seq<(usize, char)>, q: Seq<(usize, char)>, k: int)
    requires
        p.len() == q.len(),
        0 <= k <= p.len(),
        exists|i: int| 0 <= i < k && p[i] != q[i],
    ensures
        exists|i: int|
            0 <= i < k && p[i] != q[i] && (forall|j: int| 0 <= j < i ==> p[j] == q[j]),
    decreases k,
{
    if exists|i: int| 0 <= i < k - 1 && p[i] != q[i] {
        lemma_first_difference(p, q, k - 1);
        let i = choose|i: int|
            0 <= i < k - 1 && p[i] != q[i] && (forall|j: int| 0 <= j < i ==> p[j] == q[j]);
        assert(0 <= i < k && p[i] != q[i] && (forall|j: int| 0 <= j < i ==> p[j] == q[j]));
    } else {
        assert(p[k - 1] != q[k - 1]);
        assert(forall|j: int| 0 <= j < k - 1 ==> p[j] == q[j]);
    }
}

/// Distinct legal sequences are ordered one way or the other.
pub proof fn lemma_shortlex_total(p: Seq<(usize, char)>, q: Seq<(usize, char)>, n: nat)
    requires
        legal_moves(p, n),
        legal_moves(q, n),
        p != q,
    ensures
        shortlex_lt(p, q) || shortlex_lt(q, p),
{
    if p.len() == q.len() {
        if forall|i: int| 0 <= i < p.len() ==> p[i] == q[i] {
            assert(p =~= q);
        }
        lemma_first_difference(p, q, p.len() as int);
        let i = choose|i: int|
            0 <= i < p.len() && p[i] != q[i] && (forall|j: int| 0 <= j < i ==> p[j] == q[j]);
        assert(p[i] == p[i] && q[i] == q[i]);
        if click_rank(p[i]) == click_rank(q[i]) {
            lemma_rank_injective(p[i], q[i]);
        }
        if click_rank(p[i]) < click_rank(q[i]) {
            assert(first_lower_at(p, q, i));
        } else {
            assert(first_lower_at(q, p, i));
        }
    }
}

/// Appending a click to each keeps an order.
pub proof fn lemma_shortlex_push(
    a: Seq<(usize, char)>,
    b: Seq<(usize, char)>,
    x: (usize, char),
    y: (usize, char),
)
    requires
        shortlex_lt(a, b),
    ensures
        shortlex_lt(a.push(x), b.push(y)),
{
    if a.len() == b.len() {
        let i = choose|i: int| #[trigger] first_lower_at(a, b, i);
        assert(first_lower_at(a.push(x), b.push(y), i));
    }
}

/// The same clicks followed by an earlier click come first.
pub proof fn lemma_shortlex_last(a: Seq<(usize, char)>, x: (usize, char), y: (usize, char))
    requires
        click_rank(x) < click_rank(y),
    ensures
        shortlex_lt(a.push(x), a.push(y)),
{
    assert(first_lower_at(a.push(x), a.push(y), a.len() as int));
}

/// An order of two sequences with a last click each is decided before the last click,
/// or by the last clicks of equal prefixes.
pub proof fn lemma_shortlex_split(
    a: Seq<(usize, char)>,
    x: (usize, char),
    b: Seq<(usize, char)>,
    y: (usize, char),
)
    requires
        shortlex_lt(a.push(x), b.push(y)),
    ensures
        shortlex_lt(a, b) || (a == b && click_rank(x) < click_rank(y)),
{
    if a.len() == b.len() {
        let i = choose|i: int| #[trigger] first_lower_at(a.push(x), b.push(y), i);
        if i < a.len() {
            assert forall|j: int| 0 <= j < i implies a[j] == b[j] by {
                assert(a.push(x)[j] == b.push(y)[j]);
            }
            assert(first_lower_at(a, b, i));
        } else {
            assert forall|j: int| 0 <= j < a.len() implies a[j] == b[j] by {
                assert(a.push(x)[j] == b.push(y)[j]);
            }
            assert(a =~= b);
        }
    }
}

/// What a fallible computation yields: a value, an error message, or a panic.
pub enum Outcome<T> {
    Value(T),
    Failure(Seq<char>),
    Crash,
}

} // verus!
