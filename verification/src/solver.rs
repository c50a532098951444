//! Breadth-first search for the shortest wall-safe key sequence.
use vstd::prelude::*;
use crate::rules::{build_matrix, matrix_of, rule_texts};
use crate::text::{chars_of, string_of};
use crate::model::{Outcome, 
    click, click_rank, expand, goal_state, grouped, ints, key_sign, legal_moves, opens, rows, run,
    shortlex_lt, wall_safe, within_walls, lemma_shortlex_irreflexive, lemma_shortlex_split,
    lemma_shortlex_last, lemma_shortlex_push, lemma_shortlex_total, lemma_shortlex_trans,
};

verus! {

/// A shortest key sequence: `total` presses, grouped as `(tumbler 1..n, key, count)`.
pub struct Solution {
    pub total: usize,
    pub steps: Vec<(usize, char, usize)>,
}

/// Number of buckets of the visited-state table.
const BUCKETS: usize = 262144;

spec fn plate_digit(x: i32) -> int {
    if 1 <= x <= 7 {
        x as int
    } else {
        0
    }
}

/// The bucket of the visited-state table that holds a state.
spec fn bucket_of(s: Seq<i32>) -> int
    decreases s.len(),
{
    if s.len() == 0 {
        0
    } else {
        (bucket_of(s.drop_last()) * 8 + plate_digit(s.last())) % (BUCKETS as int)
    }
}

fn bucket_index(s: &Vec<i32>) -> (b: usize)
    ensures
        b == bucket_of(s@),
        b < BUCKETS,
{
    let mut h: usize = 0;
    let mut i: usize = 0;
    while i < s.len()
        invariant
            i <= s@.len(),
            h == bucket_of(s@.subrange(0, i as int)),
            h < BUCKETS,
        decreases s@.len() - i,
    {
        let x = s[i];
        let d: usize = if 1 <= x && x <= 7 {
            x as usize
        } else {
            0
        };
        assert(s@.subrange(0, i + 1).drop_last() =~= s@.subrange(0, i as int));
        h = (h * 8 + d) % BUCKETS;
        i = i + 1;
    }
    assert(s@.subrange(0, s@.len() as int) =~= s@);
    h
}

fn same_state(a: &Vec<i32>, b: &Vec<i32>) -> (r: bool)
    ensures
        r == (a@ == b@),
{
    if a.len() != b.len() {
        return false;
    }
    let mut i: usize = 0;
    while i < a.len()
        invariant
            a@.len() == b@.len(),
            i <= a@.len(),
            forall|j: int| 0 <= j < i ==> a@[j] == b@[j],
        decreases a@.len() - i,
    {
        if a[i] != b[i] {
            return false;
        }
        i = i + 1;
    }
    assert(a@ =~= b@);
    true
}

proof fn lemma_ints_injective(a: Seq<i32>, b: Seq<i32>)
    requires
        ints(a) == ints(b),
    ensures
        a == b,
{
    assert(a.len() == ints(a).len());
    assert(b.len() == ints(b).len());
    assert forall|i: int| 0 <= i < a.len() implies a[i] == b[i] by {
        assert(ints(a)[i] == a[i] as int);
        assert(ints(b)[i] == b[i] as int);
    }
    assert(a =~= b);
}

/// The state one click away, if that click keeps every plate within the walls.
fn neighbor(cur: &Vec<i32>, mat: &[Vec<i32>], t: usize, key: char) -> (r: Option<Vec<i32>>)
    requires
        t < mat@.len(),
        mat@[t as int]@.len() >= cur@.len(),
    ensures
        match r {
            Some(v) => within_walls(click(ints(cur@), rows(mat@), t + 1, key)) && ints(v@)
                == click(ints(cur@), rows(mat@), t + 1, key),
            None => !within_walls(click(ints(cur@), rows(mat@), t + 1, key)),
        },
{
    let ghost target = click(ints(cur@), rows(mat@), t + 1, key);
    let sgn: i64 = if key == 'A' {
        -1
    } else {
        1
    };
    let row = &mat[t];
    let mut next: Vec<i32> = Vec::new();
    let mut i: usize = 0;
    while i < cur.len()
        invariant
            t < mat@.len(),
            row@ == mat@[t as int]@,
            row@.len() >= cur@.len(),
            target == click(ints(cur@), rows(mat@), t + 1, key),
            sgn == key_sign(key),
            i <= cur@.len(),
            next@.len() == i,
            forall|j: int| 0 <= j < i ==> 1 <= target[j] <= 7 && next@[j] == target[j],
        decreases cur@.len() - i,
    {
        assert(target[i as int] == cur@[i as int] + sgn * row@[i as int]);
        let v: i64 = cur[i] as i64 + sgn * (row[i] as i64);
        if v < 1 || v > 7 {
            assert(!(1 <= #[trigger] target[i as int] <= 7));
            return None;
        }
        next.push(v as i32);
        i = i + 1;
    }
    assert(ints(next@) =~= target);
    Some(next)
}

/// Visited states in discovery order, with the click that first reached each one.
struct Search {
    states: Vec<Vec<i32>>,
    parent: Vec<usize>,
    via: Vec<(usize, char)>,
    buckets: Vec<Vec<usize>>,
    paths: Ghost<Seq<Seq<(usize, char)>>>,
}

impl Search {
    spec fn count(&self) -> int {
        self.states@.len() as int
    }

    spec fn node(&self, k: int) -> Seq<int> {
        ints(self.states@[k]@)
    }

    /// Every state sits in the bucket its content hashes to, and every bucket entry is a state.
    spec fn table_ok(&self) -> bool {
        &&& self.buckets@.len() == BUCKETS
        &&& self.indexed()
        &&& self.entries_ok()
    }

    #[verifier::opaque]
    spec fn indexed(&self) -> bool {
        forall|k: int|
            0 <= k < self.count() ==> self.buckets@[bucket_of(
                #[trigger] self.states@[k]@,
            )]@.contains(k as usize)
    }

    #[verifier::opaque]
    spec fn entries_ok(&self) -> bool {
        forall|b: int, e: int|
            0 <= b < BUCKETS && 0 <= e < self.buckets@[b]@.len() ==> {
                let x = #[trigger] self.buckets@[b]@[e];
                &&& x < self.count()
                &&& bucket_of(self.states@[x as int]@) == b
            }
    }

    /// Each state is reached from `start` by its recorded path, the search tree is
    /// rooted at `start`, states are distinct and listed by nondecreasing depth.
    spec fn tree_ok(&self, start: Seq<int>, m: Seq<Seq<int>>, n: nat) -> bool {
        &&& self.count() >= 1
        &&& self.parent@.len() == self.count()
        &&& self.via@.len() == self.count()
        &&& self.paths@.len() == self.count()
        &&& self.node(0) == start
        &&& self.paths@[0] == Seq::<(usize, char)>::empty()
        &&& forall|k: int| 0 <= k < self.count() ==> (#[trigger] self.states@[k])@.len() == n
        &&& forall|k: int|
            0 < k < self.count() ==> (#[trigger] self.parent@[k]) < k && self.paths@[k]
                == self.paths@[self.parent@[k] as int].push(self.via@[k])
        &&& forall|k: int|
            0 <= k < self.count() ==> legal_moves(#[trigger] self.paths@[k], n) && wall_safe(
                start,
                m,
                self.paths@[k],
            ) && run(start, m, self.paths@[k]) == self.node(k)
        &&& forall|j: int, k: int|
            0 <= j < self.count() && 0 <= k < self.count() && j != k ==> (
            #[trigger] self.states@[j])@ != (#[trigger] self.states@[k])@
        &&& forall|j: int, k: int|
            0 <= j <= k < self.count() ==> (#[trigger] self.paths@[j]).len() <= (
            #[trigger] self.paths@[k]).len()
    }

    /// Some recorded state equals `w` and was reached in at most `bound` clicks.
    spec fn holds(&self, w: Seq<int>, bound: int) -> bool {
        exists|k: int| 0 <= k < self.count() && self.node(k) == w && self.paths@[k].len() <= bound
    }

    /// The click `(t, key)` from state `j`, if wall-safe, leads to a recorded state
    /// at most one click deeper.
    spec fn covers(&self, m: Seq<Seq<int>>, j: int, t: int, key: char) -> bool {
        within_walls(click(self.node(j), m, t, key)) ==> self.holds(
            click(self.node(j), m, t, key),
            (self.paths@[j].len() + 1) as int,
        )
    }

    /// Every click from the first `h` states has been explored.
    spec fn closed_below(&self, m: Seq<Seq<int>>, n: nat, h: int) -> bool {
        forall|j: int, t: int, key: char|
            0 <= j < h && 1 <= t <= n && (key == 'D' || key == 'A') ==> #[trigger] self.covers(
                m,
                j,
                t,
                key,
            )
    }

    /// `self` keeps everything `old` recorded, in the same places.
    spec fn extends(&self, old: &Search) -> bool {
        &&& self.count() >= old.count()
        &&& forall|k: int| 0 <= k < old.count() ==> #[trigger] self.states@[k] == old.states@[k]
        &&& forall|k: int| 0 <= k < old.count() ==> #[trigger] self.paths@[k] == old.paths@[k]
    }

    proof fn lemma_holds_grows(&self, old: &Search, w: Seq<int>, b1: int, b2: int)
        requires
            self.extends(old),
            old.paths@.len() == old.count(),
            old.holds(w, b1),
            b1 <= b2,
        ensures
            self.holds(w, b2),
    {
        let k = choose|k: int|
            0 <= k < old.count() && old.node(k) == w && old.paths@[k].len() <= b1;
        assert(self.states@[k] == old.states@[k]);
        assert(self.paths@[k] == old.paths@[k]);
        assert(self.node(k) == w);
    }

    proof fn lemma_closed_grows(&self, old: &Search, m: Seq<Seq<int>>, n: nat, h: int)
        requires
            self.extends(old),
            old.paths@.len() == old.count(),
            old.closed_below(m, n, h),
            h <= old.count(),
        ensures
            self.closed_below(m, n, h),
    {
        assert forall|j: int, t: int, key: char|
            0 <= j < h && 1 <= t <= n && (key == 'D' || key == 'A') implies #[trigger] self.covers(
            m,
            j,
            t,
            key,
        ) by {
            assert(old.covers(m, j, t, key));
            assert(self.states@[j] == old.states@[j]);
            assert(self.paths@[j] == old.paths@[j]);
            assert(self.node(j) == old.node(j));
            if within_walls(click(self.node(j), m, t, key)) {
                self.lemma_holds_grows(
                    old,
                    click(self.node(j), m, t, key),
                    (self.paths@[j].len() + 1) as int,
                    (self.paths@[j].len() + 1) as int,
                );
            }
        }
    }

    proof fn lemma_covers_grows(&self, old: &Search, m: Seq<Seq<int>>, j: int, t: int, key: char)
        requires
            self.extends(old),
            old.paths@.len() == old.count(),
            0 <= j < old.count(),
            old.covers(m, j, t, key),
        ensures
            self.covers(m, j, t, key),
    {
        assert(self.states@[j] == old.states@[j]);
        assert(self.paths@[j] == old.paths@[j]);
        assert(self.node(j) == old.node(j));
        if within_walls(click(self.node(j), m, t, key)) {
            self.lemma_holds_grows(
                old,
                click(self.node(j), m, t, key),
                (self.paths@[j].len() + 1) as int,
                (self.paths@[j].len() + 1) as int,
            );
        }
    }

    proof fn lemma_extends_trans(&self, mid: &Search, old: &Search)
        requires
            self.extends(mid),
            mid.extends(old),
        ensures
            self.extends(old),
    {
        assert forall|k: int| 0 <= k < old.count() implies #[trigger] self.states@[k]
            == old.states@[k] by {
            assert(mid.states@[k] == old.states@[k]);
        }
        assert forall|k: int| 0 <= k < old.count() implies #[trigger] self.paths@[k]
            == old.paths@[k] by {
            assert(mid.paths@[k] == old.paths@[k]);
        }
    }

    /// The recorded paths come in click order.
    #[verifier::opaque]
    spec fn sorted(&self) -> bool {
        forall|j: int, k: int|
            0 <= j < k < self.count() ==> shortlex_lt(
                #[trigger] self.paths@[j],
                #[trigger] self.paths@[k],
            )
    }

    /// No legal wall-safe click sequence reaches a recorded state before its recorded path.
    #[verifier::opaque]
    spec fn least(&self, start: Seq<int>, m: Seq<Seq<int>>, n: nat) -> bool {
        forall|k: int, p: Seq<(usize, char)>|
            #![trigger self.paths@[k], run(start, m, p)]
            0 <= k < self.count() && legal_moves(p, n) && wall_safe(start, m, p) && run(start, m, p)
                == self.node(k) ==> !shortlex_lt(p, self.paths@[k])
    }

    /// Every recorded path comes before `q`.
    #[verifier::opaque]
    spec fn below(&self, q: Seq<(usize, char)>) -> bool {
        forall|k: int| 0 <= k < self.count() ==> shortlex_lt(#[trigger] self.paths@[k], q)
    }

    /// Every path that comes after `x` comes after every recorded path.
    spec fn beyond(&self, x: Seq<(usize, char)>) -> bool {
        forall|q: Seq<(usize, char)>| shortlex_lt(x, q) ==> #[trigger] self.below(q)
    }

    proof fn lemma_below_grows(&self, p: Seq<(usize, char)>, q: Seq<(usize, char)>)
        requires
            self.below(p),
            shortlex_lt(p, q),
        ensures
            self.below(q),
    {
        reveal(Search::below);
        assert forall|k: int| 0 <= k < self.count() implies shortlex_lt(
            #[trigger] self.paths@[k],
            q,
        ) by {
            lemma_shortlex_trans(self.paths@[k], p, q);
        }
    }

    /// The path to a state not yet recorded, found by the click `mv` from state `h`, comes
    /// first among all legal wall-safe click sequences that reach that state: every
    /// shorter or earlier sequence would have reached it from a state already explored.
    proof fn lemma_first_visit(
        &self,
        start: Seq<int>,
        m: Seq<Seq<int>>,
        n: nat,
        h: int,
        mv: (usize, char),
        p: Seq<(usize, char)>,
    )
        requires
            self.tree_ok(start, m, n),
            self.sorted(),
            self.least(start, m, n),
            self.closed_below(m, n, h),
            0 <= h < self.count(),
            1 <= mv.0 <= n,
            mv.1 == 'D' || mv.1 == 'A',
            forall|tt: int, kk: char|
                1 <= tt <= n && (kk == 'D' || kk == 'A') && click_rank((tt as usize, kk))
                    < click_rank(mv) ==> #[trigger] self.covers(m, h, tt, kk),
            forall|k: int|
                0 <= k < self.count() ==> self.node(k) != click(self.node(h), m, mv.0 as int, mv.1),
            legal_moves(p, n),
            wall_safe(start, m, p),
            run(start, m, p) == click(self.node(h), m, mv.0 as int, mv.1),
        ensures
            !shortlex_lt(p, self.paths@[h].push(mv)),
    {
        let w = click(self.node(h), m, mv.0 as int, mv.1);
        let ph = self.paths@[h];
        if shortlex_lt(p, ph.push(mv)) {
            if p.len() == 0 {
                assert(run(start, m, p) == self.node(0));
                assert(false);
            }
            let pre = p.drop_last();
            let a = p.last();
            assert(p =~= pre.push(a));
            lemma_shortlex_split(pre, a, ph, mv);
            assert(a == p[p.len() - 1]);
            assert(legal_moves(pre, n)) by {
                assert forall|i: int| 0 <= i < pre.len() implies 1 <= (#[trigger] pre[i]).0 <= n && (
                pre[i].1 == 'D' || pre[i].1 == 'A') by {
                    assert(pre[i] == p[i]);
                }
            }
            assert(wall_safe(start, m, pre));
            assert(within_walls(run(start, m, p)));
            assert(run(start, m, p) == click(run(start, m, pre), m, a.0 as int, a.1));
            // the state before the last click is recorded at some `j` explored before `h`
            let j = if pre == ph {
                h
            } else {
                self.lemma_paths_recorded(start, m, n, h, pre);
                let j = choose|j: int|
                    0 <= j < self.count() && self.node(j) == run(start, m, pre)
                        && self.paths@[j].len() <= pre.len();
                reveal(Search::least);
                assert(!shortlex_lt(pre, self.paths@[j]));
                if self.paths@[j] != pre {
                    lemma_shortlex_total(self.paths@[j], pre, n);
                    lemma_shortlex_trans(self.paths@[j], pre, ph);
                }
                assert(shortlex_lt(self.paths@[j], ph));
                if j == h {
                    lemma_shortlex_irreflexive(ph);
                }
                if j > h {
                    reveal(Search::sorted);
                    assert(shortlex_lt(ph, self.paths@[j]));
                    lemma_shortlex_trans(ph, self.paths@[j], ph);
                    lemma_shortlex_irreflexive(ph);
                }
                j
            };
            assert(self.node(j) == run(start, m, pre));
            assert(j == h ==> click_rank(a) < click_rank(mv));
            assert(self.covers(m, j, a.0 as int, a.1));
            assert(click(self.node(j), m, a.0 as int, a.1) == w);
            let k = choose|k: int|
                0 <= k < self.count() && self.node(k) == w && self.paths@[k].len() <= (
                self.paths@[j].len() + 1) as int;
            assert(false);
        }
    }

    /// All recorded paths are at most one click longer than the path of state `h`.
    spec fn depth_bound(&self, h: int) -> bool {
        forall|k: int|
            0 <= k < self.count() ==> (#[trigger] self.paths@[k]).len() <= self.paths@[h].len()
                + 1
    }

    /// Explores the click `(t + 1, key)` from state `h`.
    fn try_move(
        &mut self,
        h: usize,
        mat: &[Vec<i32>],
        t: usize,
        key: char,
        Ghost(start): Ghost<Seq<int>>,
        Ghost(n): Ghost<nat>,
    )
        requires
            old(self).tree_ok(start, rows(mat@), n),
            old(self).table_ok(),
            h < old(self).count(),
            old(self).depth_bound(h as int),
            t < n,
            n <= mat@.len(),
            forall|r: int| 0 <= r < n ==> (#[trigger] mat@[r])@.len() >= n,
            key == 'D' || key == 'A',
            old(self).sorted(),
            old(self).least(start, rows(mat@), n),
            old(self).closed_below(rows(mat@), n, h as int),
            old(self).below(old(self).paths@[h as int].push(((t + 1) as usize, key))),
            forall|tt: int, kk: char|
                1 <= tt <= n && (kk == 'D' || kk == 'A') && click_rank((tt as usize, kk))
                    < click_rank(((t + 1) as usize, key)) ==> #[trigger] old(self).covers(
                    rows(mat@),
                    h as int,
                    tt,
                    kk,
                ),
        ensures
            final(self).tree_ok(start, rows(mat@), n),
            final(self).table_ok(),
            final(self).extends(old(self)),
            final(self).depth_bound(h as int),
            final(self).covers(rows(mat@), h as int, t + 1, key),
            final(self).sorted(),
            final(self).least(start, rows(mat@), n),
            final(self).beyond(old(self).paths@[h as int].push(((t + 1) as usize, key))),
    {
        let ghost mv = ((t + 1) as usize, key);
        let ghost big_p = old(self).paths@[h as int].push(mv);
        let ghost m = rows(mat@);
        let ml = mat.len();
        assert(t + 1 <= ml);
        proof {
            assert(self.states@[h as int]@.len() == n);
        }
        match neighbor(&self.states[h], mat, t, key) {
            None => {
                proof {
                    assert forall|q: Seq<(usize, char)>| shortlex_lt(big_p, q) implies #[trigger] self.below(q) by {
                        self.lemma_below_grows(big_p, q);
                    }
                }
            },
            Some(next) => {
                match self.lookup(&next) {
                    Some(k) => {
                        proof {
                            assert forall|q: Seq<(usize, char)>| shortlex_lt(big_p, q) implies #[trigger] self.below(q) by {
                                self.lemma_below_grows(big_p, q);
                            }
                            assert(self.node(k as int) == ints(next@));
                            assert(self.paths@[k as int].len() <= self.paths@[h as int].len() + 1);
                            assert(self.holds(
                                click(self.node(h as int), m, t + 1, key),
                                (self.paths@[h as int].len() + 1) as int,
                            ));
                        }
                    },
                    None => {
                        let ghost prev = *self;
                        let ghost ph = self.paths@[h as int];
                        let ghost nv = next@;
                        self.add(next, h, (t + 1, key));
                        proof {
                            let nn = prev.count();
                            let p = ph.push(((t + 1) as usize, key));
                            assert(self.paths@[nn] == p);
                            assert(p.drop_last() =~= ph);
                            assert(run(start, m, p) == click(run(start, m, ph), m, (t + 1) as int, key));
                            assert(self.node(nn) == ints(nv));
                            assert(self.node(h as int) == prev.node(h as int));
                            assert(run(start, m, ph) == self.node(h as int));
                            assert(legal_moves(p, n)) by {
                                assert forall|i: int| 0 <= i < p.len() implies 1 <= (
                                #[trigger] p[i]).0 <= n && (p[i].1 == 'D' || p[i].1 == 'A') by {
                                    if i < ph.len() {
                                        assert(p[i] == ph[i]);
                                    }
                                }
                            }
                            assert(wall_safe(start, m, p));
                            assert(self.holds(
                                click(self.node(h as int), m, t + 1, key),
                                (self.paths@[h as int].len() + 1) as int,
                            )) by {
                                assert(self.node(nn) == click(self.node(h as int), m, t + 1, key));
                            }
                            assert(self.states@[nn]@.len() == n) by {
                                assert(ints(nv).len() == nv.len());
                            }
                            assert forall|j: int, k: int|
                                0 <= j < self.count() && 0 <= k < self.count() && j != k implies (
                                #[trigger] self.states@[j])@ != (#[trigger] self.states@[k])@ by {
                                if j < nn && k < nn {
                                    assert(self.states@[j] == prev.states@[j]);
                                    assert(self.states@[k] == prev.states@[k]);
                                } else if j == nn {
                                    assert(self.states@[k] == prev.states@[k]);
                                } else {
                                    assert(self.states@[j] == prev.states@[j]);
                                }
                            }
                            assert forall|j: int, k: int|
                                0 <= j <= k < self.count() implies (
                                #[trigger] self.paths@[j]).len() <= (
                                #[trigger] self.paths@[k]).len() by {
                                if k == nn && j < nn {
                                    assert(self.paths@[j] == prev.paths@[j]);
                                    assert(prev.paths@[j].len() <= prev.paths@[h as int].len() + 1);
                                }
                            }
                            assert forall|k: int|
                                0 <= k < self.count() implies legal_moves(
                                #[trigger] self.paths@[k],
                                n,
                            ) && wall_safe(start, m, self.paths@[k]) && run(start, m, self.paths@[k])
                                == self.node(k) by {
                                if k < nn {
                                    assert(self.paths@[k] == prev.paths@[k]);
                                    assert(self.states@[k] == prev.states@[k]);
                                }
                            }
                            assert forall|k: int|
                                0 < k < self.count() implies (#[trigger] self.parent@[k]) < k
                                && self.paths@[k] == self.paths@[self.parent@[k] as int].push(
                                self.via@[k],
                            ) by {
                                if k < nn {
                                    assert(self.parent@[k] == prev.parent@[k]);
                                    assert(self.via@[k] == prev.via@[k]);
                                    assert(self.paths@[k] == prev.paths@[k]);
                                    assert(self.paths@[self.parent@[k] as int] == prev.paths@[prev.parent@[k] as int]);
                                }
                            }
                            assert forall|k: int| 0 <= k < self.count() implies (
                            #[trigger] self.states@[k])@.len() == n by {
                                if k < nn {
                                    assert(self.states@[k] == prev.states@[k]);
                                }
                            }
                            assert(self.node(0) == prev.node(0));
                            // the new path comes after every recorded one
                            assert(self.sorted()) by {
                                reveal(Search::sorted);
                                reveal(Search::below);
                                assert forall|j: int, k: int|
                                    0 <= j < k < self.count() implies shortlex_lt(
                                    #[trigger] self.paths@[j],
                                    #[trigger] self.paths@[k],
                                ) by {
                                    assert(self.paths@[j] == prev.paths@[j]);
                                    if k < nn {
                                        assert(self.paths@[k] == prev.paths@[k]);
                                        assert(shortlex_lt(prev.paths@[j], prev.paths@[k]));
                                    } else {
                                        assert(shortlex_lt(prev.paths@[j], big_p));
                                    }
                                }
                            }
                            // and comes first among the ways to reach the new state
                            assert forall|k: int|
                                0 <= k < prev.count() implies prev.node(k) != click(
                                prev.node(h as int),
                                m,
                                (t + 1) as int,
                                key,
                            ) by {
                                if prev.node(k) == ints(nv) {
                                    lemma_ints_injective(prev.states@[k]@, nv);
                                }
                            }
                            assert(self.least(start, m, n)) by {
                                reveal(Search::least);
                                assert forall|k: int, q: Seq<(usize, char)>|
                                    #![trigger self.paths@[k], run(start, m, q)]
                                    0 <= k < self.count() && legal_moves(q, n) && wall_safe(start, m, q)
                                        && run(start, m, q) == self.node(k) implies !shortlex_lt(
                                    q,
                                    self.paths@[k],
                                ) by {
                                    if k < nn {
                                        assert(self.paths@[k] == prev.paths@[k]);
                                        assert(self.states@[k] == prev.states@[k]);
                                        assert(prev.node(k) == self.node(k));
                                    } else {
                                        prev.lemma_first_visit(start, m, n, h as int, mv, q);
                                    }
                                }
                            }
                            assert forall|q: Seq<(usize, char)>| shortlex_lt(big_p, q) implies #[trigger] self.below(q) by {
                                reveal(Search::below);
                                assert forall|k: int| 0 <= k < self.count() implies shortlex_lt(
                                    #[trigger] self.paths@[k],
                                    q,
                                ) by {
                                    if k < nn {
                                        assert(self.paths@[k] == prev.paths@[k]);
                                        assert(shortlex_lt(prev.paths@[k], big_p));
                                        lemma_shortlex_trans(prev.paths@[k], big_p, q);
                                    }
                                }
                            }
                        }
                    },
                }
            },
        }
    }

    /// Explores every click from state `h`.
    fn expand_node(
        &mut self,
        h: usize,
        mat: &[Vec<i32>],
        n: usize,
        Ghost(start): Ghost<Seq<int>>,
    )
        requires
            old(self).tree_ok(start, rows(mat@), n as nat),
            old(self).table_ok(),
            h < old(self).count(),
            old(self).depth_bound(h as int),
            old(self).closed_below(rows(mat@), n as nat, h as int),
            n <= mat@.len(),
            forall|r: int| 0 <= r < n ==> (#[trigger] mat@[r])@.len() >= n,
            old(self).sorted(),
            old(self).least(start, rows(mat@), n as nat),
            old(self).below(old(self).paths@[h as int].push((1usize, 'D'))),
        ensures
            final(self).tree_ok(start, rows(mat@), n as nat),
            final(self).table_ok(),
            final(self).extends(old(self)),
            final(self).depth_bound(h as int),
            final(self).closed_below(rows(mat@), n as nat, h + 1),
            final(self).sorted(),
            final(self).least(start, rows(mat@), n as nat),
            n == 0 ==> final(self).below(final(self).paths@[h as int].push((1usize, 'D'))),
            n > 0 ==> final(self).beyond(final(self).paths@[h as int].push((n, 'A'))),
    {
        let ghost m = rows(mat@);
        let ghost orig = *self;
        let mut t: usize = 0;
        while t < n
            invariant
                t <= n,
                n <= mat@.len(),
                m == rows(mat@),
                forall|r: int| 0 <= r < n ==> (#[trigger] mat@[r])@.len() >= n,
                h < orig.count(),
                orig.paths@.len() == orig.count(),
                orig.closed_below(m, n as nat, h as int),
                self.tree_ok(start, m, n as nat),
                self.table_ok(),
                self.extends(&orig),
                self.depth_bound(h as int),
                forall|tt: int, kk: char|
                    1 <= tt <= t && (kk == 'D' || kk == 'A') ==> #[trigger] self.covers(
                        m,
                        h as int,
                        tt,
                        kk,
                    ),
                self.sorted(),
                self.least(start, m, n as nat),
                self.closed_below(m, n as nat, h as int),
                self.paths@[h as int] == orig.paths@[h as int],
                t == 0 ==> self.below(self.paths@[h as int].push((1usize, 'D'))),
                t > 0 ==> self.beyond(self.paths@[h as int].push((t, 'A'))),
            decreases n - t,
        {
            let ghost before = *self;
            let ghost ph = self.paths@[h as int];
            proof {
                if t > 0 {
                    lemma_shortlex_last(ph, (t, 'A'), ((t + 1) as usize, 'D'));
                }
            }
            assert forall|tt: int, kk: char|
                1 <= tt <= n && (kk == 'D' || kk == 'A') && click_rank((tt as usize, kk))
                    < click_rank(((t + 1) as usize, 'D')) implies #[trigger] self.covers(
                m,
                h as int,
                tt,
                kk,
            ) by {}
            self.try_move(h, mat, t, 'D', Ghost(start), Ghost(n as nat));
            let ghost mid = *self;
            proof {
                lemma_shortlex_last(ph, ((t + 1) as usize, 'D'), ((t + 1) as usize, 'A'));
                assert(mid.below(ph.push(((t + 1) as usize, 'A'))));
                assert(mid.paths@[h as int] == ph);
                mid.lemma_closed_grows(&before, m, n as nat, h as int);
                assert forall|tt: int, kk: char|
                    1 <= tt <= n && (kk == 'D' || kk == 'A') && click_rank((tt as usize, kk))
                        < click_rank(((t + 1) as usize, 'A')) implies #[trigger] mid.covers(
                    m,
                    h as int,
                    tt,
                    kk,
                ) by {
                    if tt <= t {
                        assert(before.covers(m, h as int, tt, kk));
                        mid.lemma_covers_grows(&before, m, h as int, tt, kk);
                    }
                }
            }
            self.try_move(h, mat, t, 'A', Ghost(start), Ghost(n as nat));
            proof {
                assert(self.paths@[h as int] == ph);
                self.lemma_closed_grows(&mid, m, n as nat, h as int);
                self.lemma_extends_trans(&mid, &before);
                self.lemma_extends_trans(&before, &orig);
                self.lemma_covers_grows(&mid, m, h as int, (t + 1) as int, 'D');
                assert forall|tt: int, kk: char|
                    1 <= tt <= t + 1 && (kk == 'D' || kk == 'A') implies #[trigger] self.covers(
                    m,
                    h as int,
                    tt,
                    kk,
                ) by {
                    if tt <= t {
                        assert(before.covers(m, h as int, tt, kk));
                        self.lemma_covers_grows(&before, m, h as int, tt, kk);
                    }
                }
            }
            t = t + 1;
        }
        proof {
            self.lemma_closed_grows(&orig, m, n as nat, h as int);
            assert forall|j: int, tt: int, key: char|
                0 <= j < h + 1 && 1 <= tt <= n && (key == 'D' || key == 'A') implies #[trigger] self.covers(
                m,
                j,
                tt,
                key,
            ) by {
                if j < h {
                    assert(self.closed_below(m, n as nat, h as int));
                }
            }
        }
    }

    /// Every wall-safe click sequence from `start` ends in a recorded state no deeper than
    /// the sequence itself, as long as the sequence stays within the explored depth.
    proof fn lemma_paths_recorded(
        &self,
        start: Seq<int>,
        m: Seq<Seq<int>>,
        n: nat,
        h: int,
        moves: Seq<(usize, char)>,
    )
        requires
            self.tree_ok(start, m, n),
            self.closed_below(m, n, h),
            0 <= h <= self.count(),
            h == self.count() || moves.len() <= self.paths@[h].len(),
            legal_moves(moves, n),
            wall_safe(start, m, moves),
        ensures
            self.holds(run(start, m, moves), moves.len() as int),
        decreases moves.len(),
    {
        if moves.len() == 0 {
            assert(self.node(0) == run(start, m, moves));
            assert(self.paths@[0].len() == 0);
        } else {
            let pre = moves.drop_last();
            assert(legal_moves(pre, n)) by {
                assert forall|i: int| 0 <= i < pre.len() implies 1 <= (#[trigger] pre[i]).0 <= n && (
                pre[i].1 == 'D' || pre[i].1 == 'A') by {
                    assert(pre[i] == moves[i]);
                }
            }
            self.lemma_paths_recorded(start, m, n, h, pre);
            let k = choose|k: int|
                0 <= k < self.count() && self.node(k) == run(start, m, pre) && self.paths@[k].len()
                    <= pre.len();
            if h < self.count() && k >= h {
                assert(self.paths@[h].len() <= self.paths@[k].len());
            }
            assert(k < h);
            let last = moves.last();
            assert(last == moves[moves.len() - 1]);
            assert(self.covers(m, k, last.0 as int, last.1));
            assert(run(start, m, moves) == click(self.node(k), m, last.0 as int, last.1));
            assert(within_walls(run(start, m, moves)));
            let k2 = choose|k2: int|
                0 <= k2 < self.count() && self.node(k2) == click(self.node(k), m, last.0 as int, last.1)
                    && self.paths@[k2].len() <= self.paths@[k].len() + 1;
            assert(self.paths@[k2].len() <= moves.len());
        }
    }

    fn new(start: &[i32]) -> (s: Search)
        ensures
            s.table_ok(),
            s.count() == 1,
            s.states@[0]@ == start@,
            s.paths@[0] == Seq::<(usize, char)>::empty(),
            s.parent@.len() == 1,
            s.via@.len() == 1,
            s.paths@.len() == 1,
    {
        let mut first: Vec<i32> = Vec::new();
        let mut i: usize = 0;
        while i < start.len()
            invariant
                i <= start@.len(),
                first@ == start@.subrange(0, i as int),
            decreases start@.len() - i,
        {
            first.push(start[i]);
            i = i + 1;
        }
        assert(first@ =~= start@);
        let mut buckets: Vec<Vec<usize>> = Vec::new();
        let b0 = bucket_index(&first);
        let mut b: usize = 0;
        while b < BUCKETS
            invariant
                b <= BUCKETS,
                b0 < BUCKETS,
                buckets@.len() == b,
                forall|c: int|
                    0 <= c < b ==> (#[trigger] buckets@[c])@ == (if c == b0 {
                        seq![0usize]
                    } else {
                        Seq::<usize>::empty()
                    }),
            decreases BUCKETS - b,
        {
            let mut bucket: Vec<usize> = Vec::new();
            if b == b0 {
                bucket.push(0);
            }
            buckets.push(bucket);
            b = b + 1;
        }
        let mut states: Vec<Vec<i32>> = Vec::new();
        states.push(first);
        let mut parent: Vec<usize> = Vec::new();
        parent.push(0);
        let mut via: Vec<(usize, char)> = Vec::new();
        via.push((0, ' '));
        let ghost p0: Seq<Seq<(usize, char)>> = seq![Seq::<(usize, char)>::empty()];
        let s = Search {
            states,
            parent,
            via,
            buckets,
            paths: Ghost(p0),
        };
        assert(s.buckets@[b0 as int]@ == seq![0usize]);
        reveal(Search::indexed);
        reveal(Search::entries_ok);
        assert(s.buckets@[b0 as int]@.contains(0usize)) by {
            assert(s.buckets@[b0 as int]@[0] == 0usize);
        }
        s
    }

    /// The index of a recorded state equal to `s`, if any.
    fn lookup(&self, s: &Vec<i32>) -> (r: Option<usize>)
        requires
            self.table_ok(),
        ensures
            match r {
                Some(k) => k < self.count() && self.states@[k as int]@ == s@,
                None => forall|k: int| 0 <= k < self.count() ==> self.states@[k]@ != s@,
            },
    {
        let b = bucket_index(s);
        let bucket = &self.buckets[b];
        let total_states = self.states.len();
        let ghost cnt = self.count();
        assert forall|e: int| 0 <= e < bucket@.len() implies (#[trigger] bucket@[e]) < cnt by {
            reveal(Search::entries_ok);
            assert(self.buckets@[b as int]@[e] == bucket@[e]);
        }
        let mut j: usize = 0;
        while j < bucket.len()
            invariant
                cnt == self.states@.len(),
                forall|e: int| 0 <= e < bucket@.len() ==> (#[trigger] bucket@[e]) < cnt,
                j <= bucket@.len(),
                forall|jj: int| 0 <= jj < j ==> self.states@[bucket@[jj] as int]@ != s@,
            decreases bucket@.len() - j,
        {
            let k = bucket[j];
            if same_state(&self.states[k], s) {
                return Some(k);
            }
            j = j + 1;
        }
        assert forall|k: int| 0 <= k < self.count() implies self.states@[k]@ != s@ by {
            if self.states@[k]@ == s@ {
                assert(k < total_states);
                reveal(Search::indexed);
                assert(self.buckets@[bucket_of(self.states@[k]@)]@.contains(k as usize));
                assert(bucket_of(self.states@[k]@) == b as int);
                assert(bucket@.contains(k as usize));
                let jj = choose|jj: int| 0 <= jj < bucket@.len() && bucket@[jj] == k as usize;
                assert(self.states@[bucket@[jj] as int]@ != s@);
                assert(false);
            }
        }
        None
    }

    /// Records a new state `s`, first reached from state `from` by click `mv`.
    fn add(&mut self, s: Vec<i32>, from: usize, mv: (usize, char))
        requires
            old(self).table_ok(),
            old(self).parent@.len() == old(self).count(),
            old(self).via@.len() == old(self).count(),
            old(self).paths@.len() == old(self).count(),
            from < old(self).count(),
            forall|k: int| 0 <= k < old(self).count() ==> old(self).states@[k]@ != s@,
        ensures
            final(self).table_ok(),
            final(self).extends(old(self)),
            final(self).count() == old(self).count() + 1,
            final(self).states@ == old(self).states@.push(s),
            final(self).parent@ == old(self).parent@.push(from),
            final(self).via@ == old(self).via@.push(mv),
            final(self).paths@ == old(self).paths@.push(
                old(self).paths@[from as int].push(mv),
            ),
    {
        let k = self.states.len();
        let b = bucket_index(&s);
        let ghost old_buckets = self.buckets@;
        self.states.push(s);
        self.parent.push(from);
        self.via.push(mv);
        self.buckets[b].push(k);
        proof {
            reveal(Search::indexed);
            reveal(Search::entries_ok);
            self.paths@ = self.paths@.push(self.paths@[from as int].push(mv));
            assert forall|kk: int| 0 <= kk < self.count() implies self.buckets@[bucket_of(
                #[trigger] self.states@[kk]@,
            )]@.contains(kk as usize) by {
                if kk < k {
                    let c = bucket_of(self.states@[kk]@);
                    assert(old(self).buckets@[c]@.contains(kk as usize));
                    let e = choose|e: int|
                        0 <= e < old(self).buckets@[c]@.len() && old(self).buckets@[c]@[e]
                            == kk as usize;
                    assert(self.buckets@[c]@[e] == kk as usize);
                } else {
                    assert(self.buckets@[b as int]@[old_buckets[b as int]@.len() as int]
                        == k);
                }
            }
            assert forall|c: int, e: int|
                0 <= c < BUCKETS && 0 <= e < self.buckets@[c]@.len() implies {
                let x = #[trigger] self.buckets@[c]@[e];
                &&& x < self.count()
                &&& bucket_of(self.states@[x as int]@) == c
            } by {
                if c == b && e == old_buckets[c]@.len() {
                } else {
                    assert(self.buckets@[c]@[e] == old_buckets[c]@[e]);
                }
            }
        }
    }
}

proof fn lemma_expand_bump(before: Seq<(usize, char, usize)>, after: Seq<(usize, char, usize)>)
    requires
        before.len() > 0,
        before.last().2 < usize::MAX,
        after.len() == before.len(),
        after.drop_last() == before.drop_last(),
        after.last() == (before.last().0, before.last().1, (before.last().2 + 1) as usize),
    ensures
        expand(after) == expand(before).push((before.last().0, before.last().1)),
{
    let x = (before.last().0, before.last().1);
    let c = before.last().2;
    let base = expand(before.drop_last());
    assert(expand(before) == base + Seq::new(c as nat, |i: int| x));
    assert(expand(after) == base + Seq::new((c + 1) as nat, |i: int| x));
    assert(Seq::new((c + 1) as nat, |i: int| x) =~= Seq::new(c as nat, |i: int| x).push(x));
    assert(expand(after) =~= expand(before).push(x));
}

proof fn lemma_expand_push(before: Seq<(usize, char, usize)>, t: usize, k: char)
    ensures
        expand(before.push((t, k, 1))) == expand(before).push((t, k)),
{
    let after = before.push((t, k, 1));
    assert(after.drop_last() =~= before);
    assert(expand(after) =~= expand(before).push((t, k)));
}

fn group_presses(path: &Vec<(usize, char)>) -> (steps: Vec<(usize, char, usize)>)
    ensures
        expand(steps@) == path@,
        grouped(steps@),
{
    let mut steps: Vec<(usize, char, usize)> = Vec::new();
    let mut i: usize = 0;
    while i < path.len()
        invariant
            i <= path@.len(),
            expand(steps@) == path@.subrange(0, i as int),
            grouped(steps@),
            i == 0 <==> steps@.len() == 0,
            i > 0 ==> steps@.last().0 == path@[i - 1].0 && steps@.last().1 == path@[i - 1].1,
        decreases path@.len() - i,
    {
        let (t, k) = path[i];
        let len = steps.len();
        if len > 0 && steps[len - 1].0 == t && steps[len - 1].1 == k {
            let c = steps[len - 1].2;
            proof {
                assert(expand(steps@).len() >= c) by {
                    assert(steps@.last() == steps@[len - 1]);
                }
            }
            let ghost before = steps@;
            steps.set(len - 1, (t, k, c + 1));
            proof {
                assert(steps@.drop_last() =~= before.drop_last());
                assert(steps@.last() == (t, k, (c + 1) as usize));
                assert(before.last() == (t, k, c));
                lemma_expand_bump(before, steps@);
                assert(path@.subrange(0, i + 1) =~= path@.subrange(0, i as int).push(path@[i as int]));
                assert forall|j: int| 0 < j < steps@.len() implies ((#[trigger] steps@[j]).0
                    != steps@[j - 1].0 || steps@[j].1 != steps@[j - 1].1) by {
                    if j < len - 1 {
                        assert(steps@[j] == before[j]);
                        assert(steps@[j - 1] == before[j - 1]);
                    } else {
                        assert(steps@[j - 1] == before[j - 1]);
                    }
                }
            }
        } else {
            let ghost before = steps@;
            steps.push((t, k, 1));
            proof {
                lemma_expand_push(before, t, k);
                assert(path@.subrange(0, i + 1) =~= path@.subrange(0, i as int).push(path@[i as int]));
                assert forall|j: int| 0 < j < steps@.len() implies ((#[trigger] steps@[j]).0
                    != steps@[j - 1].0 || steps@[j].1 != steps@[j - 1].1) by {
                    if j < len {
                        assert(steps@[j] == before[j]);
                        assert(steps@[j - 1] == before[j - 1]);
                    } else {
                        assert(steps@[j - 1] == before[j - 1]);
                        assert(before[j - 1] == before.last());
                    }
                }
            }
        }
        i = i + 1;
    }
    assert(path@.subrange(0, path@.len() as int) =~= path@);
    steps
}

/// What a search from `start` with delta rows `m` must return: `None` exactly when no
/// legal wall-safe click sequence opens the lock; otherwise a grouped sequence that opens
/// it, whose press count is `total` and is the fewest of any legal sequence that opens it,
/// and which is the first of the shortest ones in click order: compared from the first
/// click on, (1, D) comes before (1, A), before (2, D), and so on.
pub open spec fn search_result(start: Seq<int>, m: Seq<Seq<int>>, r: Option<Solution>) -> bool {
    match r {
        None => forall|moves: Seq<(usize, char)>|
            legal_moves(moves, start.len()) ==> !#[trigger] opens(start, m, moves),
        Some(sol) => {
            &&& grouped(sol.steps@)
            &&& sol.total == expand(sol.steps@).len()
            &&& legal_moves(expand(sol.steps@), start.len())
            &&& opens(start, m, expand(sol.steps@))
            &&& forall|moves: Seq<(usize, char)>|
                legal_moves(moves, start.len()) && #[trigger] opens(start, m, moves) ==> sol.total
                    <= moves.len()
            &&& forall|moves: Seq<(usize, char)>|
                legal_moves(moves, start.len()) && #[trigger] opens(start, m, moves)
                    ==> !shortlex_lt(moves, expand(sol.steps@))
        },
    }
}

/// Breadth-first search over plate states for the shortest wall-safe key sequence that
/// centres every plate on 4. `mat` needs a delta row for each of the `start.len()` tumblers.
/// Returns `None` exactly when no wall-safe sequence opens the lock.
pub fn solve(start: &[i32], mat: &[Vec<i32>]) -> (r: Option<Solution>)
    requires
        start@.len() <= mat@.len(),
        forall|t: int| 0 <= t < start@.len() ==> (#[trigger] mat@[t])@.len() >= start@.len(),
    ensures
        search_result(ints(start@), rows(mat@), r),
{
    let n = start.len();
    let ghost st = ints(start@);
    let ghost m = rows(mat@);
    let goal = crate::rules::goal(n);
    let mut search = Search::new(start);
    proof {
        assert(search.node(0) == st);
        assert(run(st, m, search.paths@[0]) == st);
        assert(wall_safe(st, m, search.paths@[0]));
        assert(legal_moves(search.paths@[0], n as nat));
        assert(search.tree_ok(st, m, n as nat));
        reveal(Search::sorted);
        reveal(Search::least);
        reveal(Search::below);
        assert(search.paths@[0].push((1usize, 'D')).len() == 1);
    }
    let mut h: usize = 0;
    let mut found = false;
    while !found && h < search.states.len()
        invariant
            n == start@.len(),
            st == ints(start@),
            m == rows(mat@),
            ints(goal@) == goal_state(n as nat),
            n <= mat@.len(),
            forall|r: int| 0 <= r < n ==> (#[trigger] mat@[r])@.len() >= n,
            search.tree_ok(st, m, n as nat),
            search.table_ok(),
            h <= search.count(),
            search.closed_below(m, n as nat, h as int),
            h < search.count() ==> search.depth_bound(h as int),
            found ==> h < search.count() && search.node(h as int) == goal_state(n as nat),
            forall|j: int| 0 <= j < h ==> search.node(j) != goal_state(n as nat),
            search.sorted(),
            search.least(st, m, n as nat),
            h < search.count() ==> search.below(search.paths@[h as int].push((1usize, 'D'))),
        decreases usize::MAX - h + (if found { 0int } else { 1int }),
    {
        if same_state(&search.states[h], &goal) {
            found = true;
        } else {
            proof {
                if search.node(h as int) == goal_state(n as nat) {
                    lemma_ints_injective(search.states@[h as int]@, goal@);
                }
                assert(search.node(h as int) != goal_state(n as nat));
            }
            let ghost before = search;
            search.expand_node(h, mat, n, Ghost(st));
            proof {
                assert forall|j: int| 0 <= j < h + 1 implies search.node(j) != goal_state(n as nat) by {
                    assert(search.states@[j] == before.states@[j]);
                    assert(search.node(j) == before.node(j));
                }
                if h + 1 < search.count() {
                    assert forall|k: int| 0 <= k < search.count() implies (#[trigger] search.paths@[k]).len()
                        <= search.paths@[h + 1].len() + 1 by {
                        assert(search.paths@[h as int].len() <= search.paths@[h + 1].len());
                    }
                    reveal(Search::sorted);
                    assert(shortlex_lt(search.paths@[h as int], search.paths@[h + 1]));
                    let last = if n == 0 {
                        (1usize, 'D')
                    } else {
                        (n, 'A')
                    };
                    lemma_shortlex_push(
                        search.paths@[h as int],
                        search.paths@[h + 1],
                        last,
                        (1usize, 'D'),
                    );
                    if n == 0 {
                        search.lemma_below_grows(
                            search.paths@[h as int].push(last),
                            search.paths@[h + 1].push((1usize, 'D')),
                        );
                    } else {
                        assert(search.beyond(search.paths@[h as int].push(last)));
                    }
                }
            }
            h = h + 1;
        }
    }
    if !found {
        proof {
            assert forall|moves: Seq<(usize, char)>|
                legal_moves(moves, n as nat) implies !#[trigger] opens(st, m, moves) by {
                if opens(st, m, moves) {
                    search.lemma_paths_recorded(st, m, n as nat, h as int, moves);
                    let k = choose|k: int|
                        0 <= k < search.count() && search.node(k) == run(st, m, moves)
                            && search.paths@[k].len() <= moves.len();
                    assert(st.len() == n);
                    assert(search.node(k) != goal_state(n as nat));
                }
            }
        }
        return None;
    }
    let g = h;
    let mut rev: Vec<(usize, char)> = Vec::new();
    let mut cur = g;
    while cur != 0
        invariant
            search.tree_ok(st, m, n as nat),
            g < search.count(),
            cur < search.count(),
            search.paths@[g as int].len() == search.paths@[cur as int].len() + rev@.len(),
            forall|i: int|
                0 <= i < search.paths@[cur as int].len() ==> search.paths@[g as int][i]
                    == search.paths@[cur as int][i],
            forall|i: int|
                0 <= i < rev@.len() ==> search.paths@[g as int][search.paths@[g as int].len() - 1
                    - i] == rev@[i],
        decreases cur,
    {
        let p = search.parent[cur];
        let mv = search.via[cur];
        proof {
            let pc = search.paths@[cur as int];
            let pp = search.paths@[p as int];
            assert(pc == pp.push(mv));
            assert(pc[pc.len() - 1] == mv);
            assert forall|i: int| 0 <= i < pp.len() implies search.paths@[g as int][i] == pp[i] by {
                assert(pc[i] == pp[i]);
            }
        }
        rev.push(mv);
        cur = p;
    }
    let ghost best = search.paths@[g as int];
    let mut path: Vec<(usize, char)> = Vec::new();
    let len = rev.len();
    let mut i: usize = 0;
    while i < len
        invariant
            len == rev@.len(),
            best.len() == len,
            forall|j: int| 0 <= j < len ==> best[best.len() - 1 - j] == rev@[j],
            i <= len,
            path@.len() == i,
            forall|j: int| 0 <= j < i ==> path@[j] == best[j],
        decreases len - i,
    {
        path.push(rev[len - 1 - i]);
        i = i + 1;
    }
    assert(path@ =~= best);
    let steps = group_presses(&path);
    let total = path.len();
    proof {
        assert(search.node(g as int) == goal_state(n as nat));
        assert(st.len() == n);
        assert(opens(st, m, best));
        assert forall|moves: Seq<(usize, char)>|
            legal_moves(moves, n as nat) && #[trigger] opens(st, m, moves) implies total
            <= moves.len() by {
            if moves.len() < total {
                search.lemma_paths_recorded(st, m, n as nat, g as int, moves);
                let k = choose|k: int|
                    0 <= k < search.count() && search.node(k) == run(st, m, moves)
                        && search.paths@[k].len() <= moves.len();
                lemma_ints_injective(search.states@[k]@, search.states@[g as int]@);
                assert(false);
            }
        }
        assert forall|moves: Seq<(usize, char)>|
            legal_moves(moves, n as nat) && #[trigger] opens(st, m, moves) implies !shortlex_lt(
            moves,
            expand(steps@),
        ) by {
            reveal(Search::least);
            assert(run(st, m, moves) == search.node(g as int));
            assert(search.paths@[g as int] == best);
        }
    }
    Some(Solution { total, steps })
}

/// Solves a lock given as rule texts and a start: the start must give one position per
/// rule, and every rule must read (as `build_matrix` reads it).
pub fn solve_lock(rules: Vec<String>, start: Vec<i32>) -> (r: Result<Option<Solution>, String>)
    requires
        matrix_of(rule_texts(rules@)) != Outcome::<Seq<Seq<int>>>::Crash,
    ensures
        match r {
            Err(e) => (start@.len() != rules@.len() && e@
                == "start length must equal the number of rules"@) || (start@.len()
                == rules@.len() && matrix_of(rule_texts(rules@)) == Outcome::<
                Seq<Seq<int>>,
            >::Failure(e@)),
            Ok(o) => start@.len() == rules@.len() && (matrix_of(rule_texts(rules@)) matches Outcome::Value(
                m,
            ) && search_result(ints(start@), m, o)),
        },
{
    if start.len() != rules.len() {
        let msg = chars_of("start length must equal the number of rules");
        return Err(string_of(&msg));
    }
    let mat = match build_matrix(rules.as_slice()) {
        Ok(m) => m,
        Err(e) => return Err(e),
    };
    Ok(solve(start.as_slice(), mat.as_slice()))
}

} // verus!
