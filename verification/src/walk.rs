//! Walking a solution one click at a time, as the step-through view shows it.
use vstd::prelude::*;
use crate::model::{expand, ints, press_count, rows, run};
use crate::history::{parse_solution_steps, solution_steps, string_views, Lock};
use crate::model::Outcome;
use crate::rules::{apply_click, build_matrix, matrix_of, rule_texts};
use crate::text::{chars_of, is_digit, parse_i32, parse_i32_text, push_str, string_of};

verus! {

/// A solution being walked one click at a time.
pub struct StepState {
    pub name: String,
    pub mat: Vec<Vec<i32>>,
    pub start: Vec<i32>,
    /// expanded per click: (tumbler 1..n, key)
    pub clicks: Vec<(usize, char)>,
    /// grouped, 1-based, for display
    pub groups: Vec<(usize, char, usize)>,
    /// clicks applied so far (0..=clicks.len())
    pub idx: usize,
}

/// Every plate of `s` fits in an `i32`.
pub open spec fn fits_i32(s: Seq<int>) -> bool {
    forall|i: int| 0 <= i < s.len() ==> i32::MIN <= #[trigger] s[i] <= i32::MAX
}

/// The group that click `idx` belongs to: the first group whose presses, added to
/// those of the groups before it, pass `idx`.
pub open spec fn group_of(groups: Seq<(usize, char, usize)>, idx: int, g: int) -> Option<usize>
    decreases groups.len() - g,
{
    if g < 0 || g >= groups.len() {
        None
    } else if idx < press_count(groups.take(g + 1)) {
        Some(g as usize)
    } else {
        group_of(groups, idx, g + 1)
    }
}

impl StepState {
    /// A walk of `groups` from `start`, before its first click.
    pub fn new(
        name: String,
        mat: Vec<Vec<i32>>,
        start: Vec<i32>,
        groups: Vec<(usize, char, usize)>,
    ) -> (r: StepState)
        ensures
            r.name == name,
            r.mat == mat,
            r.start == start,
            r.groups == groups,
            r.clicks@ == expand(groups@),
            r.idx == 0,
    {
        let mut clicks: Vec<(usize, char)> = Vec::new();
        let mut g: usize = 0;
        while g < groups.len()
            invariant
                g <= groups@.len(),
                clicks@ == expand(groups@.take(g as int)),
            decreases groups@.len() - g,
        {
            let (t, k, n) = groups[g];
            let ghost before = clicks@;
            let mut j: usize = 0;
            while j < n
                invariant
                    j <= n,
                    clicks@ == before + Seq::new(j as nat, |i: int| (t, k)),
                decreases n - j,
            {
                clicks.push((t, k));
                j = j + 1;
                assert(clicks@ =~= before + Seq::new(j as nat, |i: int| (t, k)));
            }
            assert(groups@.take(g + 1).drop_last() =~= groups@.take(g as int));
            assert(groups@.take(g + 1).last() == groups@[g as int]);
            g = g + 1;
        }
        assert(groups@.take(groups@.len() as int) =~= groups@);
        StepState { name, mat, start, clicks, groups, idx: 0 }
    }

    /// Plate positions after applying the first `idx` clicks.
    pub fn positions(&self) -> (r: Vec<i32>)
        requires
            self.idx <= self.clicks@.len(),
            forall|k: int|
                0 <= k < self.idx ==> 1 <= (#[trigger] self.clicks@[k]).0 <= self.mat@.len(),
            forall|t: int|
                0 <= t < self.mat@.len() ==> (#[trigger] self.mat@[t])@.len() >= self.start@.len(),
            forall|k: int, i: int|
                0 <= k < self.idx && (#[trigger] self.clicks@[k]).1 == 'A' && 0 <= i
                    < self.start@.len() ==> i32::MIN < #[trigger] self.mat@[self.clicks@[k].0 - 1]@[i],
            forall|k: int|
                0 <= k <= self.idx ==> fits_i32(
                    #[trigger] run(ints(self.start@), rows(self.mat@), self.clicks@.take(k)),
                ),
        ensures
            ints(r@) == run(ints(self.start@), rows(self.mat@), self.clicks@.take(self.idx as int)),
    {
        let mut s: Vec<i32> = Vec::new();
        let mut i: usize = 0;
        while i < self.start.len()
            invariant
                i <= self.start@.len(),
                s@ == self.start@.take(i as int),
            decreases self.start@.len() - i,
        {
            s.push(self.start[i]);
            i = i + 1;
            assert(s@ =~= self.start@.take(i as int));
        }
        assert(self.start@.take(self.start@.len() as int) =~= self.start@);
        let ghost st = ints(self.start@);
        let ghost m = rows(self.mat@);
        assert(self.clicks@.take(0) =~= Seq::<(usize, char)>::empty());
        let mut k: usize = 0;
        while k < self.idx
            invariant
                k <= self.idx <= self.clicks@.len(),
                s@.len() == self.start@.len(),
                st == ints(self.start@),
                m == rows(self.mat@),
                ints(s@) == run(st, m, self.clicks@.take(k as int)),
                forall|q: int|
                    0 <= q < self.idx ==> 1 <= (#[trigger] self.clicks@[q]).0 <= self.mat@.len(),
                forall|t: int|
                    0 <= t < self.mat@.len() ==> (#[trigger] self.mat@[t])@.len()
                        >= self.start@.len(),
                forall|q: int, j: int|
                    0 <= q < self.idx && (#[trigger] self.clicks@[q]).1 == 'A' && 0 <= j
                        < self.start@.len() ==> i32::MIN
                        < #[trigger] self.mat@[self.clicks@[q].0 - 1]@[j],
                forall|q: int|
                    0 <= q <= self.idx ==> fits_i32(
                        #[trigger] run(st, m, self.clicks@.take(q)),
                    ),
            decreases self.idx - k,
        {
            let (t, key) = self.clicks[k];
            let ghost next = self.clicks@.take(k + 1);
            assert(next.drop_last() =~= self.clicks@.take(k as int));
            assert(next.last() == self.clicks@[k as int]);
            assert(fits_i32(run(st, m, next)));
            assert(m[t - 1] == ints(self.mat@[t - 1]@));
            assert(key == 'A' ==> forall|j: int|
                0 <= j < s@.len() ==> i32::MIN < #[trigger] self.mat@[t - 1]@[j]) by {
                if key == 'A' {
                    assert forall|j: int| 0 <= j < s@.len() implies i32::MIN
                        < #[trigger] self.mat@[t - 1]@[j] by {
                        assert(self.clicks@[k as int].1 == 'A');
                    }
                }
            }
            apply_click(s.as_mut_slice(), self.mat.as_slice(), t, key);
            assert(ints(s@).len() == s@.len());
            k = k + 1;
        }
        s
    }

    /// Index of the group the next click belongs to (`None` when the walk is complete).
    pub fn current_group(&self) -> (r: Option<usize>)
        requires
            press_count(self.groups@) <= usize::MAX,
        ensures
            r == if self.idx >= self.clicks@.len() {
                None
            } else {
                group_of(self.groups@, self.idx as int, 0)
            },
    {
        if self.idx >= self.clicks.len() {
            return None;
        }
        let mut acc: usize = 0;
        let mut g: usize = 0;
        while g < self.groups.len()
            invariant
                g <= self.groups@.len(),
                self.idx < self.clicks@.len(),
                acc == press_count(self.groups@.take(g as int)),
                press_count(self.groups@) <= usize::MAX,
                group_of(self.groups@, self.idx as int, 0) == group_of(
                    self.groups@,
                    self.idx as int,
                    g as int,
                ),
            decreases self.groups@.len() - g,
        {
            proof {
                lemma_press_count_prefix(self.groups@, g as int + 1);
                assert(self.groups@.take(g + 1).drop_last() =~= self.groups@.take(g as int));
                assert(self.groups@.take(g + 1).last() == self.groups@[g as int]);
            }
            acc = acc + self.groups[g].2;
            if self.idx < acc {
                assert(group_of(self.groups@, self.idx as int, g as int) == Some(g));
                return Some(g);
            }
            g = g + 1;
        }
        None
    }
}

/// A prefix holds no more presses than the whole.
proof fn lemma_press_count_prefix(groups: Seq<(usize, char, usize)>, k: int)
    requires
        0 <= k <= groups.len(),
    ensures
        press_count(groups.take(k)) <= press_count(groups),
    decreases groups.len(),
{
    if k < groups.len() {
        lemma_press_count_prefix(groups.drop_last(), k);
        assert(groups.drop_last().take(k) =~= groups.take(k));
    } else {
        assert(groups.take(k) =~= groups);
    }
}

/// The step to highlight: the current group, or the last one when the walk is complete.
pub fn sel_index(cur: Option<usize>, groups: &[(usize, char, usize)]) -> (r: usize)
    ensures
        r == match cur {
            Some(g) => g as int,
            None => if groups@.len() > 0 {
                groups@.len() - 1
            } else {
                0
            },
        },
{
    match cur {
        Some(g) => g,
        None => groups.len().saturating_sub(1),
    }
}

/// A character of a number in a typed start row: a digit or a minus sign.
pub open spec fn number_char(c: char) -> bool {
    is_digit(c) || c == '-'
}

/// The runs of number characters of `s`, split at every other character (empty runs
/// included), as `str::split` with a predicate gives them.
pub open spec fn number_runs(s: Seq<char>) -> Seq<Seq<char>>
    decreases s.len(),
{
    if s.len() == 0 {
        seq![Seq::empty()]
    } else {
        let p = number_runs(s.drop_last());
        if !number_char(s.last()) {
            p.push(Seq::empty())
        } else {
            p.update(p.len() - 1, p.last().push(s.last()))
        }
    }
}

/// The runs that read as `i32`, in order.
pub open spec fn run_values(parts: Seq<Seq<char>>) -> Seq<i32>
    decreases parts.len(),
{
    if parts.len() == 0 {
        Seq::empty()
    } else {
        let prev = run_values(parts.drop_last());
        match parse_i32(parts.last()) {
            Some(x) => prev.push(x),
            None => prev,
        }
    }
}

proof fn lemma_number_runs_len(s: Seq<char>)
    ensures
        number_runs(s).len() >= 1,
    decreases s.len(),
{
    if s.len() > 0 {
        lemma_number_runs_len(s.drop_last());
    }
}

/// The start row typed in the solve form: exactly six numbers, read from the runs of
/// digits and minus signs.
pub fn parse_start(s: &str) -> (r: Option<Vec<i32>>)
    ensures
        match r {
            Some(v) => v@.len() == 6 && v@ == run_values(number_runs(s@)),
            None => run_values(number_runs(s@)).len() != 6,
        },
{
    let v = chars_of(s);
    let mut nums: Vec<i32> = Vec::new();
    let mut cur: Vec<char> = Vec::new();
    let mut i: usize = 0;
    assert(v@.take(0) =~= Seq::<char>::empty());
    while i < v.len()
        invariant
            i <= v@.len(),
            v@ == s@,
            number_runs(v@.take(i as int)).len() >= 1,
            cur@ == number_runs(v@.take(i as int)).last(),
            nums@ == run_values(number_runs(v@.take(i as int)).drop_last()),
        decreases v@.len() - i,
    {
        let ghost pre = v@.take(i as int);
        let ghost p = number_runs(pre);
        let ghost sub = v@.take(i + 1);
        assert(sub.drop_last() =~= pre);
        assert(sub.last() == v@[i as int]);
        proof {
            lemma_number_runs_len(pre);
        }
        let c = v[i];
        if (c >= '0' && c <= '9') || c == '-' {
            assert(number_char(c));
            cur.push(c);
            assert(number_runs(sub).drop_last() =~= p.drop_last());
        } else {
            assert(!number_char(c)) by {
                if is_digit(c) {
                    assert('0' <= c <= '9');
                }
            }
            let ghost q = number_runs(sub);
            assert(q.drop_last() =~= p);
            assert(p =~= p.drop_last().push(p.last()));
            match parse_i32_text(&cur) {
                Some(x) => {
                    nums.push(x);
                },
                None => {},
            }
            assert(nums@ == run_values(p));
            cur = Vec::new();
        }
        i = i + 1;
    }
    assert(v@.take(v@.len() as int) =~= v@);
    let ghost p = number_runs(v@);
    assert(p =~= p.drop_last().push(p.last()));
    match parse_i32_text(&cur) {
        Some(x) => {
            nums.push(x);
        },
        None => {},
    }
    assert(nums@ == run_values(p));
    if nums.len() == 6 {
        Some(nums)
    } else {
        None
    }
}

/// A three-row keycap around a key letter.
pub fn keycap(k: char) -> (r: [String; 3])
    ensures
        r@[0]@ == "\u{256d}\u{2500}\u{2500}\u{2500}\u{256e}"@,
        r@[1]@ == "\u{2502} "@ + seq![k] + " \u{2502}"@,
        r@[2]@ == "\u{2570}\u{2500}\u{2500}\u{2500}\u{256f}"@,
{
    let mut mid: Vec<char> = Vec::new();
    push_str(&mut mid, "\u{2502} ");
    mid.push(k);
    push_str(&mut mid, " \u{2502}");
    let top = chars_of("\u{256d}\u{2500}\u{2500}\u{2500}\u{256e}");
    let bottom = chars_of("\u{2570}\u{2500}\u{2500}\u{2500}\u{256f}");
    [string_of(&top), string_of(&mid), string_of(&bottom)]
}

fn copy_ints(v: &Vec<i32>) -> (r: Vec<i32>)
    ensures
        r@ == v@,
{
    let mut r: Vec<i32> = Vec::new();
    let mut i: usize = 0;
    while i < v.len()
        invariant
            i <= v@.len(),
            r@ == v@.take(i as int),
        decreases v@.len() - i,
    {
        r.push(v[i]);
        i = i + 1;
        assert(r@ =~= v@.take(i as int));
    }
    assert(v@.take(v@.len() as int) =~= v@);
    r
}

/// A walk of a recorded lock's solution: it needs a start, a solution of step lines for
/// the lock's tumblers, and rules that read.
pub fn step_from_lock(lock: &Lock) -> (r: Result<StepState, String>)
    requires
        matrix_of(rule_texts(lock.rules@)) != Outcome::<Seq<Seq<int>>>::Crash,
    ensures
        match r {
            Err(e) => {
                ||| lock.start is None && e@ == "no start position recorded"@
                ||| lock.start is Some && solution_steps(
                    string_views(lock.solution@),
                    lock.rules@.len() as nat,
                ) is None && e@ == "no step-by-step solution recorded"@
                ||| lock.start is Some && solution_steps(
                    string_views(lock.solution@),
                    lock.rules@.len() as nat,
                ) is Some && matrix_of(rule_texts(lock.rules@)) == Outcome::<
                    Seq<Seq<int>>,
                >::Failure(e@)
            },
            Ok(s) => {
                &&& lock.start matches Some(st) && s.start@ == st@
                &&& solution_steps(string_views(lock.solution@), lock.rules@.len() as nat)
                    == Some(s.groups@)
                &&& matrix_of(rule_texts(lock.rules@)) == Outcome::Value(rows(s.mat@))
                &&& s.name@ == lock.name@
                &&& s.clicks@ == expand(s.groups@)
                &&& s.idx == 0
            },
        },
{
    let start = match &lock.start {
        Some(st) => copy_ints(st),
        None => {
            let msg = chars_of("no start position recorded");
            return Err(string_of(&msg));
        },
    };
    let groups = match parse_solution_steps(lock.solution.as_slice(), lock.rules.len()) {
        Some(g) => g,
        None => {
            let msg = chars_of("no step-by-step solution recorded");
            return Err(string_of(&msg));
        },
    };
    let mat = match build_matrix(lock.rules.as_slice()) {
        Ok(m) => m,
        Err(e) => return Err(e),
    };
    let nv = chars_of(lock.name.as_str());
    Ok(StepState::new(string_of(&nv), mat, start, groups))
}

} // verus!
