//! What the terminal screens decide: the key handling of each screen, and what the
//! screens show, as plain values that the terminal front end draws.
use vstd::prelude::*;
use vstd::arithmetic::div_mod::{
    lemma_add_mod_noop_right, lemma_mod_add_multiples_vanish, lemma_small_mod,
};
use crate::browse::{lock_names, matching, matching_locks};
use crate::history::{string_views, strings_of, Lock};
use crate::render::{joined_ints, push_joined_ints, shown_rule, solution_lines, step_texts};
use crate::rules::{build_matrix, matrix_of, rule_texts};
use crate::solver::{search_result, solve, Solution};
use crate::walk::{number_runs, parse_start, run_values};
use crate::model::{goal_state, ints, press_count, rows, run, Outcome};
use crate::walk::{fits_i32, group_of, StepState};
use crate::text::{
    chars_of, dec, int_text, push_chars, push_dec, push_int, push_str, string_of, trim, trimmed,
};

verus! {

/// A key press, as the screens read it.
#[derive(Clone, Copy, PartialEq, Eq, Structural, Debug)]
pub enum Key {
    /// A character typed without Ctrl.
    Char(char),
    /// A character typed with Ctrl held.
    Ctrl(char),
    Esc,
    Enter,
    Backspace,
    Tab,
    BackTab,
    Up,
    Down,
    Left,
    Right,
    Home,
    End,
    Delete,
    Other,
}

/// The key is character `c`, with or without Ctrl.
pub open spec fn is_char(key: Key, c: char) -> bool {
    key == Key::Char(c) || key == Key::Ctrl(c)
}

/// The browse screen: the name filter, whether it is being typed, whether a delete
/// waits for confirmation, and the selected row of the filtered list.
pub struct BrowseState {
    pub filter: Vec<char>,
    pub filtering: bool,
    pub confirm_delete: bool,
    pub selected: usize,
}

/// The browse state as values.
pub struct BrowseModel {
    pub filter: Seq<char>,
    pub filtering: bool,
    pub confirm_delete: bool,
    pub selected: int,
}

impl BrowseState {
    pub open spec fn model(&self) -> BrowseModel {
        BrowseModel {
            filter: self.filter@,
            filtering: self.filtering,
            confirm_delete: self.confirm_delete,
            selected: self.selected as int,
        }
    }
}

/// What the front end does after a key on the browse screen. Lock positions are in the
/// history's order.
#[derive(Clone, Copy, PartialEq, Eq, Structural, Debug)]
pub enum BrowseAction {
    Nothing,
    Quit,
    ToSolve,
    StartFilter,
    /// Ask whether to delete this lock.
    AskDelete(usize),
    /// Delete this lock.
    Delete(usize),
    /// The delete was not confirmed, or there was nothing to delete.
    CancelDelete,
    /// Walk the solution of this lock.
    Walk(usize),
}

/// The positions of the locks the filter shows: all of them for an empty filter, else
/// those whose name contains it, ignoring case.
pub open spec fn shown(names: Seq<Seq<char>>, filter: Seq<char>) -> Seq<usize> {
    if filter.len() == 0 {
        Seq::new(names.len(), |i: int| i as usize)
    } else {
        matching(names, filter)
    }
}

/// The selection kept inside a list of `n` rows.
pub open spec fn clamped(selected: int, n: int) -> int {
    if n == 0 {
        0
    } else if selected >= n {
        n - 1
    } else {
        selected
    }
}

/// The lock at the selected row, if the row exists.
pub open spec fn selected_lock(names: Seq<Seq<char>>, m: BrowseModel) -> Option<usize> {
    let f = shown(names, m.filter);
    if 0 <= m.selected < f.len() {
        Some(f[m.selected])
    } else {
        None
    }
}

/// The selection moved by `delta` rows, wrapping around; unchanged on an empty list.
pub open spec fn moved(selected: int, delta: int, n: int) -> int {
    if n == 0 {
        selected
    } else {
        (selected + delta) % n
    }
}

/// One key on the browse screen. While a delete waits for confirmation, `y`, `Y` or Enter
/// deletes the selected lock and any other key cancels. While the filter is typed, Esc
/// clears it and stops, Enter stops, Backspace and typed characters edit it (keeping the
/// selection inside the list). Otherwise `q`/Esc quit, Tab goes to the solve screen, `/`
/// starts the filter, `j`/`k` and the arrows move the selection, `d`/Delete asks to
/// delete the selected lock, and Enter walks it.
pub open spec fn browse_step(m: BrowseModel, key: Key, names: Seq<Seq<char>>) -> (
    BrowseModel,
    BrowseAction,
) {
    if m.confirm_delete {
        let m2 = BrowseModel { confirm_delete: false, ..m };
        if is_char(key, 'y') || is_char(key, 'Y') || key == Key::Enter {
            match selected_lock(names, m) {
                Some(i) => (m2, BrowseAction::Delete(i)),
                None => (m2, BrowseAction::CancelDelete),
            }
        } else {
            (m2, BrowseAction::CancelDelete)
        }
    } else if m.filtering {
        match key {
            Key::Esc => (
                BrowseModel { filter: Seq::empty(), filtering: false, ..m },
                BrowseAction::Nothing,
            ),
            Key::Enter => (BrowseModel { filtering: false, ..m }, BrowseAction::Nothing),
            Key::Backspace => {
                let f = if m.filter.len() > 0 {
                    m.filter.drop_last()
                } else {
                    m.filter
                };
                (
                    BrowseModel {
                        filter: f,
                        selected: clamped(m.selected, shown(names, f).len() as int),
                        ..m
                    },
                    BrowseAction::Nothing,
                )
            },
            Key::Char(c) => {
                let f = m.filter.push(c);
                (
                    BrowseModel {
                        filter: f,
                        selected: clamped(m.selected, shown(names, f).len() as int),
                        ..m
                    },
                    BrowseAction::Nothing,
                )
            },
            _ => (m, BrowseAction::Nothing),
        }
    } else {
        let n = shown(names, m.filter).len() as int;
        if is_char(key, 'q') || key == Key::Esc {
            (m, BrowseAction::Quit)
        } else if key == Key::Tab {
            (m, BrowseAction::ToSolve)
        } else if is_char(key, '/') {
            (BrowseModel { filtering: true, ..m }, BrowseAction::StartFilter)
        } else if key == Key::Down || is_char(key, 'j') {
            (BrowseModel { selected: moved(m.selected, 1, n), ..m }, BrowseAction::Nothing)
        } else if key == Key::Up || is_char(key, 'k') {
            (BrowseModel { selected: moved(m.selected, -1, n), ..m }, BrowseAction::Nothing)
        } else if is_char(key, 'd') || key == Key::Delete {
            match selected_lock(names, m) {
                Some(i) => (BrowseModel { confirm_delete: true, ..m }, BrowseAction::AskDelete(i)),
                None => (m, BrowseAction::Nothing),
            }
        } else if key == Key::Enter {
            match selected_lock(names, m) {
                Some(i) => (m, BrowseAction::Walk(i)),
                None => (m, BrowseAction::Nothing),
            }
        } else {
            (m, BrowseAction::Nothing)
        }
    }
}

/// The positions of the locks the filter shows.
pub fn shown_locks(locks: &[Lock], filter: &Vec<char>) -> (r: Vec<usize>)
    ensures
        r@ == shown(lock_names(locks@), filter@),
{
    if filter.len() == 0 {
        let mut out: Vec<usize> = Vec::new();
        let mut i: usize = 0;
        while i < locks.len()
            invariant
                i <= locks@.len(),
                out@ == Seq::new(i as nat, |j: int| j as usize),
            decreases locks@.len() - i,
        {
            out.push(i);
            i = i + 1;
            assert(out@ =~= Seq::new(i as nat, |j: int| j as usize));
        }
        out
    } else {
        let q = string_of(filter);
        matching_locks(locks, q.as_str())
    }
}

fn clamp(selected: usize, n: usize) -> (r: usize)
    ensures
        r as int == clamped(selected as int, n as int),
{
    if n == 0 {
        0
    } else if selected >= n {
        n - 1
    } else {
        selected
    }
}

fn move_by(selected: usize, up: bool, n: usize) -> (r: usize)
    ensures
        r as int == moved(selected as int, if up { -1 } else { 1 }, n as int),
{
    if n == 0 {
        return selected;
    }
    let s = selected % n;
    proof {
        let d: int = if up { -1 } else { 1 };
        lemma_add_mod_noop_right(d, selected as int, n as int);
        assert(d + selected == selected + d);
        lemma_mod_add_multiples_vanish(-1, n as int);
        lemma_mod_add_multiples_vanish(0, n as int);
        if s + 1 < n {
            lemma_small_mod((s + 1) as nat, n as nat);
        }
        if s >= 1 {
            lemma_small_mod((s - 1) as nat, n as nat);
        }
        lemma_small_mod((n - 1) as nat, n as nat);
        lemma_small_mod(0, n as nat);
    }
    if up {
        if s == 0 {
            n - 1
        } else {
            s - 1
        }
    } else {
        if s + 1 == n {
            0
        } else {
            s + 1
        }
    }
}

/// One key on the browse screen: the new state and what the front end does.
pub fn browse_key(st: &BrowseState, key: Key, locks: &[Lock]) -> (r: (BrowseState, BrowseAction))
    ensures
        (r.0.model(), r.1) == browse_step(st.model(), key, lock_names(locks@)),
{
    let ghost names = lock_names(locks@);
    let f = shown_locks(locks, &st.filter);
    let sel: Option<usize> = if st.selected < f.len() {
        Some(f[st.selected])
    } else {
        None
    };
    let filter = copy_chars(&st.filter);
    if st.confirm_delete {
        let next = BrowseState { filter, filtering: st.filtering, confirm_delete: false, selected: st.selected };
        let yes = match key {
            Key::Char(c) => c == 'y' || c == 'Y',
            Key::Ctrl(c) => c == 'y' || c == 'Y',
            Key::Enter => true,
            _ => false,
        };
        if yes {
            match sel {
                Some(i) => (next, BrowseAction::Delete(i)),
                None => (next, BrowseAction::CancelDelete),
            }
        } else {
            (next, BrowseAction::CancelDelete)
        }
    } else if st.filtering {
        match key {
            Key::Esc => (
                BrowseState { filter: Vec::new(), filtering: false, confirm_delete: false, selected: st.selected },
                BrowseAction::Nothing,
            ),
            Key::Enter => (
                BrowseState { filter, filtering: false, confirm_delete: false, selected: st.selected },
                BrowseAction::Nothing,
            ),
            Key::Backspace => {
                let mut nf = filter;
                if nf.len() > 0 {
                    nf.pop();
                }
                let g = shown_locks(locks, &nf);
                let s = clamp(st.selected, g.len());
                (
                    BrowseState { filter: nf, filtering: true, confirm_delete: false, selected: s },
                    BrowseAction::Nothing,
                )
            },
            Key::Char(c) => {
                let mut nf = filter;
                nf.push(c);
                let g = shown_locks(locks, &nf);
                let s = clamp(st.selected, g.len());
                (
                    BrowseState { filter: nf, filtering: true, confirm_delete: false, selected: s },
                    BrowseAction::Nothing,
                )
            },
            _ => (
                BrowseState { filter, filtering: true, confirm_delete: false, selected: st.selected },
                BrowseAction::Nothing,
            ),
        }
    } else {
        let same = BrowseState { filter, filtering: false, confirm_delete: false, selected: st.selected };
        let c: Option<char> = match key {
            Key::Char(c) => Some(c),
            Key::Ctrl(c) => Some(c),
            _ => None,
        };
        if c == Some('q') || key == Key::Esc {
            (same, BrowseAction::Quit)
        } else if key == Key::Tab {
            (same, BrowseAction::ToSolve)
        } else if c == Some('/') {
            (BrowseState { filtering: true, ..same }, BrowseAction::StartFilter)
        } else if key == Key::Down || c == Some('j') {
            let s = move_by(st.selected, false, f.len());
            (BrowseState { selected: s, ..same }, BrowseAction::Nothing)
        } else if key == Key::Up || c == Some('k') {
            let s = move_by(st.selected, true, f.len());
            (BrowseState { selected: s, ..same }, BrowseAction::Nothing)
        } else if c == Some('d') || key == Key::Delete {
            match sel {
                Some(i) => (BrowseState { confirm_delete: true, ..same }, BrowseAction::AskDelete(i)),
                None => (same, BrowseAction::Nothing),
            }
        } else if key == Key::Enter {
            match sel {
                Some(i) => (same, BrowseAction::Walk(i)),
                None => (same, BrowseAction::Nothing),
            }
        } else {
            (same, BrowseAction::Nothing)
        }
    }
}

fn copy_chars(v: &Vec<char>) -> (r: Vec<char>)
    ensures
        r@ == v@,
{
    let mut r: Vec<char> = Vec::new();
    let mut i: usize = 0;
    while i < v.len()
        invariant
            i <= v@.len(),
            r@ == v@.take(i as int),
        decreases v@.len() - i,
    {
        r.push(v[i]);
        i = i + 1;
        assert(r@ =~= v@.take(i as int));
    }
    assert(v@.take(v@.len() as int) =~= v@);
    r
}

/// One key on the step screen: Esc, `q` or `b` leave it (the result is `true`); Right,
/// space, `l` or `n` take the next click; Left, `h` or `p` take one back; Home or `g` go
/// to the start and End or `G` to the end.
pub fn step_key(s: &mut StepState, key: Key) -> (leave: bool)
    requires
        old(s).idx <= old(s).clicks@.len(),
    ensures
        leave == (key == Key::Esc || is_char(key, 'q') || is_char(key, 'b')),
        final(s).name == old(s).name,
        final(s).mat == old(s).mat,
        final(s).start == old(s).start,
        final(s).clicks == old(s).clicks,
        final(s).groups == old(s).groups,
        final(s).idx == if leave {
            old(s).idx as int
        } else if key == Key::Right || is_char(key, ' ') || is_char(key, 'l') || is_char(key, 'n') {
            if old(s).idx < old(s).clicks@.len() {
                old(s).idx + 1
            } else {
                old(s).idx as int
            }
        } else if key == Key::Left || is_char(key, 'h') || is_char(key, 'p') {
            if old(s).idx > 0 {
                old(s).idx - 1
            } else {
                old(s).idx as int
            }
        } else if key == Key::Home || is_char(key, 'g') {
            0
        } else if key == Key::End || is_char(key, 'G') {
            old(s).clicks@.len() as int
        } else {
            old(s).idx as int
        },
{
    let c: Option<char> = match key {
        Key::Char(c) => Some(c),
        Key::Ctrl(c) => Some(c),
        _ => None,
    };
    if key == Key::Esc || c == Some('q') || c == Some('b') {
        return true;
    }
    if key == Key::Right || c == Some(' ') || c == Some('l') || c == Some('n') {
        if s.idx < s.clicks.len() {
            s.idx = s.idx + 1;
        }
    } else if key == Key::Left || c == Some('h') || c == Some('p') {
        if s.idx > 0 {
            s.idx = s.idx - 1;
        }
    } else if key == Key::Home || c == Some('g') {
        s.idx = 0;
    } else if key == Key::End || c == Some('G') {
        s.idx = s.clicks.len();
    }
    false
}

/// How a step of the list is marked: the one under way, one already done, one to come.
#[derive(Clone, Copy, PartialEq, Eq, Structural, Debug)]
pub enum Mark {
    Current,
    Done,
    Pending,
}

/// The mark of group `g` when `cur` is the group under way (`None` once the walk is done).
pub open spec fn mark_of(g: int, cur: Option<usize>) -> Mark {
    match cur {
        Some(c) => if g == c {
            Mark::Current
        } else if g < c {
            Mark::Done
        } else {
            Mark::Pending
        },
        None => Mark::Done,
    }
}

/// The arrows of a move: one per press, `→` for [D] (plate right), `←` otherwise,
/// separated by spaces.
pub open spec fn arrows_text(key: char, n: nat) -> Seq<char>
    decreases n,
{
    let a = if key == 'D' {
        '\u{2192}'
    } else {
        '\u{2190}'
    };
    if n == 0 {
        Seq::empty()
    } else if n == 1 {
        seq![a]
    } else {
        arrows_text(key, (n - 1) as nat) + seq![' ', a]
    }
}

/// The number of plates on 4.
pub open spec fn centred(s: Seq<int>) -> nat
    decreases s.len(),
{
    if s.len() == 0 {
        0
    } else {
        centred(s.drop_last()) + if s.last() == 4 {
            1nat
        } else {
            0nat
        }
    }
}

/// What the step screen shows of a walk.
pub struct StepView {
    /// The plate positions after the clicks taken.
    pub positions: Vec<i32>,
    /// Every plate is on 4 and every click has been taken.
    pub solved: bool,
    /// The group of the next click.
    pub current: Option<usize>,
    /// The tumbler of the next click.
    pub target: Option<usize>,
    /// How many plates sit on 4.
    pub centered: usize,
    /// The mark of each step of the list.
    pub marks: Vec<Mark>,
    /// The arrows of the current move (empty when there is none).
    pub arrows: Vec<char>,
}

/// What the step screen shows of a walk.
pub fn step_view(s: &StepState) -> (r: StepView)
    requires
        s.idx <= s.clicks@.len(),
        forall|k: int| 0 <= k < s.idx ==> 1 <= (#[trigger] s.clicks@[k]).0 <= s.mat@.len(),
        forall|t: int| 0 <= t < s.mat@.len() ==> (#[trigger] s.mat@[t])@.len() >= s.start@.len(),
        forall|k: int, i: int|
            0 <= k < s.idx && (#[trigger] s.clicks@[k]).1 == 'A' && 0 <= i < s.start@.len()
                ==> i32::MIN < #[trigger] s.mat@[s.clicks@[k].0 - 1]@[i],
        forall|k: int|
            0 <= k <= s.idx ==> fits_i32(
                #[trigger] run(ints(s.start@), rows(s.mat@), s.clicks@.take(k)),
            ),
        press_count(s.groups@) <= usize::MAX,
    ensures
        ints(r.positions@) == run(ints(s.start@), rows(s.mat@), s.clicks@.take(s.idx as int)),
        r.solved == (ints(r.positions@) == goal_state(s.start@.len()) && s.idx
            == s.clicks@.len()),
        r.current == (if s.idx >= s.clicks@.len() {
            None
        } else {
            group_of(s.groups@, s.idx as int, 0)
        }),
        r.target == match r.current {
            Some(g) => Some(s.groups@[g as int].0),
            None => None::<usize>,
        },
        r.centered == centred(ints(r.positions@)),
        r.marks@.len() == s.groups@.len(),
        forall|g: int| 0 <= g < s.groups@.len() ==> r.marks@[g] == mark_of(g, r.current),
        r.arrows@ == match r.current {
            Some(g) => arrows_text(s.groups@[g as int].1, s.groups@[g as int].2 as nat),
            None => Seq::<char>::empty(),
        },
{
    let pos = s.positions();
    let cur = s.current_group();
    let ng = s.groups.len();
    proof {
        lemma_run_len(ints(s.start@), rows(s.mat@), s.clicks@.take(s.idx as int));
        if cur is Some {
            lemma_group_of_range(s.groups@, s.idx as int, 0);
        }
    }
    // plates on 4, and whether all are
    let mut centered: usize = 0;
    let mut all4 = true;
    let mut i: usize = 0;
    while i < pos.len()
        invariant
            i <= pos@.len(),
            centered as int == centred(ints(pos@.take(i as int))),
            centered <= i,
            all4 == (forall|j: int| 0 <= j < i ==> pos@[j] == 4),
        decreases pos@.len() - i,
    {
        let ghost pre = ints(pos@.take(i as int));
        assert(ints(pos@.take(i + 1)).drop_last() =~= pre);
        assert(ints(pos@.take(i + 1)).last() == pos@[i as int] as int);
        if pos[i] == 4 {
            centered = centered + 1;
        } else {
            all4 = false;
        }
        i = i + 1;
    }
    assert(pos@.take(pos@.len() as int) =~= pos@);
    assert(ints(pos@).len() == pos@.len());
    assert(ints(pos@).len() == s.start@.len());
    proof {
        if all4 {
            assert(ints(pos@) =~= goal_state(s.start@.len()));
        } else {
            let j = choose|j: int| 0 <= j < pos@.len() && pos@[j] != 4;
            assert(ints(pos@)[j] != goal_state(s.start@.len())[j]);
        }
    }
    let solved = all4 && s.idx == s.clicks.len();
    let target = match cur {
        Some(g) => Some(s.groups[g].0),
        None => None,
    };
    let mut marks: Vec<Mark> = Vec::new();
    let mut g: usize = 0;
    while g < s.groups.len()
        invariant
            g <= s.groups@.len(),
            marks@.len() == g,
            forall|q: int| 0 <= q < g ==> marks@[q] == mark_of(q, cur),
        decreases s.groups@.len() - g,
    {
        let m = match cur {
            Some(c) => if g == c {
                Mark::Current
            } else if g < c {
                Mark::Done
            } else {
                Mark::Pending
            },
            None => Mark::Done,
        };
        marks.push(m);
        g = g + 1;
    }
    let mut arrows: Vec<char> = Vec::new();
    match cur {
        Some(c) => {
            let (_, k, n) = s.groups[c];
            let a = if k == 'D' {
                '\u{2192}'
            } else {
                '\u{2190}'
            };
            let mut j: usize = 0;
            while j < n
                invariant
                    j <= n,
                    arrows@ == arrows_text(k, j as nat),
                    a == (if k == 'D' {
                        '\u{2192}'
                    } else {
                        '\u{2190}'
                    }),
                decreases n - j,
            {
                if j > 0 {
                    arrows.push(' ');
                }
                arrows.push(a);
                j = j + 1;
                assert(arrows@ =~= arrows_text(k, j as nat));
            }
        },
        None => {},
    }
    StepView { positions: pos, solved, current: cur, target, centered, marks, arrows }
}

proof fn lemma_run_len(start: Seq<int>, m: Seq<Seq<int>>, moves: Seq<(usize, char)>)
    ensures
        run(start, m, moves).len() == start.len(),
    decreases moves.len(),
{
    if moves.len() > 0 {
        lemma_run_len(start, m, moves.drop_last());
    }
}

proof fn lemma_group_of_range(groups: Seq<(usize, char, usize)>, idx: int, g: int)
    requires
        0 <= g,
        groups.len() <= usize::MAX,
    ensures
        group_of(groups, idx, g) matches Some(x) ==> g <= x < groups.len(),
    decreases groups.len() - g,
{
    if g < groups.len() && !(idx < press_count(groups.take(g + 1))) {
        lemma_group_of_range(groups, idx, g + 1);
    }
}

/// A colour of the step screen.
#[derive(Clone, Copy, PartialEq, Eq, Structural, Debug)]
pub enum Tint {
    Rgb(u8, u8, u8),
    Green,
    Yellow,
    Plain,
}

/// `a - b`, or 0 when `b` is larger.
pub open spec fn less_or_zero(a: int, b: int) -> int {
    if b > a {
        0
    } else {
        a - b
    }
}

/// The grey of plate `t`: tumbler 1 (t = 0) is brightest, deeper plates darker.
pub open spec fn plate_grey(t: nat) -> int {
    less_or_zero(235, (20 * t) as int)
}

/// The brass of the pin of plate `t`.
pub open spec fn brass(t: nat) -> Tint {
    Tint::Rgb(
        less_or_zero(225, (16 * t) as int) as u8,
        less_or_zero(155, (12 * t) as int) as u8,
        less_or_zero(65, (8 * t) as int) as u8,
    )
}

/// Slot `c` (0..15) of plate `t` at position `p`. The pin sits in slot 7 over hole `p`;
/// the hole under slot `c` is `p + c - 7`: the goal hole 4, the holes 1..7, the plate's
/// left edge at 0 and right edge at 8, nothing beyond.
pub open spec fn plate_cell(t: nat, p: int, is_target: bool, c: int) -> (char, Tint) {
    let g = plate_grey(t);
    let h = p + c - 7;
    if c == 7 {
        (
            '\u{25c9}',
            if p == 4 {
                Tint::Green
            } else if is_target {
                Tint::Rgb(255, 190, 70)
            } else {
                brass(t)
            },
        )
    } else if h == 4 {
        ('\u{25cc}', Tint::Rgb(90, 180, 180))
    } else if 1 <= h <= 7 {
        ('\u{25cb}', Tint::Rgb((g / 3) as u8, (g / 3) as u8, (g / 3) as u8))
    } else if h == 0 {
        ('\u{2595}', Tint::Rgb(g as u8, g as u8, g as u8))
    } else if h == 8 {
        ('\u{258f}', Tint::Rgb(g as u8, g as u8, g as u8))
    } else {
        (' ', Tint::Plain)
    }
}

/// One plate row of the step screen: the plate's grey, its 15 slots, and the mark after
/// them (`✓` on 4, else the position).
pub struct PlateLine {
    pub plate: Tint,
    pub cells: Vec<(char, Tint)>,
    pub mark: Vec<char>,
    pub mark_tint: Tint,
}

fn sub_or_zero(a: u8, b: u8) -> (r: u8)
    ensures
        r as int == less_or_zero(a as int, b as int),
{
    if b > a {
        0
    } else {
        a - b
    }
}

/// Plate `t` (0-based) at position `p`.
pub fn plate_line(t: usize, p: i32, is_target: bool) -> (r: PlateLine)
    requires
        t <= 12,
        i32::MIN + 7 <= p <= i32::MAX - 7,
    ensures
        r.plate == Tint::Rgb(plate_grey(t as nat) as u8, plate_grey(t as nat) as u8, plate_grey(
            t as nat,
        ) as u8),
        r.cells@.len() == 15,
        forall|c: int| 0 <= c < 15 ==> r.cells@[c] == plate_cell(t as nat, p as int, is_target, c),
        r.mark@ == if p == 4 {
            seq!['\u{2713}']
        } else {
            int_text(p as int)
        },
        r.mark_tint == if p == 4 {
            Tint::Green
        } else {
            r.plate
        },
{
    let d: u8 = t as u8;
    let g = sub_or_zero(235, d * 20);
    let third = g / 3;
    let plate = Tint::Rgb(g, g, g);
    let hole = Tint::Rgb(third, third, third);
    let pin = Tint::Rgb(sub_or_zero(225, d * 16), sub_or_zero(155, d * 12), sub_or_zero(65, d * 8));
    let mut cells: Vec<(char, Tint)> = Vec::new();
    let mut c: i32 = 0;
    while c < 15
        invariant
            0 <= c <= 15,
            t <= 12,
            d as int == t as int,
            g as int == plate_grey(t as nat),
            third as int == g / 3,
            plate == Tint::Rgb(g, g, g),
            hole == Tint::Rgb(third, third, third),
            pin == brass(t as nat),
            i32::MIN + 7 <= p <= i32::MAX - 7,
            cells@.len() == c,
            forall|q: int| 0 <= q < c ==> cells@[q] == plate_cell(t as nat, p as int, is_target, q),
        decreases 15 - c,
    {
        let h = p + (c - 7);
        let cell = if c == 7 {
            (
                '\u{25c9}',
                if p == 4 {
                    Tint::Green
                } else if is_target {
                    Tint::Rgb(255, 190, 70)
                } else {
                    pin
                },
            )
        } else if h == 4 {
            ('\u{25cc}', Tint::Rgb(90, 180, 180))
        } else if 1 <= h && h <= 7 {
            ('\u{25cb}', hole)
        } else if h == 0 {
            ('\u{2595}', plate)
        } else if h == 8 {
            ('\u{258f}', plate)
        } else {
            (' ', Tint::Plain)
        };
        cells.push(cell);
        c = c + 1;
    }
    let mut mark: Vec<char> = Vec::new();
    let mark_tint = if p == 4 {
        mark.push('\u{2713}');
        Tint::Green
    } else {
        push_int(&mut mark, p);
        plate
    };
    assert(mark@ =~= if p == 4 {
        seq!['\u{2713}']
    } else {
        int_text(p as int)
    });
    PlateLine { plate, cells, mark, mark_tint }
}

/// A row of the lock list: `[✓] name` for a lock with a solution, `[ ] name` otherwise.
pub open spec fn list_item(l: Lock) -> Seq<char> {
    seq!['['] + (if l.solution@.len() == 0 {
        seq![' ']
    } else {
        seq!['\u{2713}']
    }) + seq![']', ' '] + l.name@
}

/// The lock list of the browse screen: a row for each lock the filter shows, and the
/// selected row kept inside the list (`None` for an empty list).
pub fn browse_lines(locks: &[Lock], filter: &Vec<char>, selected: usize) -> (r: (
    Vec<String>,
    Option<usize>,
))
    ensures
        r.0@.len() == shown(lock_names(locks@), filter@).len(),
        forall|i: int|
            0 <= i < r.0@.len() ==> (#[trigger] r.0@[i])@ == list_item(
                locks@[shown(lock_names(locks@), filter@)[i] as int],
            ),
        r.1 == if shown(lock_names(locks@), filter@).len() == 0 {
            None
        } else {
            Some(clamped(selected as int, shown(lock_names(locks@), filter@).len() as int) as usize)
        },
{
    let f = shown_locks(locks, filter);
    let ghost fs = shown(lock_names(locks@), filter@);
    let nl = locks.len();
    assert(lock_names(locks@).len() == nl);
    proof {
        lemma_shown_range(lock_names(locks@), filter@);
    }
    let mut out: Vec<String> = Vec::new();
    let mut i: usize = 0;
    while i < f.len()
        invariant
            f@ == fs,
            fs == shown(lock_names(locks@), filter@),
            forall|k: int| 0 <= k < fs.len() ==> fs[k] < locks@.len(),
            i <= f@.len(),
            out@.len() == i,
            forall|k: int| 0 <= k < i ==> (#[trigger] out@[k])@ == list_item(locks@[fs[k] as int]),
        decreases f@.len() - i,
    {
        let l = &locks[f[i]];
        let mut line: Vec<char> = Vec::new();
        line.push('[');
        if l.solution.len() == 0 {
            line.push(' ');
        } else {
            line.push('\u{2713}');
        }
        line.push(']');
        line.push(' ');
        push_str(&mut line, l.name.as_str());
        assert(line@ =~= list_item(*l));
        out.push(string_of(&line));
        i = i + 1;
    }
    let sel = if f.len() == 0 {
        None
    } else {
        Some(clamp(selected, f.len()))
    };
    (out, sel)
}

proof fn lemma_matching_range(names: Seq<Seq<char>>, q: Seq<char>)
    requires
        names.len() <= usize::MAX,
    ensures
        forall|k: int| 0 <= k < matching(names, q).len() ==> matching(names, q)[k] < names.len(),
    decreases names.len(),
{
    if names.len() > 0 {
        let pre = names.drop_last();
        lemma_matching_range(pre, q);
        let m = matching(names, q);
        let m0 = matching(pre, q);
        assert forall|k: int| 0 <= k < m.len() implies m[k] < names.len() by {
            if k < m0.len() {
                assert(m[k] == m0[k]);
            } else {
                assert(m[k] == (names.len() - 1) as usize);
            }
        }
    }
}

proof fn lemma_shown_range(names: Seq<Seq<char>>, filter: Seq<char>)
    requires
        names.len() <= usize::MAX,
    ensures
        forall|k: int| 0 <= k < shown(names, filter).len() ==> shown(names, filter)[k] < names.len(),
{
    lemma_matching_range(names, filter);
}

/// The browse state with its selection kept inside the list the filter shows of `locks`,
/// as after the list changed (a lock deleted).
pub fn keep_selection(st: &BrowseState, locks: &[Lock]) -> (r: BrowseState)
    ensures
        r.model() == (BrowseModel {
            selected: clamped(
                st.selected as int,
                shown(lock_names(locks@), st.filter@).len() as int,
            ),
            ..st.model()
        }),
{
    let n = shown_locks(locks, &st.filter).len();
    BrowseState {
        filter: copy_chars(&st.filter),
        filtering: st.filtering,
        confirm_delete: st.confirm_delete,
        selected: clamp(st.selected, n),
    }
}

/// The rule rows of a lock's details: `  <i>: <rule>`, counted from 1, an empty rule
/// shown as `-`.
pub fn lock_rule_rows(l: &Lock) -> (r: Vec<String>)
    ensures
        r@.len() == l.rules@.len(),
        forall|i: int|
            0 <= i < r@.len() ==> (#[trigger] r@[i])@ == "  "@ + dec((i + 1) as nat) + ": "@
                + shown_rule(l.rules@[i]@),
{
    let mut out: Vec<String> = Vec::new();
    let mut i: usize = 0;
    while i < l.rules.len()
        invariant
            i <= l.rules@.len(),
            out@.len() == i,
            forall|k: int|
                0 <= k < i ==> (#[trigger] out@[k])@ == "  "@ + dec((k + 1) as nat) + ": "@
                    + shown_rule(l.rules@[k]@),
        decreases l.rules@.len() - i,
    {
        let mut v: Vec<char> = Vec::new();
        push_str(&mut v, "  ");
        push_dec(&mut v, (i + 1) as u64);
        push_str(&mut v, ": ");
        let r = chars_of(l.rules[i].as_str());
        if r.len() == 0 {
            push_str(&mut v, "-");
        } else {
            push_chars(&mut v, &r);
        }
        proof {
            assert(shown_rule(l.rules@[i as int]@) == (if r@.len() == 0 {
                "-"@
            } else {
                r@
            }));
        }
        out.push(string_of(&v));
        i = i + 1;
    }
    out
}

/// A lock's start positions as `[a, b, ...]`, when it has them.
pub fn lock_start_text(l: &Lock) -> (r: Option<String>)
    ensures
        match l.start {
            None => r is None,
            Some(s) => r matches Some(t) && t@ == "["@ + joined_ints(s@) + "]"@,
        },
{
    match &l.start {
        None => None,
        Some(s) => {
            let mut v: Vec<char> = Vec::new();
            push_str(&mut v, "[");
            push_joined_ints(&mut v, s.as_slice());
            push_str(&mut v, "]");
            Some(string_of(&v))
        },
    }
}

/// A lock's solution rows, each indented by two spaces.
pub fn lock_step_rows(l: &Lock) -> (r: Vec<String>)
    ensures
        r@.len() == l.solution@.len(),
        forall|i: int| 0 <= i < r@.len() ==> (#[trigger] r@[i])@ == "  "@ + l.solution@[i]@,
{
    let mut out: Vec<String> = Vec::new();
    let mut i: usize = 0;
    while i < l.solution.len()
        invariant
            i <= l.solution@.len(),
            out@.len() == i,
            forall|k: int| 0 <= k < i ==> (#[trigger] out@[k])@ == "  "@ + l.solution@[k]@,
        decreases l.solution@.len() - i,
    {
        let mut v: Vec<char> = Vec::new();
        push_str(&mut v, "  ");
        push_str(&mut v, l.solution[i].as_str());
        out.push(string_of(&v));
        i = i + 1;
    }
    out
}

/// The text of the filter box: `None` for the placeholder (an empty filter not being
/// typed), else the filter, followed by a cursor while it is typed.
pub fn filter_line(st: &BrowseState) -> (r: Option<String>)
    ensures
        r matches Some(t) ==> t@ == st.filter@ + if st.filtering {
            seq!['\u{258f}']
        } else {
            Seq::empty()
        },
        r is None <==> (st.filter@.len() == 0 && !st.filtering),
{
    if st.filter.len() == 0 && !st.filtering {
        return None;
    }
    let mut t = copy_chars(&st.filter);
    if st.filtering {
        t.push('\u{258f}');
    }
    Some(string_of(&t))
}

/// The solve form: the name, six rule fields, the start field, and the focused field
/// (0 the name, 1..=6 the rules, 7 the start).
pub struct SolveForm {
    pub name: Vec<char>,
    pub rules: Vec<Vec<char>>,
    pub start: Vec<char>,
    pub focus: usize,
}

/// What the front end does after a key on the solve screen.
#[derive(Clone, Copy, PartialEq, Eq, Structural, Debug)]
pub enum SolveAction {
    Nothing,
    /// Back to the browse screen.
    Back,
    /// Walk the solved lock.
    Walk,
    /// Save the solved lock to the history.
    Save,
    /// Solve the form.
    Run,
}

/// The text of field `f` of the form.
pub open spec fn field(form: SolveForm, f: int) -> Seq<char> {
    if f == 0 {
        form.name@
    } else if 1 <= f <= 6 {
        form.rules@[f - 1]@
    } else {
        form.start@
    }
}

/// The focused field's text after a Backspace (`pop`) or after typing `c`.
pub open spec fn edit(e: Seq<char>, pop: bool, c: char) -> Seq<char> {
    if !pop {
        e.push(c)
    } else if e.len() > 0 {
        e.drop_last()
    } else {
        e
    }
}

/// `new` is `old` with the focused field holding `e` and the other fields unchanged.
pub open spec fn edited(old: SolveForm, new: SolveForm, e: Seq<char>) -> bool {
    &&& new.focus == old.focus
    &&& new.rules@.len() == 6
    &&& forall|f: int|
        0 <= f <= 7 ==> #[trigger] field(new, f) == if f == old.focus || (f == 7 && old.focus
            > 7) {
            e
        } else {
            field(old, f)
        }
}

fn focused_mut(form: &mut SolveForm, pop: bool, c: char)
    requires
        old(form).rules@.len() == 6,
    ensures
        edited(*old(form), *final(form), edit(field(*old(form), old(form).focus as int), pop, c)),
{
    let ghost e = edit(field(*old(form), old(form).focus as int), pop, c);
    if form.focus == 0 {
        if pop {
            if form.name.len() > 0 {
                form.name.pop();
            }
        } else {
            form.name.push(c);
        }
    } else if form.focus <= 6 {
        let k = form.focus - 1;
        let mut r = copy_chars(&form.rules[k]);
        if pop {
            if r.len() > 0 {
                r.pop();
            }
        } else {
            r.push(c);
        }
        form.rules.set(k, r);
    } else {
        if pop {
            if form.start.len() > 0 {
                form.start.pop();
            }
        } else {
            form.start.push(c);
        }
    }
    assert forall|f: int| 0 <= f <= 7 implies #[trigger] field(*form, f) == if f == old(form).focus
        || (f == 7 && old(form).focus > 7) {
        e
    } else {
        field(*old(form), f)
    } by {}
}

/// One key on the solve screen: Esc goes back, Ctrl-W walks and Ctrl-S saves the solved
/// lock, Tab/Down and BackTab/Up move the focus round the eight fields, Enter solves,
/// Backspace and typed characters edit the focused field.
pub fn solve_key(form: &mut SolveForm, key: Key) -> (r: SolveAction)
    requires
        old(form).rules@.len() == 6,
        old(form).focus < 8,
    ensures
        r == match key {
            Key::Esc => SolveAction::Back,
            Key::Ctrl('w') => SolveAction::Walk,
            Key::Ctrl('s') => SolveAction::Save,
            Key::Enter => SolveAction::Run,
            _ => SolveAction::Nothing,
        },
        final(form).rules@.len() == 6,
        final(form).focus < 8,
        match key {
            Key::Tab | Key::Down => final(form).focus == (old(form).focus + 1) % 8
                && final(form).name == old(form).name && final(form).rules == old(form).rules
                && final(form).start == old(form).start,
            Key::BackTab | Key::Up => final(form).focus == (old(form).focus + 7) % 8
                && final(form).name == old(form).name && final(form).rules == old(form).rules
                && final(form).start == old(form).start,
            Key::Backspace => edited(
                *old(form),
                *final(form),
                edit(field(*old(form), old(form).focus as int), true, ' '),
            ),
            Key::Char(c) => edited(
                *old(form),
                *final(form),
                edit(field(*old(form), old(form).focus as int), false, c),
            ),
            _ => *final(form) == *old(form),
        },
{
    match key {
        Key::Esc => SolveAction::Back,
        Key::Ctrl('w') => SolveAction::Walk,
        Key::Ctrl('s') => SolveAction::Save,
        Key::Enter => SolveAction::Run,
        Key::Tab | Key::Down => {
            form.focus = (form.focus + 1) % 8;
            SolveAction::Nothing
        },
        Key::BackTab | Key::Up => {
            form.focus = (form.focus + 7) % 8;
            SolveAction::Nothing
        },
        Key::Backspace => {
            focused_mut(form, true, ' ');
            SolveAction::Nothing
        },
        Key::Char(c) => {
            focused_mut(form, false, c);
            SolveAction::Nothing
        },
        _ => SolveAction::Nothing,
    }
}

/// What solving the form gave.
pub enum SolveResult {
    /// Nothing solved yet.
    Empty,
    /// The form could not be solved: the message.
    Failed(String),
    /// Solved: the total presses, the solution lines, and the lock as solved.
    Solved {
        total: usize,
        lines: Vec<String>,
        mat: Vec<Vec<i32>>,
        start: Vec<i32>,
        groups: Vec<(usize, char, usize)>,
    },
}

/// The rule fields as rule texts.
pub open spec fn form_rules(form: SolveForm) -> Seq<Seq<char>> {
    Seq::new(form.rules@.len(), |i: int| form.rules@[i]@)
}

/// Solves the form: the start field must hold six numbers (else `bad_start`), the rules
/// must read (else their error), and the lock must have a solution (else `no_solution`).
pub fn run_solve(form: &SolveForm, bad_start: &str, no_solution: &str) -> (r: SolveResult)
    requires
        form.rules@.len() == 6,
        matrix_of(form_rules(*form)) != Outcome::<Seq<Seq<int>>>::Crash,
    ensures
        match r {
            SolveResult::Empty => false,
            SolveResult::Failed(e) => {
                ||| run_values(number_runs(form.start@)).len() != 6 && e@ == bad_start@
                ||| run_values(number_runs(form.start@)).len() == 6 && matrix_of(
                    form_rules(*form),
                ) == Outcome::<Seq<Seq<int>>>::Failure(e@)
                ||| run_values(number_runs(form.start@)).len() == 6 && (matrix_of(
                    form_rules(*form),
                ) matches Outcome::Value(m) && search_result(
                    ints(run_values(number_runs(form.start@))),
                    m,
                    None,
                )) && e@ == no_solution@
            },
            SolveResult::Solved { total, lines, mat, start, groups } => {
                &&& start@ == run_values(number_runs(form.start@))
                &&& start@.len() == 6
                &&& matrix_of(form_rules(*form)) == Outcome::Value(rows(mat@))
                &&& search_result(ints(start@), rows(mat@), Some(Solution { total, steps: groups }))
                &&& string_views(lines@) == step_texts(groups@)
            },
        },
{
    let text = string_of(&form.start);
    let start = match parse_start(text.as_str()) {
        Some(s) => s,
        None => {
            let v = chars_of(bad_start);
            return SolveResult::Failed(string_of(&v));
        },
    };
    let rules = strings_of(&form.rules);
    assert(rule_texts(rules@) =~= form_rules(*form));
    let mat = match build_matrix(rules.as_slice()) {
        Ok(m) => m,
        Err(e) => return SolveResult::Failed(e),
    };
    match solve(start.as_slice(), mat.as_slice()) {
        None => {
            let v = chars_of(no_solution);
            SolveResult::Failed(string_of(&v))
        },
        Some(sol) => {
            let lines = solution_lines(&sol);
            let Solution { total, steps } = sol;
            SolveResult::Solved { total, lines, mat, start, groups: steps }
        },
    }
}

/// The result pane: `empty` before solving; `✗ <message>` on failure; when solved,
/// `✓ <total> <suffix>` and then each solution line indented by two spaces.
pub fn solve_result_lines(r: &SolveResult, empty: &str, suffix: &str) -> (out: Vec<String>)
    ensures
        match r {
            SolveResult::Empty => out@.len() == 1 && out@[0]@ == empty@,
            SolveResult::Failed(e) => out@.len() == 1 && out@[0]@ == seq!['\u{2717}', ' '] + e@,
            SolveResult::Solved { total, lines, .. } => {
                &&& out@.len() == lines@.len() + 1
                &&& out@[0]@ == seq!['\u{2713}', ' '] + dec(*total as nat) + seq![' '] + suffix@
                &&& forall|i: int|
                    0 <= i < lines@.len() ==> (#[trigger] out@[i + 1])@ == seq![' ', ' ']
                        + lines@[i]@
            },
        },
{
    let mut out: Vec<String> = Vec::new();
    match r {
        SolveResult::Empty => {
            let v = chars_of(empty);
            out.push(string_of(&v));
        },
        SolveResult::Failed(e) => {
            let mut v: Vec<char> = Vec::new();
            v.push('\u{2717}');
            v.push(' ');
            push_str(&mut v, e.as_str());
            assert(v@ =~= seq!['\u{2717}', ' '] + e@);
            out.push(string_of(&v));
        },
        SolveResult::Solved { total, lines, .. } => {
            let mut v: Vec<char> = Vec::new();
            v.push('\u{2713}');
            v.push(' ');
            push_dec(&mut v, *total as u64);
            v.push(' ');
            push_str(&mut v, suffix);
            assert(v@ =~= seq!['\u{2713}', ' '] + dec(*total as nat) + seq![' '] + suffix@);
            out.push(string_of(&v));
            let mut i: usize = 0;
            while i < lines.len()
                invariant
                    i <= lines@.len(),
                    out@.len() == i + 1,
                    out@[0]@ == seq!['\u{2713}', ' '] + dec(*total as nat) + seq![' '] + suffix@,
                    forall|k: int|
                        0 <= k < i ==> (#[trigger] out@[k + 1])@ == seq![' ', ' '] + lines@[k]@,
                decreases lines@.len() - i,
            {
                let mut w: Vec<char> = Vec::new();
                w.push(' ');
                w.push(' ');
                push_str(&mut w, lines[i].as_str());
                assert(w@ =~= seq![' ', ' '] + lines@[i as int]@);
                out.push(string_of(&w));
                i = i + 1;
            }
        },
    }
    out
}

/// The name a solved lock is walked or saved under: the trimmed name field, or
/// `unnamed` when that is empty.
pub fn solved_name(form: &SolveForm, unnamed: &str) -> (r: String)
    ensures
        r@ == if trim(form.name@).len() == 0 {
            unnamed@
        } else {
            trim(form.name@)
        },
{
    let t = trimmed(&form.name);
    if t.len() == 0 {
        let v = chars_of(unnamed);
        string_of(&v)
    } else {
        string_of(&t)
    }
}

/// What the front end does after a key on the language screen.
#[derive(Clone, Copy, PartialEq, Eq, Structural, Debug)]
pub enum LangAction {
    Nothing,
    Quit,
    /// Use the selected language.
    Confirm,
}

/// The first language whose code starts with `c`.
pub open spec fn code_for(codes: Seq<Seq<char>>, c: char, i: int) -> Option<usize>
    decreases codes.len() - i,
{
    if i < 0 || i >= codes.len() {
        None
    } else if codes[i].len() > 0 && codes[i][0] == c {
        Some(i as usize)
    } else {
        code_for(codes, c, i + 1)
    }
}

fn first_code(codes: &Vec<Vec<char>>, lc: char) -> (r: Option<usize>)
    ensures
        r == code_for(Seq::new(codes@.len(), |i: int| codes@[i]@), lc, 0),
{
    let ghost cs = Seq::new(codes@.len(), |i: int| codes@[i]@);
    let n = codes.len();
    let mut i: usize = 0;
    while i < n
        invariant
            n == codes@.len(),
            i <= n,
            cs == Seq::new(codes@.len(), |j: int| codes@[j]@),
            code_for(cs, lc, 0) == code_for(cs, lc, i as int),
        decreases n - i,
    {
        assert(cs[i as int] == codes@[i as int]@);
        if codes[i].len() > 0 && codes[i][0] == lc {
            return Some(i);
        }
        i = i + 1;
    }
    None
}

/// ASCII lowercase of `c`, as `char::to_ascii_lowercase` gives it.
pub open spec fn ascii_lower(c: char) -> char {
    if 'A' <= c <= 'Z' {
        ((c as int) + 32) as char
    } else {
        c
    }
}

/// One key on the language screen, over the language codes (each starting with an ASCII
/// lowercase letter): `q`/Esc quit, Down/`j` and Up/`k` move the selection round the
/// list, Enter confirms, and a letter picks the first language whose code starts with it
/// and confirms.
pub fn language_key(sel: usize, key: Key, codes: &Vec<Vec<char>>) -> (r: (usize, LangAction))
    requires
        0 < codes@.len(),
        sel < codes@.len(),
        forall|i: int|
            0 <= i < codes@.len() ==> (#[trigger] codes@[i])@.len() > 0 && 'a' <= codes@[i]@[0]
                <= 'z',
    ensures
        ({
            let n = codes@.len() as int;
            let cs = Seq::new(codes@.len(), |i: int| codes@[i]@);
            r == if is_char(key, 'q') || key == Key::Esc {
                (sel, LangAction::Quit)
            } else if key == Key::Down || is_char(key, 'j') {
                (((sel + 1) % n) as usize, LangAction::Nothing)
            } else if key == Key::Up || is_char(key, 'k') {
                (((sel + n - 1) % n) as usize, LangAction::Nothing)
            } else if key == Key::Enter {
                (sel, LangAction::Confirm)
            } else {
                match key {
                    Key::Char(c) | Key::Ctrl(c) => match code_for(cs, ascii_lower(c), 0) {
                        Some(i) => (i, LangAction::Confirm),
                        None => (sel, LangAction::Nothing),
                    },
                    _ => (sel, LangAction::Nothing),
                }
            }
        }),
{
    let n = codes.len();
    let ghost cs = Seq::new(codes@.len(), |i: int| codes@[i]@);
    let c: Option<char> = match key {
        Key::Char(c) => Some(c),
        Key::Ctrl(c) => Some(c),
        _ => None,
    };
    if c == Some('q') || key == Key::Esc {
        return (sel, LangAction::Quit);
    }
    if key == Key::Down || c == Some('j') {
        return ((sel + 1) % n, LangAction::Nothing);
    }
    if key == Key::Up || c == Some('k') {
        proof {
            lemma_mod_add_multiples_vanish(sel - 1, n as int);
            lemma_small_mod((n - 1) as nat, n as nat);
            if sel > 0 {
                lemma_small_mod((sel - 1) as nat, n as nat);
            }
        }
        let back = if sel == 0 {
            n - 1
        } else {
            sel - 1
        };
        return (back, LangAction::Nothing);
    }
    if key == Key::Enter {
        return (sel, LangAction::Confirm);
    }
    match c {
        Some(ch) => {
            let lc = if 'A' <= ch && ch <= 'Z' {
                ((ch as u32) + 32) as u8 as char
            } else {
                ch
            };
            assert(lc == ascii_lower(ch));
            match first_code(codes, lc) {
                Some(i) => (i, LangAction::Confirm),
                None => (sel, LangAction::Nothing),
            }
        },
        None => (sel, LangAction::Nothing),
    }
}

} // verus!
