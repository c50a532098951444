//! Writing solutions, history sections and input blocks as text, and editing the
//! history text.
use vstd::prelude::*;
use crate::history::{headings, lemma_headings, section_end, string_views};
use crate::solver::Solution;
use crate::text::{
    chars_of, dec, int_text, lines, lines_of, push_chars, push_dec, push_int, push_str,
    slice_of, string_of, texts, trim, trimmed,
};

verus! {

/// One grouped step as a line: `"<tumbler>: <count>x <key>"`.
pub open spec fn step_text(st: (usize, char, usize)) -> Seq<char> {
    dec(st.0 as nat) + ": "@ + dec(st.2 as nat) + "x "@ + seq![st.1]
}

pub open spec fn step_texts(steps: Seq<(usize, char, usize)>) -> Seq<Seq<char>> {
    Seq::new(steps.len(), |i: int| step_text(steps[i]))
}

fn push_step(out: &mut Vec<char>, st: (usize, char, usize))
    ensures
        final(out)@ == old(out)@ + step_text(st),
{
    push_dec(out, st.0 as u64);
    push_str(out, ": ");
    push_dec(out, st.2 as u64);
    push_str(out, "x ");
    out.push(st.1);
    assert(final(out)@ =~= old(out)@ + step_text(st));
}

/// The grouped solution as lines like `"4: 2x D"`.
pub fn solution_lines(sol: &Solution) -> (r: Vec<String>)
    ensures
        string_views(r@) == step_texts(sol.steps@),
{
    let mut out: Vec<String> = Vec::new();
    let mut i: usize = 0;
    while i < sol.steps.len()
        invariant
            i <= sol.steps@.len(),
            string_views(out@) == step_texts(sol.steps@).subrange(0, i as int),
        decreases sol.steps@.len() - i,
    {
        let mut line: Vec<char> = Vec::new();
        push_step(&mut line, sol.steps[i]);
        let s = string_of(&line);
        let ghost before = string_views(out@);
        out.push(s);
        assert(string_views(out@) =~= before.push(step_text(sol.steps@[i as int])));
        i = i + 1;
        assert(string_views(out@) =~= step_texts(sol.steps@).subrange(0, i as int));
    }
    assert(step_texts(sol.steps@).subrange(0, sol.steps@.len() as int) =~= step_texts(sol.steps@));
    out
}

/// A rule as it is written out: an empty rule as `-`.
pub open spec fn shown_rule(r: Seq<char>) -> Seq<char> {
    if r.len() == 0 {
        "-"@
    } else {
        r
    }
}

/// The rule lines `"<i>: <rule>\n"`, an empty rule written as `-`.
pub open spec fn rule_lines(rules: Seq<Seq<char>>) -> Seq<char>
    decreases rules.len(),
{
    if rules.len() == 0 {
        Seq::empty()
    } else {
        rule_lines(rules.drop_last()) + dec(rules.len()) + ": "@ + shown_rule(rules.last())
            + "\n"@
    }
}

/// The start positions joined by `", "`.
pub open spec fn joined_ints(xs: Seq<i32>) -> Seq<char>
    decreases xs.len(),
{
    if xs.len() == 0 {
        Seq::empty()
    } else if xs.len() == 1 {
        int_text(xs[0] as int)
    } else {
        joined_ints(xs.drop_last()) + ", "@ + int_text(xs.last() as int)
    }
}

/// The solution lines, each followed by a newline.
pub open spec fn step_block(steps: Seq<(usize, char, usize)>) -> Seq<char>
    decreases steps.len(),
{
    if steps.len() == 0 {
        Seq::empty()
    } else {
        step_block(steps.drop_last()) + step_text(steps.last()) + "\n"@
    }
}

fn push_rule_lines(out: &mut Vec<char>, rules: &[String])
    ensures
        final(out)@ == old(out)@ + rule_lines(string_views(rules@)),
{
    let ghost rs = string_views(rules@);
    let mut i: usize = 0;
    assert(rs.subrange(0, 0) =~= Seq::<Seq<char>>::empty());
    while i < rules.len()
        invariant
            rs == string_views(rules@),
            i <= rules@.len(),
            out@ == old(out)@ + rule_lines(rs.subrange(0, i as int)),
        decreases rules@.len() - i,
    {
        let ghost sub = rs.subrange(0, i + 1);
        assert(sub.drop_last() =~= rs.subrange(0, i as int));
        assert(sub.last() == rules@[i as int]@);
        let ghost before = out@;
        push_dec(out, (i + 1) as u64);
        push_str(out, ": ");
        let r = chars_of(rules[i].as_str());
        if r.len() == 0 {
            push_str(out, "-");
        } else {
            push_chars(out, &r);
        }
        push_str(out, "\n");
        i = i + 1;
        assert(out@ =~= old(out)@ + rule_lines(rs.subrange(0, i as int)));
    }
    assert(rs.subrange(0, rs.len() as int) =~= rs);
}

pub(crate) fn push_joined_ints(out: &mut Vec<char>, xs: &[i32])
    ensures
        final(out)@ == old(out)@ + joined_ints(xs@),
{
    let mut i: usize = 0;
    assert(xs@.subrange(0, 0) =~= Seq::<i32>::empty());
    while i < xs.len()
        invariant
            i <= xs@.len(),
            out@ == old(out)@ + joined_ints(xs@.subrange(0, i as int)),
        decreases xs@.len() - i,
    {
        let ghost sub = xs@.subrange(0, i + 1);
        assert(sub.drop_last() =~= xs@.subrange(0, i as int));
        assert(sub.last() == xs@[i as int]);
        if i > 0 {
            push_str(out, ", ");
        }
        push_int(out, xs[i]);
        i = i + 1;
        assert(out@ =~= old(out)@ + joined_ints(xs@.subrange(0, i as int)));
    }
    assert(xs@.subrange(0, xs@.len() as int) =~= xs@);
}

/// Positions joined by `", "`, as the history and the command line write them.
pub fn ints_text(xs: &[i32]) -> (r: String)
    ensures
        r@ == joined_ints(xs@),
{
    let mut v: Vec<char> = Vec::new();
    push_joined_ints(&mut v, xs);
    string_of(&v)
}

fn push_step_block(out: &mut Vec<char>, steps: &Vec<(usize, char, usize)>)
    ensures
        final(out)@ == old(out)@ + step_block(steps@),
{
    let mut i: usize = 0;
    assert(steps@.subrange(0, 0) =~= Seq::<(usize, char, usize)>::empty());
    while i < steps.len()
        invariant
            i <= steps@.len(),
            out@ == old(out)@ + step_block(steps@.subrange(0, i as int)),
        decreases steps@.len() - i,
    {
        let ghost sub = steps@.subrange(0, i + 1);
        assert(sub.drop_last() =~= steps@.subrange(0, i as int));
        assert(sub.last() == steps@[i as int]);
        push_step(out, steps[i]);
        push_str(out, "\n");
        i = i + 1;
        assert(out@ =~= old(out)@ + step_block(steps@.subrange(0, i as int)));
    }
    assert(steps@.subrange(0, steps@.len() as int) =~= steps@);
}

/// A lock as the markdown section of the history file.
pub open spec fn markdown(
    name: Seq<char>,
    rules: Seq<Seq<char>>,
    start: Seq<i32>,
    total: nat,
    steps: Seq<(usize, char, usize)>,
) -> Seq<char> {
    "\n## "@ + name + "\n\n"@ + "**Rules:**\n```\n"@ + rule_lines(rules) + "```\n\n"@
        + "**Start:** `["@ + joined_ints(start) + "]`\n\n"@ + "**Solution:** ("@ + dec(total)
        + " clicks \u{2014} solved by locks)\n```\n"@ + step_block(steps) + "```\n"@
}

fn markdown_chars(name: &str, rules: &[String], start: &[i32], sol: &Solution) -> (r: Vec<char>)
    ensures
        r@ == markdown(name@, string_views(rules@), start@, sol.total as nat, sol.steps@),
{
    let mut out: Vec<char> = Vec::new();
    push_str(&mut out, "\n## ");
    push_str(&mut out, name);
    push_str(&mut out, "\n\n");
    push_str(&mut out, "**Rules:**\n```\n");
    push_rule_lines(&mut out, rules);
    push_str(&mut out, "```\n\n");
    push_str(&mut out, "**Start:** `[");
    push_joined_ints(&mut out, start);
    push_str(&mut out, "]`\n\n");
    push_str(&mut out, "**Solution:** (");
    push_dec(&mut out, sol.total as u64);
    push_str(&mut out, " clicks \u{2014} solved by locks)\n```\n");
    push_step_block(&mut out, &sol.steps);
    push_str(&mut out, "```\n");
    assert(out@ =~= markdown(name@, string_views(rules@), start@, sol.total as nat, sol.steps@));
    out
}

/// Render a lock as the markdown section used in the history file.
pub fn lock_markdown(name: &str, rules: &[String], start: &[i32], sol: &Solution) -> (r: String)
    ensures
        r@ == markdown(name@, string_views(rules@), start@, sol.total as nat, sol.steps@),
{
    let v = markdown_chars(name, rules, start, sol);
    string_of(&v)
}

/// Render a lock as a `solve`-style input block.
pub open spec fn input_text(name: Seq<char>, rules: Seq<Seq<char>>, start: Seq<i32>) -> Seq<char> {
    "Name: "@ + name + "\n\nRules:\n"@ + rule_lines(rules) + "\nStart:\n["@ + joined_ints(start)
        + "]\n"@
}

/// Render a lock as a `solve`-style input block (for `locks edit`).
pub fn input_block(name: &str, rules: &[String], start: &[i32]) -> (r: String)
    ensures
        r@ == input_text(name@, string_views(rules@), start@),
{
    let mut out: Vec<char> = Vec::new();
    push_str(&mut out, "Name: ");
    push_str(&mut out, name);
    push_str(&mut out, "\n\nRules:\n");
    push_rule_lines(&mut out, rules);
    push_str(&mut out, "\nStart:\n[");
    push_joined_ints(&mut out, start);
    push_str(&mut out, "]\n");
    assert(out@ =~= input_text(name@, string_views(rules@), start@));
    string_of(&out)
}

/// `ls` without its trailing blank lines.
pub open spec fn drop_trailing_blank(ls: Seq<Seq<char>>) -> Seq<Seq<char>>
    decreases ls.len(),
{
    if ls.len() > 0 && trim(ls.last()).len() == 0 {
        drop_trailing_blank(ls.drop_last())
    } else {
        ls
    }
}

/// `ls` without its leading blank lines.
pub open spec fn drop_leading_blank(ls: Seq<Seq<char>>) -> Seq<Seq<char>>
    decreases ls.len(),
{
    if ls.len() > 0 && trim(ls[0]).len() == 0 {
        drop_leading_blank(ls.drop_first())
    } else {
        ls
    }
}

/// The lines joined by `\n`.
pub open spec fn join_lines(ls: Seq<Seq<char>>) -> Seq<char>
    decreases ls.len(),
{
    if ls.len() == 0 {
        Seq::empty()
    } else if ls.len() == 1 {
        ls[0]
    } else {
        join_lines(ls.drop_last()) + "\n"@ + ls.last()
    }
}

/// The history text with the lock at `index` (in heading order) removed: the lines
/// before its heading and from the next heading on, trailing blank lines dropped,
/// joined by newlines with one final newline.
pub open spec fn removed(text: Seq<char>, index: nat) -> Option<Seq<char>> {
    let ls = lines(text);
    let hs = headings(ls);
    if index >= hs.len() {
        None
    } else {
        let kept = ls.take(hs[index as int]) + ls.skip(section_end(ls, hs, index as int));
        Some(join_lines(drop_trailing_blank(kept)) + "\n"@)
    }
}

fn copy_lines(ls: &Vec<Vec<char>>, lo: usize, hi: usize, out: &mut Vec<Vec<char>>)
    requires
        lo <= hi <= ls@.len(),
    ensures
        texts(final(out)@) == texts(old(out)@) + texts(ls@).subrange(lo as int, hi as int),
{
    let mut j = lo;
    while j < hi
        invariant
            lo <= j <= hi <= ls@.len(),
            texts(out@) == texts(old(out)@) + texts(ls@).subrange(lo as int, j as int),
        decreases hi - j,
    {
        let line = slice_of(&ls[j], 0, ls[j].len());
        assert(line@ =~= ls@[j as int]@);
        let ghost before = texts(out@);
        out.push(line);
        assert(texts(out@) =~= before.push(ls@[j as int]@));
        j = j + 1;
        assert(texts(out@) =~= texts(old(out)@) + texts(ls@).subrange(lo as int, j as int));
    }
}

fn pop_trailing_blank(out: &mut Vec<Vec<char>>)
    ensures
        texts(final(out)@) == drop_trailing_blank(texts(old(out)@)),
{
    loop
        invariant
            drop_trailing_blank(texts(out@)) == drop_trailing_blank(texts(old(out)@)),
        ensures
            texts(out@) == drop_trailing_blank(texts(old(out)@)),
        decreases out@.len(),
    {
        let n = out.len();
        if n == 0 {
            assert(texts(out@).len() == 0);
            break;
        }
        let t = trimmed(&out[n - 1]);
        if t.len() != 0 {
            assert(texts(out@).last() == out@[n - 1]@);
            break;
        }
        let ghost before = texts(out@);
        assert(before.last() == out@[n - 1]@);
        out.pop();
        assert(texts(out@) =~= before.drop_last());
    }
}

fn join_chars(ls: &Vec<Vec<char>>) -> (r: Vec<char>)
    ensures
        r@ == join_lines(texts(ls@)),
{
    let mut out: Vec<char> = Vec::new();
    let mut i: usize = 0;
    assert(texts(ls@).subrange(0, 0) =~= Seq::<Seq<char>>::empty());
    while i < ls.len()
        invariant
            i <= ls@.len(),
            out@ == join_lines(texts(ls@).subrange(0, i as int)),
        decreases ls@.len() - i,
    {
        let ghost sub = texts(ls@).subrange(0, i + 1);
        assert(sub.drop_last() =~= texts(ls@).subrange(0, i as int));
        assert(sub.last() == ls@[i as int]@);
        if i > 0 {
            push_str(&mut out, "\n");
        }
        push_chars(&mut out, &ls[i]);
        i = i + 1;
        assert(out@ =~= join_lines(texts(ls@).subrange(0, i as int))) by {
            if i == 1 {
                assert(sub[0] == ls@[0]@);
            }
        }
    }
    assert(texts(ls@).subrange(0, ls@.len() as int) =~= texts(ls@));
    out
}

fn heading_lines(ls: &Vec<Vec<char>>) -> (r: Vec<usize>)
    ensures
        r@.len() == headings(texts(ls@)).len(),
        forall|k: int| 0 <= k < r@.len() ==> r@[k] as int == headings(texts(ls@))[k],
{
    let marker = chars_of("## ");
    crate::history::heading_indices(ls, &marker)
}

/// Return `text` with the lock at `index` (0-based, parse_history order) removed.
pub fn remove_lock(text: &str, index: usize) -> (r: Option<String>)
    ensures
        match r {
            Some(s) => removed(text@, index as nat) == Some(s@),
            None => removed(text@, index as nat) is None,
        },
{
    let v = chars_of(text);
    let ls = lines_of(&v);
    let hs = heading_lines(&ls);
    let ghost all = texts(ls@);
    proof {
        lemma_headings(all);
    }
    if index >= hs.len() {
        return None;
    }
    let start = hs[index];
    let end = if index + 1 < hs.len() {
        hs[index + 1]
    } else {
        ls.len()
    };
    assert(start <= end) by {
        if index + 1 < hs@.len() {
            assert(headings(all)[index as int] < headings(all)[index + 1]);
        }
    }
    let mut out: Vec<Vec<char>> = Vec::new();
    copy_lines(&ls, 0, start, &mut out);
    copy_lines(&ls, end, ls.len(), &mut out);
    assert(texts(out@) =~= all.take(start as int) + all.skip(end as int));
    pop_trailing_blank(&mut out);
    let mut joined = join_chars(&out);
    push_str(&mut joined, "\n");
    Some(string_of(&joined))
}

pub open spec fn strip_newlines_start(s: Seq<char>) -> Seq<char>
    decreases s.len(),
{
    if s.len() > 0 && s[0] == '\n' {
        strip_newlines_start(s.drop_first())
    } else {
        s
    }
}

pub open spec fn strip_newlines_end(s: Seq<char>) -> Seq<char>
    decreases s.len(),
{
    if s.len() > 0 && s.last() == '\n' {
        strip_newlines_end(s.drop_last())
    } else {
        s
    }
}

/// `s` without leading and trailing newlines, as `trim_matches('\n')` gives it.
pub open spec fn strip_newlines(s: Seq<char>) -> Seq<char> {
    strip_newlines_end(strip_newlines_start(s))
}

pub open spec fn has_nonblank(ls: Seq<Seq<char>>) -> bool {
    exists|i: int| 0 <= i < ls.len() && trim(#[trigger] ls[i]).len() > 0
}

/// The history text with the lock at `index` replaced by a freshly rendered section:
/// the lines before it (trailing blanks dropped, then one blank line if any remain), the
/// new section's lines, then — if anything non-blank follows — one blank line and the
/// following lines from the first non-blank one; trailing blank lines dropped, joined by
/// newlines with one final newline.
pub open spec fn replaced(
    text: Seq<char>,
    index: nat,
    name: Seq<char>,
    rules: Seq<Seq<char>>,
    start: Seq<i32>,
    total: nat,
    steps: Seq<(usize, char, usize)>,
) -> Option<Seq<char>> {
    let ls = lines(text);
    let hs = headings(ls);
    if index >= hs.len() {
        None
    } else {
        let head0 = drop_trailing_blank(ls.take(hs[index as int]));
        let head = if head0.len() > 0 {
            head0.push(Seq::empty())
        } else {
            head0
        };
        let sec = lines(strip_newlines(markdown(name, rules, start, total, steps)));
        let tail = ls.skip(section_end(ls, hs, index as int));
        let rest = if has_nonblank(tail) {
            seq![Seq::<char>::empty()] + drop_leading_blank(tail)
        } else {
            Seq::empty()
        };
        Some(join_lines(drop_trailing_blank(head + sec + rest)) + "\n"@)
    }
}

fn strip_newlines_of(v: &Vec<char>) -> (r: Vec<char>)
    ensures
        r@ == strip_newlines(v@),
{
    let len = v.len();
    let mut lo: usize = 0;
    assert(v@.subrange(0, len as int) =~= v@);
    while lo < len && v[lo] == '\n'
        invariant
            len == v@.len(),
            lo <= len,
            strip_newlines_start(v@) == strip_newlines_start(v@.subrange(lo as int, len as int)),
        decreases len - lo,
    {
        assert(v@.subrange(lo as int, len as int).drop_first() =~= v@.subrange(lo + 1, len as int));
        lo = lo + 1;
    }
    let ghost t = v@.subrange(lo as int, len as int);
    let mut hi: usize = len;
    while hi > lo && v[hi - 1] == '\n'
        invariant
            lo <= hi <= len,
            len == v@.len(),
            t == v@.subrange(lo as int, len as int),
            strip_newlines_end(t) == strip_newlines_end(v@.subrange(lo as int, hi as int)),
        decreases hi,
    {
        assert(v@.subrange(lo as int, hi as int).drop_last() =~= v@.subrange(lo as int, hi - 1));
        hi = hi - 1;
    }
    slice_of(v, lo, hi)
}

fn any_nonblank(ls: &Vec<Vec<char>>, lo: usize) -> (r: bool)
    requires
        lo <= ls@.len(),
    ensures
        r == has_nonblank(texts(ls@).skip(lo as int)),
{
    let mut j = lo;
    while j < ls.len()
        invariant
            lo <= j <= ls@.len(),
            forall|q: int| lo <= q < j ==> trim(ls@[q]@).len() == 0,
        decreases ls@.len() - j,
    {
        let t = trimmed(&ls[j]);
        if t.len() > 0 {
            assert(texts(ls@).skip(lo as int)[j - lo] == ls@[j as int]@);
            return true;
        }
        j = j + 1;
    }
    assert forall|i: int| 0 <= i < texts(ls@).skip(lo as int).len() implies trim(
        #[trigger] texts(ls@).skip(lo as int)[i],
    ).len() == 0 by {
        assert(texts(ls@).skip(lo as int)[i] == ls@[lo + i]@);
    }
    false
}

/// The first index at or after `lo` whose line is not blank (or the end).
fn first_nonblank(ls: &Vec<Vec<char>>, lo: usize) -> (r: usize)
    requires
        lo <= ls@.len(),
    ensures
        lo <= r <= ls@.len(),
        drop_leading_blank(texts(ls@).skip(lo as int)) == texts(ls@).skip(r as int),
{
    let mut j = lo;
    while j < ls.len() && trimmed(&ls[j]).len() == 0
        invariant
            lo <= j <= ls@.len(),
            drop_leading_blank(texts(ls@).skip(lo as int)) == drop_leading_blank(
                texts(ls@).skip(j as int),
            ),
        decreases ls@.len() - j,
    {
        assert(texts(ls@).skip(j as int)[0] == ls@[j as int]@);
        assert(texts(ls@).skip(j as int).drop_first() =~= texts(ls@).skip(j + 1));
        j = j + 1;
    }
    if j < ls.len() {
        assert(texts(ls@).skip(j as int)[0] == ls@[j as int]@);
    }
    j
}

/// Return `text` with the lock at `index` replaced by a freshly rendered section
/// (rules / start / solution). Returns None if `index` is out of range.
pub fn replace_lock(
    text: &str,
    index: usize,
    name: &str,
    rules: &[String],
    start: &[i32],
    sol: &Solution,
) -> (r: Option<String>)
    ensures
        match r {
            Some(s) => replaced(
                text@,
                index as nat,
                name@,
                string_views(rules@),
                start@,
                sol.total as nat,
                sol.steps@,
            ) == Some(s@),
            None => replaced(
                text@,
                index as nat,
                name@,
                string_views(rules@),
                start@,
                sol.total as nat,
                sol.steps@,
            ) is None,
        },
{
    let v = chars_of(text);
    let ls = lines_of(&v);
    let hs = heading_lines(&ls);
    let ghost all = texts(ls@);
    proof {
        lemma_headings(all);
    }
    if index >= hs.len() {
        return None;
    }
    let s = hs[index];
    let end = if index + 1 < hs.len() {
        hs[index + 1]
    } else {
        ls.len()
    };
    assert(s <= end) by {
        if index + 1 < hs@.len() {
            assert(headings(all)[index as int] < headings(all)[index + 1]);
        }
    }
    let mut out: Vec<Vec<char>> = Vec::new();
    copy_lines(&ls, 0, s, &mut out);
    assert(texts(out@) =~= all.take(s as int));
    pop_trailing_blank(&mut out);
    if out.len() > 0 {
        let ghost before = texts(out@);
        out.push(Vec::new());
        assert(texts(out@) =~= before.push(Seq::empty()));
    }
    let ghost head = texts(out@);
    let md = markdown_chars(name, rules, start, sol);
    let stripped = strip_newlines_of(&md);
    let sec = lines_of(&stripped);
    copy_lines(&sec, 0, sec.len(), &mut out);
    assert(texts(sec@).subrange(0, sec@.len() as int) =~= texts(sec@));
    let ghost with_sec = texts(out@);
    if any_nonblank(&ls, end) {
        let ghost before = texts(out@);
        out.push(Vec::new());
        assert(texts(out@) =~= before.push(Seq::empty()));
        let first = first_nonblank(&ls, end);
        copy_lines(&ls, first, ls.len(), &mut out);
        assert(all.subrange(first as int, all.len() as int) =~= all.skip(first as int));
        assert(texts(out@) =~= with_sec + (seq![Seq::<char>::empty()] + drop_leading_blank(
            all.skip(end as int),
        )));
    } else {
        assert(texts(out@) =~= with_sec + Seq::<Seq<char>>::empty());
    }
    pop_trailing_blank(&mut out);
    let mut joined = join_chars(&out);
    push_str(&mut joined, "\n");
    Some(string_of(&joined))
}

} // verus!
