//! How the locks read from history lines change when the lines are joined, cut, or end
//! in blank lines.
use vstd::prelude::*;
use crate::history::{
    LockModel, fence_from, fenced_after, first_with, first_with_from, lemma_fence_from, lemma_first_with_from,
    nonblank, rule_pairs, headings, lemma_headings, lines_crash, locks_of, section, section_body, section_crashes,
    section_end, section_name,
};
use crate::text::{contains, find, is_space, lines, starts_with, trim};
use crate::render::{drop_leading_blank, drop_trailing_blank, has_nonblank, join_lines};
use crate::text_facts::{
    ends_cr, lemma_trim_first, lemma_blank_lacks, lemma_blank_spaces, lemma_lines_unlines, lemma_lines_unlines_plain,
    single_lines, unlines,
};

verus! {

/// Heading positions moved by `d`.
pub open spec fn shifted(hs: Seq<int>, d: int) -> Seq<int> {
    Seq::new(hs.len(), |k: int| hs[k] + d)
}

pub proof fn lemma_headings_append(p: Seq<Seq<char>>, q: Seq<Seq<char>>)
    ensures
        headings(p + q) == headings(p) + shifted(headings(q), p.len() as int),
    decreases q.len(),
{
    if q.len() == 0 {
        assert(p + q =~= p);
        assert(headings(p) + shifted(headings(q), p.len() as int) =~= headings(p));
    } else {
        let q0 = q.drop_last();
        lemma_headings_append(p, q0);
        assert((p + q).drop_last() =~= p + q0);
        assert((p + q).last() == q.last());
        if starts_with(q.last(), "## "@) {
            assert(headings(q) == headings(q0).push(q.len() - 1));
            assert(headings(p + q) =~= headings(p) + shifted(headings(q), p.len() as int));
        } else {
            assert(headings(q) == headings(q0));
        }
    }
}

/// A run of lines whose only heading is its first line.
pub proof fn lemma_headings_single(s: Seq<Seq<char>>)
    requires
        s.len() > 0,
        starts_with(s[0], "## "@),
        forall|j: int| 0 < j < s.len() ==> !starts_with(#[trigger] s[j], "## "@),
    ensures
        headings(s) == seq![0int],
    decreases s.len(),
{
    if s.len() == 1 {
        assert(s.drop_last() =~= Seq::<Seq<char>>::empty());
        assert(s.last() == s[0]);
        assert(headings(s) == headings(s.drop_last()).push(0));
        assert(headings(s) =~= seq![0int]);
    } else {
        let s0 = s.drop_last();
        assert forall|j: int| 0 < j < s0.len() implies !starts_with(#[trigger] s0[j], "## "@) by {
            assert(s0[j] == s[j]);
        }
        lemma_headings_single(s0);
        assert(s.last() == s[s.len() - 1]);
        assert(!starts_with(s.last(), "## "@));
        assert(headings(s) == headings(s0));
    }
}

/// Lines without a heading hold no lock.
pub proof fn lemma_headings_none(s: Seq<Seq<char>>)
    requires
        forall|j: int| 0 <= j < s.len() ==> !starts_with(#[trigger] s[j], "## "@),
    ensures
        headings(s) == Seq::<int>::empty(),
    decreases s.len(),
{
    if s.len() > 0 {
        let s0 = s.drop_last();
        assert forall|j: int| 0 <= j < s0.len() implies !starts_with(#[trigger] s0[j], "## "@) by {
            assert(s0[j] == s[j]);
        }
        lemma_headings_none(s0);
        assert(s.last() == s[s.len() - 1]);
    }
}

pub proof fn lemma_heading_first(q: Seq<Seq<char>>)
    requires
        q.len() > 0,
        starts_with(q[0], "## "@),
    ensures
        headings(q).len() > 0,
        headings(q)[0] == 0,
{
    lemma_headings_append(seq![q[0]], q.drop_first());
    assert(seq![q[0]] + q.drop_first() =~= q);
    assert(seq![q[0]].drop_last() =~= Seq::<Seq<char>>::empty());
    assert(seq![q[0]].last() == q[0]);
    assert(headings(seq![q[0]]) == headings(Seq::<Seq<char>>::empty()).push(0));
}

proof fn lemma_front_section(p: Seq<Seq<char>>, q: Seq<Seq<char>>, k: int)
    requires
        q.len() > 0,
        starts_with(q[0], "## "@),
        0 <= k < headings(p).len(),
    ensures
        section_body(p + q, k) == section_body(p, k),
        section_name(p + q, k) == section_name(p, k),
{
    let l = p + q;
    let hp = headings(p);
    let hq = headings(q);
    let hl = headings(l);
    let np = p.len() as int;
    lemma_headings_append(p, q);
    lemma_headings(p);
    lemma_heading_first(q);
    assert(hl[k] == hp[k]);
    assert(l[hp[k]] == p[hp[k]]);
    let e = section_end(l, hl, k);
    if k + 1 < hp.len() {
        assert(hl[k + 1] == hp[k + 1]);
        assert(e == section_end(p, hp, k));
    } else {
        assert(hl[k + 1] == hq[0] + np);
        assert(e == np);
        assert(section_end(p, hp, k) == np);
    }
    assert(l.subrange(hp[k] + 1, e) =~= p.subrange(hp[k] + 1, e));
}

proof fn lemma_back_section(p: Seq<Seq<char>>, q: Seq<Seq<char>>, k: int)
    requires
        0 <= k < headings(q).len(),
    ensures
        section_body(p + q, k + headings(p).len()) == section_body(q, k),
        section_name(p + q, k + headings(p).len()) == section_name(q, k),
{
    let l = p + q;
    let hp = headings(p);
    let hq = headings(q);
    let hl = headings(l);
    let np = p.len() as int;
    lemma_headings_append(p, q);
    lemma_headings(q);
    let kk = k + hp.len();
    assert(hl[kk] == hq[k] + np);
    assert(l[hq[k] + np] == q[hq[k]]);
    let e = section_end(l, hl, kk);
    let eq = section_end(q, hq, k);
    if k + 1 < hq.len() {
        assert(hl[kk + 1] == hq[k + 1] + np);
    }
    assert(e == eq + np);
    assert(l.subrange(hq[k] + np + 1, e) =~= q.subrange(hq[k] + 1, eq));
}

/// Lines that start with a heading, put after other lines, add their locks after the
/// others' and leave the others' unchanged.
pub proof fn lemma_locks_append(p: Seq<Seq<char>>, q: Seq<Seq<char>>)
    requires
        q.len() > 0,
        starts_with(q[0], "## "@),
    ensures
        locks_of(p + q) == locks_of(p) + locks_of(q),
        lines_crash(p + q) == (lines_crash(p) || lines_crash(q)),
{
    let l = p + q;
    let hp = headings(p);
    let hq = headings(q);
    let hl = headings(l);
    lemma_headings_append(p, q);
    assert(hl.len() == hp.len() + hq.len());
    assert forall|k: int| 0 <= k < hl.len() implies locks_of(l)[k] == (locks_of(p) + locks_of(
        q,
    ))[k] by {
        if k < hp.len() {
            lemma_front_section(p, q, k);
        } else {
            lemma_back_section(p, q, k - hp.len());
        }
    }
    assert(locks_of(l) =~= locks_of(p) + locks_of(q));
    if lines_crash(l) {
        let k = choose|k: int| 0 <= k < hl.len() && #[trigger] section_crashes(section_body(l, k));
        if k < hp.len() {
            lemma_front_section(p, q, k);
            assert(lines_crash(p));
        } else {
            lemma_back_section(p, q, k - hp.len());
            assert(section_crashes(section_body(q, k - hp.len())));
            assert(lines_crash(q));
        }
    }
    if lines_crash(p) {
        let k = choose|k: int| 0 <= k < hp.len() && #[trigger] section_crashes(section_body(p, k));
        lemma_front_section(p, q, k);
        assert(lines_crash(l));
    }
    if lines_crash(q) {
        let k = choose|k: int| 0 <= k < hq.len() && #[trigger] section_crashes(section_body(q, k));
        lemma_back_section(p, q, k);
        assert(section_crashes(section_body(l, k + hp.len())));
        assert(lines_crash(l));
    }
}

proof fn lemma_first_with_drop(body: Seq<Seq<char>>, needle: Seq<char>, i: int)
    requires
        body.len() > 0,
        0 <= i,
        !contains(body.last(), needle),
    ensures
        first_with_from(body, needle, i) == first_with_from(body.drop_last(), needle, i),
    decreases body.len() - i,
{
    if i < body.len() - 1 {
        assert(body[i] == body.drop_last()[i]);
        lemma_first_with_drop(body, needle, i + 1);
    } else if i == body.len() - 1 {
        assert(body[i] == body.last());
        assert(first_with_from(body, needle, i + 1) is None);
        assert(first_with_from(body.drop_last(), needle, i) is None);
    }
}

proof fn lemma_fence_drop(body: Seq<Seq<char>>, i: int)
    requires
        body.len() > 0,
        0 <= i,
        trim(body.last()) != "```"@,
    ensures
        fence_from(body, i) == if fence_from(body.drop_last(), i) < body.len() - 1 {
            fence_from(body.drop_last(), i)
        } else {
            body.len() as int
        },
    decreases body.len() - i,
{
    if i < body.len() - 1 {
        assert(body[i] == body.drop_last()[i]);
        lemma_fence_drop(body, i + 1);
    } else if i == body.len() - 1 {
        assert(body[i] == body.last());
        assert(fence_from(body, i + 1) == body.len());
        assert(fence_from(body.drop_last(), i) == body.len() - 1);
    }
}

/// A blank last line of a fenced block adds nothing to the rules or the solution.
proof fn lemma_blank_content(c: Seq<Seq<char>>, x: Seq<char>)
    requires
        trim(x).len() == 0,
    ensures
        rule_pairs(c.push(x)) == rule_pairs(c),
        nonblank(c.push(x)) == nonblank(c),
{
    assert(c.push(x).drop_last() =~= c);
    assert(find(trim(x), ':') is None);
}

/// A section whose last line is blank reads as it does without that line.
pub proof fn lemma_section_blank_tail(name: Seq<char>, body: Seq<Seq<char>>)
    requires
        body.len() > 0,
        trim(body.last()).len() == 0,
    ensures
        section(name, body.drop_last()) == section(name, body),
        section_crashes(body.drop_last()) == section_crashes(body),
{
    let b0 = body.drop_last();
    let x = body.last();
    reveal_strlit("**Start");
    reveal_strlit("**Rules");
    reveal_strlit("**Solution");
    reveal_strlit("```");
    lemma_blank_lacks(x, "**Start"@, 0);
    lemma_blank_lacks(x, "**Rules"@, 0);
    lemma_blank_lacks(x, "**Solution"@, 0);
    lemma_first_with_drop(body, "**Start"@, 0);
    lemma_first_with_drop(body, "**Rules"@, 0);
    lemma_first_with_drop(body, "**Solution"@, 0);
    lemma_first_with_from(b0, "**Start"@, 0);
    lemma_first_with_from(b0, "**Rules"@, 0);
    lemma_first_with_from(b0, "**Solution"@, 0);
    assert(trim(x) != "```"@);
    assert forall|from: int| 0 <= from < b0.len() implies #[trigger] fenced_after(body, from) == fenced_after(
        b0,
        from,
    ) || (fenced_after(b0, from) is Some && fenced_after(body, from) == Some(
        fenced_after(b0, from).unwrap().push(x),
    )) by {
        lemma_fence_drop(body, from);
        lemma_fence_from(b0, from);
        let o = fence_from(b0, from);
        if o < b0.len() {
            lemma_fence_drop(body, o + 1);
            lemma_fence_from(b0, o + 1);
            let c = fence_from(b0, o + 1);
            if c < b0.len() {
                assert(body.subrange(o + 1, c) =~= b0.subrange(o + 1, c));
            } else {
                assert(body.subrange(o + 1, body.len() as int) =~= b0.subrange(o + 1, c).push(x));
            }
        }
    }
    match first_with(b0, "**Start"@) {
        Some(si) => {
            assert(body[si] == b0[si]);
        },
        None => {},
    }
    match first_with(b0, "**Rules"@) {
        Some(ri) => {
            if fenced_after(body, ri) != fenced_after(b0, ri) {
                lemma_blank_content(fenced_after(b0, ri).unwrap(), x);
            }
        },
        None => {},
    }
    match first_with(b0, "**Solution"@) {
        Some(si) => {
            assert(body[si] == b0[si]);
            if fenced_after(body, si) != fenced_after(b0, si) {
                lemma_blank_content(fenced_after(b0, si).unwrap(), x);
            }
        },
        None => {},
    }
}

/// A blank line is no heading.
pub proof fn lemma_blank_not_heading(x: Seq<char>)
    requires
        trim(x).len() == 0,
    ensures
        !starts_with(x, "## "@),
{
    reveal_strlit("## ");
    lemma_blank_spaces(x);
    if starts_with(x, "## "@) {
        assert(x.subrange(0, 3)[0] == x[0]);
        assert(is_space(x[0]));
    }
}

proof fn lemma_blank_tail_section(x: Seq<Seq<char>>, k: int)
    requires
        x.len() > 0,
        trim(x.last()).len() == 0,
        0 <= k < headings(x).len(),
    ensures
        section(section_name(x, k), section_body(x, k)) == section(
            section_name(x.drop_last(), k),
            section_body(x.drop_last(), k),
        ),
        section_crashes(section_body(x, k)) == section_crashes(section_body(x.drop_last(), k)),
{
    let x0 = x.drop_last();
    let hs = headings(x);
    lemma_blank_not_heading(x.last());
    assert(hs == headings(x0));
    lemma_headings(x);
    let h = hs[k];
    assert(h < x.len() - 1) by {
        if h == x.len() - 1 {
            assert(x[h] == x.last());
        }
    }
    assert(x[h] == x0[h]);
    if k + 1 < hs.len() {
        assert(section_body(x, k) =~= section_body(x0, k));
    } else {
        let b = section_body(x, k);
        assert(b.drop_last() =~= section_body(x0, k));
        assert(b.last() == x.last());
        lemma_section_blank_tail(section_name(x, k), b);
    }
}

/// A blank last line adds no lock and changes none.
pub proof fn lemma_locks_blank_tail(x: Seq<Seq<char>>)
    requires
        x.len() > 0,
        trim(x.last()).len() == 0,
    ensures
        locks_of(x.drop_last()) == locks_of(x),
        lines_crash(x.drop_last()) == lines_crash(x),
{
    let x0 = x.drop_last();
    lemma_blank_not_heading(x.last());
    assert(headings(x) == headings(x0));
    assert forall|k: int| 0 <= k < headings(x).len() implies locks_of(x)[k] == locks_of(x0)[k] by {
        lemma_blank_tail_section(x, k);
    }
    assert(locks_of(x) =~= locks_of(x0));
    if lines_crash(x) {
        let k = choose|k: int|
            0 <= k < headings(x).len() && #[trigger] section_crashes(section_body(x, k));
        lemma_blank_tail_section(x, k);
        assert(lines_crash(x0));
    }
    if lines_crash(x0) {
        let k = choose|k: int|
            0 <= k < headings(x0).len() && #[trigger] section_crashes(section_body(x0, k));
        lemma_blank_tail_section(x, k);
        assert(lines_crash(x));
    }
}

/// Trailing blank lines add no lock and change none.
pub proof fn lemma_locks_drop_trailing(x: Seq<Seq<char>>)
    ensures
        locks_of(drop_trailing_blank(x)) == locks_of(x),
        lines_crash(drop_trailing_blank(x)) == lines_crash(x),
    decreases x.len(),
{
    if x.len() > 0 && trim(x.last()).len() == 0 {
        lemma_locks_blank_tail(x);
        lemma_locks_drop_trailing(x.drop_last());
    }
}

/// Every heading line is listed among the headings.
pub proof fn lemma_headings_complete(ls: Seq<Seq<char>>, j: int)
    requires
        0 <= j < ls.len(),
        starts_with(ls[j], "## "@),
    ensures
        exists|k: int| 0 <= k < headings(ls).len() && headings(ls)[k] == j,
    decreases ls.len(),
{
    let l0 = ls.drop_last();
    if j == ls.len() - 1 {
        assert(ls.last() == ls[j]);
        assert(headings(ls) == headings(l0).push(j));
        assert(headings(ls)[headings(l0).len() as int] == j);
    } else {
        assert(l0[j] == ls[j]);
        lemma_headings_complete(l0, j);
        let k = choose|k: int| 0 <= k < headings(l0).len() && headings(l0)[k] == j;
        if starts_with(ls.last(), "## "@) {
            assert(headings(ls)[k] == j);
        } else {
            assert(headings(ls)[k] == j);
        }
    }
}

/// The lines joined by newlines, with one more at the end, are the lines each ended by a
/// newline.
pub proof fn lemma_join_unlines(ls: Seq<Seq<char>>)
    requires
        ls.len() > 0,
    ensures
        join_lines(ls) + "\n"@ == unlines(ls),
    decreases ls.len(),
{
    reveal_strlit("\n");
    if ls.len() == 1 {
        assert(ls.drop_last() =~= Seq::<Seq<char>>::empty());
        assert(ls.last() == ls[0]);
        assert(unlines(ls.drop_last()) == Seq::<char>::empty());
        assert(unlines(ls) =~= ls[0] + seq!['\n']);
    } else {
        lemma_join_unlines(ls.drop_last());
        assert(join_lines(ls) + "\n"@ =~= unlines(ls));
    }
}

pub proof fn lemma_drop_trailing_prefix(x: Seq<Seq<char>>)
    ensures
        drop_trailing_blank(x).len() <= x.len(),
        drop_trailing_blank(x) == x.take(drop_trailing_blank(x).len() as int),
        drop_trailing_blank(x).len() > 0 ==> trim(drop_trailing_blank(x).last()).len() > 0,
    decreases x.len(),
{
    if x.len() > 0 && trim(x.last()).len() == 0 {
        lemma_drop_trailing_prefix(x.drop_last());
        let d = drop_trailing_blank(x.drop_last());
        assert(x.drop_last().take(d.len() as int) =~= x.take(d.len() as int));
    } else {
        assert(x.take(x.len() as int) =~= x);
    }
}

/// Lines of a text, cut and put back together, and written out, read back as the
/// locks they hold.
pub proof fn lemma_rewritten(ls: Seq<Seq<char>>)
    requires
        single_lines(ls),
        forall|i: int| 0 <= i < ls.len() ==> !ends_cr(#[trigger] ls[i]),
    ensures
        locks_of(lines(join_lines(drop_trailing_blank(ls)) + "\n"@)) == locks_of(ls),
        lines_crash(lines(join_lines(drop_trailing_blank(ls)) + "\n"@)) == lines_crash(ls),
        forall|i: int|
            0 <= i < lines(join_lines(drop_trailing_blank(ls)) + "\n"@).len() ==> !ends_cr(
                #[trigger] lines(join_lines(drop_trailing_blank(ls)) + "\n"@)[i],
            ),
        drop_trailing_blank(ls).len() > 0 ==> lines(join_lines(drop_trailing_blank(ls)) + "\n"@)
            == drop_trailing_blank(ls),
{
    let l = drop_trailing_blank(ls);
    lemma_drop_trailing_prefix(ls);
    lemma_locks_drop_trailing(ls);
    let t = join_lines(l) + "\n"@;
    if l.len() > 0 {
        lemma_join_unlines(l);
        assert forall|i: int| 0 <= i < l.len() implies !(#[trigger] l[i]).contains('\n') && !ends_cr(
            l[i],
        ) by {
            assert(l[i] == ls[i]);
        }
        lemma_lines_unlines_plain(l);
    } else {
        reveal_strlit("\n");
        lemma_lines_unlines(seq![Seq::<char>::empty()]);
        assert(unlines(seq![Seq::<char>::empty()]) =~= t) by {
            assert(seq![Seq::<char>::empty()].drop_last() =~= Seq::<Seq<char>>::empty());
            assert(unlines(Seq::<Seq<char>>::empty()) == Seq::<char>::empty());
            assert(join_lines(l) == Seq::<char>::empty());
        }
        let one = lines(t);
        assert(one =~= seq![Seq::<char>::empty()]);
        assert(!starts_with(one[0], "## "@)) by {
            reveal_strlit("## ");
        }
        lemma_headings_none(one);
        lemma_headings_none(l);
        assert(locks_of(one) =~= locks_of(l));
        assert(!lines_crash(one));
        assert(!lines_crash(l));
    }
}

/// Dropping the trailing blank lines of `x + y`, where `y` has a line `j` that is not
/// blank, drops them from `y` alone and keeps line `j`.
pub proof fn lemma_dtb_append(x: Seq<Seq<char>>, y: Seq<Seq<char>>, j: int)
    requires
        0 <= j < y.len(),
        trim(y[j]).len() > 0,
    ensures
        drop_trailing_blank(x + y) == x + drop_trailing_blank(y),
        drop_trailing_blank(y).len() > j,
    decreases y.len(),
{
    if trim(y.last()).len() == 0 {
        let y0 = y.drop_last();
        assert(j < y0.len());
        assert(y0[j] == y[j]);
        lemma_dtb_append(x, y0, j);
        assert((x + y).drop_last() =~= x + y0);
        assert((x + y).last() == y.last());
    } else {
        assert((x + y).last() == y.last());
    }
}

/// Dropping trailing blank lines twice drops nothing more.
pub proof fn lemma_dtb_idem(x: Seq<Seq<char>>)
    ensures
        drop_trailing_blank(drop_trailing_blank(x)) == drop_trailing_blank(x),
{
    lemma_drop_trailing_prefix(x);
}

/// Dropping trailing blank lines keeps every heading.
pub proof fn lemma_dtb_headings(x: Seq<Seq<char>>)
    ensures
        headings(drop_trailing_blank(x)) == headings(x),
    decreases x.len(),
{
    if x.len() > 0 && trim(x.last()).len() == 0 {
        lemma_blank_not_heading(x.last());
        lemma_dtb_headings(x.drop_last());
    }
}

/// Lines that begin with a heading have their first heading at 0.
pub proof fn lemma_first_heading(x: Seq<Seq<char>>)
    requires
        x.len() > 0,
        starts_with(x[0], "## "@),
    ensures
        headings(x).len() > 0,
        headings(x)[0] == 0,
{
    let first = seq![x[0]];
    let rest = x.skip(1);
    assert(x =~= first + rest);
    lemma_headings_append(first, rest);
    assert(first.drop_last() =~= Seq::<Seq<char>>::empty());
    assert(headings(first) == headings(Seq::<Seq<char>>::empty()).push(0));
}

/// A heading line is not blank.
pub proof fn lemma_heading_not_blank(x: Seq<char>)
    requires
        starts_with(x, "## "@),
    ensures
        trim(x).len() > 0,
{
    if trim(x).len() == 0 {
        lemma_blank_not_heading(x);
    }
}

/// The lines before section `i`, the section itself, and the lines after it.
pub open spec fn before_section(ls: Seq<Seq<char>>, i: int) -> Seq<Seq<char>> {
    ls.take(headings(ls)[i])
}

pub open spec fn the_section(ls: Seq<Seq<char>>, i: int) -> Seq<Seq<char>> {
    ls.subrange(headings(ls)[i], section_end(ls, headings(ls), i))
}

pub open spec fn after_section(ls: Seq<Seq<char>>, i: int) -> Seq<Seq<char>> {
    ls.skip(section_end(ls, headings(ls), i))
}

/// Appending lines that are empty or start with a heading.
pub proof fn lemma_locks_append_any(p: Seq<Seq<char>>, q: Seq<Seq<char>>)
    requires
        q.len() == 0 || starts_with(q[0], "## "@),
    ensures
        locks_of(p + q) == locks_of(p) + locks_of(q),
        lines_crash(p + q) == (lines_crash(p) || lines_crash(q)),
{
    if q.len() == 0 {
        assert(p + q =~= p);
        lemma_headings_none(q);
        assert(locks_of(q) =~= Seq::<LockModel>::empty());
        assert(locks_of(p) + locks_of(q) =~= locks_of(p));
        assert(!lines_crash(q));
    } else {
        lemma_locks_append(p, q);
    }
}

/// Section `i` cuts the lines into the locks before it, its own lock, and the locks
/// after it.
pub proof fn lemma_cut_at_section(ls: Seq<Seq<char>>, i: int)
    requires
        0 <= i < headings(ls).len(),
    ensures
        ({
            let a = before_section(ls, i);
            let s = the_section(ls, i);
            let b = after_section(ls, i);
            &&& ls == a + s + b
            &&& s.len() > 0 && starts_with(s[0], "## "@)
            &&& b.len() == 0 || starts_with(b[0], "## "@)
            &&& locks_of(a).len() == i
            &&& locks_of(s).len() == 1
            &&& locks_of(ls) == locks_of(a) + locks_of(s) + locks_of(b)
            &&& lines_crash(ls) == (lines_crash(a) || lines_crash(s) || lines_crash(b))
        }),
{
    let hs = headings(ls);
    let h = hs[i];
    let e = section_end(ls, hs, i);
    let a = before_section(ls, i);
    let s = the_section(ls, i);
    let b = after_section(ls, i);
    lemma_headings(ls);
    assert(h < e) by {
        if i + 1 < hs.len() {
            assert(hs[i] < hs[i + 1]);
        }
    }
    assert(e <= ls.len());
    assert(ls =~= a + s + b);
    assert(s[0] == ls[h]);
    if b.len() > 0 {
        assert(i + 1 < hs.len());
        assert(b[0] == ls[hs[i + 1]]);
    }
    assert forall|j: int| 0 < j < s.len() implies !starts_with(#[trigger] s[j], "## "@) by {
        assert(s[j] == ls[h + j]);
        if starts_with(ls[h + j], "## "@) {
            lemma_headings_complete(ls, h + j);
            let k = choose|k: int| 0 <= k < hs.len() && hs[k] == h + j;
            if k <= i {
                if k < i {
                    assert(hs[k] < hs[i]);
                }
            } else {
                if k > i + 1 {
                    assert(hs[i + 1] < hs[k]);
                }
            }
        }
    }
    lemma_headings_single(s);
    lemma_locks_append_any(s, b);
    lemma_locks_append(a, s + b);
    assert(a + (s + b) =~= a + s + b);
    lemma_headings_append(a, s + b);
    lemma_heading_first(s + b);
    assert((s + b)[0] == s[0]);
    let ha = headings(a);
    assert(hs[ha.len() as int] == h);
    assert(ha.len() == i) by {
        lemma_headings(a);
        if ha.len() < i {
            assert(hs[ha.len() as int] < hs[i]);
        } else if ha.len() > i {
            assert(hs[i] == ha[i]);
            assert(ha[i] < a.len());
        }
    }
    assert(locks_of(s).len() == 1);
    assert(locks_of(a) + (locks_of(s) + locks_of(b)) =~= locks_of(a) + locks_of(s) + locks_of(b));
}

/// The lines kept in front of a replaced section: trailing blank lines dropped, then one
/// blank line if any remain.
pub open spec fn before_part(a: Seq<Seq<char>>) -> Seq<Seq<char>> {
    let h0 = drop_trailing_blank(a);
    if h0.len() > 0 {
        h0.push(Seq::empty())
    } else {
        h0
    }
}

/// The lines kept after a replaced section: when any is not blank, one blank line and
/// the lines from the first non-blank one.
pub open spec fn after_part(b: Seq<Seq<char>>) -> Seq<Seq<char>> {
    if has_nonblank(b) {
        seq![Seq::<char>::empty()] + drop_leading_blank(b)
    } else {
        Seq::empty()
    }
}

pub proof fn lemma_before_part(a: Seq<Seq<char>>)
    ensures
        locks_of(before_part(a)) == locks_of(a),
        lines_crash(before_part(a)) == lines_crash(a),
        forall|j: int|
            0 <= j < before_part(a).len() ==> #[trigger] before_part(a)[j] == a[j] || before_part(
                a,
            )[j] == Seq::<char>::empty(),
        before_part(a).len() <= a.len() + 1,
{
    let h0 = drop_trailing_blank(a);
    lemma_locks_drop_trailing(a);
    lemma_drop_trailing_prefix(a);
    if h0.len() > 0 {
        let hd = h0.push(Seq::empty());
        assert(hd.drop_last() =~= h0);
        lemma_locks_blank_tail(hd);
        assert forall|j: int| 0 <= j < hd.len() implies #[trigger] hd[j] == a[j] || hd[j]
            == Seq::<char>::empty() by {
            if j < h0.len() {
                assert(hd[j] == h0[j]);
            }
        }
    }
}

pub proof fn lemma_after_part(b: Seq<Seq<char>>)
    requires
        b.len() == 0 || starts_with(b[0], "## "@),
    ensures
        after_part(b) == if b.len() > 0 {
            seq![Seq::<char>::empty()] + b
        } else {
            Seq::empty()
        },
{
    reveal_strlit("## ");
    if b.len() > 0 {
        assert(b[0].subrange(0, 3)[0] == b[0][0]);
        lemma_trim_first(b[0]);
        assert(has_nonblank(b));
        assert(drop_leading_blank(b) == b);
    }
}

/// A section put between other lines, and the lines after it, adds its locks between
/// theirs.
pub proof fn lemma_splice(head: Seq<Seq<char>>, sec: Seq<Seq<char>>, b: Seq<Seq<char>>)
    requires
        sec.len() > 0,
        starts_with(sec[0], "## "@),
        b.len() == 0 || starts_with(b[0], "## "@),
    ensures
        locks_of(head + sec + after_part(b)) == locks_of(head) + locks_of(sec) + locks_of(b),
        lines_crash(head + sec + after_part(b)) == (lines_crash(head) || lines_crash(sec)
            || lines_crash(b)),
{
    lemma_after_part(b);
    lemma_locks_append(head, sec);
    if b.len() > 0 {
        let front = head + sec + seq![Seq::<char>::empty()];
        assert(head + sec + after_part(b) =~= front + b);
        lemma_locks_append(front, b);
        assert(front.drop_last() =~= head + sec);
        lemma_locks_blank_tail(front);
    } else {
        assert(head + sec + after_part(b) =~= head + sec);
        lemma_headings_none(b);
        assert(locks_of(b) =~= Seq::<LockModel>::empty());
        assert(!lines_crash(b));
        assert(locks_of(head) + locks_of(sec) + locks_of(b) =~= locks_of(head) + locks_of(sec));
    }
}

} // verus!
