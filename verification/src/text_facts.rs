//! Facts about the text primitives: splitting joined lines, trimming, and searching.
use vstd::prelude::*;
use crate::text::{contains, is_space, lines, occurs_at, split, lemma_split_len, strip_cr, trim, trim_end, trim_start};

verus! {

/// The lines, each followed by a newline.
pub open spec fn unlines(ls: Seq<Seq<char>>) -> Seq<char>
    decreases ls.len(),
{
    if ls.len() == 0 {
        Seq::empty()
    } else {
        unlines(ls.drop_last()) + ls.last() + seq!['\n']
    }
}

/// No line holds a newline.
pub open spec fn single_lines(ls: Seq<Seq<char>>) -> bool {
    forall|i: int| 0 <= i < ls.len() ==> !(#[trigger] ls[i]).contains('\n')
}

pub proof fn lemma_unlines_add(a: Seq<Seq<char>>, b: Seq<Seq<char>>)
    ensures
        unlines(a + b) == unlines(a) + unlines(b),
    decreases b.len(),
{
    if b.len() == 0 {
        assert(a + b =~= a);
        assert(unlines(a) + unlines(b) =~= unlines(a));
    } else {
        lemma_unlines_add(a, b.drop_last());
        assert((a + b).drop_last() =~= a + b.drop_last());
        assert((a + b).last() == b.last());
        assert(unlines(a + b) =~= unlines(a) + unlines(b));
    }
}

/// Appending text without `c` extends the last piece of the split.
pub proof fn lemma_split_extend(s: Seq<char>, t: Seq<char>, c: char)
    requires
        !t.contains(c),
    ensures
        split(s + t, c) == split(s, c).update(split(s, c).len() - 1, split(s, c).last() + t),
    decreases t.len(),
{
    lemma_split_len(s, c);
    let p = split(s, c);
    if t.len() == 0 {
        assert(s + t =~= s);
        assert(p.last() + t =~= p.last());
        assert(p.update(p.len() - 1, p.last() + t) =~= p);
    } else {
        let t0 = t.drop_last();
        assert(!t0.contains(c)) by {
            if t0.contains(c) {
                let j = choose|j: int| 0 <= j < t0.len() && t0[j] == c;
                assert(t[j] == c);
            }
        }
        lemma_split_extend(s, t0, c);
        assert((s + t).drop_last() =~= s + t0);
        assert((s + t).last() == t.last());
        assert(t.last() != c) by {
            assert(t[t.len() - 1] == t.last());
        }
        let q = split(s + t0, c);
        assert(q.last() == p.last() + t0);
        assert((p.last() + t0).push(t.last()) =~= p.last() + t);
        assert(q.update(q.len() - 1, q.last().push(t.last())) =~= p.update(
            p.len() - 1,
            p.last() + t,
        ));
    }
}

pub proof fn lemma_split_unlines(ls: Seq<Seq<char>>)
    requires
        single_lines(ls),
    ensures
        split(unlines(ls), '\n') == ls.push(Seq::empty()),
    decreases ls.len(),
{
    if ls.len() == 0 {
        assert(split(Seq::<char>::empty(), '\n') == seq![Seq::<char>::empty()]);
        assert(ls.push(Seq::empty()) =~= seq![Seq::<char>::empty()]);
    } else {
        let pre = ls.drop_last();
        assert(single_lines(pre)) by {
            assert forall|i: int| 0 <= i < pre.len() implies !(#[trigger] pre[i]).contains('\n') by {
                assert(pre[i] == ls[i]);
            }
        }
        lemma_split_unlines(pre);
        let body = unlines(pre) + ls.last();
        assert(!ls.last().contains('\n')) by {
            assert(ls[ls.len() - 1] == ls.last());
        }
        lemma_split_extend(unlines(pre), ls.last(), '\n');
        assert(Seq::<char>::empty() + ls.last() =~= ls.last());
        assert(split(body, '\n') =~= ls);
        let whole = unlines(ls);
        assert(whole =~= body.push('\n'));
        assert(whole.drop_last() =~= body);
        assert(split(whole, '\n') =~= ls.push(Seq::empty()));
    }
}

/// Lines written one per newline read back as themselves, less a final carriage return.
pub proof fn lemma_lines_unlines(ls: Seq<Seq<char>>)
    requires
        single_lines(ls),
    ensures
        lines(unlines(ls)) == Seq::new(ls.len(), |i: int| strip_cr(ls[i])),
{
    lemma_split_unlines(ls);
    let ps = split(unlines(ls), '\n');
    assert(ps.len() - 1 == ls.len());
    assert(ps[ls.len() as int].len() == 0);
    assert(lines(unlines(ls)) =~= Seq::new(ls.len(), |i: int| strip_cr(ls[i])));
}

/// Nothing is dropped from the front of text that starts with a non-space.
pub proof fn lemma_trim_start_keeps(s: Seq<char>)
    requires
        s.len() > 0,
        !is_space(s[0]),
    ensures
        trim_start(s) == s,
{
}

/// Trimming the end of `p + u`, where `p` ends in a non-space, trims only `u`.
pub proof fn lemma_trim_end_after(p: Seq<char>, u: Seq<char>)
    requires
        p.len() > 0,
        !is_space(p.last()),
    ensures
        trim_end(p + u) == p + trim_end(u),
    decreases u.len(),
{
    if u.len() == 0 {
        assert(p + u =~= p);
        assert(p + trim_end(u) =~= p);
    } else {
        assert((p + u).last() == u.last());
        if is_space(u.last()) {
            assert((p + u).drop_last() =~= p + u.drop_last());
            lemma_trim_end_after(p, u.drop_last());
        }
    }
}

/// Leading white space before text goes with the rest of the leading white space.
pub proof fn lemma_trim_start_space(c: char, u: Seq<char>)
    requires
        is_space(c),
    ensures
        trim_start(seq![c] + u) == trim_start(u),
        trim(seq![c] + u) == trim(u),
{
    assert((seq![c] + u).drop_first() =~= u);
}

/// What remains of a trimmed start ends as the text did, and dropping a final space
/// drops it from there too.
proof fn lemma_trim_start_drop_last(u: Seq<char>)
    requires
        u.len() > 0,
        is_space(u.last()),
    ensures
        trim_start(u).len() > 0 ==> trim_start(u).last() == u.last() && trim_start(u.drop_last())
            == trim_start(u).drop_last(),
        trim_start(u).len() == 0 ==> trim_start(u.drop_last()).len() == 0,
    decreases u.len(),
{
    if u.len() == 1 {
        assert(u[0] == u.last());
        assert(u.drop_first() =~= Seq::<char>::empty());
        assert(u.drop_last() =~= Seq::<char>::empty());
        assert(trim_start(u) == trim_start(u.drop_first()));
        assert(trim_start(u).len() == 0);
    } else if is_space(u[0]) {
        let v = u.drop_first();
        assert(v.last() == u.last());
        lemma_trim_start_drop_last(v);
        assert(u.drop_last()[0] == u[0]);
        assert(u.drop_last().drop_first() =~= v.drop_last());
        assert(trim_start(u) == trim_start(v));
        assert(trim_start(u.drop_last()) == trim_start(v.drop_last()));
    } else {
        assert(u.drop_last()[0] == u[0]);
        assert(trim_start(u) == u);
        assert(trim_start(u.drop_last()) == u.drop_last());
    }
}

/// Dropping a final white-space character does not change the trimmed text.
pub proof fn lemma_trim_drop_last_space(u: Seq<char>)
    requires
        u.len() > 0,
        is_space(u.last()),
    ensures
        trim(u.drop_last()) == trim(u),
{
    lemma_trim_start_drop_last(u);
    let ts = trim_start(u);
    if ts.len() > 0 {
        assert(trim_end(ts) == trim_end(ts.drop_last()));
    } else {
        assert(trim_start(u.drop_last()) =~= Seq::<char>::empty());
        assert(ts =~= Seq::<char>::empty());
    }
}

/// A line without its final carriage return trims to the same text.
pub proof fn lemma_trim_strip_cr(u: Seq<char>)
    ensures
        trim(strip_cr(u)) == trim(u),
{
    if u.len() > 0 && u.last() == '\r' {
        lemma_trim_drop_last_space(u);
    }
}

/// Trimming the end first changes nothing.
pub proof fn lemma_trim_trim_end(u: Seq<char>)
    ensures
        trim(trim_end(u)) == trim(u),
    decreases u.len(),
{
    if u.len() > 0 && is_space(u.last()) {
        lemma_trim_trim_end(u.drop_last());
        lemma_trim_drop_last_space(u);
    }
}

/// Text that lacks one of the needle's characters does not contain the needle.
pub proof fn lemma_lacks_char(s: Seq<char>, needle: Seq<char>, k: int)
    requires
        0 <= k < needle.len(),
        !s.contains(needle[k]),
    ensures
        !contains(s, needle),
{
    if contains(s, needle) {
        let i = choose|i: int| occurs_at(s, needle, i);
        assert(s.subrange(i, i + needle.len())[k] == s[i + k]);
    }
}

/// A needle cannot start inside a prefix that lacks its first character.
pub proof fn lemma_contains_after(p: Seq<char>, s: Seq<char>, needle: Seq<char>)
    requires
        needle.len() > 0,
        !p.contains(needle[0]),
        !contains(s, needle),
    ensures
        !contains(p + s, needle),
{
    if contains(p + s, needle) {
        let i = choose|i: int| occurs_at(p + s, needle, i);
        let w = (p + s).subrange(i, i + needle.len());
        assert(w[0] == (p + s)[i]);
        if i < p.len() {
            assert((p + s)[i] == p[i]);
        } else {
            assert(s.subrange(i - p.len(), i - p.len() + needle.len()) =~= w);
            assert(occurs_at(s, needle, i - p.len()));
        }
    }
}

/// A prefix contains no more than the whole.
pub proof fn lemma_contains_take(s: Seq<char>, k: int, needle: Seq<char>)
    requires
        0 <= k <= s.len(),
        !contains(s, needle),
    ensures
        !contains(s.take(k), needle),
{
    if contains(s.take(k), needle) {
        let i = choose|i: int| occurs_at(s.take(k), needle, i);
        assert(s.take(k).subrange(i, i + needle.len()) =~= s.subrange(i, i + needle.len()));
        assert(occurs_at(s, needle, i));
    }
}

/// `needle` occurs at the very start of `needle + s`.
pub proof fn lemma_contains_front(needle: Seq<char>, s: Seq<char>)
    ensures
        contains(needle + s, needle),
{
    assert((needle + s).subrange(0, needle.len() as int) =~= needle);
    assert(occurs_at(needle + s, needle, 0));
}

/// Trimming keeps the first character when it is not white space.
pub proof fn lemma_trim_first(x: Seq<char>)
    requires
        x.len() > 0,
        !is_space(x[0]),
    ensures
        trim(x).len() > 0,
        trim(x)[0] == x[0],
{
    let p = seq![x[0]];
    let u = x.drop_first();
    assert(x =~= p + u);
    lemma_trim_end_after(p, u);
    assert(trim_start(x) == x);
}

proof fn lemma_trim_start_first(x: Seq<char>)
    ensures
        trim_start(x).len() > 0 ==> !is_space(trim_start(x)[0]),
        trim_start(x).len() == 0 ==> forall|i: int| 0 <= i < x.len() ==> is_space(#[trigger] x[i]),
    decreases x.len(),
{
    if x.len() > 0 && is_space(x[0]) {
        lemma_trim_start_first(x.drop_first());
        if trim_start(x).len() == 0 {
            assert forall|i: int| 0 <= i < x.len() implies is_space(#[trigger] x[i]) by {
                if i > 0 {
                    assert(x[i] == x.drop_first()[i - 1]);
                }
            }
        }
    }
}

/// A blank line is white space throughout.
pub proof fn lemma_blank_spaces(x: Seq<char>)
    requires
        trim(x).len() == 0,
    ensures
        forall|i: int| 0 <= i < x.len() ==> is_space(#[trigger] x[i]),
{
    lemma_trim_start_first(x);
    let t = trim_start(x);
    if t.len() > 0 {
        lemma_trim_first(t);
        assert(trim_start(t) == t);
    }
}

/// A blank line contains no needle that has a non-space character.
pub proof fn lemma_blank_lacks(x: Seq<char>, needle: Seq<char>, k: int)
    requires
        trim(x).len() == 0,
        0 <= k < needle.len(),
        !is_space(needle[k]),
    ensures
        !contains(x, needle),
{
    lemma_blank_spaces(x);
    if x.contains(needle[k]) {
        let j = choose|j: int| 0 <= j < x.len() && x[j] == needle[k];
        assert(is_space(x[j]));
    }
    lemma_lacks_char(x, needle, k);
}

proof fn lemma_split_lacks(s: Seq<char>, c: char)
    ensures
        forall|i: int|
            0 <= i < split(s, c).len() ==> !(#[trigger] split(s, c)[i]).contains(c),
    decreases s.len(),
{
    lemma_split_len(s, c);
    if s.len() > 0 {
        let p = split(s.drop_last(), c);
        lemma_split_lacks(s.drop_last(), c);
        lemma_split_len(s.drop_last(), c);
        if s.last() != c {
            let q = p.last().push(s.last());
            assert(!q.contains(c)) by {
                if q.contains(c) {
                    let j = choose|j: int| 0 <= j < q.len() && q[j] == c;
                    if j < p.last().len() {
                        assert(p[p.len() - 1] == p.last());
                        assert(p.last()[j] == c);
                    }
                }
            }
            assert forall|i: int| 0 <= i < split(s, c).len() implies !(
            #[trigger] split(s, c)[i]).contains(c) by {
                if i < p.len() - 1 {
                    assert(split(s, c)[i] == p[i]);
                }
            }
        } else {
            assert forall|i: int| 0 <= i < split(s, c).len() implies !(
            #[trigger] split(s, c)[i]).contains(c) by {
                if i < p.len() {
                    assert(split(s, c)[i] == p[i]);
                } else {
                    assert(split(s, c)[i] =~= Seq::<char>::empty());
                }
            }
        }
    }
}

/// No line of a text holds a newline.
pub proof fn lemma_lines_single(s: Seq<char>)
    ensures
        single_lines(lines(s)),
{
    let ps = split(s, '\n');
    lemma_split_lacks(s, '\n');
    lemma_split_len(s, '\n');
    let ls = lines(s);
    assert forall|i: int| 0 <= i < ls.len() implies !(#[trigger] ls[i]).contains('\n') by {
        if i < ps.len() - 1 {
            let p = ps[i];
            assert(!p.contains('\n'));
            if p.len() > 0 && p.last() == '\r' {
                assert(ls[i] =~= p.drop_last());
                if ls[i].contains('\n') {
                    let j = choose|j: int| 0 <= j < ls[i].len() && ls[i][j] == '\n';
                    assert(p[j] == '\n');
                }
            }
        } else {
            assert(ls[i] == ps[ps.len() - 1]);
        }
    }
}

/// A line that a carriage return ends.
pub open spec fn ends_cr(x: Seq<char>) -> bool {
    x.len() > 0 && x.last() == '\r'
}

/// Lines with no newline and no final carriage return read back as themselves.
pub proof fn lemma_lines_unlines_plain(ls: Seq<Seq<char>>)
    requires
        single_lines(ls),
        forall|i: int| 0 <= i < ls.len() ==> !ends_cr(#[trigger] ls[i]),
    ensures
        lines(unlines(ls)) == ls,
{
    lemma_lines_unlines(ls);
    assert(lines(unlines(ls)) =~= ls) by {
        assert forall|i: int| 0 <= i < ls.len() implies lines(unlines(ls))[i] == ls[i] by {
            assert(!ends_cr(ls[i]));
        }
    }
}

/// Splitting text joined at a separator splits each side.
pub proof fn lemma_split_concat(a: Seq<char>, b: Seq<char>, c: char)
    ensures
        split(a.push(c) + b, c) == split(a, c) + split(b, c),
    decreases b.len(),
{
    lemma_split_len(b, c);
    if b.len() == 0 {
        assert(a.push(c) + b =~= a.push(c));
        assert(a.push(c).drop_last() =~= a);
        assert(split(b, c) =~= seq![Seq::<char>::empty()]);
        assert(split(a, c).push(Seq::empty()) =~= split(a, c) + split(b, c));
    } else {
        let b0 = b.drop_last();
        lemma_split_concat(a, b0, c);
        lemma_split_len(b0, c);
        assert((a.push(c) + b).drop_last() =~= a.push(c) + b0);
        assert((a.push(c) + b).last() == b.last());
        let p = split(a, c);
        let q = split(b0, c);
        if b.last() == c {
            assert((p + q).push(Seq::empty()) =~= p + q.push(Seq::empty()));
        } else {
            assert((p + q).last() == q.last());
            assert((p + q).update((p + q).len() - 1, (p + q).last().push(b.last())) =~= p + q.update(
                q.len() - 1,
                q.last().push(b.last()),
            ));
        }
    }
}

/// The lines of a text followed by a newline and more lines: the text's pieces (with a
/// final empty line when the text ended in a newline), then the further lines.
pub proof fn lemma_lines_append(s: Seq<char>, r: Seq<Seq<char>>)
    requires
        single_lines(r),
        !(s.len() > 0 && s.last() == '\r'),
    ensures
        lines(s.push('\n') + unlines(r)) == lines(s) + (if split(s, '\n').last().len() == 0 {
            seq![Seq::<char>::empty()]
        } else {
            Seq::empty()
        }) + Seq::new(r.len(), |i: int| strip_cr(r[i])),
{
    let ps = split(s, '\n');
    lemma_split_len(s, '\n');
    lemma_split_concat(s, unlines(r), '\n');
    lemma_split_unlines(r);
    let all = ps + r.push(Seq::empty());
    let k = ps.len() - 1;
    assert(ps.last() == ps[k]);
    if ps.last().len() > 0 {
        assert(s.len() > 0 && s.last() == ps.last().last()) by {
            if s.len() == 0 {
                assert(ps =~= seq![Seq::<char>::empty()]);
            } else if s.last() == '\n' {
                assert(s.drop_last() + seq!['\n'] =~= s);
                assert(ps == split(s.drop_last(), '\n').push(Seq::empty()));
            } else {
                lemma_split_len(s.drop_last(), '\n');
                let p0 = split(s.drop_last(), '\n');
                assert(ps == p0.update(p0.len() - 1, p0.last().push(s.last())));
            }
        }
        assert(strip_cr(ps.last()) == ps.last());
    }
    let want = lines(s) + (if ps.last().len() == 0 {
        seq![Seq::<char>::empty()]
    } else {
        Seq::empty()
    }) + Seq::new(r.len(), |i: int| strip_cr(r[i]));
    assert(lines(s.push('\n') + unlines(r)) =~= want) by {
        assert(all.len() - 1 == ps.len() + r.len());
        assert(all[all.len() - 1].len() == 0);
        assert forall|i: int| 0 <= i < ps.len() + r.len() implies #[trigger] strip_cr(all[i])
            == want[i] by {
            if i < k {
                assert(all[i] == ps[i]);
            } else if i == k {
                assert(all[i] == ps[k]);
            } else {
                assert(all[i] == r[i - ps.len()]);
            }
        }
    }
}

} // verus!
