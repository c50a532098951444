//! What the history reader makes of a section that the history writer wrote.
use vstd::prelude::*;
use crate::history::{
    fence_from, first_with_from, headings, int_array, int_array_crashes, max_number, nonblank,
    parsed_values, rule_pair, rule_pairs, rule_text_at, rules_from_pairs, section_crashes,
    section_rule_pairs, section_solution, section_start,
};
use crate::history_facts::lemma_join_unlines;
use crate::render::{
    join_lines, joined_ints, markdown, rule_lines, shown_rule, step_block, step_text, step_texts,
    strip_newlines, strip_newlines_end, strip_newlines_start,
};
use crate::text::{
    contains, dec, find, int_text, is_digit, is_space, lemma_dec, lemma_find,
    lemma_find_after_digits, lemma_parse_dec, lemma_trim_keeps, lines, parse_i32, split,
    starts_with, strip_cr, trim, trim_end,
};
use crate::text_facts::{
    ends_cr, lemma_contains_after, lemma_contains_front, lemma_contains_take, lemma_lacks_char,
    lemma_lines_unlines, lemma_split_extend, lemma_split_unlines, lemma_trim_end_after,
    lemma_trim_first, lemma_trim_start_keeps, lemma_trim_start_space, lemma_trim_strip_cr,
    lemma_trim_trim_end, lemma_unlines_add, single_lines, unlines,
};

verus! {

/// A numbered rule line as the writer puts it, without its newline.
pub open spec fn rule_line(i: nat, r: Seq<char>) -> Seq<char> {
    dec(i) + ": "@ + shown_rule(r)
}

pub open spec fn rule_line_seq(rules: Seq<Seq<char>>) -> Seq<Seq<char>> {
    Seq::new(rules.len(), |i: int| rule_line((i + 1) as nat, rules[i]))
}

pub open spec fn start_line(start: Seq<i32>) -> Seq<char> {
    "**Start:** `["@ + joined_ints(start) + "]`"@
}

pub open spec fn solution_head(total: nat) -> Seq<char> {
    "**Solution:** ("@ + dec(total) + " clicks \u{2014} solved by locks)"@
}

/// The lines of a written section, in order.
pub open spec fn section_lines(
    name: Seq<char>,
    rules: Seq<Seq<char>>,
    start: Seq<i32>,
    total: nat,
    steps: Seq<(usize, char, usize)>,
) -> Seq<Seq<char>> {
    seq![Seq::empty(), "## "@ + name, Seq::empty(), "**Rules:**"@, "```"@] + rule_line_seq(rules)
        + seq!["```"@, Seq::empty(), start_line(start), Seq::empty(), solution_head(total), "```"@]
        + step_texts(steps) + seq!["```"@]
}

proof fn lemma_rule_lines(rules: Seq<Seq<char>>)
    ensures
        rule_lines(rules) == unlines(rule_line_seq(rules)),
    decreases rules.len(),
{
    if rules.len() > 0 {
        let pre = rules.drop_last();
        lemma_rule_lines(pre);
        let rs = rule_line_seq(rules);
        assert(rs.drop_last() =~= rule_line_seq(pre));
        assert(rs.last() == rule_line(rules.len(), rules.last()));
        reveal_strlit("\n");
        assert(rule_lines(rules) =~= unlines(rs));
    } else {
        assert(rule_line_seq(rules) =~= Seq::<Seq<char>>::empty());
    }
}

proof fn lemma_step_block(steps: Seq<(usize, char, usize)>)
    ensures
        step_block(steps) == unlines(step_texts(steps)),
    decreases steps.len(),
{
    if steps.len() > 0 {
        let pre = steps.drop_last();
        lemma_step_block(pre);
        let ts = step_texts(steps);
        assert(ts.drop_last() =~= step_texts(pre));
        assert(ts.last() == step_text(steps.last()));
        reveal_strlit("\n");
        assert(step_block(steps) =~= unlines(ts));
    } else {
        assert(step_texts(steps) =~= Seq::<Seq<char>>::empty());
    }
}

proof fn lemma_unlines_push(ls: Seq<Seq<char>>, x: Seq<char>)
    ensures
        unlines(ls.push(x)) == unlines(ls) + x + seq!['\n'],
{
    assert(ls.push(x).drop_last() =~= ls);
}

proof fn lemma_head_text(name: Seq<char>)
    ensures
        unlines(seq![Seq::empty(), "## "@ + name, Seq::empty(), "**Rules:**"@, "```"@]) == "\n## "@
            + name + "\n\n"@ + "**Rules:**\n```\n"@,
{
    let e = Seq::<char>::empty();
    let s0 = Seq::<Seq<char>>::empty();
    lemma_unlines_push(s0, e);
    lemma_unlines_push(s0.push(e), "## "@ + name);
    lemma_unlines_push(s0.push(e).push("## "@ + name), e);
    lemma_unlines_push(s0.push(e).push("## "@ + name).push(e), "**Rules:**"@);
    lemma_unlines_push(s0.push(e).push("## "@ + name).push(e).push("**Rules:**"@), "```"@);
    assert(seq![e, "## "@ + name, e, "**Rules:**"@, "```"@] =~= s0.push(e).push("## "@ + name).push(
        e,
    ).push("**Rules:**"@).push("```"@));
    reveal_strlit("\n## ");
    reveal_strlit("## ");
    reveal_strlit("\n\n");
    reveal_strlit("**Rules:**\n```\n");
    reveal_strlit("**Rules:**");
    reveal_strlit("```");
    assert(unlines(seq![e, "## "@ + name, e, "**Rules:**"@, "```"@]) =~= "\n## "@ + name + "\n\n"@
        + "**Rules:**\n```\n"@);
}

proof fn lemma_mid_text(start: Seq<i32>, total: nat)
    ensures
        unlines(
            seq![
                "```"@,
                Seq::empty(),
                start_line(start),
                Seq::empty(),
                solution_head(total),
                "```"@,
            ],
        ) == "```\n\n"@ + "**Start:** `["@ + joined_ints(start) + "]`\n\n"@ + "**Solution:** ("@
            + dec(total) + " clicks \u{2014} solved by locks)\n```\n"@,
{
    let e = Seq::<char>::empty();
    let s0 = Seq::<Seq<char>>::empty();
    let f = "```"@;
    let a = start_line(start);
    let b = solution_head(total);
    lemma_unlines_push(s0, f);
    lemma_unlines_push(s0.push(f), e);
    lemma_unlines_push(s0.push(f).push(e), a);
    lemma_unlines_push(s0.push(f).push(e).push(a), e);
    lemma_unlines_push(s0.push(f).push(e).push(a).push(e), b);
    lemma_unlines_push(s0.push(f).push(e).push(a).push(e).push(b), f);
    assert(seq![f, e, a, e, b, f] =~= s0.push(f).push(e).push(a).push(e).push(b).push(f));
    reveal_strlit("```");
    reveal_strlit("```\n\n");
    reveal_strlit("**Start:** `[");
    reveal_strlit("]`\n\n");
    reveal_strlit("]`");
    reveal_strlit("**Solution:** (");
    reveal_strlit(" clicks \u{2014} solved by locks)\n```\n");
    reveal_strlit(" clicks \u{2014} solved by locks)");
    assert(unlines(seq![f, e, a, e, b, f]) =~= "```\n\n"@ + "**Start:** `["@ + joined_ints(start)
        + "]`\n\n"@ + "**Solution:** ("@ + dec(total) + " clicks \u{2014} solved by locks)\n```\n"@);
}

/// The written section is its lines, each ended by a newline.
pub proof fn lemma_markdown_lines(
    name: Seq<char>,
    rules: Seq<Seq<char>>,
    start: Seq<i32>,
    total: nat,
    steps: Seq<(usize, char, usize)>,
)
    ensures
        markdown(name, rules, start, total, steps) == unlines(
            section_lines(name, rules, start, total, steps),
        ),
{
    let head: Seq<Seq<char>> = seq![Seq::empty(), "## "@ + name, Seq::empty(), "**Rules:**"@, "```"@];
    let mid: Seq<Seq<char>> = seq![
        "```"@,
        Seq::empty(),
        start_line(start),
        Seq::empty(),
        solution_head(total),
        "```"@,
    ];
    let tail: Seq<Seq<char>> = seq!["```"@];
    let rs = rule_line_seq(rules);
    let ts = step_texts(steps);
    lemma_rule_lines(rules);
    lemma_step_block(steps);
    lemma_unlines_add(head, rs);
    lemma_unlines_add(head + rs, mid);
    lemma_unlines_add(head + rs + mid, ts);
    lemma_unlines_add(head + rs + mid + ts, tail);
    lemma_head_text(name);
    lemma_mid_text(start, total);
    lemma_unlines_push(Seq::empty(), "```"@);
    assert(tail =~= Seq::<Seq<char>>::empty().push("```"@));
    reveal_strlit("```\n");
    reveal_strlit("```");
    assert(unlines(tail) =~= "```\n"@);
    assert(section_lines(name, rules, start, total, steps) =~= head + rs + mid + ts + tail);
    assert(markdown(name, rules, start, total, steps) =~= unlines(head) + unlines(rs) + unlines(mid)
        + unlines(ts) + unlines(tail));
}

/// The characters of written numbers.
pub open spec fn num_char(c: char) -> bool {
    is_digit(c) || c == '-' || c == ',' || c == ' '
}

pub open spec fn num_chars(s: Seq<char>) -> bool {
    forall|i: int| 0 <= i < s.len() ==> num_char(#[trigger] s[i])
}

pub proof fn lemma_lacks_add(a: Seq<char>, b: Seq<char>, c: char)
    requires
        !a.contains(c),
        !b.contains(c),
    ensures
        !(a + b).contains(c),
{
    if (a + b).contains(c) {
        let j = choose|j: int| 0 <= j < (a + b).len() && (a + b)[j] == c;
        if j < a.len() {
            assert(a[j] == c);
        } else {
            assert(b[j - a.len()] == c);
        }
    }
}

pub proof fn lemma_num_lacks(s: Seq<char>, c: char)
    requires
        num_chars(s),
        !num_char(c),
    ensures
        !s.contains(c),
{
    if s.contains(c) {
        let j = choose|j: int| 0 <= j < s.len() && s[j] == c;
        assert(num_char(s[j]));
    }
}

pub proof fn lemma_dec_num(n: nat)
    ensures
        num_chars(dec(n)),
        dec(n).len() > 0,
        is_digit(dec(n)[0]),
{
    lemma_dec(n);
}

pub proof fn lemma_int_text_num(x: int)
    ensures
        num_chars(int_text(x)),
        !int_text(x).contains(','),
        int_text(x).len() > 0,
        !is_space(int_text(x)[0]),
        !is_space(int_text(x).last()),
{
    if x < 0 {
        lemma_dec_num((-x) as nat);
        let d = dec((-x) as nat);
        assert(int_text(x) == seq!['-'] + d);
        assert forall|i: int| 0 <= i < int_text(x).len() implies num_char(#[trigger] int_text(x)[i]) by {
            if i > 0 {
                assert(int_text(x)[i] == d[i - 1]);
            }
        }
        assert(int_text(x).last() == d.last());
        assert(is_digit(d[d.len() - 1]));
    } else {
        lemma_dec_num(x as nat);
        let d = dec(x as nat);
        assert(is_digit(d[d.len() - 1]));
    }
    if int_text(x).contains(',') {
        let j = choose|j: int| 0 <= j < int_text(x).len() && int_text(x)[j] == ',';
        assert(num_char(int_text(x)[j]));
        if x >= 0 {
            lemma_dec(x as nat);
            assert(is_digit(dec(x as nat)[j]));
        } else {
            lemma_dec((-x) as nat);
            if j > 0 {
                assert(int_text(x)[j] == dec((-x) as nat)[j - 1]);
            }
        }
    }
}

pub proof fn lemma_joined_num(xs: Seq<i32>)
    ensures
        num_chars(joined_ints(xs)),
    decreases xs.len(),
{
    if xs.len() == 1 {
        lemma_int_text_num(xs[0] as int);
    } else if xs.len() > 1 {
        let pre = joined_ints(xs.drop_last());
        let t = int_text(xs.last() as int);
        lemma_joined_num(xs.drop_last());
        lemma_int_text_num(xs.last() as int);
        reveal_strlit(", ");
        let j = joined_ints(xs);
        assert(j =~= pre + ", "@ + t);
        assert forall|i: int| 0 <= i < j.len() implies num_char(#[trigger] j[i]) by {
            if i < pre.len() {
                assert(j[i] == pre[i]);
            } else if i >= pre.len() + 2 {
                assert(j[i] == t[i - pre.len() - 2]);
            }
        }
    }
}

/// Where each kind of line stands in a written section.
pub proof fn lemma_section_index(
    name: Seq<char>,
    rules: Seq<Seq<char>>,
    start: Seq<i32>,
    total: nat,
    steps: Seq<(usize, char, usize)>,
)
    ensures
        ({
            let l = section_lines(name, rules, start, total, steps);
            let nr = rules.len() as int;
            let ns = steps.len() as int;
            &&& l.len() == 12 + nr + ns
            &&& l[0] == Seq::<char>::empty()
            &&& l[1] == "## "@ + name
            &&& l[2] == Seq::<char>::empty()
            &&& l[3] == "**Rules:**"@
            &&& l[4] == "```"@
            &&& (forall|k: int| 0 <= k < nr ==> l[5 + k] == rule_line((k + 1) as nat, rules[k]))
            &&& l[5 + nr] == "```"@
            &&& l[6 + nr] == Seq::<char>::empty()
            &&& l[7 + nr] == start_line(start)
            &&& l[8 + nr] == Seq::<char>::empty()
            &&& l[9 + nr] == solution_head(total)
            &&& l[10 + nr] == "```"@
            &&& (forall|k: int| 0 <= k < ns ==> l[11 + nr + k] == step_text(steps[k]))
            &&& l[11 + nr + ns] == "```"@
        }),
{
    let l = section_lines(name, rules, start, total, steps);
    let nr = rules.len() as int;
    let ns = steps.len() as int;
    let head: Seq<Seq<char>> = seq![Seq::empty(), "## "@ + name, Seq::empty(), "**Rules:**"@, "```"@];
    let mid: Seq<Seq<char>> = seq![
        "```"@,
        Seq::empty(),
        start_line(start),
        Seq::empty(),
        solution_head(total),
        "```"@,
    ];
    let rs = rule_line_seq(rules);
    let ts = step_texts(steps);
    let a = head + rs;
    let b = a + mid;
    let c = b + ts;
    assert(l == c + seq!["```"@]);
    assert forall|k: int| 0 <= k < nr implies l[5 + k] == rule_line((k + 1) as nat, rules[k]) by {
        assert(l[5 + k] == c[5 + k]);
        assert(c[5 + k] == b[5 + k]);
        assert(b[5 + k] == a[5 + k]);
        assert(a[5 + k] == rs[k]);
    }
    assert forall|k: int| 0 <= k < ns implies l[11 + nr + k] == step_text(steps[k]) by {
        assert(l[11 + nr + k] == c[11 + nr + k]);
        assert(c[11 + nr + k] == ts[k]);
    }
    assert(l[5 + nr] == mid[0]);
    assert(l[6 + nr] == mid[1]);
    assert(l[7 + nr] == mid[2]);
    assert(l[8 + nr] == mid[3]);
    assert(l[9 + nr] == mid[4]);
    assert(l[10 + nr] == mid[5]);
}

/// A rule text that the writer can put on one line and the reader finds again.
pub open spec fn plain_rule(r: Seq<char>) -> bool {
    &&& !r.contains('\n')
    &&& !contains(r, "**Start"@)
    &&& !contains(r, "**Solution"@)
}

/// What a written section needs to be laid out line by line as written: a single-line
/// name and rules, and no step key that is a line break.
pub open spec fn laid_out(
    name: Seq<char>,
    rules: Seq<Seq<char>>,
    steps: Seq<(usize, char, usize)>,
) -> bool {
    &&& !name.contains('\n')
    &&& forall|i: int| 0 <= i < rules.len() ==> !(#[trigger] rules[i]).contains('\n')
    &&& rules.len() <= usize::MAX
    &&& forall|i: int|
        0 <= i < steps.len() ==> (#[trigger] steps[i]).1 != '\n' && steps[i].1 != '\r'
}

/// What a written section needs to read back as it was written.
pub open spec fn writable(
    name: Seq<char>,
    rules: Seq<Seq<char>>,
    start: Seq<i32>,
    steps: Seq<(usize, char, usize)>,
) -> bool {
    &&& !name.contains('\n')
    &&& forall|i: int| 0 <= i < rules.len() ==> plain_rule(#[trigger] rules[i])
    &&& rules.len() <= usize::MAX
    &&& start.len() > 0
    &&& forall|i: int|
        0 <= i < steps.len() ==> (#[trigger] steps[i]).1 != '\n' && steps[i].1 != '\r'
}

pub proof fn lemma_rule_line_facts(i: nat, r: Seq<char>)
    ensures
        rule_line(i, r) == (dec(i) + ": "@) + shown_rule(r),
        !(dec(i) + ": "@).contains('*'),
        !(dec(i) + ": "@).contains('\n'),
        !r.contains('\n') ==> !rule_line(i, r).contains('\n'),
        rule_line(i, r).len() >= 3,
        is_digit(rule_line(i, r)[0]),
        !contains(r, "**Start"@) ==> !contains(shown_rule(r), "**Start"@),
        !contains(r, "**Solution"@) ==> !contains(shown_rule(r), "**Solution"@),
{
    lemma_dec_num(i);
    reveal_strlit(": ");
    reveal_strlit("-");
    reveal_strlit("**Start");
    reveal_strlit("**Solution");
    let d = dec(i);
    lemma_num_lacks(d, '*');
    lemma_num_lacks(d, '\n');
    lemma_lacks_add(d, ": "@, '*');
    lemma_lacks_add(d, ": "@, '\n');
    assert(rule_line(i, r)[0] == d[0]);
    if shown_rule(r) != r {
        assert(!shown_rule(r).contains('\n'));
        lemma_lacks_char(shown_rule(r), "**Start"@, 2);
        lemma_lacks_char(shown_rule(r), "**Solution"@, 2);
    }
    if !r.contains('\n') {
        lemma_lacks_add(d + ": "@, shown_rule(r), '\n');
    }
}

proof fn lemma_step_text_facts(st: (usize, char, usize))
    ensures
        step_text(st) == (dec(st.0 as nat) + ": "@ + dec(st.2 as nat) + "x "@) + seq![st.1],
        !(dec(st.0 as nat) + ": "@ + dec(st.2 as nat) + "x "@).contains('\n'),
        !(dec(st.0 as nat) + ": "@ + dec(st.2 as nat) + "x "@).contains('\r'),
        st.1 != '\n' ==> !step_text(st).contains('\n'),
        step_text(st).len() > 0,
        is_digit(step_text(st)[0]),
        step_text(st).last() == st.1,
{
    lemma_dec_num(st.0 as nat);
    lemma_dec_num(st.2 as nat);
    reveal_strlit(": ");
    reveal_strlit("x ");
    let d1 = dec(st.0 as nat);
    let d2 = dec(st.2 as nat);
    lemma_num_lacks(d1, '\n');
    lemma_num_lacks(d2, '\n');
    lemma_num_lacks(d1, '\r');
    lemma_num_lacks(d2, '\r');
    lemma_lacks_add(d1, ": "@, '\n');
    lemma_lacks_add(d1 + ": "@, d2, '\n');
    lemma_lacks_add(d1 + ": "@ + d2, "x "@, '\n');
    lemma_lacks_add(d1, ": "@, '\r');
    lemma_lacks_add(d1 + ": "@, d2, '\r');
    lemma_lacks_add(d1 + ": "@ + d2, "x "@, '\r');
    let p = d1 + ": "@ + d2 + "x "@;
    assert(step_text(st) =~= p + seq![st.1]);
    assert(step_text(st)[0] == d1[0]);
    if st.1 != '\n' {
        lemma_lacks_add(p, seq![st.1], '\n');
    }
}

pub proof fn lemma_section_single(
    name: Seq<char>,
    rules: Seq<Seq<char>>,
    start: Seq<i32>,
    total: nat,
    steps: Seq<(usize, char, usize)>,
)
    requires
        laid_out(name, rules, steps),
    ensures
        single_lines(section_lines(name, rules, start, total, steps)),
{
    let l = section_lines(name, rules, start, total, steps);
    let nr = rules.len() as int;
    let ns = steps.len() as int;
    lemma_section_index(name, rules, start, total, steps);
    reveal_strlit("## ");
    reveal_strlit("**Rules:**");
    reveal_strlit("```");
    reveal_strlit("**Start:** `[");
    reveal_strlit("]`");
    reveal_strlit("**Solution:** (");
    reveal_strlit(" clicks \u{2014} solved by locks)");
    lemma_lacks_add("## "@, name, '\n');
    lemma_joined_num(start);
    lemma_num_lacks(joined_ints(start), '\n');
    lemma_lacks_add("**Start:** `["@, joined_ints(start), '\n');
    lemma_lacks_add("**Start:** `["@ + joined_ints(start), "]`"@, '\n');
    lemma_dec_num(total);
    lemma_num_lacks(dec(total), '\n');
    lemma_lacks_add("**Solution:** ("@, dec(total), '\n');
    lemma_lacks_add("**Solution:** ("@ + dec(total), " clicks \u{2014} solved by locks)"@, '\n');
    assert forall|i: int| 0 <= i < l.len() implies !(#[trigger] l[i]).contains('\n') by {
        if 5 <= i < 5 + nr {
            lemma_rule_line_facts((i - 4) as nat, rules[i - 5]);
            assert(!rules[i - 5].contains('\n'));
        } else if 11 + nr <= i < 11 + nr + ns {
            lemma_step_text_facts(steps[i - 11 - nr]);
            assert(steps[i - 11 - nr].1 != '\n');
        }
    }
}

/// The lines the reader sees in a written section.
pub open spec fn read_lines(
    name: Seq<char>,
    rules: Seq<Seq<char>>,
    start: Seq<i32>,
    total: nat,
    steps: Seq<(usize, char, usize)>,
) -> Seq<Seq<char>> {
    let l = section_lines(name, rules, start, total, steps);
    Seq::new(l.len(), |i: int| strip_cr(l[i]))
}

pub proof fn lemma_written_lines(
    name: Seq<char>,
    rules: Seq<Seq<char>>,
    start: Seq<i32>,
    total: nat,
    steps: Seq<(usize, char, usize)>,
)
    requires
        laid_out(name, rules, steps),
    ensures
        lines(markdown(name, rules, start, total, steps)) == read_lines(
            name,
            rules,
            start,
            total,
            steps,
        ),
{
    lemma_markdown_lines(name, rules, start, total, steps);
    lemma_section_single(name, rules, start, total, steps);
    lemma_lines_unlines(section_lines(name, rules, start, total, steps));
}

proof fn lemma_not_heading(s: Seq<char>)
    requires
        s.len() == 0 || s[0] != '#',
    ensures
        !starts_with(s, "## "@),
{
    reveal_strlit("## ");
    if starts_with(s, "## "@) {
        assert(s.subrange(0, 3)[0] == s[0]);
    }
}

/// Headings after `k` change nothing when no line from `k` on opens a section.
proof fn lemma_headings_prefix(ls: Seq<Seq<char>>, k: int)
    requires
        0 <= k <= ls.len(),
        forall|i: int| k <= i < ls.len() ==> !starts_with(#[trigger] ls[i], "## "@),
    ensures
        headings(ls) == headings(ls.take(k)),
    decreases ls.len(),
{
    if ls.len() == k {
        assert(ls.take(k) =~= ls);
    } else {
        let pre = ls.drop_last();
        assert(ls.last() == ls[ls.len() - 1]);
        assert forall|i: int| k <= i < pre.len() implies !starts_with(#[trigger] pre[i], "## "@) by {
            assert(pre[i] == ls[i]);
        }
        lemma_headings_prefix(pre, k);
        assert(pre.take(k) =~= ls.take(k));
    }
}

/// Facts on what the reader sees, line by line.
pub proof fn lemma_read_index(
    name: Seq<char>,
    rules: Seq<Seq<char>>,
    start: Seq<i32>,
    total: nat,
    steps: Seq<(usize, char, usize)>,
)
    requires
        laid_out(name, rules, steps),
    ensures
        ({
            let ls = read_lines(name, rules, start, total, steps);
            let nr = rules.len() as int;
            let ns = steps.len() as int;
            &&& ls.len() == 12 + nr + ns
            &&& ls[0] == Seq::<char>::empty()
            &&& ls[1] == strip_cr("## "@ + name)
            &&& ls[2] == Seq::<char>::empty()
            &&& ls[3] == "**Rules:**"@
            &&& ls[4] == "```"@
            &&& (forall|k: int|
                0 <= k < nr ==> ls[5 + k] == strip_cr(rule_line((k + 1) as nat, rules[k])))
            &&& ls[5 + nr] == "```"@
            &&& ls[6 + nr] == Seq::<char>::empty()
            &&& ls[7 + nr] == start_line(start)
            &&& ls[8 + nr] == Seq::<char>::empty()
            &&& ls[9 + nr] == solution_head(total)
            &&& ls[10 + nr] == "```"@
            &&& (forall|k: int| 0 <= k < ns ==> ls[11 + nr + k] == step_text(steps[k]))
            &&& ls[11 + nr + ns] == "```"@
        }),
{
    let ls = read_lines(name, rules, start, total, steps);
    let nr = rules.len() as int;
    let ns = steps.len() as int;
    lemma_section_index(name, rules, start, total, steps);
    reveal_strlit("**Rules:**");
    reveal_strlit("```");
    reveal_strlit("]`");
    reveal_strlit(" clicks \u{2014} solved by locks)");
    let sl = start_line(start);
    let sh = solution_head(total);
    assert(sl.last() == '`');
    assert(sh.last() == ')');
    assert forall|k: int| 0 <= k < ns implies ls[11 + nr + k] == step_text(steps[k]) by {
        lemma_step_text_facts(steps[k]);
        assert(steps[k].1 != '\r');
    }
}

/// The written section holds one heading, its second line.
pub proof fn lemma_written_headings(
    name: Seq<char>,
    rules: Seq<Seq<char>>,
    start: Seq<i32>,
    total: nat,
    steps: Seq<(usize, char, usize)>,
)
    requires
        laid_out(name, rules, steps),
    ensures
        headings(read_lines(name, rules, start, total, steps)) == seq![1int],
{
    let ls = read_lines(name, rules, start, total, steps);
    let nr = rules.len() as int;
    let ns = steps.len() as int;
    lemma_read_index(name, rules, start, total, steps);
    reveal_strlit("## ");
    reveal_strlit("**Rules:**");
    reveal_strlit("```");
    reveal_strlit("**Start:** `[");
    reveal_strlit("**Solution:** (");
    assert forall|i: int| 2 <= i < ls.len() implies !starts_with(#[trigger] ls[i], "## "@) by {
        if 5 <= i < 5 + nr {
            let rl = rule_line((i - 4) as nat, rules[i - 5]);
            lemma_rule_line_facts((i - 4) as nat, rules[i - 5]);
            assert(strip_cr(rl)[0] == rl[0]);
            assert(is_digit(rl[0]));
        } else if 11 + nr <= i < 11 + nr + ns {
            lemma_step_text_facts(steps[i - 11 - nr]);
        } else if i == 7 + nr {
            assert(start_line(start)[0] == '*');
        } else if i == 9 + nr {
            assert(solution_head(total)[0] == '*');
        }
        lemma_not_heading(ls[i]);
    }
    lemma_headings_prefix(ls, 2);
    let two = ls.take(2);
    assert(two.drop_last() =~= seq![ls[0]]);
    assert(seq![ls[0]].drop_last() =~= Seq::<Seq<char>>::empty());
    lemma_not_heading(ls[0]);
    let h = "## "@ + name;
    assert(ls[1].subrange(0, 3) =~= "## "@) by {
        assert(h.len() >= 3);
        if h.len() > 0 && h.last() == '\r' {
            assert(h.last() == name.last());
        }
    }
    assert(starts_with(ls[1], "## "@));
    assert(two.last() == ls[1]);
    assert(seq![ls[0]].last() == ls[0]);
    assert(headings(seq![ls[0]]) == headings(Seq::<Seq<char>>::empty()));
    assert(headings(two) == headings(seq![ls[0]]).push(1));
    assert(headings(two) =~= seq![1int]);
}

proof fn lemma_first_with_at(body: Seq<Seq<char>>, needle: Seq<char>, i: int, k: int)
    requires
        0 <= i <= k < body.len(),
        forall|j: int| i <= j < k ==> !contains(#[trigger] body[j], needle),
        contains(body[k], needle),
    ensures
        first_with_from(body, needle, i) == Some(k),
    decreases k - i,
{
    if i < k {
        lemma_first_with_at(body, needle, i + 1, k);
    }
}

proof fn lemma_fence_at(body: Seq<Seq<char>>, i: int, k: int)
    requires
        0 <= i <= k < body.len(),
        forall|j: int| i <= j < k ==> trim(#[trigger] body[j]) != "```"@,
        trim(body[k]) == "```"@,
    ensures
        fence_from(body, i) == k,
    decreases k - i,
{
    if i < k {
        lemma_fence_at(body, i + 1, k);
    }
}

/// A line that starts with neither white space nor a backtick is no fence.
proof fn lemma_no_fence(x: Seq<char>)
    requires
        x.len() == 0 || (!is_space(x[0]) && x[0] != '`'),
    ensures
        trim(x) != "```"@,
{
    reveal_strlit("```");
    if x.len() > 0 {
        lemma_trim_first(x);
    } else {
        assert(trim(x).len() == 0);
    }
}

proof fn lemma_fence_line()
    ensures
        trim("```"@) == "```"@,
{
    reveal_strlit("```");
    lemma_trim_keeps("```"@);
}

/// The pieces of the written start positions between commas.
pub open spec fn start_pieces(xs: Seq<i32>) -> Seq<Seq<char>> {
    Seq::new(
        xs.len(),
        |i: int|
            if i == 0 {
                int_text(xs[0] as int)
            } else {
                seq![' '] + int_text(xs[i] as int)
            },
    )
}

proof fn lemma_split_joined(xs: Seq<i32>)
    requires
        xs.len() > 0,
    ensures
        split(joined_ints(xs), ',') == start_pieces(xs),
    decreases xs.len(),
{
    lemma_int_text_num(xs.last() as int);
    let t = int_text(xs.last() as int);
    if xs.len() == 1 {
        assert(xs.last() == xs[0]);
        assert(Seq::<char>::empty() + t =~= t);
        lemma_split_extend(Seq::empty(), t, ',');
        assert(split(Seq::<char>::empty(), ',') == seq![Seq::<char>::empty()]);
        assert(joined_ints(xs) == t);
        assert(split(joined_ints(xs), ',') =~= start_pieces(xs));
    } else {
        let pre = xs.drop_last();
        lemma_split_joined(pre);
        let a = joined_ints(pre);
        let u = seq![' '] + t;
        reveal_strlit(", ");
        assert(joined_ints(xs) =~= a.push(',') + u);
        assert(a.push(',').drop_last() =~= a);
        assert(split(a.push(','), ',') == split(a, ',').push(Seq::empty()));
        assert(!u.contains(',')) by {
            lemma_lacks_add(seq![' '], t, ',');
        }
        lemma_split_extend(a.push(','), u, ',');
        assert(Seq::<char>::empty() + u =~= u);
        assert(split(joined_ints(xs), ',') =~= start_pieces(xs));
    }
}

proof fn lemma_parse_int_text(x: i32)
    ensures
        parse_i32(int_text(x as int)) == Some(x),
{
    if x < 0 {
        let d = dec((-x) as nat);
        lemma_dec((-x) as nat);
        assert(int_text(x as int).drop_first() =~= d);
    } else {
        let d = dec(x as nat);
        lemma_dec(x as nat);
        assert(is_digit(d[0]));
    }
}

proof fn lemma_parsed_pieces(xs: Seq<i32>)
    ensures
        parsed_values(start_pieces(xs)) == xs,
    decreases xs.len(),
{
    if xs.len() > 0 {
        let pre = xs.drop_last();
        lemma_parsed_pieces(pre);
        let ps = start_pieces(xs);
        assert(ps.drop_last() =~= start_pieces(pre)) by {
            if pre.len() > 0 {
                assert(pre[0] == xs[0]);
            }
        }
        let x = xs.last();
        lemma_int_text_num(x as int);
        lemma_trim_keeps(int_text(x as int));
        lemma_parse_int_text(x);
        if xs.len() > 1 {
            assert(ps.last() == seq![' '] + int_text(x as int));
            lemma_trim_start_space(' ', int_text(x as int));
        } else {
            assert(ps.last() == int_text(xs[0] as int));
        }
        assert(parsed_values(ps) =~= xs);
    }
}

/// The written start positions, split at commas, read back as themselves.
pub proof fn lemma_joined_parsed(xs: Seq<i32>)
    requires
        xs.len() > 0,
    ensures
        parsed_values(split(joined_ints(xs), ',')) == xs,
{
    lemma_split_joined(xs);
    lemma_parsed_pieces(xs);
}

/// The written start line reads back as the start positions.
pub proof fn lemma_start_line(start: Seq<i32>)
    requires
        start.len() > 0,
    ensures
        int_array(start_line(start)) == Some(start),
        !int_array_crashes(start_line(start)),
{
    let j = joined_ints(start);
    let jl = j.len() as int;
    let s = start_line(start);
    reveal_strlit("**Start:** `[");
    reveal_strlit("]`");
    lemma_joined_num(start);
    let p = "**Start:** `["@;
    assert(s =~= p + j + "]`"@);
    lemma_find(s, '[');
    lemma_find(s, ']');
    assert(s[12] == '[');
    assert(s[13 + jl] == ']');
    assert forall|i: int| 0 <= i < 13 + jl implies s[i] != ']' by {
        if i >= 13 {
            assert(s[i] == j[i - 13]);
            assert(num_char(j[i - 13]));
        }
    }
    assert(find(s, '[') == Some(12int)) by {
        match find(s, '[') {
            Some(k) => {
                if k > 12 {
                    assert(s[12] == '[');
                }
            },
            None => {},
        }
    }
    assert(find(s, ']') == Some(13 + jl)) by {
        match find(s, ']') {
            Some(k) => {
                if k > 13 + jl {
                    assert(s[13 + jl] == ']');
                }
            },
            None => {},
        }
    }
    assert(s.subrange(13, 13 + jl) =~= j);
    lemma_split_joined(start);
    lemma_parsed_pieces(start);
}

/// A written rule line reads back as its number and its trimmed text.
pub proof fn lemma_rule_pair_line(i: nat, r: Seq<char>)
    requires
        1 <= i <= usize::MAX,
    ensures
        rule_pair(strip_cr(rule_line(i, r))) == Some((i as usize, trim(shown_rule(r)))),
{
    let d = dec(i);
    let sr = shown_rule(r);
    let x = rule_line(i, r);
    let p = d.push(':');
    let u = seq![' '] + sr;
    reveal_strlit(": ");
    assert(x =~= p + u);
    lemma_dec(i);
    lemma_rule_line_facts(i, r);
    lemma_trim_strip_cr(x);
    lemma_trim_start_keeps(x);
    assert(p.last() == ':');
    lemma_trim_end_after(p, u);
    let w = trim_end(u);
    assert(trim(x) == p + w);
    assert(p + w =~= d + (seq![':'] + w));
    lemma_find_after_digits(d, seq![':'] + w, ':');
    let c = d.len() as int;
    assert((p + w).take(c) =~= d);
    assert((p + w).skip(c + 1) =~= w);
    lemma_parse_dec(i as usize);
    lemma_trim_trim_end(u);
    lemma_trim_start_space(' ', sr);
}

/// A written rule line that holds no section marker.
proof fn lemma_rule_line_clean(i: nat, r: Seq<char>)
    requires
        plain_rule(r),
    ensures
        !contains(strip_cr(rule_line(i, r)), "**Start"@),
        !contains(strip_cr(rule_line(i, r)), "**Solution"@),
{
    reveal_strlit("**Start");
    reveal_strlit("**Solution");
    lemma_rule_line_facts(i, r);
    let x = rule_line(i, r);
    let pre = dec(i) + ": "@;
    lemma_contains_after(pre, shown_rule(r), "**Start"@);
    lemma_contains_after(pre, shown_rule(r), "**Solution"@);
    if x.len() > 0 && x.last() == '\r' {
        lemma_contains_take(x, x.len() - 1, "**Start"@);
        lemma_contains_take(x, x.len() - 1, "**Solution"@);
        assert(strip_cr(x) =~= x.take(x.len() - 1));
    }
}

/// The lines of the written section after its heading.
pub open spec fn read_body(
    name: Seq<char>,
    rules: Seq<Seq<char>>,
    start: Seq<i32>,
    total: nat,
    steps: Seq<(usize, char, usize)>,
) -> Seq<Seq<char>> {
    let ls = read_lines(name, rules, start, total, steps);
    ls.subrange(2, ls.len() as int)
}

pub proof fn lemma_body_start(
    name: Seq<char>,
    rules: Seq<Seq<char>>,
    start: Seq<i32>,
    total: nat,
    steps: Seq<(usize, char, usize)>,
)
    requires
        writable(name, rules, start, steps),
    ensures
        section_start(read_body(name, rules, start, total, steps)) == Some(start),
        !section_crashes(read_body(name, rules, start, total, steps)),
{
    let ls = read_lines(name, rules, start, total, steps);
    let body = read_body(name, rules, start, total, steps);
    let nr = rules.len() as int;
    lemma_read_index(name, rules, start, total, steps);
    reveal_strlit("**Start");
    reveal_strlit("**Rules:**");
    reveal_strlit("```");
    reveal_strlit("**Start:** `[");
    let needle = "**Start"@;
    assert forall|j: int| 0 <= j < 5 + nr implies !contains(#[trigger] body[j], needle) by {
        assert(body[j] == ls[j + 2]);
        if 3 <= j < 3 + nr {
            assert(plain_rule(rules[j - 3]));
            lemma_rule_line_clean((j - 2) as nat, rules[j - 3]);
        } else {
            lemma_lacks_char(body[j], needle, 2);
        }
    }
    assert(body[5 + nr] == start_line(start));
    let sl = start_line(start);
    assert(sl =~= needle + (":** `["@ + joined_ints(start) + "]`"@)) by {
        reveal_strlit(":** `[");
    }
    lemma_contains_front(needle, ":** `["@ + joined_ints(start) + "]`"@);
    lemma_first_with_at(body, needle, 0, 5 + nr);
    lemma_start_line(start);
}

/// The numbered rules as the reader finds them in a written section.
pub open spec fn written_pairs(rules: Seq<Seq<char>>) -> Seq<(usize, Seq<char>)> {
    Seq::new(rules.len(), |i: int| ((i + 1) as usize, trim(shown_rule(rules[i]))))
}

pub open spec fn read_rule_lines(rules: Seq<Seq<char>>) -> Seq<Seq<char>> {
    Seq::new(rules.len(), |k: int| strip_cr(rule_line((k + 1) as nat, rules[k])))
}

proof fn lemma_rule_pairs_lines(rules: Seq<Seq<char>>)
    requires
        rules.len() <= usize::MAX,
    ensures
        rule_pairs(read_rule_lines(rules)) == written_pairs(rules),
    decreases rules.len(),
{
    if rules.len() > 0 {
        let pre = rules.drop_last();
        lemma_rule_pairs_lines(pre);
        let ls = read_rule_lines(rules);
        assert(ls.drop_last() =~= read_rule_lines(pre));
        lemma_rule_pair_line(rules.len(), rules.last());
        assert(ls.last() == strip_cr(rule_line(rules.len(), rules.last())));
        assert(rule_pairs(ls) =~= written_pairs(rules));
    } else {
        assert(read_rule_lines(rules) =~= Seq::<Seq<char>>::empty());
        assert(written_pairs(rules) =~= Seq::<(usize, Seq<char>)>::empty());
    }
}

pub proof fn lemma_body_rules(
    name: Seq<char>,
    rules: Seq<Seq<char>>,
    start: Seq<i32>,
    total: nat,
    steps: Seq<(usize, char, usize)>,
)
    requires
        writable(name, rules, start, steps),
    ensures
        section_rule_pairs(read_body(name, rules, start, total, steps)) == written_pairs(rules),
{
    let ls = read_lines(name, rules, start, total, steps);
    let body = read_body(name, rules, start, total, steps);
    let nr = rules.len() as int;
    lemma_read_index(name, rules, start, total, steps);
    reveal_strlit("**Rules");
    reveal_strlit("**Rules:**");
    reveal_strlit("```");
    let needle = "**Rules"@;
    assert(body[0] == ls[2]);
    assert(body[1] == ls[3]);
    assert(body[2] == ls[4]);
    assert(body[3 + nr] == ls[5 + nr]);
    lemma_lacks_char(body[0], needle, 0);
    assert(body[1] =~= needle + ":**"@) by {
        reveal_strlit(":**");
    }
    lemma_contains_front(needle, ":**"@);
    lemma_first_with_at(body, needle, 0, 1);
    lemma_no_fence(body[1]);
    lemma_fence_line();
    lemma_fence_at(body, 1, 2);
    assert forall|j: int| 3 <= j < 3 + nr implies trim(#[trigger] body[j]) != "```"@ by {
        assert(body[j] == ls[j + 2]);
        let rl = rule_line((j - 2) as nat, rules[j - 3]);
        lemma_rule_line_facts((j - 2) as nat, rules[j - 3]);
        assert(strip_cr(rl)[0] == rl[0]);
        lemma_no_fence(body[j]);
    }
    lemma_fence_at(body, 3, 3 + nr);
    let content = body.subrange(3, 3 + nr);
    assert(content =~= read_rule_lines(rules)) by {
        assert forall|k: int| 0 <= k < nr implies content[k] == read_rule_lines(rules)[k] by {
            assert(content[k] == ls[5 + k]);
        }
    }
    lemma_rule_pairs_lines(rules);
}

proof fn lemma_nonblank_all(ls: Seq<Seq<char>>)
    requires
        forall|i: int| 0 <= i < ls.len() ==> trim(#[trigger] ls[i]).len() > 0,
    ensures
        nonblank(ls) == ls,
    decreases ls.len(),
{
    if ls.len() > 0 {
        let pre = ls.drop_last();
        assert forall|i: int| 0 <= i < pre.len() implies trim(#[trigger] pre[i]).len() > 0 by {
            assert(pre[i] == ls[i]);
        }
        lemma_nonblank_all(pre);
        assert(ls.last() == ls[ls.len() - 1]);
        assert(pre.push(ls.last()) =~= ls);
    }
}

pub proof fn lemma_body_solution(
    name: Seq<char>,
    rules: Seq<Seq<char>>,
    start: Seq<i32>,
    total: nat,
    steps: Seq<(usize, char, usize)>,
)
    requires
        writable(name, rules, start, steps),
    ensures
        section_solution(read_body(name, rules, start, total, steps)) == step_texts(steps),
{
    let ls = read_lines(name, rules, start, total, steps);
    let body = read_body(name, rules, start, total, steps);
    let nr = rules.len() as int;
    let ns = steps.len() as int;
    lemma_read_index(name, rules, start, total, steps);
    reveal_strlit("**Solution");
    reveal_strlit("**Rules:**");
    reveal_strlit("```");
    reveal_strlit("**Start:** `[");
    reveal_strlit("]`");
    reveal_strlit("**Solution:** (");
    let needle = "**Solution"@;
    lemma_joined_num(start);
    lemma_num_lacks(joined_ints(start), 'o');
    lemma_lacks_add("**Start:** `["@, joined_ints(start), 'o');
    lemma_lacks_add("**Start:** `["@ + joined_ints(start), "]`"@, 'o');
    assert forall|j: int| 0 <= j < 7 + nr implies !contains(#[trigger] body[j], needle) by {
        assert(body[j] == ls[j + 2]);
        if 3 <= j < 3 + nr {
            assert(plain_rule(rules[j - 3]));
            lemma_rule_line_clean((j - 2) as nat, rules[j - 3]);
        } else if j == 5 + nr {
            lemma_lacks_char(body[j], needle, 3);
        } else {
            lemma_lacks_char(body[j], needle, 2);
        }
    }
    let sh = solution_head(total);
    assert(body[7 + nr] == sh);
    let rest = ":** ("@ + dec(total) + " clicks \u{2014} solved by locks)"@;
    assert(sh =~= needle + rest) by {
        reveal_strlit(":** (");
        reveal_strlit(" clicks \u{2014} solved by locks)");
    }
    lemma_contains_front(needle, rest);
    lemma_first_with_at(body, needle, 0, 7 + nr);
    assert(body[8 + nr] == ls[10 + nr]);
    assert(body[9 + nr + ns] == ls[11 + nr + ns]);
    lemma_no_fence(body[7 + nr]);
    lemma_fence_line();
    lemma_fence_at(body, 7 + nr, 8 + nr);
    assert forall|j: int| 9 + nr <= j < 9 + nr + ns implies trim(#[trigger] body[j]) != "```"@ by {
        assert(body[j] == ls[j + 2]);
        lemma_step_text_facts(steps[j - 9 - nr]);
        lemma_no_fence(body[j]);
    }
    lemma_fence_at(body, 9 + nr, 9 + nr + ns);
    let content = body.subrange(9 + nr, 9 + nr + ns);
    assert(content =~= step_texts(steps)) by {
        assert forall|k: int| 0 <= k < ns implies content[k] == step_texts(steps)[k] by {
            assert(content[k] == ls[11 + nr + k]);
        }
    }
    assert forall|i: int| 0 <= i < content.len() implies trim(#[trigger] content[i]).len() > 0 by {
        lemma_step_text_facts(steps[i]);
        lemma_trim_first(content[i]);
    }
    lemma_nonblank_all(content);
}

/// The rules the reader builds from a written section: the written rules, trimmed, then
/// empty rules up to the number of start positions.
pub open spec fn read_rules(rules: Seq<Seq<char>>, start_len: nat) -> Seq<Seq<char>> {
    let n = if rules.len() > start_len {
        rules.len()
    } else {
        start_len
    };
    Seq::new(
        n,
        |i: int|
            if i < rules.len() {
                trim(shown_rule(rules[i]))
            } else {
                Seq::empty()
            },
    )
}

proof fn lemma_written_pairs(rules: Seq<Seq<char>>)
    requires
        rules.len() <= usize::MAX,
    ensures
        max_number(written_pairs(rules)) == rules.len(),
        forall|k: int|
            #![trigger rule_text_at(written_pairs(rules), k)]
            rule_text_at(written_pairs(rules), k) == if 1 <= k <= rules.len() {
                trim(shown_rule(rules[k - 1]))
            } else {
                Seq::empty()
            },
    decreases rules.len(),
{
    if rules.len() > 0 {
        let pre = rules.drop_last();
        lemma_written_pairs(pre);
        let ps = written_pairs(rules);
        assert(ps.drop_last() =~= written_pairs(pre));
        assert(ps.last().0 == rules.len());
        assert forall|k: int| #![trigger rule_text_at(written_pairs(rules), k)]
            rule_text_at(written_pairs(rules), k) == if 1 <= k <= rules.len() {
                trim(shown_rule(rules[k - 1]))
            } else {
                Seq::empty()
            } by {
            assert(rule_text_at(ps.drop_last(), k) == rule_text_at(written_pairs(pre), k));
            if 1 <= k < rules.len() {
                assert(pre[k - 1] == rules[k - 1]);
            }
        }
    }
}

pub proof fn lemma_read_rules(rules: Seq<Seq<char>>, start_len: nat)
    requires
        rules.len() <= usize::MAX,
    ensures
        rules_from_pairs(written_pairs(rules), start_len) == read_rules(rules, start_len),
{
    lemma_written_pairs(rules);
    let a = rules_from_pairs(written_pairs(rules), start_len);
    let b = read_rules(rules, start_len);
    assert forall|i: int| 0 <= i < a.len() implies a[i] == b[i] by {
        assert(a[i] == rule_text_at(written_pairs(rules), i + 1));
    }
    assert(a =~= b);
}

/// The written section without its surrounding newlines reads as its lines after the
/// first, empty one.
pub proof fn lemma_section_text_lines(
    name: Seq<char>,
    rules: Seq<Seq<char>>,
    start: Seq<i32>,
    total: nat,
    steps: Seq<(usize, char, usize)>,
)
    requires
        laid_out(name, rules, steps),
    ensures
        lines(strip_newlines(markdown(name, rules, start, total, steps))) == read_lines(
            name,
            rules,
            start,
            total,
            steps,
        ).drop_first(),
{
    let l = section_lines(name, rules, start, total, steps);
    let md = markdown(name, rules, start, total, steps);
    lemma_markdown_lines(name, rules, start, total, steps);
    lemma_section_single(name, rules, start, total, steps);
    lemma_section_index(name, rules, start, total, steps);
    let r = l.drop_first();
    assert(l =~= seq![Seq::<char>::empty()] + r);
    lemma_unlines_add(seq![Seq::<char>::empty()], r);
    assert(unlines(seq![Seq::<char>::empty()]) =~= seq!['\n']) by {
        assert(seq![Seq::<char>::empty()].drop_last() =~= Seq::<Seq<char>>::empty());
        assert(unlines(Seq::<Seq<char>>::empty()) == Seq::<char>::empty());
        assert(seq![Seq::<char>::empty()].last() == Seq::<char>::empty());
    }
    lemma_join_unlines(r);
    let j = join_lines(r);
    reveal_strlit("\n");
    reveal_strlit("## ");
    reveal_strlit("```");
    assert(md =~= seq!['\n'] + j.push('\n'));
    assert(r[0] == "## "@ + name);
    assert(r.last() == "```"@);
    assert(single_lines(r)) by {
        assert forall|i: int| 0 <= i < r.len() implies !(#[trigger] r[i]).contains('\n') by {
            assert(r[i] == l[i + 1]);
        }
    }
    lemma_join_first_last(r);
    assert(md.drop_first() =~= j.push('\n'));
    assert(strip_newlines_start(md) == strip_newlines_start(j.push('\n')));
    assert(j.push('\n')[0] == '#');
    assert(strip_newlines_start(j.push('\n')) == j.push('\n'));
    assert(j.push('\n').drop_last() =~= j);
    assert(strip_newlines_end(j.push('\n')) == strip_newlines_end(j));
    assert(j.last() == '`');
    assert(strip_newlines(md) == j);
    lemma_split_unlines(r);
    assert(unlines(r) =~= j.push('\n'));
    assert(split(j.push('\n'), '\n') == split(j, '\n').push(Seq::empty()));
    assert(split(j, '\n') =~= r) by {
        assert(split(j, '\n').push(Seq::empty()) =~= r.push(Seq::empty()));
        assert(split(j, '\n') =~= split(j, '\n').push(Seq::empty()).drop_last());
        assert(r =~= r.push(Seq::empty()).drop_last());
    }
    assert(lines(j) =~= read_lines(name, rules, start, total, steps).drop_first()) by {
        assert(strip_cr(r.last()) == r.last());
    }
}

/// The joined lines start with the first line's first character and end with the last
/// line's last character.
proof fn lemma_join_first_last(r: Seq<Seq<char>>)
    requires
        r.len() > 0,
        r[0].len() > 0,
        r.last().len() > 0,
    ensures
        join_lines(r).len() > 0,
        join_lines(r)[0] == r[0][0],
        join_lines(r).last() == r.last().last(),
    decreases r.len(),
{
    reveal_strlit("\n");
    if r.len() > 1 {
        let r0 = r.drop_last();
        if r0.len() > 1 {
            lemma_join_first_last_front(r0);
        }
        assert(r0[0] == r[0]);
        let j0 = join_lines(r0);
        if r0.len() == 1 {
            assert(j0 == r0[0]);
        } else {
            lemma_join_first_last_front(r0);
        }
        assert(join_lines(r) == j0 + "\n"@ + r.last());
        assert(join_lines(r)[0] == j0[0]);
    }
}

proof fn lemma_join_first_last_front(r: Seq<Seq<char>>)
    requires
        r.len() > 1,
        r[0].len() > 0,
    ensures
        join_lines(r).len() > 0,
        join_lines(r)[0] == r[0][0],
    decreases r.len(),
{
    reveal_strlit("\n");
    let r0 = r.drop_last();
    assert(r0[0] == r[0]);
    if r0.len() > 1 {
        lemma_join_first_last_front(r0);
    } else {
        assert(join_lines(r0) == r0[0]);
    }
    assert(join_lines(r) == join_lines(r0) + "\n"@ + r.last());
}

/// No line the reader sees in a written section holds a newline or ends in a carriage
/// return, when neither the name nor a rule ends in one.
pub proof fn lemma_read_lines_plain(
    name: Seq<char>,
    rules: Seq<Seq<char>>,
    start: Seq<i32>,
    total: nat,
    steps: Seq<(usize, char, usize)>,
)
    requires
        laid_out(name, rules, steps),
        !ends_cr(name),
        forall|i: int| 0 <= i < rules.len() ==> !ends_cr(#[trigger] rules[i]),
    ensures
        forall|j: int|
            0 <= j < read_lines(name, rules, start, total, steps).len() ==> !(#[trigger] read_lines(
                name,
                rules,
                start,
                total,
                steps,
            )[j]).contains('\n') && !ends_cr(read_lines(name, rules, start, total, steps)[j]),
{
    let l = section_lines(name, rules, start, total, steps);
    let rl = read_lines(name, rules, start, total, steps);
    let nr = rules.len() as int;
    let ns = steps.len() as int;
    lemma_section_single(name, rules, start, total, steps);
    lemma_section_index(name, rules, start, total, steps);
    reveal_strlit("## ");
    reveal_strlit("**Rules:**");
    reveal_strlit("```");
    reveal_strlit("]`");
    reveal_strlit(" clicks \u{2014} solved by locks)");
    reveal_strlit("-");
    assert forall|j: int| 0 <= j < rl.len() implies !(#[trigger] rl[j]).contains('\n') && !ends_cr(
        rl[j],
    ) by {
        assert(!l[j].contains('\n'));
        if j == 1 {
            if name.len() > 0 {
                assert(l[1].last() == name.last());
            }
        } else if 5 <= j < 5 + nr {
            let r = rules[j - 5];
            assert(!ends_cr(r));
            assert(l[j].last() == shown_rule(r).last());
        } else if 11 + nr <= j < 11 + nr + ns {
            lemma_step_text_facts(steps[j - 11 - nr]);
            assert(steps[j - 11 - nr].1 != '\r');
        } else if j == 7 + nr {
            assert(start_line(start).last() == '`');
        } else if j == 9 + nr {
            assert(solution_head(total).last() == ')');
        }
        assert(!ends_cr(l[j]));
        assert(rl[j] == l[j]);
    }
}

/// A step's text before its key.
pub open spec fn step_prefix(st: (usize, char, usize)) -> Seq<char> {
    dec(st.0 as nat) + ": "@ + dec(st.2 as nat) + "x "@
}

/// The lines the steps are written as: a step whose key is a line break ends its line
/// before the key and leaves an empty line after it.
pub open spec fn step_rows(steps: Seq<(usize, char, usize)>) -> Seq<Seq<char>>
    decreases steps.len(),
{
    if steps.len() == 0 {
        Seq::empty()
    } else if steps.last().1 == '\n' {
        step_rows(steps.drop_last()) + seq![step_prefix(steps.last()), Seq::<char>::empty()]
    } else {
        step_rows(steps.drop_last()).push(step_text(steps.last()))
    }
}

/// A written line that is not the heading: a single line that, once read, neither opens
/// a section nor ends in a carriage return.
pub open spec fn plain_row(x: Seq<char>) -> bool {
    &&& !x.contains('\n')
    &&& !starts_with(strip_cr(x), "## "@)
    &&& !ends_cr(strip_cr(x))
}

proof fn lemma_digit_not_hash(c: char)
    requires
        is_digit(c),
    ensures
        c != '#',
{
}

proof fn lemma_step_rows(steps: Seq<(usize, char, usize)>)
    ensures
        step_block(steps) == unlines(step_rows(steps)),
        forall|i: int| 0 <= i < step_rows(steps).len() ==> plain_row(#[trigger] step_rows(steps)[i]),
    decreases steps.len(),
{
    if steps.len() == 0 {
        assert(unlines(Seq::<Seq<char>>::empty()) == Seq::<char>::empty());
    } else {
        let pre = steps.drop_last();
        let st = steps.last();
        lemma_step_rows(pre);
        lemma_step_text_facts(st);
        let p = step_prefix(st);
        let t = step_text(st);
        reveal_strlit("x ");
        reveal_strlit("\n");
        assert(p.len() >= 2);
        assert(p.last() == ' ');
        assert(t =~= p.push(st.1));
        assert(p[0] == t[0]);
        lemma_digit_not_hash(t[0]);
        lemma_not_heading(p);
        assert(strip_cr(p) == p);
        assert(plain_row(p));
        let e = Seq::<char>::empty();
        assert(strip_cr(e) == e);
        lemma_not_heading(e);
        assert(plain_row(e));
        let rp = step_rows(pre);
        if st.1 == '\n' {
            lemma_unlines_push(rp, p);
            lemma_unlines_push(rp.push(p), e);
            assert(step_rows(steps) =~= rp.push(p).push(e));
            assert(step_block(steps) =~= unlines(rp.push(p).push(e)));
        } else {
            lemma_unlines_push(rp, t);
            assert(step_block(steps) =~= unlines(rp.push(t)));
            if st.1 == '\r' {
                assert(strip_cr(t) =~= p);
            } else {
                assert(strip_cr(t) == t);
                lemma_not_heading(t);
            }
            assert(plain_row(t));
        }
        let rs = step_rows(steps);
        assert forall|i: int| 0 <= i < rs.len() implies plain_row(#[trigger] rs[i]) by {
            if i < rp.len() {
                assert(rs[i] == rp[i]);
            }
        }
    }
}

/// The lines of a written section, whatever its step keys.
pub open spec fn section_rows(
    name: Seq<char>,
    rules: Seq<Seq<char>>,
    start: Seq<i32>,
    total: nat,
    steps: Seq<(usize, char, usize)>,
) -> Seq<Seq<char>> {
    seq![Seq::empty(), "## "@ + name, Seq::empty(), "**Rules:**"@, "```"@] + rule_line_seq(rules)
        + seq!["```"@, Seq::empty(), start_line(start), Seq::empty(), solution_head(total), "```"@]
        + step_rows(steps) + seq!["```"@]
}

proof fn lemma_markdown_rows(
    name: Seq<char>,
    rules: Seq<Seq<char>>,
    start: Seq<i32>,
    total: nat,
    steps: Seq<(usize, char, usize)>,
)
    ensures
        markdown(name, rules, start, total, steps) == unlines(
            section_rows(name, rules, start, total, steps),
        ),
{
    let head: Seq<Seq<char>> = seq![Seq::empty(), "## "@ + name, Seq::empty(), "**Rules:**"@, "```"@];
    let mid: Seq<Seq<char>> = seq![
        "```"@,
        Seq::empty(),
        start_line(start),
        Seq::empty(),
        solution_head(total),
        "```"@,
    ];
    let tail: Seq<Seq<char>> = seq!["```"@];
    let rs = rule_line_seq(rules);
    let ts = step_rows(steps);
    lemma_rule_lines(rules);
    lemma_step_rows(steps);
    lemma_unlines_add(head, rs);
    lemma_unlines_add(head + rs, mid);
    lemma_unlines_add(head + rs + mid, ts);
    lemma_unlines_add(head + rs + mid + ts, tail);
    lemma_head_text(name);
    lemma_mid_text(start, total);
    lemma_unlines_push(Seq::empty(), "```"@);
    assert(tail =~= Seq::<Seq<char>>::empty().push("```"@));
    reveal_strlit("```\n");
    reveal_strlit("```");
    assert(unlines(tail) =~= "```\n"@);
    assert(section_rows(name, rules, start, total, steps) =~= head + rs + mid + ts + tail);
    assert(markdown(name, rules, start, total, steps) =~= unlines(head) + unlines(rs) + unlines(mid)
        + unlines(ts) + unlines(tail));
}

proof fn lemma_rule_row_plain(i: nat, r: Seq<char>)
    requires
        !r.contains('\n'),
        !ends_cr(r),
    ensures
        plain_row(rule_line(i, r)),
{
    reveal_strlit("-");
    lemma_rule_line_facts(i, r);
    let x = rule_line(i, r);
    assert(x.last() == shown_rule(r).last());
    assert(strip_cr(x) == x);
    lemma_digit_not_hash(x[0]);
    lemma_not_heading(x);
}

proof fn lemma_mid_rows_plain(start: Seq<i32>, total: nat)
    ensures
        plain_row("```"@),
        plain_row(Seq::<char>::empty()),
        plain_row("**Rules:**"@),
        plain_row(start_line(start)),
        plain_row(solution_head(total)),
{
    reveal_strlit("**Rules:**");
    reveal_strlit("```");
    reveal_strlit("]`");
    reveal_strlit("**Start:** `[");
    reveal_strlit("**Solution:** (");
    reveal_strlit(" clicks \u{2014} solved by locks)");
    lemma_joined_num(start);
    lemma_num_lacks(joined_ints(start), '\n');
    lemma_lacks_add("**Start:** `["@, joined_ints(start), '\n');
    lemma_lacks_add("**Start:** `["@ + joined_ints(start), "]`"@, '\n');
    lemma_dec_num(total);
    lemma_num_lacks(dec(total), '\n');
    lemma_lacks_add("**Solution:** ("@, dec(total), '\n');
    lemma_lacks_add("**Solution:** ("@ + dec(total), " clicks \u{2014} solved by locks)"@, '\n');
    let a = start_line(start);
    let b = solution_head(total);
    assert(a.last() == '`');
    assert(a[0] == '*');
    assert(b.last() == ')');
    assert(b[0] == '*');
    assert(strip_cr(a) == a);
    assert(strip_cr(b) == b);
    lemma_not_heading(a);
    lemma_not_heading(b);
    lemma_not_heading("```"@);
    lemma_not_heading("**Rules:**"@);
    lemma_not_heading(Seq::<char>::empty());
    assert(strip_cr("```"@) == "```"@);
    assert(strip_cr("**Rules:**"@) == "**Rules:**"@);
    assert(strip_cr(Seq::<char>::empty()) == Seq::<char>::empty());
}

/// The lines of a written section: an empty one, the heading, then plain lines, the
/// last one a fence.
proof fn lemma_section_rows_plain(
    name: Seq<char>,
    rules: Seq<Seq<char>>,
    start: Seq<i32>,
    total: nat,
    steps: Seq<(usize, char, usize)>,
)
    requires
        forall|i: int|
            0 <= i < rules.len() ==> !(#[trigger] rules[i]).contains('\n') && !ends_cr(rules[i]),
    ensures
        ({
            let l = section_rows(name, rules, start, total, steps);
            &&& l.len() >= 3
            &&& l[0] == Seq::<char>::empty()
            &&& l[1] == "## "@ + name
            &&& l.last() == "```"@
            &&& forall|j: int| 2 <= j < l.len() ==> plain_row(#[trigger] l[j])
        }),
{
    let l = section_rows(name, rules, start, total, steps);
    let nr = rules.len() as int;
    let ts = step_rows(steps);
    let nt = ts.len() as int;
    let rs = rule_line_seq(rules);
    lemma_step_rows(steps);
    lemma_mid_rows_plain(start, total);
    assert(l.len() == 12 + nr + nt);
    assert forall|j: int| 2 <= j < l.len() implies plain_row(#[trigger] l[j]) by {
        if j < 5 {
        } else if j < 5 + nr {
            assert(l[j] == rs[j - 5]);
            lemma_rule_row_plain((j - 4) as nat, rules[j - 5]);
        } else if j < 11 + nr {
        } else if j < 11 + nr + nt {
            assert(l[j] == ts[j - 11 - nr]);
        } else {
            assert(l[j] == "```"@);
        }
    }
}

/// The written section, read with its surrounding newlines stripped, is its heading line
/// `## <name>` followed by lines that neither open a section, hold a newline, nor end in a
/// carriage return; read whole, it has one more line, an empty one, in front. This holds
/// for any start, total and steps when the name and rules are single lines that do not
/// end in a carriage return.
pub proof fn lemma_section_shape(
    name: Seq<char>,
    rules: Seq<Seq<char>>,
    start: Seq<i32>,
    total: nat,
    steps: Seq<(usize, char, usize)>,
)
    requires
        !name.contains('\n'),
        !ends_cr(name),
        forall|i: int|
            0 <= i < rules.len() ==> !(#[trigger] rules[i]).contains('\n') && !ends_cr(rules[i]),
    ensures
        ({
            let md = markdown(name, rules, start, total, steps);
            let sec = lines(strip_newlines(md));
            &&& lines(md) == seq![Seq::<char>::empty()] + sec
            &&& sec.len() > 0
            &&& sec[0] == "## "@ + name
            &&& forall|j: int| 1 <= j < sec.len() ==> !starts_with(#[trigger] sec[j], "## "@)
            &&& forall|j: int|
                0 <= j < sec.len() ==> !(#[trigger] sec[j]).contains('\n') && !ends_cr(sec[j])
        }),
{
    let l = section_rows(name, rules, start, total, steps);
    let md = markdown(name, rules, start, total, steps);
    let nr = rules.len() as int;
    let ts = step_rows(steps);
    let nt = ts.len() as int;
    lemma_markdown_rows(name, rules, start, total, steps);
    reveal_strlit("## ");
    reveal_strlit("```");
    reveal_strlit("\n");
    lemma_lacks_add("## "@, name, '\n');
    lemma_section_rows_plain(name, rules, start, total, steps);
    let hn = "## "@ + name;
    assert(hn.last() != '\r') by {
        if name.len() > 0 {
            assert(hn.last() == name.last());
        }
    }
    assert(single_lines(l)) by {
        assert forall|i: int| 0 <= i < l.len() implies !(#[trigger] l[i]).contains('\n') by {
            if i >= 2 {
                assert(plain_row(l[i]));
            }
        }
    }
    lemma_lines_unlines(l);
    // stripping the surrounding newlines drops the first, empty line
    let r = l.drop_first();
    assert(l =~= seq![Seq::<char>::empty()] + r);
    lemma_unlines_add(seq![Seq::<char>::empty()], r);
    assert(unlines(seq![Seq::<char>::empty()]) =~= seq!['\n']) by {
        assert(seq![Seq::<char>::empty()].drop_last() =~= Seq::<Seq<char>>::empty());
        assert(unlines(Seq::<Seq<char>>::empty()) == Seq::<char>::empty());
        assert(seq![Seq::<char>::empty()].last() == Seq::<char>::empty());
    }
    lemma_join_unlines(r);
    let j = join_lines(r);
    assert(md =~= seq!['\n'] + j.push('\n'));
    assert(r[0] == hn);
    assert(r.last() == "```"@);
    assert(single_lines(r)) by {
        assert forall|i: int| 0 <= i < r.len() implies !(#[trigger] r[i]).contains('\n') by {
            assert(r[i] == l[i + 1]);
        }
    }
    lemma_join_first_last(r);
    assert(md.drop_first() =~= j.push('\n'));
    assert(strip_newlines_start(md) == strip_newlines_start(j.push('\n')));
    assert(j.push('\n')[0] == '#');
    assert(strip_newlines_start(j.push('\n')) == j.push('\n'));
    assert(j.push('\n').drop_last() =~= j);
    assert(strip_newlines_end(j.push('\n')) == strip_newlines_end(j));
    assert(j.last() == '`');
    assert(strip_newlines(md) == j);
    lemma_split_unlines(r);
    assert(unlines(r) =~= j.push('\n'));
    assert(split(j.push('\n'), '\n') == split(j, '\n').push(Seq::empty()));
    assert(split(j, '\n') =~= r) by {
        assert(split(j, '\n').push(Seq::empty()) =~= r.push(Seq::empty()));
        assert(split(j, '\n') =~= split(j, '\n').push(Seq::empty()).drop_last());
        assert(r =~= r.push(Seq::empty()).drop_last());
    }
    let sec = lines(j);
    assert(strip_cr(r.last()) == r.last());
    assert(sec =~= Seq::new(r.len(), |i: int| strip_cr(r[i])));
    assert(lines(md) =~= seq![Seq::<char>::empty()] + sec) by {
        assert(strip_cr(Seq::<char>::empty()) =~= Seq::<char>::empty());
    }
    assert(sec[0] == hn);
    assert forall|i: int| 0 <= i < sec.len() implies !(#[trigger] sec[i]).contains('\n') && !ends_cr(
        sec[i],
    ) && (i >= 1 ==> !starts_with(sec[i], "## "@)) by {
        let x = l[i + 1];
        assert(r[i] == x);
        assert(sec[i] == strip_cr(x));
        assert(!x.contains('\n'));
        if strip_cr(x).contains('\n') {
            let k = choose|k: int| 0 <= k < strip_cr(x).len() && strip_cr(x)[k] == '\n';
            assert(x[k] == '\n');
        }
        if i >= 1 {
            assert(plain_row(x));
        } else {
            assert(strip_cr(x) == hn);
        }
    }
}

} // verus!
