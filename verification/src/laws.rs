//! Properties that relate several functions of the library.
use vstd::prelude::*;
use crate::history::{
    headings, history, history_crashes, input_crashes, input_fold, lines_crash, lock_input,
    locks_of, section_body, section_crashes, section_name, solution_steps, step_line,
    steps_of_lines, InputState, LockModel, MAX_TUMBLERS, MIN_TUMBLERS,
};
use crate::history_facts::{
    after_part, after_section, before_part, before_section, lemma_after_part, lemma_before_part,
    lemma_cut_at_section, lemma_drop_trailing_prefix, lemma_dtb_append, lemma_dtb_headings, lemma_dtb_idem,
    lemma_first_heading, lemma_heading_not_blank, lemma_headings_append, lemma_headings_none,
    lemma_locks_append, lemma_locks_append_any, shifted,
    lemma_locks_blank_tail, lemma_rewritten, lemma_splice, the_section,
};
use crate::input_facts::{
    lemma_fold_add, lemma_input_head, lemma_input_read_lines, lemma_input_rules, lemma_input_tail,
};
use crate::model::{
    expand, goal_state, lemma_expand_len, lemma_shortlex_total, legal_moves, opens, press_count,
    run, wall_safe, within_walls, Outcome,
};
use crate::readback::{
    lemma_body_rules, lemma_body_solution, lemma_body_start, lemma_markdown_lines,
    lemma_read_index, lemma_read_rules, lemma_section_shape, lemma_section_single,
    lemma_written_headings, lemma_written_lines, plain_rule, read_body,
    read_lines, read_rule_lines, read_rules, section_lines, writable, written_pairs,
};
use crate::render::{
    drop_leading_blank, drop_trailing_blank, has_nonblank, input_text, join_lines, joined_ints,
    markdown, removed, replaced, step_text, step_texts, strip_newlines,
};
use crate::screens::plate_cell;
use crate::solver::{search_result, Solution};
use crate::text::{
    contains, dec, find, is_digit, is_space, lemma_dec, lemma_find_after_digits, lemma_parse_dec,
    lemma_trim_drops_one_space, lemma_trim_keeps, lines, split, starts_with, strip_cr, trim,
};
use crate::text_facts::{
    ends_cr, lemma_lines_append, lemma_lines_single, lemma_trim_strip_cr, lemma_unlines_add,
    single_lines, unlines,
};

verus! {

/// The presses of a solution, counted group by group, add up to its total.
pub proof fn solution_total_counts_presses(start: Seq<int>, m: Seq<Seq<int>>, sol: Solution)
    requires
        search_result(start, m, Some(sol)),
    ensures
        press_count(sol.steps@) == sol.total,
{
    lemma_expand_len(sol.steps@);
}

/// No grouped key sequence that opens the lock (a recorded solution, say) has fewer
/// presses than the solver's solution; and if the solver finds none, no such sequence exists.
pub proof fn solver_is_never_beaten(
    start: Seq<int>,
    m: Seq<Seq<int>>,
    r: Option<Solution>,
    steps: Seq<(usize, char, usize)>,
)
    requires
        search_result(start, m, r),
        legal_moves(expand(steps), start.len()),
        opens(start, m, expand(steps)),
    ensures
        r matches Some(sol) && sol.total <= press_count(steps),
{
    lemma_expand_len(steps);
}

/// The solver's answer is pinned down: any two answers that meet what a search must
/// return for the same lock click exactly the same keys in the same order.
pub proof fn solver_answer_is_unique(start: Seq<int>, m: Seq<Seq<int>>, a: Solution, b: Solution)
    requires
        search_result(start, m, Some(a)),
        search_result(start, m, Some(b)),
    ensures
        expand(a.steps@) == expand(b.steps@),
{
    let pa = expand(a.steps@);
    let pb = expand(b.steps@);
    assert(opens(start, m, pa));
    assert(opens(start, m, pb));
    if pa != pb {
        lemma_shortlex_total(pa, pb, start.len());
    }
}

/// Walking the solver's solution click by click keeps every plate on the track after
/// each click and ends with every plate on 4.
pub proof fn walking_a_solution_stays_on_the_track(start: Seq<int>, m: Seq<Seq<int>>, sol: Solution)
    requires
        search_result(start, m, Some(sol)),
    ensures
        forall|k: int|
            0 < k <= expand(sol.steps@).len() ==> within_walls(
                #[trigger] run(start, m, expand(sol.steps@).take(k)),
            ),
        run(start, m, expand(sol.steps@)) == goal_state(start.len()),
{
    lemma_wall_safe_prefixes(start, m, expand(sol.steps@));
}

proof fn lemma_wall_safe_prefixes(start: Seq<int>, m: Seq<Seq<int>>, moves: Seq<(usize, char)>)
    requires
        wall_safe(start, m, moves),
    ensures
        forall|k: int|
            0 < k <= moves.len() ==> within_walls(#[trigger] run(start, m, moves.take(k))),
    decreases moves.len(),
{
    if moves.len() > 0 {
        let pre = moves.drop_last();
        lemma_wall_safe_prefixes(start, m, pre);
        assert forall|k: int| 0 < k <= moves.len() implies within_walls(
            #[trigger] run(start, m, moves.take(k)),
        ) by {
            if k < moves.len() {
                assert(moves.take(k) =~= pre.take(k));
            } else {
                assert(moves.take(k) =~= moves);
            }
        }
    }
}

/// A step written as a solution line `"<tumbler>: <count>x <key>"` reads back as the
/// same step, its key letter read up to ASCII case: `A` or `a` as [A], `D` or `d` as
/// [D]; a line whose key is any other (non-blank) character is rejected.
#[verifier::spinoff_prover]
#[verifier::rlimit(50)]
pub proof fn step_line_reads_back(st: (usize, char, usize), n: nat)
    requires
        1 <= st.0 <= n,
        !is_space(st.1),
    ensures
        step_line(step_text(st), n) == if st.1 == 'A' || st.1 == 'a' {
            Some(Some((st.0, 'A', st.2)))
        } else if st.1 == 'D' || st.1 == 'd' {
            Some(Some((st.0, 'D', st.2)))
        } else {
            None
        },
        (st.1 == 'A' || st.1 == 'D') ==> step_line(step_text(st), n) == Some(Some(st)),
{
    reveal_strlit(": ");
    reveal_strlit("x ");
    let (t, k, c) = st;
    let d1 = dec(t as nat);
    let d2 = dec(c as nat);
    lemma_dec(t as nat);
    lemma_dec(c as nat);
    lemma_parse_dec(t);
    lemma_parse_dec(c);
    let line = step_text(st);
    let rest1 = ": "@ + d2 + "x "@ + seq![k];
    assert(line =~= d1 + rest1);
    assert(is_digit(d1[0]));
    assert(line[0] == d1[0]);
    assert(line.last() == k);
    lemma_trim_keeps(line);
    assert(rest1[0] == ':');
    lemma_find_after_digits(d1, rest1, ':');
    assert(find(line, ':') == Some(d1.len() as int));
    assert(line.take(d1.len() as int) =~= d1);
    let r1 = line.skip((d1.len() + 1) as int);
    let rest2 = d2 + "x "@ + seq![k];
    assert(r1 =~= seq![' '] + rest2);
    assert(is_digit(d2[0]));
    assert(r1[1] == d2[0]);
    assert(r1.last() == k);
    lemma_trim_drops_one_space(r1);
    assert(trim(r1) =~= rest2);
    let rest3 = "x "@ + seq![k];
    assert(rest2 =~= d2 + rest3);
    assert(rest3[0] == 'x');
    lemma_find_after_digits(d2, rest3, 'x');
    assert(rest2.take(d2.len() as int) =~= d2);
    let r2 = rest2.skip((d2.len() + 1) as int);
    assert(r2 =~= seq![' ', k]);
    lemma_trim_drops_one_space(r2);
    assert(trim(r2) =~= seq![k]);
    assert(trim(r2)[0] == k);
}

/// Solution lines written with lower-case key letters read back as the steps with the
/// keys upper-cased: a key letter is read up to ASCII case.
pub proof fn lower_case_keys_read_as_upper(steps: Seq<(usize, char, usize)>, n: nat)
    requires
        forall|i: int|
            0 <= i < steps.len() ==> 1 <= (#[trigger] steps[i]).0 <= n && (steps[i].1 == 'a'
                || steps[i].1 == 'd'),
    ensures
        steps_of_lines(step_texts(steps), n) == Some(
            Seq::new(
                steps.len(),
                |i: int|
                    (steps[i].0, if steps[i].1 == 'a' {
                        'A'
                    } else {
                        'D'
                    }, steps[i].2),
            ),
        ),
    decreases steps.len(),
{
    let up = Seq::new(
        steps.len(),
        |i: int| (steps[i].0, if steps[i].1 == 'a' { 'A' } else { 'D' }, steps[i].2),
    );
    if steps.len() > 0 {
        let pre = steps.drop_last();
        lower_case_keys_read_as_upper(pre, n);
        assert(step_texts(steps).drop_last() =~= step_texts(pre));
        assert(steps.last() == steps[steps.len() - 1]);
        step_line_reads_back(steps.last(), n);
        assert(step_texts(steps).last() == step_text(steps.last()));
        let up_pre = Seq::new(
            pre.len(),
            |i: int| (pre[i].0, if pre[i].1 == 'a' { 'A' } else { 'D' }, pre[i].2),
        );
        assert(up_pre.push(up[steps.len() - 1]) =~= up);
    } else {
        assert(step_texts(steps) =~= Seq::<Seq<char>>::empty());
        assert(up =~= Seq::<(usize, char, usize)>::empty());
    }
}

/// Solution lines read back as the grouped steps they were written from.
pub proof fn solution_lines_read_back(steps: Seq<(usize, char, usize)>, n: nat)
    requires
        steps.len() > 0,
        forall|i: int|
            0 <= i < steps.len() ==> 1 <= (#[trigger] steps[i]).0 <= n && (steps[i].1 == 'A'
                || steps[i].1 == 'D'),
    ensures
        solution_steps(step_texts(steps), n) == Some(steps),
{
    lemma_steps_read_back(steps, n);
}

proof fn lemma_steps_read_back(steps: Seq<(usize, char, usize)>, n: nat)
    requires
        forall|i: int|
            0 <= i < steps.len() ==> 1 <= (#[trigger] steps[i]).0 <= n && (steps[i].1 == 'A'
                || steps[i].1 == 'D'),
    ensures
        steps_of_lines(step_texts(steps), n) == Some(steps),
    decreases steps.len(),
{
    if steps.len() > 0 {
        let pre = steps.drop_last();
        assert(step_texts(steps).drop_last() =~= step_texts(pre));
        lemma_steps_read_back(pre, n);
        assert(steps.last() == steps[steps.len() - 1]);
        step_line_reads_back(steps.last(), n);
        assert(step_texts(steps).last() == step_text(steps.last()));
        assert(pre.push(steps.last()) =~= steps);
    } else {
        assert(step_texts(steps) =~= Seq::<Seq<char>>::empty());
        assert(steps =~= Seq::<(usize, char, usize)>::empty());
    }
}

/// A lock written as a history section by `lock_markdown` reads back through
/// `parse_history` as one lock with the same name and start positions, the written
/// rules (trimmed, an empty rule as `-`), and the written solution lines; reading it
/// does not fail. This holds when the name and the rules are single lines, no rule
/// holds a `**Start` or `**Solution` marker, there is at least one start position,
/// and no step key is a line break.
pub proof fn written_lock_reads_back(
    name: Seq<char>,
    rules: Seq<Seq<char>>,
    start: Seq<i32>,
    total: nat,
    steps: Seq<(usize, char, usize)>,
)
    requires
        !name.contains('\n'),
        forall|i: int|
            0 <= i < rules.len() ==> !(#[trigger] rules[i]).contains('\n') && !contains(
                rules[i],
                "**Start"@,
            ) && !contains(rules[i], "**Solution"@),
        rules.len() <= usize::MAX,
        start.len() > 0,
        forall|i: int|
            0 <= i < steps.len() ==> (#[trigger] steps[i]).1 != '\n' && steps[i].1 != '\r',
    ensures
        !history_crashes(markdown(name, rules, start, total, steps)),
        history(markdown(name, rules, start, total, steps)) == seq![
            LockModel {
                name: trim(name),
                rules: read_rules(rules, start.len()),
                start: Some(start),
                solution: step_texts(steps),
            },
        ],
{
    assert(writable(name, rules, start, steps)) by {
        assert forall|i: int| 0 <= i < rules.len() implies plain_rule(#[trigger] rules[i]) by {}
    }
    let text = markdown(name, rules, start, total, steps);
    lemma_written_lines(name, rules, start, total, steps);
    lemma_written_headings(name, rules, start, total, steps);
    lemma_read_index(name, rules, start, total, steps);
    lemma_body_start(name, rules, start, total, steps);
    lemma_body_rules(name, rules, start, total, steps);
    lemma_body_solution(name, rules, start, total, steps);
    lemma_read_rules(rules, start.len());
    let ls = lines(text);
    assert(ls == read_lines(name, rules, start, total, steps));
    assert(headings(ls) == seq![1int]);
    assert(section_body(ls, 0) == read_body(name, rules, start, total, steps));
    let h = "## "@ + name;
    assert(strip_cr(h).skip(3) == strip_cr(name)) by {
        reveal_strlit("## ");
        if name.len() > 0 && name.last() == '\r' {
            assert(h.last() == name.last());
            assert(strip_cr(h).skip(3) =~= name.drop_last());
        } else {
            assert(h.last() != '\r') by {
                if name.len() > 0 {
                    assert(h.last() == name.last());
                }
            }
            assert(strip_cr(h).skip(3) =~= name);
        }
    }
    lemma_trim_strip_cr(name);
    assert(section_name(ls, 0) == trim(name));
    assert(history(text) =~= seq![
        LockModel {
            name: trim(name),
            rules: read_rules(rules, start.len()),
            start: Some(start),
            solution: step_texts(steps),
        },
    ]);
    assert(!history_crashes(text)) by {
        if history_crashes(text) {
            let k = choose|k: int|
                0 <= k < headings(ls).len() && #[trigger] section_crashes(section_body(ls, k));
            assert(k == 0);
        }
    }
}

/// Removing the lock at `index` from the history text leaves the other locks, in order:
/// reading the result gives the locks read before, less that one, and the result reads
/// without failing when the text did. This holds when no line of the text ends in a
/// carriage return.
pub proof fn removing_a_lock_keeps_the_others(text: Seq<char>, index: nat)
    requires
        index < history(text).len(),
        forall|i: int| 0 <= i < lines(text).len() ==> !ends_cr(#[trigger] lines(text)[i]),
    ensures
        removed(text, index) is Some,
        history(removed(text, index).unwrap()) == history(text).remove(index as int),
        !history_crashes(text) ==> !history_crashes(removed(text, index).unwrap()),
{
    let ls = lines(text);
    let i = index as int;
    lemma_cut_at_section(ls, i);
    let a = before_section(ls, i);
    let sec = the_section(ls, i);
    let b = after_section(ls, i);
    let kept = a + b;
    lemma_locks_append_any(a, b);
    lemma_lines_single(text);
    assert forall|j: int| 0 <= j < kept.len() implies !(#[trigger] kept[j]).contains('\n')
        && !ends_cr(kept[j]) by {
        if j < a.len() {
            assert(kept[j] == ls[j]);
        } else {
            assert(kept[j] == ls[j + sec.len()]);
        }
    }
    lemma_rewritten(kept);
    assert(locks_of(a) + locks_of(sec) + locks_of(b) == locks_of(ls));
    assert((locks_of(a) + locks_of(sec) + locks_of(b)).remove(i) =~= locks_of(a) + locks_of(b));
}

/// Replacing the lock at `index` by a freshly written one changes that lock and no
/// other: reading the result gives the locks read before, with the one at `index` now the
/// one lock that reading the written section on its own gives (with the conditions of
/// `written_lock_reads_back`, the written lock itself). The result reads without failing
/// when the text and the written section did, and no line of the result ends in a
/// carriage return. This holds, whatever the start and the steps, when no line of the
/// text ends in a carriage return and the name and rules are single lines that do not
/// end in one either.
pub proof fn replacing_a_lock_changes_only_it(
    text: Seq<char>,
    index: nat,
    name: Seq<char>,
    rules: Seq<Seq<char>>,
    start: Seq<i32>,
    total: nat,
    steps: Seq<(usize, char, usize)>,
)
    requires
        index < history(text).len(),
        forall|i: int| 0 <= i < lines(text).len() ==> !ends_cr(#[trigger] lines(text)[i]),
        !name.contains('\n'),
        !ends_cr(name),
        forall|i: int|
            0 <= i < rules.len() ==> !(#[trigger] rules[i]).contains('\n') && !ends_cr(rules[i]),
    ensures
        replaced(text, index, name, rules, start, total, steps) is Some,
        history(markdown(name, rules, start, total, steps)).len() == 1,
        history(replaced(text, index, name, rules, start, total, steps).unwrap()) == history(
            text,
        ).update(index as int, history(markdown(name, rules, start, total, steps))[0]),
        writable(name, rules, start, steps) ==> history(
            replaced(text, index, name, rules, start, total, steps).unwrap(),
        ) == history(text).update(
            index as int,
            LockModel {
                name: trim(name),
                rules: read_rules(rules, start.len()),
                start: Some(start),
                solution: step_texts(steps),
            },
        ),
        !history_crashes(text) && !history_crashes(markdown(name, rules, start, total, steps))
            ==> !history_crashes(replaced(text, index, name, rules, start, total, steps).unwrap()),
        forall|i: int|
            0 <= i < lines(replaced(text, index, name, rules, start, total, steps).unwrap()).len()
                ==> !ends_cr(
                #[trigger] lines(replaced(text, index, name, rules, start, total, steps).unwrap())[i],
            ),
{
    let md = markdown(name, rules, start, total, steps);
    let ls = lines(text);
    let i = index as int;
    lemma_cut_at_section(ls, i);
    let a = before_section(ls, i);
    let sec0 = the_section(ls, i);
    let b = after_section(ls, i);
    let head = before_part(a);
    let sec = lines(strip_newlines(md));
    let whole = head + sec + after_part(b);
    lemma_spliced(text, index, name, rules, start, total, steps);
    lemma_before_part(a);
    lemma_section_layout(name, rules, start, total, steps);
    // the written section reads as the written text does
    let blank = seq![Seq::<char>::empty()];
    assert(!starts_with(Seq::<char>::empty(), "## "@)) by {
        reveal_strlit("## ");
    }
    lemma_headings_none(blank);
    lemma_locks_append(blank, sec);
    assert(locks_of(blank) =~= Seq::<LockModel>::empty());
    assert(!lines_crash(blank));
    assert(history(md) =~= locks_of(sec));
    assert(lines_crash(lines(md)) == lines_crash(sec));
    assert(locks_of(sec).len() == 1);
    let w = locks_of(sec)[0];
    assert(locks_of(sec) =~= seq![w]);
    lemma_splice(head, sec, b);
    lemma_rewritten(whole);
    assert((locks_of(a) + locks_of(sec0) + locks_of(b)).update(i, w) =~= locks_of(a) + seq![w]
        + locks_of(b));
    if writable(name, rules, start, steps) {
        written_lock_reads_back(name, rules, start, total, steps);
    }
}

/// The replaced text is the kept lines before the section, the written section, and the
/// kept lines after it, joined; none of those lines holds a newline or ends in a
/// carriage return.
proof fn lemma_spliced(
    text: Seq<char>,
    index: nat,
    name: Seq<char>,
    rules: Seq<Seq<char>>,
    start: Seq<i32>,
    total: nat,
    steps: Seq<(usize, char, usize)>,
)
    requires
        index < history(text).len(),
        forall|i: int| 0 <= i < lines(text).len() ==> !ends_cr(#[trigger] lines(text)[i]),
        !name.contains('\n'),
        !ends_cr(name),
        forall|i: int|
            0 <= i < rules.len() ==> !(#[trigger] rules[i]).contains('\n') && !ends_cr(rules[i]),
    ensures
        ({
            let ls = lines(text);
            let whole = before_part(before_section(ls, index as int)) + lines(
                strip_newlines(markdown(name, rules, start, total, steps)),
            ) + after_part(after_section(ls, index as int));
            &&& replaced(text, index, name, rules, start, total, steps) == Some(
                join_lines(drop_trailing_blank(whole)) + "\n"@,
            )
            &&& single_lines(whole)
            &&& forall|j: int| 0 <= j < whole.len() ==> !ends_cr(#[trigger] whole[j])
        }),
{
    let ls = lines(text);
    let i = index as int;
    lemma_cut_at_section(ls, i);
    lemma_lines_single(text);
    let a = before_section(ls, i);
    let sec0 = the_section(ls, i);
    let b = after_section(ls, i);
    let head = before_part(a);
    let sec = lines(strip_newlines(markdown(name, rules, start, total, steps)));
    let whole = head + sec + after_part(b);
    lemma_before_part(a);
    lemma_section_layout(name, rules, start, total, steps);
    lemma_after_part(b);
    assert(replaced(text, index, name, rules, start, total, steps) == Some(
        join_lines(drop_trailing_blank(whole)) + "\n"@,
    ));
    assert forall|j: int| 0 <= j < whole.len() implies !(#[trigger] whole[j]).contains('\n')
        && !ends_cr(whole[j]) by {
        if j < head.len() {
            assert(whole[j] == head[j]);
            if head[j] != Seq::<char>::empty() {
                assert(head[j] == a[j]);
                assert(a[j] == ls[j]);
            }
        } else if j < head.len() + sec.len() {
            assert(whole[j] == sec[j - head.len()]);
        } else {
            let k = j - head.len() - sec.len();
            assert(whole[j] == after_part(b)[k]);
            if k > 0 {
                assert(after_part(b)[k] == b[k - 1]);
                assert(b[k - 1] == ls[k - 1 + a.len() + sec0.len()]);
            }
        }
    }
}

/// Replacing a lock a second time by the same written lock changes nothing: the text is
/// the one the first replacement gave. This holds, whatever the start and the steps,
/// when no line of the text ends in a carriage return and the name and rules are single
/// lines that do not end in one.
#[verifier::spinoff_prover]
#[verifier::rlimit(40)]
pub proof fn replacing_again_changes_nothing(
    text: Seq<char>,
    index: nat,
    name: Seq<char>,
    rules: Seq<Seq<char>>,
    start: Seq<i32>,
    total: nat,
    steps: Seq<(usize, char, usize)>,
)
    requires
        index < history(text).len(),
        forall|i: int| 0 <= i < lines(text).len() ==> !ends_cr(#[trigger] lines(text)[i]),
        !name.contains('\n'),
        !ends_cr(name),
        forall|i: int|
            0 <= i < rules.len() ==> !(#[trigger] rules[i]).contains('\n') && !ends_cr(rules[i]),
    ensures
        replaced(text, index, name, rules, start, total, steps) is Some,
        replaced(
            replaced(text, index, name, rules, start, total, steps).unwrap(),
            index,
            name,
            rules,
            start,
            total,
            steps,
        ) == replaced(text, index, name, rules, start, total, steps),
{
    let ls = lines(text);
    let i = index as int;
    lemma_cut_at_section(ls, i);
    let a = before_section(ls, i);
    let b = after_section(ls, i);
    let head = before_part(a);
    let sec = lines(strip_newlines(markdown(name, rules, start, total, steps)));
    let rest = after_part(b);
    let whole = head + sec + rest;
    lemma_spliced(text, index, name, rules, start, total, steps);
    lemma_before_part(a);
    lemma_section_layout(name, rules, start, total, steps);
    lemma_after_part(b);
    lemma_rewritten(whole);
    let t1 = join_lines(drop_trailing_blank(whole)) + "\n"@;
    let hl = head.len() as int;
    let sl = sec.len() as int;
    // the written section starts with its heading and holds no other
    lemma_heading_not_blank(sec[0]);
    // the kept lines before it hold the first `index` headings
    assert(headings(head).len() == locks_of(head).len());
    assert(headings(head).len() == i);
    // dropping blank lines from the head again keeps it as it is
    let h0 = drop_trailing_blank(a);
    lemma_dtb_idem(a);
    assert(drop_trailing_blank(head) == h0) by {
        if h0.len() > 0 {
            assert(head.drop_last() =~= h0);
            assert(trim(head.last()).len() == 0) by {
                assert(head.last() == Seq::<char>::empty());
            }
        }
    }
    let l1 = drop_trailing_blank(whole);
    if b.len() > 0 {
        let front = head + sec + seq![Seq::<char>::empty()];
        assert(whole =~= front + b);
        lemma_heading_not_blank(b[0]);
        lemma_dtb_append(front, b, 0);
        let db = drop_trailing_blank(b);
        lemma_drop_trailing_prefix(b);
        assert(db[0] == b[0]);
        assert(l1 == front + db);
        assert(l1.len() > 0);
        assert(lines(t1) == l1);
        // headings of the new text: the head's, the section's, then those after it
        lemma_dtb_headings(b);
        lemma_first_heading(b);
        lemma_headings_append(head, sec);
        lemma_headings_append(head + sec, seq![Seq::<char>::empty()]);
        assert(!starts_with(Seq::<char>::empty(), "## "@)) by {
            reveal_strlit("## ");
        }
        lemma_headings_none(seq![Seq::<char>::empty()]);
        lemma_headings_append(front, db);
        let hs1 = headings(l1);
        assert(hs1.len() > i + 1);
        assert(hs1[i] == hl);
        assert(hs1[i + 1] == hl + sl + 1);
        assert(l1.take(hl) =~= head);
        assert(l1.skip(hl + sl + 1) =~= db);
        assert(has_nonblank(db)) by {
            assert(trim(db[0]).len() > 0);
        }
        assert(drop_leading_blank(db) == db);
        assert(head + sec + (seq![Seq::<char>::empty()] + drop_leading_blank(db)) =~= l1);
        lemma_dtb_idem(whole);
    } else {
        assert(rest =~= Seq::<Seq<char>>::empty());
        assert(whole =~= head + sec);
        lemma_dtb_append(head, sec, 0);
        let ds = drop_trailing_blank(sec);
        assert(l1 == head + ds);
        assert(l1.len() > 0);
        assert(lines(t1) == l1);
        lemma_dtb_headings(sec);
        lemma_headings_append(head, ds);
        let hs1 = headings(l1);
        assert(hs1.len() == i + 1);
        assert(hs1[i] == hl);
        assert(l1.take(hl) =~= head);
        assert(l1.skip(l1.len() as int) =~= Seq::<Seq<char>>::empty());
        assert(!has_nonblank(Seq::<Seq<char>>::empty()));
        assert(head + sec + Seq::<Seq<char>>::empty() =~= whole);
    }
}

/// The written section, read as lines without its surrounding newlines, is the written
/// text's lines after its first, empty one; it begins with its heading line, holds no
/// other heading, and has no line that holds a newline or ends in a carriage return.
proof fn lemma_section_layout(
    name: Seq<char>,
    rules: Seq<Seq<char>>,
    start: Seq<i32>,
    total: nat,
    steps: Seq<(usize, char, usize)>,
)
    requires
        !name.contains('\n'),
        !ends_cr(name),
        forall|i: int|
            0 <= i < rules.len() ==> !(#[trigger] rules[i]).contains('\n') && !ends_cr(rules[i]),
    ensures
        ({
            let sec = lines(strip_newlines(markdown(name, rules, start, total, steps)));
            &&& lines(markdown(name, rules, start, total, steps)) == seq![Seq::<char>::empty()]
                + sec
            &&& sec.len() > 0
            &&& starts_with(sec[0], "## "@)
            &&& headings(sec) == seq![0int]
            &&& forall|j: int|
                0 <= j < sec.len() ==> !(#[trigger] sec[j]).contains('\n') && !ends_cr(sec[j])
        }),
{
    let sec = lines(strip_newlines(markdown(name, rules, start, total, steps)));
    lemma_section_shape(name, rules, start, total, steps);
    reveal_strlit("## ");
    assert(sec[0].subrange(0, 3) =~= "## "@);
    let first = seq![sec[0]];
    let rest = sec.skip(1);
    assert(sec =~= first + rest);
    assert forall|j: int| 0 <= j < rest.len() implies !starts_with(#[trigger] rest[j], "## "@) by {
        assert(rest[j] == sec[j + 1]);
    }
    lemma_headings_none(rest);
    lemma_headings_append(first, rest);
    assert(first.drop_last() =~= Seq::<Seq<char>>::empty());
    assert(headings(first) == headings(Seq::<Seq<char>>::empty()).push(0));
    assert(headings(sec) =~= seq![0int]);
}

/// A lock written as an input block by `input_block` reads back through `parse_input` as
/// the same lock: its name and rules trimmed (an empty rule as `-`, rules padded with
/// empty ones up to the number of start positions) and its start positions; reading it
/// does not fail. This holds when the name and the rules are single lines, no rule holds
/// a `[`, there are no more rules than start positions, and the number of start
/// positions is a supported number of tumblers.
pub proof fn input_block_reads_back(name: Seq<char>, rules: Seq<Seq<char>>, start: Seq<i32>)
    requires
        !name.contains('\n'),
        forall|i: int|
            0 <= i < rules.len() ==> !(#[trigger] rules[i]).contains('\n') && !rules[i].contains(
                '[',
            ),
        rules.len() <= start.len(),
        MIN_TUMBLERS <= start.len() <= MAX_TUMBLERS,
    ensures
        !input_crashes(input_text(name, rules, start)),
        lock_input(input_text(name, rules, start)) == Outcome::Value(
            (trim(name), read_rules(rules, start.len()), start),
        ),
{
    let text = input_text(name, rules, start);
    let head = seq![strip_cr("Name: "@ + name), Seq::<char>::empty(), "Rules:"@];
    let rl = read_rule_lines(rules);
    let tail = seq![Seq::<char>::empty(), "Start:"@, "["@ + joined_ints(start) + "]"@];
    lemma_input_read_lines(name, rules, start);
    assert(lines(text) == head + rl + tail);
    lemma_fold_add(head + rl, tail);
    lemma_fold_add(head, rl);
    lemma_input_head(name);
    let s1 = InputState { name: trim(name), start: None, pairs: Seq::empty(), crashed: false };
    assert forall|i: int| 0 <= i < rules.len() implies !(#[trigger] rules[i]).contains('[') by {}
    lemma_input_rules(s1, rules);
    let s2 = InputState { pairs: s1.pairs + written_pairs(rules), ..s1 };
    assert(s1.pairs + written_pairs(rules) =~= written_pairs(rules));
    lemma_input_tail(s2, start);
    let s3 = InputState { start: Some(start), ..s2 };
    assert(input_fold(lines(text)) == s3);
    lemma_read_rules(rules, start.len());
}

/// Appending a lock written by `lock_markdown` to a history text adds that lock after the
/// others (read back as `written_lock_reads_back` states) and changes none of them; the
/// result reads without failing when the text did. This holds when the text does not end
/// in a carriage return and the written lock meets the conditions of
/// `written_lock_reads_back`.
#[verifier::spinoff_prover]
#[verifier::rlimit(40)]
pub proof fn appending_a_written_lock_adds_it(
    text: Seq<char>,
    name: Seq<char>,
    rules: Seq<Seq<char>>,
    start: Seq<i32>,
    total: nat,
    steps: Seq<(usize, char, usize)>,
)
    requires
        !(text.len() > 0 && text.last() == '\r'),
        !name.contains('\n'),
        forall|i: int|
            0 <= i < rules.len() ==> !(#[trigger] rules[i]).contains('\n') && !contains(
                rules[i],
                "**Start"@,
            ) && !contains(rules[i], "**Solution"@),
        rules.len() <= usize::MAX,
        start.len() > 0,
        forall|i: int|
            0 <= i < steps.len() ==> (#[trigger] steps[i]).1 != '\n' && steps[i].1 != '\r',
    ensures
        history(text + markdown(name, rules, start, total, steps)) == history(text).push(
            LockModel {
                name: trim(name),
                rules: read_rules(rules, start.len()),
                start: Some(start),
                solution: step_texts(steps),
            },
        ),
        !history_crashes(text) ==> !history_crashes(
            text + markdown(name, rules, start, total, steps),
        ),
{
    assert(writable(name, rules, start, steps)) by {
        assert forall|i: int| 0 <= i < rules.len() implies plain_rule(#[trigger] rules[i]) by {}
    }
    let m = LockModel {
        name: trim(name),
        rules: read_rules(rules, start.len()),
        start: Some(start),
        solution: step_texts(steps),
    };
    let l = section_lines(name, rules, start, total, steps);
    let md = markdown(name, rules, start, total, steps);
    let rl = read_lines(name, rules, start, total, steps);
    let r = l.drop_first();
    written_lock_reads_back(name, rules, start, total, steps);
    lemma_written_lines(name, rules, start, total, steps);
    lemma_read_index(name, rules, start, total, steps);
    lemma_markdown_lines(name, rules, start, total, steps);
    lemma_section_single(name, rules, start, total, steps);
    // the written text is a newline and then the lines after the first, empty one
    assert(l =~= seq![Seq::<char>::empty()] + r);
    lemma_unlines_add(seq![Seq::<char>::empty()], r);
    assert(unlines(seq![Seq::<char>::empty()]) =~= seq!['\n']) by {
        assert(seq![Seq::<char>::empty()].drop_last() =~= Seq::<Seq<char>>::empty());
        assert(unlines(Seq::<Seq<char>>::empty()) == Seq::<char>::empty());
        assert(seq![Seq::<char>::empty()].last() == Seq::<char>::empty());
    }
    assert(text + md =~= text.push('\n') + unlines(r));
    assert(single_lines(r)) by {
        assert forall|i: int| 0 <= i < r.len() implies !(#[trigger] r[i]).contains('\n') by {
            assert(r[i] == l[i + 1]);
        }
    }
    lemma_lines_append(text, r);
    let sec = Seq::new(r.len(), |i: int| strip_cr(r[i]));
    assert(sec =~= rl.drop_first());
    assert(rl =~= seq![rl[0]] + sec);
    // the written lines after the first hold the written lock
    reveal_strlit("## ");
    assert(sec[0] == strip_cr("## "@ + name));
    assert(sec[0].subrange(0, 3) =~= "## "@) by {
        if name.len() > 0 {
            assert(("## "@ + name).last() == name.last());
        }
    }
    lemma_locks_append(seq![rl[0]], sec);
    lemma_headings_none(seq![rl[0]]);
    assert(locks_of(seq![rl[0]]) =~= Seq::<LockModel>::empty());
    assert(!lines_crash(seq![rl[0]]));
    assert(locks_of(seq![rl[0]]) + locks_of(sec) =~= locks_of(sec));
    assert(locks_of(sec) == seq![m]);
    assert(!lines_crash(sec));
    // the text's own lines, then perhaps an empty one, then the written lines
    let lt = lines(text);
    let gap = if split(text, '\n').last().len() == 0 {
        seq![Seq::<char>::empty()]
    } else {
        Seq::<Seq<char>>::empty()
    };
    lemma_locks_append(lt + gap, sec);
    if gap.len() > 0 {
        assert((lt + gap).drop_last() =~= lt);
        assert((lt + gap).last() == Seq::<char>::empty());
        lemma_locks_blank_tail(lt + gap);
    } else {
        assert(lt + gap =~= lt);
    }
    assert(locks_of(lt) + seq![m] =~= locks_of(lt).push(m));
}

/// Whatever position 1..7 a plate is at, both of its edges are on screen among the 15
/// slots of its row.
pub proof fn plate_edges_visible(t: nat, p: int, is_target: bool)
    requires
        1 <= p <= 7,
    ensures
        exists|c: int| 0 <= c < 15 && (#[trigger] plate_cell(t, p, is_target, c)).0 == '\u{2595}',
        exists|c: int| 0 <= c < 15 && (#[trigger] plate_cell(t, p, is_target, c)).0 == '\u{258f}',
{
    assert(plate_cell(t, p, is_target, 7 - p).0 == '\u{2595}');
    assert(plate_cell(t, p, is_target, 15 - p).0 == '\u{258f}');
}

} // verus!
