//! What the input reader makes of an input block that the input writer wrote.
use vstd::prelude::*;
use crate::history::{
    ci_prefix, input_fold, input_line, int_array, int_array_crashes, numbered_line, rule_pair, same_ci, InputState,
};
use crate::readback::{
    lemma_dec_num, lemma_joined_num, lemma_lacks_add, lemma_num_lacks, lemma_rule_line_facts,
    lemma_rule_pair_line, num_char, read_rule_lines, rule_line, rule_line_seq, written_pairs,
};
use crate::render::{input_text, joined_ints, rule_lines, shown_rule};
use crate::text::{
    dec, find, is_digit, is_space, lemma_find, lemma_trim_keeps, lines, strip_cr, trim, trim_end,
};
use crate::text_facts::{
    lemma_trim_end_after, lemma_trim_start_keeps, lemma_trim_start_space,
    lemma_trim_strip_cr, lemma_trim_trim_end, lemma_lines_unlines, lemma_unlines_add, unlines,
};

verus! {

/// The lines of a written input block, in order.
pub open spec fn input_lines(name: Seq<char>, rules: Seq<Seq<char>>, start: Seq<i32>) -> Seq<
    Seq<char>,
> {
    seq!["Name: "@ + name, Seq::empty(), "Rules:"@] + rule_line_seq(rules) + seq![
        Seq::empty(),
        "Start:"@,
        "["@ + joined_ints(start) + "]"@,
    ]
}

/// Input lines read one after another from a state.
pub open spec fn fold_from(st: InputState, ls: Seq<Seq<char>>) -> InputState
    decreases ls.len(),
{
    if ls.len() == 0 {
        st
    } else {
        input_line(fold_from(st, ls.drop_last()), ls.last())
    }
}

pub proof fn lemma_fold_add(a: Seq<Seq<char>>, b: Seq<Seq<char>>)
    ensures
        input_fold(a + b) == fold_from(input_fold(a), b),
    decreases b.len(),
{
    if b.len() == 0 {
        assert(a + b =~= a);
    } else {
        lemma_fold_add(a, b.drop_last());
        assert((a + b).drop_last() =~= a + b.drop_last());
        assert((a + b).last() == b.last());
    }
}

proof fn lemma_unlines_push(ls: Seq<Seq<char>>, x: Seq<char>)
    ensures
        unlines(ls.push(x)) == unlines(ls) + x + seq!['\n'],
{
    assert(ls.push(x).drop_last() =~= ls);
}

proof fn lemma_rule_lines_unlines(rules: Seq<Seq<char>>)
    ensures
        rule_lines(rules) == unlines(rule_line_seq(rules)),
    decreases rules.len(),
{
    if rules.len() > 0 {
        let pre = rules.drop_last();
        lemma_rule_lines_unlines(pre);
        let rs = rule_line_seq(rules);
        assert(rs.drop_last() =~= rule_line_seq(pre));
        assert(rs.last() == rule_line(rules.len(), rules.last()));
        reveal_strlit("\n");
        assert(rule_lines(rules) =~= unlines(rs));
    } else {
        assert(rule_line_seq(rules) =~= Seq::<Seq<char>>::empty());
    }
}

/// The written block is its lines, each ended by a newline.
proof fn lemma_input_text_lines(name: Seq<char>, rules: Seq<Seq<char>>, start: Seq<i32>)
    ensures
        input_text(name, rules, start) == unlines(input_lines(name, rules, start)),
{
    let e = Seq::<char>::empty();
    let s0 = Seq::<Seq<char>>::empty();
    let n = "Name: "@ + name;
    let r = "Rules:"@;
    let st = "Start:"@;
    let b = "["@ + joined_ints(start) + "]"@;
    let head = seq![n, e, r];
    let tail = seq![e, st, b];
    let rs = rule_line_seq(rules);
    lemma_unlines_push(s0, n);
    lemma_unlines_push(s0.push(n), e);
    lemma_unlines_push(s0.push(n).push(e), r);
    assert(head =~= s0.push(n).push(e).push(r));
    lemma_unlines_push(s0, e);
    lemma_unlines_push(s0.push(e), st);
    lemma_unlines_push(s0.push(e).push(st), b);
    assert(tail =~= s0.push(e).push(st).push(b));
    lemma_rule_lines_unlines(rules);
    lemma_unlines_add(head, rs);
    lemma_unlines_add(head + rs, tail);
    assert(input_lines(name, rules, start) =~= head + rs + tail);
    reveal_strlit("Name: ");
    reveal_strlit("\n\nRules:\n");
    reveal_strlit("Rules:");
    reveal_strlit("\nStart:\n[");
    reveal_strlit("Start:");
    reveal_strlit("[");
    reveal_strlit("]\n");
    reveal_strlit("]");
    assert(unlines(s0) == Seq::<char>::empty());
    assert(unlines(head) =~= "Name: "@ + name + "\n\nRules:\n"@);
    assert(unlines(tail) =~= "\nStart:\n["@ + joined_ints(start) + "]\n"@);
    assert(input_text(name, rules, start) =~= unlines(head) + unlines(rs) + unlines(tail));
}

/// A written rule line adds its rule to what the reader has gathered.
proof fn lemma_input_rule_line(st: InputState, i: nat, r: Seq<char>)
    requires
        1 <= i <= usize::MAX,
        !st.crashed,
        !r.contains('['),
    ensures
        input_line(st, strip_cr(rule_line(i, r))) == (InputState {
            pairs: st.pairs.push((i as usize, trim(shown_rule(r)))),
            ..st
        }),
{
    let x = rule_line(i, r);
    let d = dec(i);
    let sr = shown_rule(r);
    let p = d.push(':');
    let u = seq![' '] + sr;
    reveal_strlit(": ");
    reveal_strlit("-");
    assert(x =~= p + u);
    lemma_dec_num(i);
    lemma_rule_line_facts(i, r);
    lemma_trim_strip_cr(x);
    lemma_trim_start_keeps(x);
    assert(p.last() == ':');
    lemma_trim_end_after(p, u);
    let line = trim(strip_cr(x));
    assert(line == p + trim_end(u));
    assert(line[0] == d[0]);
    assert(is_digit(line[0]));
    reveal_strlit("name:");
    reveal_strlit("rules");
    reveal_strlit("start");
    assert(!same_ci(line[0], 'n') && !same_ci(line[0], 'r') && !same_ci(line[0], 's'));
    assert(!ci_prefix(line, "name:"@));
    assert(!ci_prefix(line, "rules"@));
    assert(!ci_prefix(line, "start"@));
    lemma_trim_end_prefix(u);
    assert(!line.contains('[')) by {
        lemma_num_lacks(d, '[');
        assert(!u.contains('[')) by {
            lemma_lacks_add(seq![' '], sr, '[');
        }
        let w = trim_end(u);
        if w.contains('[') {
            let j = choose|j: int| 0 <= j < w.len() && w[j] == '[';
            assert(u[j] == '[');
        }
        lemma_lacks_add(p, w, '[');
    }
    lemma_find(line, '[');
    lemma_rule_pair_line(i, r);
    assert(rule_pair(strip_cr(x)) == numbered_line(line));
}

/// Trimming the end leaves a prefix.
proof fn lemma_trim_end_prefix(u: Seq<char>)
    ensures
        trim_end(u).len() <= u.len(),
        trim_end(u) == u.take(trim_end(u).len() as int),
    decreases u.len(),
{
    if u.len() > 0 && is_space(u.last()) {
        lemma_trim_end_prefix(u.drop_last());
        assert(u.drop_last().take(trim_end(u).len() as int) =~= u.take(trim_end(u).len() as int));
    } else {
        assert(u.take(u.len() as int) =~= u);
    }
}

pub proof fn lemma_input_rules(st: InputState, rules: Seq<Seq<char>>)
    requires
        rules.len() <= usize::MAX,
        !st.crashed,
        forall|i: int| 0 <= i < rules.len() ==> !(#[trigger] rules[i]).contains('['),
    ensures
        fold_from(st, read_rule_lines(rules)) == (InputState {
            pairs: st.pairs + written_pairs(rules),
            ..st
        }),
    decreases rules.len(),
{
    if rules.len() == 0 {
        assert(read_rule_lines(rules) =~= Seq::<Seq<char>>::empty());
        assert(st.pairs + written_pairs(rules) =~= st.pairs);
    } else {
        let pre = rules.drop_last();
        assert forall|i: int| 0 <= i < pre.len() implies !(#[trigger] pre[i]).contains('[') by {
            assert(pre[i] == rules[i]);
        }
        lemma_input_rules(st, pre);
        let ls = read_rule_lines(rules);
        assert(ls.drop_last() =~= read_rule_lines(pre));
        assert(ls.last() == strip_cr(rule_line(rules.len(), rules.last())));
        assert(!rules.last().contains('[')) by {
            assert(rules[rules.len() - 1] == rules.last());
        }
        let mid = InputState { pairs: st.pairs + written_pairs(pre), ..st };
        lemma_input_rule_line(mid, rules.len(), rules.last());
        assert(st.pairs + written_pairs(pre) + seq![
            ((rules.len()) as usize, trim(shown_rule(rules.last()))),
        ] =~= st.pairs + written_pairs(rules));
        assert((st.pairs + written_pairs(pre)).push(
            (rules.len() as usize, trim(shown_rule(rules.last()))),
        ) =~= st.pairs + written_pairs(rules));
    }
}

/// The bracketed start row reads back as the start positions.
proof fn lemma_bracket_row(start: Seq<i32>)
    requires
        start.len() > 0,
    ensures
        int_array("["@ + joined_ints(start) + "]"@) == Some(start),
        !int_array_crashes("["@ + joined_ints(start) + "]"@),
{
    let j = joined_ints(start);
    let jl = j.len() as int;
    let s = "["@ + j + "]"@;
    reveal_strlit("[");
    reveal_strlit("]");
    lemma_joined_num(start);
    lemma_find(s, '[');
    lemma_find(s, ']');
    assert(s[0] == '[');
    assert(s[1 + jl] == ']');
    assert forall|i: int| 0 <= i < 1 + jl implies s[i] != ']' by {
        if i >= 1 {
            assert(s[i] == j[i - 1]);
            assert(num_char(j[i - 1]));
        }
    }
    assert(find(s, ']') == Some(1 + jl)) by {
        match find(s, ']') {
            Some(k) => {
                if k > 1 + jl {
                    assert(s[1 + jl] == ']');
                }
            },
            None => {},
        }
    }
    assert(s.subrange(1, 1 + jl) =~= j);
    crate::readback::lemma_joined_parsed(start);
}

/// The name line and the rules header set the name and nothing else.
pub proof fn lemma_input_head(name: Seq<char>)
    ensures
        input_fold(seq![strip_cr("Name: "@ + name), Seq::empty(), "Rules:"@]) == (InputState {
            name: trim(name),
            start: None,
            pairs: Seq::empty(),
            crashed: false,
        }),
{
    reveal_strlit("Name: ");
    reveal_strlit("Name:");
    reveal_strlit("Rules:");
    reveal_strlit("name:");
    reveal_strlit("rules");
    reveal_strlit("unnamed");
    let e = Seq::<char>::empty();
    let l0 = strip_cr("Name: "@ + name);
    let ls = seq![l0, e, "Rules:"@];
    let p = "Name:"@;
    let u = seq![' '] + name;
    assert("Name: "@ + name =~= p + u);
    lemma_trim_strip_cr("Name: "@ + name);
    lemma_trim_start_keeps(p + u);
    lemma_trim_end_after(p, u);
    let line = trim(l0);
    assert(line == p + trim_end(u));
    assert(line.take(5) =~= p);
    assert(ci_prefix(line, "name:"@));
    lemma_find(line, ':');
    assert(find(line, ':') == Some(4int)) by {
        match find(line, ':') {
            Some(k) => {
                if k > 4 {
                    assert(line[4] == ':');
                }
            },
            None => {
                assert(line[4] == ':');
            },
        }
    }
    assert(line.skip(5) =~= trim_end(u));
    lemma_trim_trim_end(u);
    lemma_trim_start_space(' ', name);
    let init = InputState { name: "unnamed"@, start: None, pairs: Seq::empty(), crashed: false };
    let s1 = InputState { name: trim(name), ..init };
    assert(ls.drop_last().drop_last().drop_last() =~= Seq::<Seq<char>>::empty());
    assert(ls.drop_last().drop_last() =~= seq![l0]);
    assert(input_fold(seq![l0]) == input_line(init, l0)) by {
        assert(seq![l0].drop_last() =~= Seq::<Seq<char>>::empty());
        assert(seq![l0].last() == l0);
        assert(input_fold(Seq::<Seq<char>>::empty()) == init);
    }
    assert(input_line(init, l0) == s1);
    assert(ls.drop_last() =~= seq![l0, e]);
    assert(seq![l0, e].drop_last() =~= seq![l0]);
    assert(trim(e).len() == 0);
    assert(input_fold(seq![l0, e]) == s1);
    lemma_trim_keeps("Rules:"@);
    assert(!ci_prefix("Rules:"@, "name:"@)) by {
        assert(!same_ci('R', 'n'));
    }
    assert(ci_prefix("Rules:"@, "rules"@));
    assert(input_fold(ls) == input_line(input_fold(seq![l0, e]), "Rules:"@));
}

/// The start header and the bracketed start row set the start and nothing else.
pub proof fn lemma_input_tail(st: InputState, start: Seq<i32>)
    requires
        !st.crashed,
        start.len() > 0,
    ensures
        fold_from(
            st,
            seq![Seq::empty(), "Start:"@, "["@ + joined_ints(start) + "]"@],
        ) == (InputState { start: Some(start), ..st }),
{
    reveal_strlit("Start:");
    reveal_strlit("name:");
    reveal_strlit("rules");
    reveal_strlit("start");
    reveal_strlit("[");
    reveal_strlit("]");
    let e = Seq::<char>::empty();
    let b = "["@ + joined_ints(start) + "]"@;
    let ls = seq![e, "Start:"@, b];
    assert(ls.drop_last() =~= seq![e, "Start:"@]);
    assert(seq![e, "Start:"@].drop_last() =~= seq![e]);
    assert(seq![e].drop_last() =~= Seq::<Seq<char>>::empty());
    assert(trim(e).len() == 0);
    assert(seq![e].last() == e);
    assert(fold_from(st, Seq::<Seq<char>>::empty()) == st);
    assert(input_line(st, e) == st);
    assert(fold_from(st, seq![e]) == st);
    lemma_trim_keeps("Start:"@);
    assert(!ci_prefix("Start:"@, "name:"@)) by {
        assert(!same_ci('S', 'n'));
    }
    assert(!ci_prefix("Start:"@, "rules"@)) by {
        assert(!same_ci('S', 'r'));
    }
    assert(ci_prefix("Start:"@, "start"@));
    assert(fold_from(st, seq![e, "Start:"@]) == st);
    assert(b[0] == '[');
    assert(b.last() == ']');
    lemma_trim_keeps(b);
    assert(!ci_prefix(b, "name:"@)) by {
        assert(!same_ci('[', 'n'));
    }
    assert(!ci_prefix(b, "rules"@)) by {
        assert(!same_ci('[', 'r'));
    }
    assert(!ci_prefix(b, "start"@)) by {
        assert(!same_ci('[', 's'));
    }
    lemma_find(b, '[');
    assert(find(b, '[') is Some);
    lemma_bracket_row(start);
    assert(strip_cr(b) == b);
}

/// The lines the reader sees in a written input block, when the name and the rules are
/// single lines.
pub proof fn lemma_input_read_lines(name: Seq<char>, rules: Seq<Seq<char>>, start: Seq<i32>)
    requires
        !name.contains('\n'),
        forall|i: int| 0 <= i < rules.len() ==> !(#[trigger] rules[i]).contains('\n'),
    ensures
        lines(input_text(name, rules, start)) == seq![
            strip_cr("Name: "@ + name),
            Seq::empty(),
            "Rules:"@,
        ] + read_rule_lines(rules) + seq![
            Seq::empty(),
            "Start:"@,
            "["@ + joined_ints(start) + "]"@,
        ],
{
    let l = input_lines(name, rules, start);
    let nr = rules.len() as int;
    lemma_input_text_lines(name, rules, start);
    reveal_strlit("Name: ");
    reveal_strlit("Rules:");
    reveal_strlit("Start:");
    reveal_strlit("[");
    reveal_strlit("]");
    let rs = rule_line_seq(rules);
    let b = "["@ + joined_ints(start) + "]"@;
    lemma_joined_num(start);
    lemma_num_lacks(joined_ints(start), '\n');
    lemma_lacks_add("["@, joined_ints(start), '\n');
    lemma_lacks_add("["@ + joined_ints(start), "]"@, '\n');
    lemma_lacks_add("Name: "@, name, '\n');
    assert(l.len() == 6 + nr);
    assert forall|i: int| 0 <= i < l.len() implies !(#[trigger] l[i]).contains('\n') by {
        if 3 <= i < 3 + nr {
            assert(l[i] == rs[i - 3]);
            lemma_rule_line_facts((i - 2) as nat, rules[i - 3]);
        } else if i == 5 + nr {
            assert(l[i] == b);
        } else if i == 4 + nr {
            assert(l[i] == "Start:"@);
        } else if i == 3 + nr {
            assert(l[i] == Seq::<char>::empty());
        }
    }
    lemma_lines_unlines(l);
    let want = seq![strip_cr("Name: "@ + name), Seq::empty(), "Rules:"@] + read_rule_lines(rules)
        + seq![Seq::empty(), "Start:"@, b];
    assert(lines(input_text(name, rules, start)) =~= want) by {
        assert forall|i: int| 0 <= i < l.len() implies strip_cr(l[i]) == want[i] by {
            if 3 <= i < 3 + nr {
                assert(l[i] == rs[i - 3]);
            } else if i == 5 + nr {
                assert(l[i] == b);
                assert(b.last() == ']');
            } else if i == 4 + nr {
                assert(l[i] == "Start:"@);
            } else if i == 3 + nr {
                assert(l[i] == Seq::<char>::empty());
            }
        }
    }
}

} // verus!
