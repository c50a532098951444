//! Reading the lock history and lock input text.
use vstd::prelude::*;
use crate::model::Outcome;
use crate::text::{
    chars_of, contains, contains_text, dec, find, find_char, lemma_find,
    lines, lines_of, parse_i32, parse_i32_text, parse_usize, parse_usize_text, slice_of, split,
    split_on, starts_with, starts_with_text, string_of, texts, trim, trimmed,
};

verus! {

/// The integers of the first `[...]` of a line, before the first `]`.
/// Parts that are not integers are skipped.
pub open spec fn parsed_values(parts: Seq<Seq<char>>) -> Seq<i32>
    decreases parts.len(),
{
    if parts.len() == 0 {
        Seq::empty()
    } else {
        let prev = parsed_values(parts.drop_last());
        match parse_i32(trim(parts.last())) {
            Some(x) => prev.push(x),
            None => prev,
        }
    }
}

/// Reading the integers slices between the first `[` and the first `]`, and panics when
/// that `]` comes before the `[`.
pub open spec fn int_array_crashes(s: Seq<char>) -> bool {
    match (find(s, '['), find(s, ']')) {
        (Some(l), Some(r)) => r < l,
        _ => false,
    }
}

/// All integers inside the first `[...]` of `s`, in order; `None` when there is no
/// bracket pair or no integer in it.
pub open spec fn int_array(s: Seq<char>) -> Option<Seq<i32>> {
    match (find(s, '['), find(s, ']')) {
        (Some(l), Some(r)) => {
            let vals = parsed_values(split(s.subrange(l + 1, r), ','));
            if vals.len() == 0 {
                None
            } else {
                Some(vals)
            }
        },
        _ => None,
    }
}

pub open spec fn opt_view(o: Option<Vec<i32>>) -> Option<Seq<i32>> {
    match o {
        Some(v) => Some(v@),
        None => None,
    }
}

fn int_array_of(v: &Vec<char>) -> (r: Option<Vec<i32>>)
    requires
        !int_array_crashes(v@),
    ensures
        opt_view(r) == int_array(v@),
{
    let l = match find_char(v, '[') {
        Some(l) => l,
        None => return None,
    };
    let r = match find_char(v, ']') {
        Some(r) => r,
        None => return None,
    };
    proof {
        lemma_find(v@, '[');
        lemma_find(v@, ']');
    }
    let inner = slice_of(v, l + 1, r);
    let parts = split_on(&inner, ',');
    let mut vals: Vec<i32> = Vec::new();
    let mut i: usize = 0;
    while i < parts.len()
        invariant
            i <= parts@.len(),
            vals@ == parsed_values(texts(parts@).subrange(0, i as int)),
        decreases parts@.len() - i,
    {
        let ghost sub = texts(parts@).subrange(0, i + 1);
        assert(sub.drop_last() =~= texts(parts@).subrange(0, i as int));
        assert(sub.last() == parts@[i as int]@);
        let piece = trimmed(&parts[i]);
        match parse_i32_text(&piece) {
            Some(x) => vals.push(x),
            None => {},
        }
        i = i + 1;
    }
    assert(texts(parts@).subrange(0, parts@.len() as int) =~= texts(parts@));
    if vals.len() == 0 {
        None
    } else {
        Some(vals)
    }
}

/// All integers inside the first [...] of `s`, in order (any count).
pub fn parse_int_array(s: &str) -> (r: Option<Vec<i32>>)
    requires
        !int_array_crashes(s@),
    ensures
        opt_view(r) == int_array(s@),
{
    let v = chars_of(s);
    int_array_of(&v)
}

/// The key a solution line names: its first character upper-cased (ASCII), if that is
/// A or D.
pub open spec fn press_key(c: char) -> Option<char> {
    if c == 'A' || c == 'a' {
        Some('A')
    } else if c == 'D' || c == 'd' {
        Some('D')
    } else {
        None
    }
}

/// One grouped solution line `"<tumbler>: <count>x <key>"`: `Some(None)` for a blank line,
/// `Some(Some(step))` for a well-formed step with tumbler 1..=n and key A or D (either case),
/// `None` otherwise.
pub open spec fn step_line(raw: Seq<char>, n: nat) -> Option<Option<(usize, char, usize)>> {
    let line = trim(raw);
    if line.len() == 0 {
        Some(None)
    } else {
        match find(line, ':') {
            None => None,
            Some(c) => match parse_usize(trim(line.take(c))) {
                None => None,
                Some(t) => if !(1 <= t <= n) {
                    None
                } else {
                    let rest = trim(line.skip(c + 1));
                    match find(rest, 'x') {
                        None => None,
                        Some(x) => match parse_usize(trim(rest.take(x))) {
                            None => None,
                            Some(count) => {
                                let tail = trim(rest.skip(x + 1));
                                if tail.len() == 0 {
                                    None
                                } else {
                                    match press_key(tail[0]) {
                                        Some(key) => Some(Some((t, key, count))),
                                        None => None,
                                    }
                                }
                            },
                        },
                    }
                },
            },
        }
    }
}

/// The steps of the solution lines, `None` as soon as one line is malformed.
pub open spec fn steps_of_lines(ls: Seq<Seq<char>>, n: nat) -> Option<Seq<(usize, char, usize)>>
    decreases ls.len(),
{
    if ls.len() == 0 {
        Some(Seq::empty())
    } else {
        match steps_of_lines(ls.drop_last(), n) {
            None => None,
            Some(prev) => match step_line(ls.last(), n) {
                None => None,
                Some(None) => Some(prev),
                Some(Some(st)) => Some(prev.push(st)),
            },
        }
    }
}

/// Grouped solution lines as steps; `None` if any non-blank line is malformed or
/// there is no step at all.
pub open spec fn solution_steps(ls: Seq<Seq<char>>, n: nat) -> Option<Seq<(usize, char, usize)>> {
    match steps_of_lines(ls, n) {
        Some(v) => if v.len() > 0 {
            Some(v)
        } else {
            None
        },
        None => None,
    }
}

pub open spec fn string_views(v: Seq<String>) -> Seq<Seq<char>> {
    Seq::new(v.len(), |i: int| v[i]@)
}

fn step_of_line(raw: &Vec<char>, n: usize) -> (r: Option<Option<(usize, char, usize)>>)
    ensures
        r == step_line(raw@, n as nat),
{
    let line = trimmed(raw);
    if line.len() == 0 {
        return Some(None);
    }
    let c = match find_char(&line, ':') {
        Some(c) => c,
        None => return None,
    };
    proof {
        lemma_find(line@, ':');
    }
    let head = slice_of(&line, 0, c);
    let head_t = trimmed(&head);
    assert(head@ =~= line@.take(c as int));
    let t = match parse_usize_text(&head_t) {
        Some(t) => t,
        None => return None,
    };
    if t < 1 || t > n {
        return None;
    }
    let after = slice_of(&line, c + 1, line.len());
    assert(after@ =~= line@.skip(c + 1));
    let rest = trimmed(&after);
    let x = match find_char(&rest, 'x') {
        Some(x) => x,
        None => return None,
    };
    proof {
        lemma_find(rest@, 'x');
    }
    let cnt_txt = slice_of(&rest, 0, x);
    assert(cnt_txt@ =~= rest@.take(x as int));
    let cnt_t = trimmed(&cnt_txt);
    let count = match parse_usize_text(&cnt_t) {
        Some(k) => k,
        None => return None,
    };
    let tail0 = slice_of(&rest, x + 1, rest.len());
    assert(tail0@ =~= rest@.skip(x + 1));
    let tail = trimmed(&tail0);
    if tail.len() == 0 {
        return None;
    }
    let c0 = tail[0];
    if c0 == 'A' || c0 == 'a' {
        Some(Some((t, 'A', count)))
    } else if c0 == 'D' || c0 == 'd' {
        Some(Some((t, 'D', count)))
    } else {
        None
    }
}

/// Parse grouped solution lines like "4: 2x D" into (tumbler 1..n, key, count).
/// Returns None if any non-empty line doesn't match (e.g. a free-text note).
pub fn parse_solution_steps(lines: &[String], n: usize) -> (r: Option<Vec<(usize, char, usize)>>)
    ensures
        match r {
            Some(v) => solution_steps(string_views(lines@), n as nat) == Some(v@),
            None => solution_steps(string_views(lines@), n as nat) == None::<
                Seq<(usize, char, usize)>,
            >,
        },
{
    let ghost ls = string_views(lines@);
    let mut out: Vec<(usize, char, usize)> = Vec::new();
    let mut i: usize = 0;
    while i < lines.len()
        invariant
            ls == string_views(lines@),
            i <= lines@.len(),
            steps_of_lines(ls.subrange(0, i as int), n as nat) == Some(out@),
        decreases lines@.len() - i,
    {
        let ghost sub = ls.subrange(0, i + 1);
        assert(sub.drop_last() =~= ls.subrange(0, i as int));
        assert(sub.last() == lines@[i as int]@);
        let v = chars_of(lines[i].as_str());
        match step_of_line(&v, n) {
            None => {
                proof {
                    lemma_steps_none_persists(ls, n as nat, (i + 1) as nat, ls.len());
                    assert(ls.subrange(0, ls.len() as int) =~= ls);
                }
                return None;
            },
            Some(None) => {},
            Some(Some(st)) => {
                out.push(st);
            },
        }
        i = i + 1;
    }
    assert(ls.subrange(0, ls.len() as int) =~= ls);
    if out.len() == 0 {
        None
    } else {
        Some(out)
    }
}

proof fn lemma_steps_none_persists(ls: Seq<Seq<char>>, n: nat, k: nat, k2: nat)
    requires
        k <= k2 <= ls.len(),
        steps_of_lines(ls.subrange(0, k as int), n) is None,
    ensures
        steps_of_lines(ls.subrange(0, k2 as int), n) is None,
    decreases k2 - k,
{
    if k < k2 {
        lemma_steps_none_persists(ls, n, k, (k2 - 1) as nat);
        assert(ls.subrange(0, k2 as int).drop_last() =~= ls.subrange(0, k2 - 1));
    }
}

/// The first line at or after `i` that is a code fence (trims to three backticks),
/// or `body.len()` when there is none.
pub open spec fn fence_from(body: Seq<Seq<char>>, i: int) -> int
    decreases body.len() - i,
{
    if i < 0 || i >= body.len() {
        body.len() as int
    } else if trim(body[i]) == "```"@ {
        i
    } else {
        fence_from(body, i + 1)
    }
}

/// The lines inside the first fenced block opening at or after `from`; an unclosed block
/// runs to the end.
pub open spec fn fenced_after(body: Seq<Seq<char>>, from: int) -> Option<Seq<Seq<char>>> {
    let open = fence_from(body, from);
    if open >= body.len() {
        None
    } else {
        Some(body.subrange(open + 1, fence_from(body, open + 1)))
    }
}

pub proof fn lemma_fence_from(body: Seq<Seq<char>>, i: int)
    requires
        0 <= i <= body.len(),
    ensures
        i <= fence_from(body, i) <= body.len(),
    decreases body.len() - i,
{
    if i < body.len() && trim(body[i]) != "```"@ {
        lemma_fence_from(body, i + 1);
    }
}

fn copy_text(v: &Vec<char>) -> (r: Vec<char>)
    ensures
        r@ == v@,
{
    let r = slice_of(v, 0, v.len());
    assert(r@ =~= v@);
    r
}

fn fence_index(body: &Vec<Vec<char>>, from: usize, fence: &Vec<char>) -> (r: usize)
    requires
        from <= body@.len(),
        fence@ == "```"@,
    ensures
        r == fence_from(texts(body@), from as int),
{
    let mut j = from;
    while j < body.len()
        invariant
            from <= j <= body@.len(),
            fence@ == "```"@,
            fence_from(texts(body@), from as int) == fence_from(texts(body@), j as int),
        decreases body@.len() - j,
    {
        let t = trimmed(&body[j]);
        if same_text(&t, fence) {
            return j;
        }
        j = j + 1;
    }
    j
}

/// Whether two character vectors are equal.
pub fn same_text(a: &Vec<char>, b: &Vec<char>) -> (r: bool)
    ensures
        r == (a@ == b@),
{
    if a.len() != b.len() {
        return false;
    }
    let mut i: usize = 0;
    while i < a.len()
        invariant
            a@.len() == b@.len(),
            i <= a@.len(),
            forall|j: int| 0 <= j < i ==> a@[j] == b@[j],
        decreases a@.len() - i,
    {
        if a[i] != b[i] {
            return false;
        }
        i = i + 1;
    }
    assert(a@ =~= b@);
    true
}

/// Collect the lines inside the first ``` fence at/after `from`.
fn fence_after(body: &Vec<Vec<char>>, from: usize) -> (r: Option<Vec<Vec<char>>>)
    requires
        from <= body@.len(),
    ensures
        match r {
            Some(c) => fenced_after(texts(body@), from as int) == Some(texts(c@)),
            None => fenced_after(texts(body@), from as int) is None,
        },
{
    let fence = chars_of("```");
    let open = fence_index(body, from, &fence);
    if open >= body.len() {
        return None;
    }
    let close = fence_index(body, open + 1, &fence);
    proof {
        lemma_fence_from(texts(body@), open + 1);
    }
    let mut content: Vec<Vec<char>> = Vec::new();
    let mut j = open + 1;
    while j < close
        invariant
            open + 1 <= j <= close <= body@.len(),
            texts(content@) == texts(body@).subrange(open + 1, j as int),
        decreases close - j,
    {
        let line = copy_text(&body[j]);
        let ghost before = texts(content@);
        content.push(line);
        assert(texts(content@) =~= before.push(body@[j as int]@));
        j = j + 1;
        assert(texts(content@) =~= texts(body@).subrange(open + 1, j as int));
    }
    Some(content)
}

/// The numbered rule lines `"n: text"` of a fenced block, with number and trimmed text;
/// other lines are skipped.
pub open spec fn rule_pairs(content: Seq<Seq<char>>) -> Seq<(usize, Seq<char>)>
    decreases content.len(),
{
    if content.len() == 0 {
        Seq::empty()
    } else {
        let prev = rule_pairs(content.drop_last());
        match rule_pair(content.last()) {
            Some(p) => prev.push(p),
            None => prev,
        }
    }
}

/// A line `"n: text"` as `(n, trimmed text)`.
pub open spec fn rule_pair(raw: Seq<char>) -> Option<(usize, Seq<char>)> {
    numbered_line(trim(raw))
}

/// `line` split at its first `:` into a number and the trimmed text after it.
pub open spec fn numbered_line(line: Seq<char>) -> Option<(usize, Seq<char>)> {
    match find(line, ':') {
        Some(c) => match parse_usize(trim(line.take(c))) {
            Some(num) => Some((num, trim(line.skip(c + 1)))),
            None => None,
        },
        None => None,
    }
}

fn rule_pair_of(raw: &Vec<char>) -> (r: Option<(usize, Vec<char>)>)
    ensures
        match r {
            Some((k, t)) => rule_pair(raw@) == Some((k, t@)),
            None => rule_pair(raw@) is None,
        },
{
    let line = trimmed(raw);
    numbered_of(&line)
}

fn numbered_of(line: &Vec<char>) -> (r: Option<(usize, Vec<char>)>)
    ensures
        match r {
            Some((k, t)) => numbered_line(line@) == Some((k, t@)),
            None => numbered_line(line@) is None,
        },
{
    let ll = line.len();
    let c = match find_char(line, ':') {
        Some(c) => c,
        None => return None,
    };
    proof {
        lemma_find(line@, ':');
    }
    let head = slice_of(line, 0, c);
    assert(head@ =~= line@.take(c as int));
    let head_t = trimmed(&head);
    match parse_usize_text(&head_t) {
        Some(num) => {
            let after = slice_of(line, c + 1, line.len());
            assert(after@ =~= line@.skip(c + 1));
            let text = trimmed(&after);
            Some((num, text))
        },
        None => None,
    }
}

pub open spec fn pair_views(v: Seq<(usize, Vec<char>)>) -> Seq<(usize, Seq<char>)> {
    Seq::new(v.len(), |i: int| (v[i].0, v[i].1@))
}

fn rule_pairs_of(content: &Vec<Vec<char>>, pairs: &mut Vec<(usize, Vec<char>)>)
    ensures
        pair_views(final(pairs)@) == pair_views(old(pairs)@) + rule_pairs(texts(content@)),
{
    let ghost cs = texts(content@);
    let mut i: usize = 0;
    while i < content.len()
        invariant
            cs == texts(content@),
            i <= content@.len(),
            pair_views(pairs@) == pair_views(old(pairs)@) + rule_pairs(cs.subrange(0, i as int)),
        decreases content@.len() - i,
    {
        let ghost sub = cs.subrange(0, i + 1);
        assert(sub.drop_last() =~= cs.subrange(0, i as int));
        assert(sub.last() == content@[i as int]@);
        let ghost before = pair_views(pairs@);
        match rule_pair_of(&content[i]) {
            Some(p) => {
                let ghost pv = (p.0, p.1@);
                pairs.push(p);
                assert(pair_views(pairs@) =~= before.push(pv));
            },
            None => {},
        }
        i = i + 1;
    }
    assert(cs.subrange(0, cs.len() as int) =~= cs);
}

/// The text of the last pair numbered `k`, or empty text.
pub open spec fn rule_text_at(pairs: Seq<(usize, Seq<char>)>, k: int) -> Seq<char>
    decreases pairs.len(),
{
    if pairs.len() == 0 {
        Seq::empty()
    } else if pairs.last().0 == k {
        pairs.last().1
    } else {
        rule_text_at(pairs.drop_last(), k)
    }
}

/// The largest rule number among the pairs (0 when there are none).
pub open spec fn max_number(pairs: Seq<(usize, Seq<char>)>) -> nat
    decreases pairs.len(),
{
    if pairs.len() == 0 {
        0
    } else {
        let m = max_number(pairs.drop_last());
        if pairs.last().0 > m {
            pairs.last().0 as nat
        } else {
            m
        }
    }
}

/// The rules vector sized to cover both the highest rule number and the start length;
/// rule `i` (1-based) holds the text of the last line numbered `i`, or empty text.
pub open spec fn rules_from_pairs(pairs: Seq<(usize, Seq<char>)>, start_len: nat) -> Seq<
    Seq<char>,
> {
    let n = if max_number(pairs) > start_len {
        max_number(pairs)
    } else {
        start_len
    };
    Seq::new(n, |i: int| rule_text_at(pairs, i + 1))
}

fn rules_from_pairs_of(pairs: &Vec<(usize, Vec<char>)>, start_len: usize) -> (r: Vec<Vec<char>>)
    ensures
        texts(r@) == rules_from_pairs(pair_views(pairs@), start_len as nat),
{
    let ghost pv = pair_views(pairs@);
    let mut m: usize = 0;
    let mut j: usize = 0;
    while j < pairs.len()
        invariant
            pv == pair_views(pairs@),
            j <= pairs@.len(),
            m == max_number(pv.subrange(0, j as int)),
        decreases pairs@.len() - j,
    {
        let ghost sub = pv.subrange(0, j + 1);
        assert(sub.drop_last() =~= pv.subrange(0, j as int));
        assert(sub.last() == pv[j as int]);
        if pairs[j].0 > m {
            m = pairs[j].0;
        }
        j = j + 1;
    }
    assert(pv.subrange(0, pv.len() as int) =~= pv);
    let n = if m > start_len {
        m
    } else {
        start_len
    };
    let mut rules: Vec<Vec<char>> = Vec::new();
    let mut i: usize = 0;
    while i < n
        invariant
            i <= n,
            rules@.len() == i,
            forall|k: int| 0 <= k < i ==> (#[trigger] rules@[k])@ == Seq::<char>::empty(),
        decreases n - i,
    {
        rules.push(Vec::new());
        i = i + 1;
    }
    let mut j: usize = 0;
    while j < pairs.len()
        invariant
            pv == pair_views(pairs@),
            j <= pairs@.len(),
            n == rules@.len(),
            n >= max_number(pv),
            forall|k: int|
                0 <= k < n ==> (#[trigger] rules@[k])@ == rule_text_at(
                    pv.subrange(0, j as int),
                    k + 1,
                ),
        decreases pairs@.len() - j,
    {
        let ghost sub = pv.subrange(0, j + 1);
        assert(sub.drop_last() =~= pv.subrange(0, j as int));
        assert(sub.last() == pv[j as int]);
        let k = pairs[j].0;
        proof {
            lemma_max_number(pv, j as int);
        }
        if k >= 1 && k <= n {
            let t = copy_text(&pairs[j].1);
            rules.set(k - 1, t);
        }
        j = j + 1;
    }
    assert(pv.subrange(0, pv.len() as int) =~= pv);
    assert(texts(rules@) =~= rules_from_pairs(pv, start_len as nat));
    rules
}

proof fn lemma_max_number(pairs: Seq<(usize, Seq<char>)>, j: int)
    requires
        0 <= j < pairs.len(),
    ensures
        pairs[j].0 <= max_number(pairs),
    decreases pairs.len(),
{
    if j < pairs.len() - 1 {
        lemma_max_number(pairs.drop_last(), j);
    }
}

/// The index of the first line at or after `i` that contains `needle`.
pub open spec fn first_with_from(body: Seq<Seq<char>>, needle: Seq<char>, i: int) -> Option<int>
    decreases body.len() - i,
{
    if i < 0 || i >= body.len() {
        None
    } else if contains(body[i], needle) {
        Some(i)
    } else {
        first_with_from(body, needle, i + 1)
    }
}

/// The index of the first line that contains `needle`.
pub open spec fn first_with(body: Seq<Seq<char>>, needle: Seq<char>) -> Option<int> {
    first_with_from(body, needle, 0)
}

pub proof fn lemma_first_with_from(body: Seq<Seq<char>>, needle: Seq<char>, i: int)
    requires
        0 <= i,
    ensures
        first_with_from(body, needle, i) matches Some(k) ==> i <= k < body.len() && contains(
            body[k],
            needle,
        ),
    decreases body.len() - i,
{
    if i < body.len() && !contains(body[i], needle) {
        lemma_first_with_from(body, needle, i + 1);
    }
}

fn first_line_with(body: &Vec<Vec<char>>, needle: &Vec<char>) -> (r: Option<usize>)
    ensures
        match r {
            Some(k) => first_with(texts(body@), needle@) == Some(k as int) && k < body@.len(),
            None => first_with(texts(body@), needle@) is None,
        },
{
    let mut i: usize = 0;
    while i < body.len()
        invariant
            i <= body@.len(),
            first_with(texts(body@), needle@) == first_with_from(texts(body@), needle@, i as int),
        decreases body@.len() - i,
    {
        if contains_text(&body[i], needle) {
            return Some(i);
        }
        i = i + 1;
    }
    None
}

/// `s` with every leading `**` removed, as `trim_start_matches("**")` gives it.
pub open spec fn strip_stars(s: Seq<char>) -> Seq<char>
    decreases s.len(),
{
    if s.len() >= 2 && s[0] == '*' && s[1] == '*' {
        strip_stars(s.skip(2))
    } else {
        s
    }
}

/// The note after the first `:` of a `**Solution:**` line that has no fenced block.
pub open spec fn inline_note(line: Seq<char>) -> Seq<Seq<char>> {
    match find(line, ':') {
        None => Seq::empty(),
        Some(c) => {
            let note = trim(strip_stars(trim(line.skip(c + 1))));
            if note.len() > 0 {
                seq![note]
            } else {
                Seq::empty()
            }
        },
    }
}

/// The lines that are not blank, in order.
pub open spec fn nonblank(ls: Seq<Seq<char>>) -> Seq<Seq<char>>
    decreases ls.len(),
{
    if ls.len() == 0 {
        Seq::empty()
    } else if trim(ls.last()).len() > 0 {
        nonblank(ls.drop_last()).push(ls.last())
    } else {
        nonblank(ls.drop_last())
    }
}

/// What a lock of the history holds.
pub struct LockModel {
    pub name: Seq<char>,
    pub rules: Seq<Seq<char>>,
    pub start: Option<Seq<i32>>,
    pub solution: Seq<Seq<char>>,
}

pub open spec fn section_start(body: Seq<Seq<char>>) -> Option<Seq<i32>> {
    match first_with(body, "**Start"@) {
        Some(si) => int_array(body[si]),
        None => None,
    }
}

/// Reading a section panics when its first `**Start` line has `]` before `[`.
pub open spec fn section_crashes(body: Seq<Seq<char>>) -> bool {
    match first_with(body, "**Start"@) {
        Some(si) => int_array_crashes(body[si]),
        None => false,
    }
}

pub open spec fn section_rule_pairs(body: Seq<Seq<char>>) -> Seq<(usize, Seq<char>)> {
    match first_with(body, "**Rules"@) {
        Some(ri) => match fenced_after(body, ri) {
            Some(c) => rule_pairs(c),
            None => Seq::empty(),
        },
        None => Seq::empty(),
    }
}

pub open spec fn section_solution(body: Seq<Seq<char>>) -> Seq<Seq<char>> {
    match first_with(body, "**Solution"@) {
        None => Seq::empty(),
        Some(si) => match fenced_after(body, si) {
            Some(c) => nonblank(c),
            None => inline_note(body[si]),
        },
    }
}

pub open spec fn start_len(start: Option<Seq<i32>>) -> nat {
    match start {
        Some(s) => s.len(),
        None => 0,
    }
}

/// A history section: the start from the first `**Start` line, the rules from the
/// fenced block after the first `**Rules` line, the solution from the fenced block after
/// the first `**Solution` line (or the note on that line).
pub open spec fn section(name: Seq<char>, body: Seq<Seq<char>>) -> LockModel {
    LockModel {
        name,
        rules: rules_from_pairs(section_rule_pairs(body), start_len(section_start(body))),
        start: section_start(body),
        solution: section_solution(body),
    }
}

fn strip_stars_of(v: &Vec<char>) -> (r: Vec<char>)
    ensures
        r@ == strip_stars(v@),
{
    let len = v.len();
    let mut i: usize = 0;
    assert(v@.subrange(0, len as int) =~= v@);
    while len - i >= 2 && v[i] == '*' && v[i + 1] == '*'
        invariant
            len == v@.len(),
            i <= len,
            strip_stars(v@) == strip_stars(v@.subrange(i as int, len as int)),
        decreases len - i,
    {
        assert(v@.subrange(i as int, len as int).skip(2) =~= v@.subrange(i + 2, len as int));
        i = i + 2;
    }
    slice_of(v, i, len)
}

fn inline_note_of(line: &Vec<char>) -> (r: Vec<Vec<char>>)
    ensures
        texts(r@) == inline_note(line@),
{
    let mut out: Vec<Vec<char>> = Vec::new();
    let ll = line.len();
    match find_char(line, ':') {
        None => {
            assert(texts(out@) =~= Seq::<Seq<char>>::empty());
        },
        Some(c) => {
            proof {
                lemma_find(line@, ':');
            }
            let after = slice_of(line, c + 1, ll);
            assert(after@ =~= line@.skip(c + 1));
            let t1 = trimmed(&after);
            let t2 = strip_stars_of(&t1);
            let note = trimmed(&t2);
            if note.len() > 0 {
                let ghost nv = note@;
                out.push(note);
                assert(texts(out@) =~= seq![nv]);
            } else {
                assert(texts(out@) =~= Seq::<Seq<char>>::empty());
            }
        },
    }
    out
}

fn nonblank_of(ls: &Vec<Vec<char>>) -> (r: Vec<Vec<char>>)
    ensures
        texts(r@) == nonblank(texts(ls@)),
{
    let ghost all = texts(ls@);
    let mut out: Vec<Vec<char>> = Vec::new();
    let mut i: usize = 0;
    assert(texts(out@) =~= nonblank(all.subrange(0, 0)));
    while i < ls.len()
        invariant
            all == texts(ls@),
            i <= ls@.len(),
            texts(out@) == nonblank(all.subrange(0, i as int)),
        decreases ls@.len() - i,
    {
        let ghost sub = all.subrange(0, i + 1);
        assert(sub.drop_last() =~= all.subrange(0, i as int));
        assert(sub.last() == ls@[i as int]@);
        let t = trimmed(&ls[i]);
        if t.len() > 0 {
            let line = copy_text(&ls[i]);
            let ghost before = texts(out@);
            out.push(line);
            assert(texts(out@) =~= before.push(ls@[i as int]@));
        }
        i = i + 1;
    }
    assert(all.subrange(0, all.len() as int) =~= all);
    out
}

/// A lock of the history.
#[derive(Clone)]
pub struct Lock {
    pub name: String,
    /// raw text per tumbler, e.g. "3r, 6l" or "-"
    pub rules: Vec<String>,
    pub start: Option<Vec<i32>>,
    /// grouped step lines, or a single note line
    pub solution: Vec<String>,
}

impl Lock {
    pub open spec fn model(&self) -> LockModel {
        LockModel {
            name: self.name@,
            rules: string_views(self.rules@),
            start: opt_view(self.start),
            solution: string_views(self.solution@),
        }
    }
}

/// The strings holding each character vector.
pub fn strings_of(v: &Vec<Vec<char>>) -> (r: Vec<String>)
    ensures
        string_views(r@) == texts(v@),
{
    let mut out: Vec<String> = Vec::new();
    let mut i: usize = 0;
    while i < v.len()
        invariant
            i <= v@.len(),
            string_views(out@) == texts(v@).subrange(0, i as int),
        decreases v@.len() - i,
    {
        let s = string_of(&v[i]);
        let ghost before = string_views(out@);
        out.push(s);
        assert(string_views(out@) =~= before.push(v@[i as int]@));
        i = i + 1;
        assert(string_views(out@) =~= texts(v@).subrange(0, i as int));
    }
    assert(texts(v@).subrange(0, v@.len() as int) =~= texts(v@));
    out
}

fn parse_section(name: &Vec<char>, body: &Vec<Vec<char>>) -> (r: Lock)
    requires
        !section_crashes(texts(body@)),
    ensures
        r.model() == section(name@, texts(body@)),
{
    let ghost b = texts(body@);
    let start_needle = chars_of("**Start");
    let rules_needle = chars_of("**Rules");
    let sol_needle = chars_of("**Solution");
    let mut start: Option<Vec<i32>> = None;
    match first_line_with(body, &start_needle) {
        Some(si) => {
            assert(b[si as int] == body@[si as int]@);
            start = int_array_of(&body[si]);
        },
        None => {},
    }
    assert(opt_view(start) == section_start(b));
    let mut pairs: Vec<(usize, Vec<char>)> = Vec::new();
    assert(pair_views(pairs@) =~= Seq::<(usize, Seq<char>)>::empty());
    match first_line_with(body, &rules_needle) {
        Some(ri) => {
            match fence_after(body, ri) {
                Some(content) => {
                    rule_pairs_of(&content, &mut pairs);
                    assert(pair_views(pairs@) =~= rule_pairs(texts(content@)));
                },
                None => {},
            }
        },
        None => {},
    }
    assert(pair_views(pairs@) == section_rule_pairs(b));
    let mut solution: Vec<Vec<char>> = Vec::new();
    match first_line_with(body, &sol_needle) {
        Some(soli) => {
            match fence_after(body, soli) {
                Some(content) => {
                    solution = nonblank_of(&content);
                },
                None => {
                    assert(b[soli as int] == body@[soli as int]@);
                    solution = inline_note_of(&body[soli]);
                },
            }
        },
        None => {
            assert(texts(solution@) =~= Seq::<Seq<char>>::empty());
        },
    }
    assert(texts(solution@) == section_solution(b));
    let slen: usize = match &start {
        Some(s) => s.len(),
        None => 0,
    };
    assert(slen == start_len(section_start(b)));
    let rules = rules_from_pairs_of(&pairs, slen);
    Lock {
        name: string_of(name),
        rules: strings_of(&rules),
        start,
        solution: strings_of(&solution),
    }
}

/// The indices of the lines that open a section (`## ` at the start of the line).
pub open spec fn headings(ls: Seq<Seq<char>>) -> Seq<int>
    decreases ls.len(),
{
    if ls.len() == 0 {
        Seq::empty()
    } else if starts_with(ls.last(), "## "@) {
        headings(ls.drop_last()).push(ls.len() - 1)
    } else {
        headings(ls.drop_last())
    }
}

/// The end (exclusive) of section `k`: the next heading, or the end of the text.
pub open spec fn section_end(ls: Seq<Seq<char>>, hs: Seq<int>, k: int) -> int {
    if k + 1 < hs.len() {
        hs[k + 1]
    } else {
        ls.len() as int
    }
}

/// The lines of section `k`, after its heading line.
pub open spec fn section_body(ls: Seq<Seq<char>>, k: int) -> Seq<Seq<char>> {
    let hs = headings(ls);
    ls.subrange(hs[k] + 1, section_end(ls, hs, k))
}

/// The name of section `k`: its heading line after `## `, trimmed.
pub open spec fn section_name(ls: Seq<Seq<char>>, k: int) -> Seq<char> {
    trim(ls[headings(ls)[k]].skip(3))
}

/// Every lock of the history lines, in order.
pub open spec fn locks_of(ls: Seq<Seq<char>>) -> Seq<LockModel> {
    Seq::new(
        headings(ls).len(),
        |k: int| section(section_name(ls, k), section_body(ls, k)),
    )
}

/// Every lock of the history text, in order.
pub open spec fn history(text: Seq<char>) -> Seq<LockModel> {
    locks_of(lines(text))
}

/// Reading the lines panics when some section's first `**Start` line has `]` before `[`.
pub open spec fn lines_crash(ls: Seq<Seq<char>>) -> bool {
    exists|k: int| 0 <= k < headings(ls).len() && #[trigger] section_crashes(section_body(ls, k))
}

/// Reading the history panics when some section's first `**Start` line has `]` before `[`.
pub open spec fn history_crashes(text: Seq<char>) -> bool {
    lines_crash(lines(text))
}

pub proof fn lemma_headings(ls: Seq<Seq<char>>)
    ensures
        forall|k: int|
            0 <= k < headings(ls).len() ==> 0 <= #[trigger] headings(ls)[k] < ls.len()
                && starts_with(ls[headings(ls)[k]], "## "@),
        forall|j: int, k: int|
            0 <= j < k < headings(ls).len() ==> #[trigger] headings(ls)[j] < #[trigger] headings(
                ls,
            )[k],
    decreases ls.len(),
{
    if ls.len() > 0 {
        lemma_headings(ls.drop_last());
        let prev = headings(ls.drop_last());
        assert forall|k: int| 0 <= k < prev.len() implies ls[prev[k]] == ls.drop_last()[prev[k]] by {
        }
    }
}

pub(crate) fn heading_indices(ls: &Vec<Vec<char>>, marker: &Vec<char>) -> (r: Vec<usize>)
    requires
        marker@ == "## "@,
    ensures
        r@.len() == headings(texts(ls@)).len(),
        forall|k: int| 0 <= k < r@.len() ==> r@[k] as int == headings(texts(ls@))[k],
{
    let ghost all = texts(ls@);
    let mut hs: Vec<usize> = Vec::new();
    let mut i: usize = 0;
    while i < ls.len()
        invariant
            all == texts(ls@),
            marker@ == "## "@,
            i <= ls@.len(),
            hs@.len() == headings(all.subrange(0, i as int)).len(),
            forall|k: int| 0 <= k < hs@.len() ==> hs@[k] as int == headings(all.subrange(0, i as int))[k],
        decreases ls@.len() - i,
    {
        let ghost sub = all.subrange(0, i + 1);
        assert(sub.drop_last() =~= all.subrange(0, i as int));
        assert(sub.last() == ls@[i as int]@);
        if starts_with_text(&ls[i], marker) {
            hs.push(i);
        }
        i = i + 1;
    }
    assert(all.subrange(0, all.len() as int) =~= all);
    hs
}

/// Every lock in the history text, in order of its `## ` heading.
pub fn parse_history(text: &str) -> (r: Vec<Lock>)
    requires
        !history_crashes(text@),
    ensures
        r@.len() == history(text@).len(),
        forall|k: int| 0 <= k < r@.len() ==> (#[trigger] r@[k]).model() == history(text@)[k],
{
    let v = chars_of(text);
    let ls = lines_of(&v);
    let marker = chars_of("## ");
    let hs = heading_indices(&ls, &marker);
    let ghost all = texts(ls@);
    proof {
        lemma_headings(all);
    }
    let mut locks: Vec<Lock> = Vec::new();
    let mut k: usize = 0;
    while k < hs.len()
        invariant
            all == texts(ls@),
            all == lines(text@),
            hs@.len() == headings(all).len(),
            forall|q: int| 0 <= q < hs@.len() ==> hs@[q] as int == headings(all)[q],
            forall|q: int|
                0 <= q < headings(all).len() ==> 0 <= #[trigger] headings(all)[q] < all.len()
                    && starts_with(all[headings(all)[q]], "## "@),
            forall|i: int, j: int|
                0 <= i < j < headings(all).len() ==> #[trigger] headings(all)[i]
                    < #[trigger] headings(all)[j],
            !history_crashes(text@),
            k <= hs@.len(),
            locks@.len() == k,
            forall|q: int| 0 <= q < k ==> (#[trigger] locks@[q]).model() == history(text@)[q],
        decreases hs@.len() - k,
    {
        let s = hs[k];
        let end = if k + 1 < hs.len() {
            hs[k + 1]
        } else {
            ls.len()
        };
        assert(s < end) by {
            if k + 1 < hs@.len() {
                assert(headings(all)[k as int] < headings(all)[k + 1]);
            }
        }
        let heading = &ls[s];
        proof {
            reveal_strlit("## ");
            assert(starts_with(all[s as int], "## "@));
            assert(all[s as int] == heading@);
        }
        let after = slice_of(heading, 3, heading.len());
        let name = trimmed(&after);
        let mut body: Vec<Vec<char>> = Vec::new();
        let mut j = s + 1;
        while j < end
            invariant
                s + 1 <= j <= end <= ls@.len(),
                texts(body@) == texts(ls@).subrange(s + 1, j as int),
            decreases end - j,
        {
            let line = copy_text(&ls[j]);
            let ghost before = texts(body@);
            body.push(line);
            assert(texts(body@) =~= before.push(ls@[j as int]@));
            j = j + 1;
            assert(texts(body@) =~= texts(ls@).subrange(s + 1, j as int));
        }
        proof {
            assert(texts(body@) == section_body(all, k as int));
            assert(section_crashes(section_body(all, k as int)) ==> history_crashes(text@));
        }
        let lock = parse_section(&name, &body);
        locks.push(lock);
        k = k + 1;
    }
    locks
}

/// Whether `v` has its first `]` before its first `[`.
fn brackets_reversed(v: &Vec<char>) -> (r: bool)
    ensures
        r == int_array_crashes(v@),
{
    match (find_char(v, '['), find_char(v, ']')) {
        (Some(l), Some(r)) => r < l,
        _ => false,
    }
}

/// The first line of `ls[lo..hi]` that contains `needle`, counted from `lo`.
fn first_containing(ls: &Vec<Vec<char>>, lo: usize, hi: usize, needle: &Vec<char>) -> (r: Option<
    usize,
>)
    requires
        lo <= hi <= ls@.len(),
    ensures
        match r {
            Some(f) => lo <= f < hi && first_with(texts(ls@).subrange(lo as int, hi as int), needle@)
                == Some(f - lo),
            None => first_with(texts(ls@).subrange(lo as int, hi as int), needle@) is None,
        },
{
    let ghost body = texts(ls@).subrange(lo as int, hi as int);
    let mut j = lo;
    while j < hi
        invariant
            lo <= j <= hi <= ls@.len(),
            body == texts(ls@).subrange(lo as int, hi as int),
            first_with(body, needle@) == first_with_from(body, needle@, j - lo),
        decreases hi - j,
    {
        assert(body[j - lo] == ls@[j as int]@);
        if contains_text(&ls[j], needle) {
            return Some(j);
        }
        j = j + 1;
    }
    None
}

/// Whether `parse_history` reads `text` without panicking: no section has its first
/// `**Start` line with `]` before `[`.
pub fn history_is_readable(text: &str) -> (r: bool)
    ensures
        r == !history_crashes(text@),
{
    let v = chars_of(text);
    let ls = lines_of(&v);
    let marker = chars_of("## ");
    let needle = chars_of("**Start");
    let hs = heading_indices(&ls, &marker);
    let ghost all = texts(ls@);
    proof {
        lemma_headings(all);
    }
    let mut k: usize = 0;
    while k < hs.len()
        invariant
            all == texts(ls@),
            all == lines(text@),
            needle@ == "**Start"@,
            hs@.len() == headings(all).len(),
            forall|q: int| 0 <= q < hs@.len() ==> hs@[q] as int == headings(all)[q],
            forall|q: int|
                0 <= q < headings(all).len() ==> 0 <= #[trigger] headings(all)[q] < all.len(),
            forall|i: int, j: int|
                0 <= i < j < headings(all).len() ==> #[trigger] headings(all)[i]
                    < #[trigger] headings(all)[j],
            k <= hs@.len(),
            forall|q: int| 0 <= q < k ==> !#[trigger] section_crashes(section_body(all, q)),
        decreases hs@.len() - k,
    {
        let s = hs[k];
        let end = if k + 1 < hs.len() {
            hs[k + 1]
        } else {
            ls.len()
        };
        assert(s < end) by {
            if k + 1 < hs@.len() {
                assert(headings(all)[k as int] < headings(all)[k + 1]);
            }
        }
        let ghost body = section_body(all, k as int);
        assert(body =~= all.subrange(s + 1, end as int));
        let found = first_containing(&ls, s + 1, end, &needle);
        match found {
            Some(f) => {
                assert(body[f - s - 1] == ls@[f as int]@);
                if brackets_reversed(&ls[f]) {
                    assert(section_crashes(section_body(all, k as int)));
                    return false;
                }
            },
            None => {},
        }
        k = k + 1;
    }
    true
}

/// Whether one input line makes `parse_input` panic: a line with `[` that is not blank, a
/// comment, or a header, and has `]` before `[`.
pub open spec fn input_line_crashes(raw: Seq<char>) -> bool {
    let line = trim(raw);
    &&& !(line.len() == 0 || line[0] == '#')
    &&& !ci_prefix(line, "name:"@)
    &&& !(ci_prefix(line, "rules"@) || ci_prefix(line, "start"@))
    &&& find(line, '[') is Some
    &&& int_array_crashes(line)
}

proof fn lemma_input_crash_lines(ls: Seq<Seq<char>>)
    ensures
        input_fold(ls).crashed == exists|i: int|
            0 <= i < ls.len() && #[trigger] input_line_crashes(ls[i]),
    decreases ls.len(),
{
    if ls.len() > 0 {
        let pre = ls.drop_last();
        lemma_input_crash_lines(pre);
        if exists|i: int| 0 <= i < ls.len() && #[trigger] input_line_crashes(ls[i]) {
            let i = choose|i: int| 0 <= i < ls.len() && #[trigger] input_line_crashes(ls[i]);
            if i < pre.len() {
                assert(pre[i] == ls[i]);
            } else {
                assert(ls[i] == ls.last());
            }
        }
        if exists|i: int| 0 <= i < pre.len() && #[trigger] input_line_crashes(pre[i]) {
            let i = choose|i: int| 0 <= i < pre.len() && #[trigger] input_line_crashes(pre[i]);
            assert(pre[i] == ls[i]);
        }
        if input_line_crashes(ls.last()) {
            assert(input_line_crashes(ls[ls.len() - 1]));
        }
    }
}

/// Whether `parse_input` reads `text` without panicking: no line that could set the start
/// has `]` before `[`.
pub fn input_is_readable(text: &str) -> (r: bool)
    ensures
        r == !input_crashes(text@),
{
    let v = chars_of(text);
    let ls = lines_of(&v);
    let ghost all = texts(ls@);
    let w_name = chars_of("name:");
    let w_rules = chars_of("rules");
    let w_start = chars_of("start");
    proof {
        lemma_input_crash_lines(all);
    }
    let mut i: usize = 0;
    while i < ls.len()
        invariant
            all == texts(ls@),
            all == lines(text@),
            w_name@ == "name:"@,
            w_rules@ == "rules"@,
            w_start@ == "start"@,
            i <= ls@.len(),
            forall|q: int| 0 <= q < i ==> !#[trigger] input_line_crashes(all[q]),
        decreases ls@.len() - i,
    {
        assert(all[i as int] == ls@[i as int]@);
        let line = trimmed(&ls[i]);
        let skip = line.len() == 0 || line[0] == '#' || ci_prefix_of(&line, &w_name)
            || ci_prefix_of(&line, &w_rules) || ci_prefix_of(&line, &w_start);
        if !skip && find_char(&line, '[').is_some() && brackets_reversed(&line) {
            assert(input_line_crashes(all[i as int]));
            proof {
                lemma_input_crash_lines(all);
            }
            return false;
        }
        i = i + 1;
    }
    true
}

/// The history file the tools read and write unless told otherwise.
pub const DEFAULT_FILE: &'static str = "history-of-locks.md";

/// Fewest and most tumblers a lock may have.
pub const MIN_TUMBLERS: usize = 2;

pub const MAX_TUMBLERS: usize = 8;

/// `c` equals the ASCII lowercase letter or symbol `w` up to ASCII case.
pub open spec fn same_ci(c: char, w: char) -> bool {
    c == w || ('a' <= w <= 'z' && (c as int) == (w as int) - 32)
}

/// `line` begins with `word` when lower-cased (`word` is ASCII lowercase).
pub open spec fn ci_prefix(line: Seq<char>, word: Seq<char>) -> bool {
    word.len() <= line.len() && forall|i: int| 0 <= i < word.len() ==> same_ci(line[i], word[i])
}

/// What reading the lines of a `solve` input has gathered so far.
pub struct InputState {
    pub name: Seq<char>,
    pub start: Option<Seq<i32>>,
    pub pairs: Seq<(usize, Seq<char>)>,
    pub crashed: bool,
}

/// One input line: blank and `#` lines are skipped; `name:` sets the name; `rules…` and
/// `start…` headers are skipped; a line with `[` sets the start (if it holds integers);
/// a line `n: text` records rule `n`.
pub open spec fn input_line(st: InputState, raw: Seq<char>) -> InputState {
    let line = trim(raw);
    if st.crashed || line.len() == 0 || line[0] == '#' {
        st
    } else if ci_prefix(line, "name:"@) {
        match find(line, ':') {
            Some(c) => InputState { name: trim(line.skip(c + 1)), ..st },
            None => st,
        }
    } else if ci_prefix(line, "rules"@) || ci_prefix(line, "start"@) {
        st
    } else if find(line, '[') is Some {
        if int_array_crashes(line) {
            InputState { crashed: true, ..st }
        } else {
            match int_array(line) {
                Some(s) => InputState { start: Some(s), ..st },
                None => st,
            }
        }
    } else {
        match numbered_line(line) {
            Some(p) => InputState { pairs: st.pairs.push(p), ..st },
            None => st,
        }
    }
}

pub open spec fn input_fold(ls: Seq<Seq<char>>) -> InputState
    decreases ls.len(),
{
    if ls.len() == 0 {
        InputState { name: "unnamed"@, start: None, pairs: Seq::empty(), crashed: false }
    } else {
        input_line(input_fold(ls.drop_last()), ls.last())
    }
}

/// Reading the input panics where a line with `[` has `]` before it.
pub open spec fn input_crashes(text: Seq<char>) -> bool {
    input_fold(lines(text)).crashed
}

/// The lock a `solve` input describes: its name, rules and start, with the tumbler count
/// inferred from the rule numbers and the start length.
pub open spec fn lock_input(text: Seq<char>) -> Outcome<(Seq<char>, Seq<Seq<char>>, Seq<i32>)> {
    let st = input_fold(lines(text));
    if st.crashed {
        Outcome::Crash
    } else {
        match st.start {
            None => Outcome::Failure("input is missing a Start line like [5,3,6,7,2,7]"@),
            Some(s) => {
                let rules = rules_from_pairs(st.pairs, s.len());
                let n = rules.len();
                if !(MIN_TUMBLERS <= n <= MAX_TUMBLERS) {
                    Outcome::Failure(
                        "lock has "@ + dec(n) + " tumblers; supported range is "@ + dec(
                            MIN_TUMBLERS as nat,
                        ) + ".."@ + dec(MAX_TUMBLERS as nat),
                    )
                } else if s.len() != n {
                    Outcome::Failure(
                        "Start has "@ + dec(s.len()) + " positions but the lock has "@ + dec(n)
                            + " tumblers"@,
                    )
                } else {
                    Outcome::Value((st.name, rules, s))
                }
            },
        }
    }
}

fn ci_prefix_of(line: &Vec<char>, word: &Vec<char>) -> (r: bool)
    ensures
        r == ci_prefix(line@, word@),
{
    if word.len() > line.len() {
        return false;
    }
    let mut i: usize = 0;
    while i < word.len()
        invariant
            word@.len() <= line@.len(),
            i <= word@.len(),
            forall|j: int| 0 <= j < i ==> same_ci(line@[j], word@[j]),
        decreases word@.len() - i,
    {
        let c = line[i];
        let w = word[i];
        let ok = c == w || ('a' <= w && w <= 'z' && 'A' <= c && c <= 'Z' && (c as u32) + 32 == (w as u32));
        if !ok {
            return false;
        }
        i = i + 1;
    }
    true
}

/// Parse a `solve` input block into (name, rules, start). The tumbler count N is
/// inferred from the rule lines / start length and must be in MIN..=MAX_TUMBLERS,
/// with a Start of exactly N positions.
pub fn parse_input(text: &str) -> (r: Result<(String, Vec<String>, Vec<i32>), String>)
    requires
        !input_crashes(text@),
    ensures
        match r {
            Ok((name, rules, start)) => lock_input(text@) == Outcome::Value(
                (name@, string_views(rules@), start@),
            ),
            Err(e) => lock_input(text@) == Outcome::<
                (Seq<char>, Seq<Seq<char>>, Seq<i32>),
            >::Failure(e@),
        },
{
    let v = chars_of(text);
    let ls = lines_of(&v);
    let ghost all = texts(ls@);
    let w_name = chars_of("name:");
    let w_rules = chars_of("rules");
    let w_start = chars_of("start");
    let mut name = chars_of("unnamed");
    let mut start: Option<Vec<i32>> = None;
    let mut pairs: Vec<(usize, Vec<char>)> = Vec::new();
    let mut i: usize = 0;
    assert(all.subrange(0, 0) =~= Seq::<Seq<char>>::empty());
    assert(pair_views(pairs@) =~= Seq::<(usize, Seq<char>)>::empty());
    while i < ls.len()
        invariant
            all == texts(ls@),
            all == lines(text@),
            w_name@ == "name:"@,
            w_rules@ == "rules"@,
            w_start@ == "start"@,
            i <= ls@.len(),
            !input_fold(all).crashed,
            input_fold(all.subrange(0, i as int)) == (InputState {
                name: name@,
                start: opt_view(start),
                pairs: pair_views(pairs@),
                crashed: false,
            }),
        decreases ls@.len() - i,
    {
        let ghost sub = all.subrange(0, i + 1);
        assert(sub.drop_last() =~= all.subrange(0, i as int));
        assert(sub.last() == ls@[i as int]@);
        proof {
            assert(all.subrange(0, all.len() as int) =~= all);
            if input_fold(all.subrange(0, i + 1)).crashed {
                lemma_input_crash_persists(all, (i + 1) as nat, all.len());
            }
            assert(!input_fold(sub).crashed);
        }
        let line = trimmed(&ls[i]);
        if line.len() == 0 || line[0] == '#' {
        } else if ci_prefix_of(&line, &w_name) {
            match find_char(&line, ':') {
                Some(c) => {
                    proof {
                        lemma_find(line@, ':');
                    }
                    let after = slice_of(&line, c + 1, line.len());
                    assert(after@ =~= line@.skip(c + 1));
                    name = trimmed(&after);
                },
                None => {},
            }
        } else if ci_prefix_of(&line, &w_rules) || ci_prefix_of(&line, &w_start) {
        } else if find_char(&line, '[').is_some() {
            match int_array_of(&line) {
                Some(s) => {
                    start = Some(s);
                },
                None => {},
            }
        } else {
            match numbered_of(&line) {
                Some(p) => {
                    let ghost before = pair_views(pairs@);
                    let ghost pv = (p.0, p.1@);
                    pairs.push(p);
                    assert(pair_views(pairs@) =~= before.push(pv));
                },
                None => {},
            }
        }
        i = i + 1;
    }
    assert(all.subrange(0, all.len() as int) =~= all);
    let start = match start {
        Some(s) => s,
        None => {
            let msg = chars_of("input is missing a Start line like [5,3,6,7,2,7]");
            return Err(string_of(&msg));
        },
    };
    let rules = rules_from_pairs_of(&pairs, start.len());
    let n = rules.len();
    if n < MIN_TUMBLERS || n > MAX_TUMBLERS {
        let mut msg = chars_of("lock has ");
        crate::text::push_dec(&mut msg, n as u64);
        crate::text::push_str(&mut msg, " tumblers; supported range is ");
        crate::text::push_dec(&mut msg, MIN_TUMBLERS as u64);
        crate::text::push_str(&mut msg, "..");
        crate::text::push_dec(&mut msg, MAX_TUMBLERS as u64);
        return Err(string_of(&msg));
    }
    if start.len() != n {
        let mut msg = chars_of("Start has ");
        crate::text::push_dec(&mut msg, start.len() as u64);
        crate::text::push_str(&mut msg, " positions but the lock has ");
        crate::text::push_dec(&mut msg, n as u64);
        crate::text::push_str(&mut msg, " tumblers");
        return Err(string_of(&msg));
    }
    Ok((string_of(&name), strings_of(&rules), start))
}

proof fn lemma_input_crash_persists(ls: Seq<Seq<char>>, k: nat, k2: nat)
    requires
        k <= k2 <= ls.len(),
        input_fold(ls.subrange(0, k as int)).crashed,
    ensures
        input_fold(ls.subrange(0, k2 as int)).crashed,
    decreases k2 - k,
{
    if k < k2 {
        lemma_input_crash_persists(ls, k, (k2 - 1) as nat);
        assert(ls.subrange(0, k2 as int).drop_last() =~= ls.subrange(0, k2 - 1));
    }
}

} // verus!
