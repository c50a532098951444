//! Lock rules and clicks.
use vstd::prelude::*;
use crate::model::{click, goal_state, ints, key_sign, rows, Outcome};
use crate::text::{
    chars_of, dec, parse_usize, parse_usize_text, push_chars, push_dec, push_str, slice_of,
    split, split_on, string_of, texts, trim, trimmed,
};

verus! {

/// The solved state for an `n`-tumbler lock: every plate centred on 4.
pub fn goal(n: usize) -> (g: Vec<i32>)
    ensures
        ints(g@) == goal_state(n as nat),
{
    let mut g: Vec<i32> = Vec::new();
    let mut i: usize = 0;
    while i < n
        invariant
            i <= n,
            g@.len() == i,
            forall|j: int| 0 <= j < i ==> g@[j] == 4,
        decreases n - i,
    {
        g.push(4);
        i = i + 1;
    }
    assert(ints(g@) =~= goal_state(n as nat));
    g
}

/// Applies one click in place: [D] adds the tumbler's delta row, [A] subtracts it.
/// `tumbler` is 1-based; the new state never leaves `i32`.
pub fn apply_click(state: &mut [i32], mat: &[Vec<i32>], tumbler: usize, key: char)
    requires
        1 <= tumbler <= mat@.len(),
        mat@[tumbler - 1]@.len() >= old(state)@.len(),
        forall|i: int|
            0 <= i < old(state)@.len() ==> i32::MIN <= #[trigger] click(
                ints(old(state)@),
                rows(mat@),
                tumbler as int,
                key,
            )[i] <= i32::MAX,
        key == 'A' ==> forall|i: int|
            0 <= i < old(state)@.len() ==> i32::MIN < #[trigger] mat@[tumbler - 1]@[i],
    ensures
        ints(final(state)@) == click(ints(old(state)@), rows(mat@), tumbler as int, key),
{
    let sgn: i32 = if key == 'A' {
        -1
    } else {
        1
    };
    let row = &mat[tumbler - 1];
    let n = state.len();
    let mut i: usize = 0;
    while i < n
        invariant
            n == state@.len(),
            1 <= tumbler <= mat@.len(),
            state@.len() == old(state)@.len(),
            row@ == mat@[tumbler - 1]@,
            row@.len() >= n,
            0 <= i <= n,
            sgn == key_sign(key),
            key == 'A' ==> forall|j: int| 0 <= j < n ==> i32::MIN < #[trigger] row@[j],
            forall|j: int|
                0 <= j < n ==> i32::MIN <= #[trigger] click(
                    ints(old(state)@),
                    rows(mat@),
                    tumbler as int,
                    key,
                )[j] <= i32::MAX,
            forall|j: int|
                0 <= j < i ==> state@[j] == old(state)@[j] + sgn * row@[j],
            forall|j: int| i <= j < n ==> state@[j] == old(state)@[j],
        decreases n - i,
    {
        assert(click(ints(old(state)@), rows(mat@), tumbler as int, key)[i as int] == old(state)@[i as int] + sgn * row@[i as int]);
        let d: i32 = if key == 'A' {
            -row[i]
        } else {
            row[i]
        };
        state[i] = state[i] + d;
        i = i + 1;
    }
    assert(ints(state@) =~= click(ints(old(state)@), rows(mat@), tumbler as int, key));
}

/// A [D] press undone by an [A] press on the same tumbler leaves every plate where it was.
pub proof fn lemma_press_then_release(s: Seq<int>, m: Seq<Seq<int>>, tumbler: int)
    ensures
        click(click(s, m, tumbler, 'D'), m, tumbler, 'A') == s,
        click(click(s, m, tumbler, 'A'), m, tumbler, 'D') == s,
{
    assert(click(click(s, m, tumbler, 'D'), m, tumbler, 'A') =~= s);
    assert(click(click(s, m, tumbler, 'A'), m, tumbler, 'D') =~= s);
}

/// Two clicks give the same state in either order, so only the net number of presses on
/// each tumbler decides where the plates end.
pub proof fn clicks_commute(
    s: Seq<int>,
    m: Seq<Seq<int>>,
    t1: int,
    k1: char,
    t2: int,
    k2: char,
)
    ensures
        click(click(s, m, t1, k1), m, t2, k2) == click(click(s, m, t2, k2), m, t1, k1),
{
    assert(click(click(s, m, t1, k1), m, t2, k2) =~= click(click(s, m, t2, k2), m, t1, k1));
}

/// What one comma-separated token of a rule contributes.
pub enum TokenEffect {
    /// An empty token.
    Skip,
    /// Plate `plate` (0-based) moves by `delta`.
    Shift(int, int),
    /// The rule is rejected with this message.
    Reject(Seq<char>),
    /// The token ends in a character that is not ASCII: cutting that last character
    /// off by its byte length slices inside it and panics.
    Crash,
}

pub open spec fn rule_label(idx: nat) -> Seq<char> {
    " in rule "@ + dec(idx + 1)
}

/// The effect of token `raw` in the rule of tumbler `idx` (0-based) of an `n`-tumbler lock.
pub open spec fn token_effect(idx: nat, n: nat, raw: Seq<char>) -> TokenEffect {
    let tok = trim(raw);
    if tok.len() == 0 {
        TokenEffect::Skip
    } else if (tok.last() as int) >= 128 {
        TokenEffect::Crash
    } else {
        let dir = tok.last();
        match parse_usize(trim(tok.drop_last())) {
            None => TokenEffect::Reject("bad token '"@ + tok + "'"@ + rule_label(idx)),
            Some(num) => if !(1 <= num <= n) {
                TokenEffect::Reject(
                    "plate "@ + dec(num as nat) + " out of range (1.."@ + dec(n) + ")"@
                        + rule_label(idx),
                )
            } else if dir == 'r' {
                TokenEffect::Shift(num - 1, -1)
            } else if dir == 'l' {
                TokenEffect::Shift(num - 1, 1)
            } else {
                TokenEffect::Reject(
                    "unknown direction '"@ + seq![dir] + "'"@ + rule_label(idx)
                        + " (only r/l supported)"@,
                )
            },
        }
    }
}

/// Applies the tokens in order to the delta row `d`; the first rejection wins.
/// A plate whose delta would leave `i32` panics.
pub open spec fn apply_tokens(idx: nat, n: nat, toks: Seq<Seq<char>>, d: Seq<int>) -> Outcome<
    Seq<int>,
>
    decreases toks.len(),
{
    if toks.len() == 0 {
        Outcome::Value(d)
    } else {
        match token_effect(idx, n, toks[0]) {
            TokenEffect::Skip => apply_tokens(idx, n, toks.drop_first(), d),
            TokenEffect::Shift(p, delta) => if i32::MIN <= d[p] + delta <= i32::MAX {
                apply_tokens(idx, n, toks.drop_first(), d.update(p, d[p] + delta))
            } else {
                Outcome::Crash
            },
            TokenEffect::Reject(msg) => Outcome::Failure(msg),
            TokenEffect::Crash => Outcome::Crash,
        }
    }
}

/// The delta row of a tumbler whose rule moves no other plate: its own plate moves -1.
pub open spec fn own_delta(idx: nat, n: nat) -> Seq<int> {
    Seq::new(n, |i: int| if i == idx {
        -1int
    } else {
        0int
    })
}

/// The [D]-press delta of tumbler `idx` (0-based) in an `n`-tumbler lock, read from its
/// rule text: the tumbler's own plate moves -1, then each token `<plate>r` moves that
/// plate -1 and `<plate>l` moves it +1. A rule of `-` or only white space moves nothing else.
pub open spec fn rule_delta(idx: nat, text: Seq<char>, n: nat) -> Outcome<Seq<int>> {
    let d0 = own_delta(idx, n);
    let t = trim(text);
    if t == seq!['-'] || t.len() == 0 {
        Outcome::Value(d0)
    } else {
        apply_tokens(idx, n, split(t, ','), d0)
    }
}

/// Builds the rejection message for a token.
fn message(parts: Vec<char>) -> (s: String)
    ensures
        s@ == parts@,
{
    string_of(&parts)
}

fn push_rule_label(out: &mut Vec<char>, idx: usize)
    requires
        idx < usize::MAX,
    ensures
        final(out)@ == old(out)@ + rule_label(idx as nat),
{
    push_str(out, " in rule ");
    push_dec(out, (idx + 1) as u64);
    assert(final(out)@ =~= old(out)@ + rule_label(idx as nat));
}

/// D-press delta for one tumbler from its rule text. `idx` is the tumbler (0..n).
pub fn rule_to_delta(idx: usize, text: &str, n: usize) -> (r: Result<Vec<i32>, String>)
    requires
        idx < n,
        rule_delta(idx as nat, text@, n as nat) != Outcome::<Seq<int>>::Crash,
    ensures
        match r {
            Ok(d) => rule_delta(idx as nat, text@, n as nat) == Outcome::Value(ints(d@)),
            Err(e) => rule_delta(idx as nat, text@, n as nat) == Outcome::<Seq<int>>::Failure(e@),
        },
{
    let ghost d0 = own_delta(idx as nat, n as nat);
    let mut d: Vec<i32> = Vec::new();
    let mut i: usize = 0;
    while i < n
        invariant
            i <= n,
            d@.len() == i,
            d0 == own_delta(idx as nat, n as nat),
            forall|j: int| 0 <= j < i ==> d@[j] as int == d0[j],
        decreases n - i,
    {
        if i == idx {
            d.push(-1);
        } else {
            d.push(0);
        }
        i = i + 1;
    }
    assert(ints(d@) =~= d0);
    let tv = chars_of(text);
    let t = trimmed(&tv);
    if t.len() == 0 || (t.len() == 1 && t[0] == '-') {
        assert(t@.len() == 0 || t@ =~= seq!['-']);
        return Ok(d);
    }
    assert(t@ != seq!['-']);
    let toks = split_on(&t, ',');
    let ghost all = texts(toks@);
    assert(all.skip(0) =~= all);
    let mut j: usize = 0;
    while j < toks.len()
        invariant
            idx < n,
            j <= toks@.len(),
            all == texts(toks@),
            d@.len() == n,
            rule_delta(idx as nat, text@, n as nat) == apply_tokens(
                idx as nat,
                n as nat,
                all.skip(j as int),
                ints(d@),
            ),
            rule_delta(idx as nat, text@, n as nat) != Outcome::<Seq<int>>::Crash,
        decreases toks@.len() - j,
    {
        let ghost rest = all.skip(j as int);
        assert(rest[0] == toks@[j as int]@);
        assert(rest.drop_first() =~= all.skip(j + 1));
        let tok = trimmed(&toks[j]);
        if tok.len() == 0 {
            j = j + 1;
            continue;
        }
        let dir = tok[tok.len() - 1];
        assert(tok@.last() == dir);
        let body = slice_of(&tok, 0, tok.len() - 1);
        assert(body@ =~= tok@.drop_last());
        let num_txt = trimmed(&body);
        assert(tok@ == trim(rest[0]));
        assert(num_txt@ == trim(tok@.drop_last()));
        match parse_usize_text(&num_txt) {
            None => {
                let mut msg: Vec<char> = Vec::new();
                push_str(&mut msg, "bad token '");
                push_chars(&mut msg, &tok);
                push_str(&mut msg, "'");
                push_rule_label(&mut msg, idx);
                return Err(message(msg));
            },
            Some(num) => {
                if num < 1 || num > n {
                    let mut msg: Vec<char> = Vec::new();
                    push_str(&mut msg, "plate ");
                    push_dec(&mut msg, num as u64);
                    push_str(&mut msg, " out of range (1..");
                    push_dec(&mut msg, n as u64);
                    push_str(&mut msg, ")");
                    push_rule_label(&mut msg, idx);
                    return Err(message(msg));
                }
                let delta: i32 = if dir == 'r' {
                    -1
                } else if dir == 'l' {
                    1
                } else {
                    let mut msg: Vec<char> = Vec::new();
                    push_str(&mut msg, "unknown direction '");
                    msg.push(dir);
                    push_str(&mut msg, "'");
                    push_rule_label(&mut msg, idx);
                    push_str(&mut msg, " (only r/l supported)");
                    assert(msg@ =~= "unknown direction '"@ + seq![dir] + "'"@ + rule_label(
                        idx as nat,
                    ) + " (only r/l supported)"@);
                    return Err(message(msg));
                };
                let cur = d[num - 1];
                let ghost dv = ints(d@);
                assert(dv[num - 1] == cur as int);
                assert(token_effect(idx as nat, n as nat, rest[0]) == TokenEffect::Shift(
                    num - 1,
                    delta as int,
                ));
                let updated = cur + delta;
                d.set(num - 1, updated);
                assert(ints(d@) =~= dv.update(num - 1, dv[num - 1] + delta));
            },
        }
        j = j + 1;
    }
    assert(all.skip(j as int) =~= Seq::<Seq<char>>::empty());
    Ok(d)
}

/// The rule texts of a lock, one per tumbler.
pub open spec fn rule_texts(rules: Seq<String>) -> Seq<Seq<char>> {
    Seq::new(rules.len(), |i: int| rules[i]@)
}

/// The delta rows of the first `k` rules of an `n`-tumbler lock, built in order; the
/// first rule that fails (or panics) decides the outcome.
pub open spec fn matrix_prefix(rules: Seq<Seq<char>>, n: nat, k: nat) -> Outcome<Seq<Seq<int>>>
    decreases k,
{
    if k == 0 {
        Outcome::Value(Seq::empty())
    } else {
        match matrix_prefix(rules, n, (k - 1) as nat) {
            Outcome::Value(m) => match rule_delta((k - 1) as nat, rules[k - 1], n) {
                Outcome::Value(d) => Outcome::Value(m.push(d)),
                Outcome::Failure(e) => Outcome::Failure(e),
                Outcome::Crash => Outcome::Crash,
            },
            Outcome::Failure(e) => Outcome::Failure(e),
            Outcome::Crash => Outcome::Crash,
        }
    }
}

/// The N x N delta matrix of N rule texts.
pub open spec fn matrix_of(rules: Seq<Seq<char>>) -> Outcome<Seq<Seq<int>>> {
    matrix_prefix(rules, rules.len(), rules.len())
}

pub proof fn lemma_matrix_shape(rules: Seq<Seq<char>>, n: nat, k: nat)
    requires
        k <= rules.len(),
    ensures
        matrix_prefix(rules, n, k) matches Outcome::Value(m) ==> m.len() == k && forall|i: int|
            0 <= i < k ==> (#[trigger] m[i]).len() == n,
    decreases k,
{
    if k > 0 {
        lemma_matrix_shape(rules, n, (k - 1) as nat);
        lemma_rule_delta_len((k - 1) as nat, rules[k - 1], n);
    }
}

pub proof fn lemma_apply_tokens_len(idx: nat, n: nat, toks: Seq<Seq<char>>, d: Seq<int>)
    requires
        d.len() == n,
    ensures
        apply_tokens(idx, n, toks, d) matches Outcome::Value(r) ==> r.len() == d.len(),
    decreases toks.len(),
{
    if toks.len() > 0 {
        match token_effect(idx, n, toks[0]) {
            TokenEffect::Skip => lemma_apply_tokens_len(idx, n, toks.drop_first(), d),
            TokenEffect::Shift(p, delta) => {
                assert(0 <= p < n);
                lemma_apply_tokens_len(idx, n, toks.drop_first(), d.update(p, d[p] + delta));
            },
            _ => {},
        }
    }
}

pub proof fn lemma_rule_delta_len(idx: nat, text: Seq<char>, n: nat)
    ensures
        rule_delta(idx, text, n) matches Outcome::Value(d) ==> d.len() == n,
{
    let t = trim(text);
    if !(t == seq!['-'] || t.len() == 0) {
        lemma_apply_tokens_len(idx, n, split(t, ','), own_delta(idx, n));
    }
}

/// Build the NxN delta matrix from N rule strings (N = rules.len()).
pub fn build_matrix(rules: &[String]) -> (r: Result<Vec<Vec<i32>>, String>)
    requires
        matrix_of(rule_texts(rules@)) != Outcome::<Seq<Seq<int>>>::Crash,
    ensures
        match r {
            Ok(m) => matrix_of(rule_texts(rules@)) == Outcome::Value(rows(m@)) && m@.len()
                == rules@.len() && forall|i: int|
                0 <= i < m@.len() ==> (#[trigger] m@[i])@.len() == rules@.len(),
            Err(e) => matrix_of(rule_texts(rules@)) == Outcome::<Seq<Seq<int>>>::Failure(e@),
        },
{
    let n = rules.len();
    let ghost rt = rule_texts(rules@);
    let mut m: Vec<Vec<i32>> = Vec::new();
    assert(rows(m@) =~= Seq::<Seq<int>>::empty());
    let mut i: usize = 0;
    while i < n
        invariant
            n == rules@.len(),
            rt == rule_texts(rules@),
            i <= n,
            matrix_prefix(rt, n as nat, i as nat) == Outcome::Value(rows(m@)),
            matrix_of(rt) != Outcome::<Seq<Seq<int>>>::Crash,
            forall|k: int| 0 <= k < m@.len() ==> (#[trigger] m@[k])@.len() == n,
            m@.len() == i,
        decreases n - i,
    {
        proof {
            lemma_prefix_crash_or_failure_persists(rt, n as nat, (i + 1) as nat, n as nat);
            assert(rt[i as int] == rules@[i as int]@);
            lemma_rule_delta_len(i as nat, rt[i as int], n as nat);
        }
        match rule_to_delta(i, rules[i].as_str(), n) {
            Ok(d) => {
                let ghost before = rows(m@);
                m.push(d);
                assert(rows(m@) =~= before.push(ints(d@)));
            },
            Err(e) => {
                proof {
                    lemma_prefix_crash_or_failure_persists(rt, n as nat, (i + 1) as nat, n as nat);
                }
                return Err(e);
            },
        }
        i = i + 1;
    }
    Ok(m)
}

/// Once a prefix of the rules fails or panics, every longer prefix does the same.
pub proof fn lemma_prefix_crash_or_failure_persists(
    rules: Seq<Seq<char>>,
    n: nat,
    k: nat,
    k2: nat,
)
    requires
        k <= k2,
    ensures
        !(matrix_prefix(rules, n, k) is Value) ==> matrix_prefix(rules, n, k2) == matrix_prefix(
            rules,
            n,
            k,
        ),
    decreases k2 - k,
{
    if k < k2 {
        lemma_prefix_crash_or_failure_persists(rules, n, k, (k2 - 1) as nat);
    }
}

/// How reading the rule of tumbler `idx` ends: 0 with a delta row, 1 with a rejection,
/// 2 with a panic (`rule_to_delta` asks that it does not panic).
fn rule_kind(idx: usize, text: &str, n: usize) -> (k: u8)
    requires
        idx < n,
    ensures
        k == 0 <==> rule_delta(idx as nat, text@, n as nat) is Value,
        k == 1 <==> rule_delta(idx as nat, text@, n as nat) is Failure,
        k == 2 <==> rule_delta(idx as nat, text@, n as nat) is Crash,
{
    let ghost d0 = own_delta(idx as nat, n as nat);
    let mut d: Vec<i32> = Vec::new();
    let mut i: usize = 0;
    while i < n
        invariant
            i <= n,
            d@.len() == i,
            d0 == own_delta(idx as nat, n as nat),
            forall|j: int| 0 <= j < i ==> d@[j] as int == d0[j],
        decreases n - i,
    {
        if i == idx {
            d.push(-1);
        } else {
            d.push(0);
        }
        i = i + 1;
    }
    assert(ints(d@) =~= d0);
    let tv = chars_of(text);
    let t = trimmed(&tv);
    if t.len() == 0 || (t.len() == 1 && t[0] == '-') {
        assert(t@.len() == 0 || t@ =~= seq!['-']);
        return 0;
    }
    assert(t@ != seq!['-']);
    let toks = split_on(&t, ',');
    let ghost all = texts(toks@);
    assert(all.skip(0) =~= all);
    let mut j: usize = 0;
    while j < toks.len()
        invariant
            idx < n,
            j <= toks@.len(),
            all == texts(toks@),
            d@.len() == n,
            rule_delta(idx as nat, text@, n as nat) == apply_tokens(
                idx as nat,
                n as nat,
                all.skip(j as int),
                ints(d@),
            ),
        decreases toks@.len() - j,
    {
        let ghost rest = all.skip(j as int);
        assert(rest[0] == toks@[j as int]@);
        assert(rest.drop_first() =~= all.skip(j + 1));
        let tok = trimmed(&toks[j]);
        if tok.len() == 0 {
            j = j + 1;
            continue;
        }
        let dir = tok[tok.len() - 1];
        assert(tok@.last() == dir);
        assert(tok@ == trim(rest[0]));
        if dir > '\u{7f}' {
            assert((dir as int) >= 128);
            assert(rest.len() > 0);
            assert(token_effect(idx as nat, n as nat, rest[0]) == TokenEffect::Crash);
            return 2;
        }
        assert((dir as int) < 128);
        let body = slice_of(&tok, 0, tok.len() - 1);
        assert(body@ =~= tok@.drop_last());
        let num_txt = trimmed(&body);
        assert(num_txt@ == trim(tok@.drop_last()));
        match parse_usize_text(&num_txt) {
            None => {
                return 1;
            },
            Some(num) => {
                if num < 1 || num > n {
                    return 1;
                }
                if dir != 'r' && dir != 'l' {
                    return 1;
                }
                let delta: i64 = if dir == 'r' {
                    -1
                } else {
                    1
                };
                let cur = d[num - 1];
                let ghost dv = ints(d@);
                assert(dv[num - 1] == cur as int);
                assert(token_effect(idx as nat, n as nat, rest[0]) == TokenEffect::Shift(
                    num - 1,
                    delta as int,
                ));
                let wide: i64 = (cur as i64) + delta;
                if wide < i32::MIN as i64 || wide > i32::MAX as i64 {
                    return 2;
                }
                d.set(num - 1, wide as i32);
                assert(ints(d@) =~= dv.update(num - 1, dv[num - 1] + delta));
            },
        }
        j = j + 1;
    }
    assert(all.skip(j as int) =~= Seq::<Seq<char>>::empty());
    0
}

/// Whether `build_matrix` reads the rules without panicking.
pub fn rules_are_readable(rules: &[String]) -> (r: bool)
    ensures
        r == (matrix_of(rule_texts(rules@)) != Outcome::<Seq<Seq<int>>>::Crash),
{
    let n = rules.len();
    let ghost rt = rule_texts(rules@);
    let mut i: usize = 0;
    while i < n
        invariant
            n == rules@.len(),
            rt == rule_texts(rules@),
            i <= n,
            matrix_prefix(rt, n as nat, i as nat) is Value,
        decreases n - i,
    {
        assert(rt[i as int] == rules@[i as int]@);
        let k = rule_kind(i, rules[i].as_str(), n);
        if k == 2 {
            proof {
                lemma_prefix_crash_or_failure_persists(rt, n as nat, (i + 1) as nat, n as nat);
            }
            return false;
        }
        if k == 1 {
            proof {
                lemma_prefix_crash_or_failure_persists(rt, n as nat, (i + 1) as nat, n as nat);
            }
            return true;
        }
        i = i + 1;
    }
    true
}

} // verus!
