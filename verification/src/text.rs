//! Character-sequence primitives: trimming, searching, splitting, numbers.
use vstd::prelude::*;
use vstd::std_specs::iter::IteratorSpec;

verus! {

broadcast use vstd::string::group_string_axioms;

/// The characters of `s`, in order.
pub fn chars_of(s: &str) -> (v: Vec<char>)
    ensures
        v@ == s@,
{
    let mut v: Vec<char> = Vec::new();
    for c in it: s.chars()
        invariant
            v@ == it.seq().take(it.index() as int),
    {
        v.push(c);
    }
    v
}

/// Builds a `String` from characters through std's `FromIterator<char> for String`.
/// Claimed: the string holds exactly the given characters, in order.
#[verifier::external_body]
pub(crate) fn string_of(v: &Vec<char>) -> (s: String)
    ensures
        s@ == v@,
{
    v.iter().collect()
}

/// Unicode `White_Space`, the set `char::is_whitespace` and `str::trim` use.
pub open spec fn is_space(c: char) -> bool {
    let x = c as int;
    (9 <= x <= 13) || x == 32 || x == 0x85 || x == 0xa0 || x == 0x1680 || (0x2000 <= x
        <= 0x200a) || x == 0x2028 || x == 0x2029 || x == 0x202f || x == 0x205f || x == 0x3000
}

pub fn space(c: char) -> (r: bool)
    ensures
        r == is_space(c),
{
    let x = c as u32;
    (9 <= x && x <= 13) || x == 32 || x == 0x85 || x == 0xa0 || x == 0x1680 || (0x2000 <= x
        && x <= 0x200a) || x == 0x2028 || x == 0x2029 || x == 0x202f || x == 0x205f || x
        == 0x3000
}

/// `s` without leading white space.
pub open spec fn trim_start(s: Seq<char>) -> Seq<char>
    decreases s.len(),
{
    if s.len() > 0 && is_space(s[0]) {
        trim_start(s.drop_first())
    } else {
        s
    }
}

/// `s` without trailing white space.
pub open spec fn trim_end(s: Seq<char>) -> Seq<char>
    decreases s.len(),
{
    if s.len() > 0 && is_space(s.last()) {
        trim_end(s.drop_last())
    } else {
        s
    }
}

/// `s` without leading or trailing white space, as `str::trim` returns it.
pub open spec fn trim(s: Seq<char>) -> Seq<char> {
    trim_end(trim_start(s))
}

/// The characters `v[lo..hi]`.
pub fn slice_of(v: &Vec<char>, lo: usize, hi: usize) -> (r: Vec<char>)
    requires
        lo <= hi <= v@.len(),
    ensures
        r@ == v@.subrange(lo as int, hi as int),
{
    let mut r: Vec<char> = Vec::new();
    let mut i: usize = lo;
    while i < hi
        invariant
            lo <= i <= hi <= v@.len(),
            r@ == v@.subrange(lo as int, i as int),
        decreases hi - i,
    {
        r.push(v[i]);
        i = i + 1;
        assert(r@ =~= v@.subrange(lo as int, i as int));
    }
    r
}

/// `v` trimmed of white space at both ends.
pub fn trimmed(v: &Vec<char>) -> (r: Vec<char>)
    ensures
        r@ == trim(v@),
{
    let len = v.len();
    let mut lo: usize = 0;
    assert(v@.subrange(0, len as int) =~= v@);
    while lo < len && space(v[lo])
        invariant
            len == v@.len(),
            lo <= len,
            trim_start(v@) == trim_start(v@.subrange(lo as int, len as int)),
        decreases len - lo,
    {
        assert(v@.subrange(lo as int, len as int).drop_first() =~= v@.subrange(
            lo + 1,
            len as int,
        ));
        lo = lo + 1;
    }
    assert(trim_start(v@) == v@.subrange(lo as int, len as int));
    let ghost t = v@.subrange(lo as int, len as int);
    let mut hi: usize = len;
    while hi > lo && space(v[hi - 1])
        invariant
            lo <= hi <= len,
            len == v@.len(),
            t == v@.subrange(lo as int, len as int),
            trim_end(t) == trim_end(v@.subrange(lo as int, hi as int)),
        decreases hi,
    {
        assert(v@.subrange(lo as int, hi as int).drop_last() =~= v@.subrange(
            lo as int,
            hi - 1,
        ));
        hi = hi - 1;
    }
    slice_of(v, lo, hi)
}

/// The first index at or after `i` holding `c`.
pub open spec fn find_from(s: Seq<char>, c: char, i: int) -> Option<int>
    decreases s.len() - i,
{
    if i < 0 || i >= s.len() {
        None
    } else if s[i] == c {
        Some(i)
    } else {
        find_from(s, c, i + 1)
    }
}

/// The first index of `c` in `s`, as `str::find` with a `char` pattern gives it.
pub open spec fn find(s: Seq<char>, c: char) -> Option<int> {
    find_from(s, c, 0)
}

pub proof fn lemma_find_from(s: Seq<char>, c: char, i: int)
    requires
        0 <= i,
    ensures
        match find_from(s, c, i) {
            Some(k) => i <= k < s.len() && s[k] == c && forall|j: int| i <= j < k ==> s[j] != c,
            None => forall|j: int| i <= j < s.len() ==> s[j] != c,
        },
    decreases s.len() - i,
{
    if i < s.len() && s[i] != c {
        lemma_find_from(s, c, i + 1);
    }
}

pub proof fn lemma_find(s: Seq<char>, c: char)
    ensures
        match find(s, c) {
            Some(k) => 0 <= k < s.len() && s[k] == c && forall|j: int| 0 <= j < k ==> s[j] != c,
            None => forall|j: int| 0 <= j < s.len() ==> s[j] != c,
        },
{
    lemma_find_from(s, c, 0);
}

pub fn find_char(v: &Vec<char>, c: char) -> (r: Option<usize>)
    ensures
        match r {
            Some(k) => find(v@, c) == Some(k as int),
            None => find(v@, c) == None::<int>,
        },
{
    let mut i: usize = 0;
    while i < v.len()
        invariant
            i <= v@.len(),
            find(v@, c) == find_from(v@, c, i as int),
        decreases v@.len() - i,
    {
        if v[i] == c {
            return Some(i);
        }
        i = i + 1;
    }
    None
}

/// The pieces of `s` between occurrences of `c`, as `str::split` with a `char` gives them.
pub open spec fn split(s: Seq<char>, c: char) -> Seq<Seq<char>>
    decreases s.len(),
{
    if s.len() == 0 {
        seq![Seq::empty()]
    } else {
        let p = split(s.drop_last(), c);
        if s.last() == c {
            p.push(Seq::empty())
        } else {
            p.update(p.len() - 1, p.last().push(s.last()))
        }
    }
}

pub proof fn lemma_split_len(s: Seq<char>, c: char)
    ensures
        split(s, c).len() >= 1,
    decreases s.len(),
{
    if s.len() > 0 {
        lemma_split_len(s.drop_last(), c);
    }
}

/// The views of a vector of character vectors.
pub open spec fn texts(v: Seq<Vec<char>>) -> Seq<Seq<char>> {
    Seq::new(v.len(), |i: int| v[i]@)
}

pub fn split_on(v: &Vec<char>, c: char) -> (r: Vec<Vec<char>>)
    ensures
        texts(r@) == split(v@, c),
{
    let mut pieces: Vec<Vec<char>> = Vec::new();
    let mut cur: Vec<char> = Vec::new();
    let mut i: usize = 0;
    while i < v.len()
        invariant
            i <= v@.len(),
            texts(pieces@).push(cur@) == split(v@.subrange(0, i as int), c),
        decreases v@.len() - i,
    {
        let ghost before = split(v@.subrange(0, i as int), c);
        assert(v@.subrange(0, i + 1).drop_last() =~= v@.subrange(0, i as int));
        assert(v@.subrange(0, i + 1).last() == v@[i as int]);
        if v[i] == c {
            let done = cur;
            pieces.push(done);
            cur = Vec::new();
            assert(texts(pieces@).push(cur@) =~= before.push(Seq::empty()));
        } else {
            cur.push(v[i]);
            assert(texts(pieces@).push(cur@) =~= before.update(
                before.len() - 1,
                before.last().push(v@[i as int]),
            ));
        }
        i = i + 1;
    }
    pieces.push(cur);
    assert(v@.subrange(0, v@.len() as int) =~= v@);
    assert(texts(pieces@) =~= split(v@, c));
    pieces
}

/// A line without the carriage return that ended it.
pub open spec fn strip_cr(p: Seq<char>) -> Seq<char> {
    if p.len() > 0 && p.last() == '\r' {
        p.drop_last()
    } else {
        p
    }
}

/// The lines of `s`, as `str::lines` gives them: split at `\n`, each line that a `\n`
/// ended loses one trailing `\r`, and a final empty piece is not a line.
pub open spec fn lines(s: Seq<char>) -> Seq<Seq<char>> {
    let ps = split(s, '\n');
    let k = ps.len() - 1;
    Seq::new(k as nat, |i: int| strip_cr(ps[i])) + if ps[k].len() > 0 {
        seq![ps[k]]
    } else {
        Seq::empty()
    }
}

pub fn lines_of(v: &Vec<char>) -> (r: Vec<Vec<char>>)
    ensures
        texts(r@) == lines(v@),
{
    let ps = split_on(v, '\n');
    proof {
        lemma_split_len(v@, '\n');
    }
    let k = ps.len() - 1;
    let mut out: Vec<Vec<char>> = Vec::new();
    let mut i: usize = 0;
    while i < k
        invariant
            k == ps@.len() - 1,
            texts(ps@) == split(v@, '\n'),
            i <= k,
            texts(out@) == Seq::new(i as nat, |j: int| strip_cr(texts(ps@)[j])),
        decreases k - i,
    {
        let p = &ps[i];
        let n = p.len();
        let piece = if n > 0 && p[n - 1] == '\r' {
            slice_of(p, 0, n - 1)
        } else {
            slice_of(p, 0, n)
        };
        proof {
            assert(texts(ps@)[i as int] == p@);
            if n > 0 && p@[n - 1] == '\r' {
                assert(p@.drop_last() =~= p@.subrange(0, n - 1));
            } else {
                assert(p@ =~= p@.subrange(0, n as int));
            }
            assert(piece@ == strip_cr(texts(ps@)[i as int]));
        }
        let ghost before = texts(out@);
        out.push(piece);
        assert(texts(out@) =~= before.push(piece@));
        i = i + 1;
        assert(texts(out@) =~= Seq::new(i as nat, |j: int| strip_cr(texts(ps@)[j])));
    }
    if ps[k].len() > 0 {
        let last = slice_of(&ps[k], 0, ps[k].len());
        assert(last@ =~= ps@[k as int]@);
        out.push(last);
    }
    assert(texts(out@) =~= lines(v@));
    out
}

/// `needle` occurs in `s` at index `i`.
pub open spec fn occurs_at(s: Seq<char>, needle: Seq<char>, i: int) -> bool {
    0 <= i && i + needle.len() <= s.len() && s.subrange(i, i + needle.len()) == needle
}

/// `needle` occurs somewhere in `s`, as `str::contains` with a `&str` pattern tests it.
pub open spec fn contains(s: Seq<char>, needle: Seq<char>) -> bool {
    exists|i: int| occurs_at(s, needle, i)
}

/// `s` begins with `p`.
pub open spec fn starts_with(s: Seq<char>, p: Seq<char>) -> bool {
    p.len() <= s.len() && s.subrange(0, p.len() as int) == p
}

fn matches_at(v: &Vec<char>, needle: &Vec<char>, i: usize) -> (r: bool)
    requires
        i <= v@.len(),
    ensures
        r == occurs_at(v@, needle@, i as int),
{
    if needle.len() > v.len() - i {
        return false;
    }
    let vl = v.len();
    let mut j: usize = 0;
    while j < needle.len()
        invariant
            vl == v@.len(),
            i + needle@.len() <= v@.len(),
            j <= needle@.len(),
            forall|q: int| 0 <= q < j ==> v@[i + q] == needle@[q],
        decreases needle@.len() - j,
    {
        if v[i + j] != needle[j] {
            assert(v@.subrange(i as int, i + needle@.len())[j as int] != needle@[j as int]);
            return false;
        }
        j = j + 1;
    }
    assert(v@.subrange(i as int, i + needle@.len()) =~= needle@);
    true
}

pub fn contains_text(v: &Vec<char>, needle: &Vec<char>) -> (r: bool)
    ensures
        r == contains(v@, needle@),
{
    let len = v.len();
    let mut i: usize = 0;
    loop
        invariant
            len == v@.len(),
            i <= len,
            forall|q: int| 0 <= q < i ==> !occurs_at(v@, needle@, q),
        decreases len - i,
    {
        if matches_at(v, needle, i) {
            return true;
        }
        if i == len {
            assert forall|q: int| !occurs_at(v@, needle@, q) by {
                if 0 <= q < i {
                }
            }
            return false;
        }
        i = i + 1;
    }
}

pub fn starts_with_text(v: &Vec<char>, p: &Vec<char>) -> (r: bool)
    ensures
        r == starts_with(v@, p@),
{
    matches_at(v, p, 0)
}

/// The decimal digit character for `d` in 0..=9.
pub open spec fn digit_char(d: int) -> char {
    if d == 0 {
        '0'
    } else if d == 1 {
        '1'
    } else if d == 2 {
        '2'
    } else if d == 3 {
        '3'
    } else if d == 4 {
        '4'
    } else if d == 5 {
        '5'
    } else if d == 6 {
        '6'
    } else if d == 7 {
        '7'
    } else if d == 8 {
        '8'
    } else {
        '9'
    }
}

/// The decimal text of `n`, as `{}` formats an unsigned integer.
pub open spec fn dec(n: nat) -> Seq<char>
    decreases n,
{
    if n < 10 {
        seq![digit_char(n as int)]
    } else {
        dec(n / 10).push(digit_char((n % 10) as int))
    }
}

/// The decimal text of a signed integer, with a leading `-` when negative.
pub open spec fn int_text(x: int) -> Seq<char> {
    if x < 0 {
        seq!['-'] + dec((-x) as nat)
    } else {
        dec(x as nat)
    }
}

fn digit_to_char(d: u64) -> (c: char)
    requires
        d < 10,
    ensures
        c == digit_char(d as int),
{
    if d == 0 {
        '0'
    } else if d == 1 {
        '1'
    } else if d == 2 {
        '2'
    } else if d == 3 {
        '3'
    } else if d == 4 {
        '4'
    } else if d == 5 {
        '5'
    } else if d == 6 {
        '6'
    } else if d == 7 {
        '7'
    } else if d == 8 {
        '8'
    } else {
        '9'
    }
}

/// Appends the decimal text of `n`.
pub fn push_dec(out: &mut Vec<char>, n: u64)
    ensures
        final(out)@ == old(out)@ + dec(n as nat),
    decreases n,
{
    if n >= 10 {
        push_dec(out, n / 10);
    }
    let c = digit_to_char(n % 10);
    out.push(c);
    proof {
        if n < 10 {
            assert(final(out)@ =~= old(out)@ + dec(n as nat));
        } else {
            assert(final(out)@ =~= old(out)@ + dec(n as nat));
        }
    }
}

/// Appends the decimal text of a signed integer.
pub fn push_int(out: &mut Vec<char>, x: i32)
    ensures
        final(out)@ == old(out)@ + int_text(x as int),
{
    if x < 0 {
        out.push('-');
        let m: i64 = -(x as i64);
        push_dec(out, m as u64);
        assert(final(out)@ =~= old(out)@ + int_text(x as int));
    } else {
        push_dec(out, x as u64);
    }
}

/// Appends the characters of `s`.
pub fn push_str(out: &mut Vec<char>, s: &str)
    ensures
        final(out)@ == old(out)@ + s@,
{
    let cs = chars_of(s);
    push_chars(out, &cs);
}

/// Appends the characters of `v`.
pub fn push_chars(out: &mut Vec<char>, v: &Vec<char>)
    ensures
        final(out)@ == old(out)@ + v@,
{
    let mut i: usize = 0;
    while i < v.len()
        invariant
            i <= v@.len(),
            out@ == old(out)@ + v@.subrange(0, i as int),
        decreases v@.len() - i,
    {
        out.push(v[i]);
        i = i + 1;
        assert(out@ =~= old(out)@ + v@.subrange(0, i as int));
    }
    assert(v@.subrange(0, v@.len() as int) =~= v@);
}

pub open spec fn is_digit(c: char) -> bool {
    48 <= (c as int) <= 57
}

pub open spec fn all_digits(s: Seq<char>) -> bool {
    forall|i: int| 0 <= i < s.len() ==> is_digit(#[trigger] s[i])
}

/// The value of a run of decimal digits.
pub open spec fn digits_value(s: Seq<char>) -> nat
    decreases s.len(),
{
    if s.len() == 0 {
        0
    } else {
        digits_value(s.drop_last()) * 10 + ((s.last() as int) - 48) as nat
    }
}

/// The magnitude that `s` spells as an optional `+` and one or more decimal digits.
pub open spec fn unsigned_text(s: Seq<char>) -> Option<nat> {
    let body = if s.len() > 0 && s[0] == '+' {
        s.drop_first()
    } else {
        s
    };
    if body.len() > 0 && all_digits(body) {
        Some(digits_value(body))
    } else {
        None
    }
}

/// What `usize::from_str` gives for `s`.
pub open spec fn parse_usize(s: Seq<char>) -> Option<usize> {
    match unsigned_text(s) {
        Some(v) => if v <= usize::MAX {
            Some(v as usize)
        } else {
            None
        },
        None => None,
    }
}

/// What `i32::from_str` gives for `s`.
pub open spec fn parse_i32(s: Seq<char>) -> Option<i32> {
    if s.len() > 0 && s[0] == '-' {
        let body = s.drop_first();
        if body.len() > 0 && all_digits(body) && digits_value(body) <= 0x8000_0000 {
            Some((-digits_value(body)) as i32)
        } else {
            None
        }
    } else {
        match unsigned_text(s) {
            Some(v) => if v <= i32::MAX {
                Some(v as i32)
            } else {
                None
            },
            None => None,
        }
    }
}

/// Cap above every value the integer parsers accept.
pub open spec fn cap() -> nat {
    0x1_0000_0000_0000_0000
}

pub open spec fn min_nat(a: nat, b: nat) -> nat {
    if a <= b {
        a
    } else {
        b
    }
}

/// The value of the digits `v[lo..]`, capped, if they are one or more decimal digits.
fn scan_digits(v: &Vec<char>, lo: usize) -> (r: Option<u128>)
    requires
        lo <= v@.len(),
    ensures
        match r {
            Some(x) => v@.subrange(lo as int, v@.len() as int).len() > 0 && all_digits(
                v@.subrange(lo as int, v@.len() as int),
            ) && x == min_nat(digits_value(v@.subrange(lo as int, v@.len() as int)), cap()),
            None => !(v@.subrange(lo as int, v@.len() as int).len() > 0 && all_digits(
                v@.subrange(lo as int, v@.len() as int),
            )),
        },
{
    let len = v.len();
    if lo == len {
        return None;
    }
    let mut acc: u128 = 0;
    let mut i: usize = lo;
    while i < len
        invariant
            lo <= i <= len,
            len == v@.len(),
            all_digits(v@.subrange(lo as int, i as int)),
            acc == min_nat(digits_value(v@.subrange(lo as int, i as int)), cap()),
        decreases len - i,
    {
        let c = v[i];
        if c < '0' || c > '9' {
            assert(!is_digit(v@.subrange(lo as int, len as int)[i - lo]));
            return None;
        }
        assert(is_digit(c));
        let d = ((c as u32) - 48) as u128;
        let ghost sub = v@.subrange(lo as int, i + 1);
        assert(sub.drop_last() =~= v@.subrange(lo as int, i as int));
        assert(sub.last() == c);
        let next = acc * 10 + d;
        acc = if next > 0x1_0000_0000_0000_0000 {
            0x1_0000_0000_0000_0000
        } else {
            next
        };
        i = i + 1;
        assert(all_digits(v@.subrange(lo as int, i as int))) by {
            assert forall|q: int| 0 <= q < sub.len() implies is_digit(#[trigger] sub[q]) by {
                if q < sub.len() - 1 {
                    assert(sub[q] == v@.subrange(lo as int, i - 1)[q]);
                } else {
                    assert(sub[q] == c);
                }
            }
        }
    }
    Some(acc)
}

/// `usize::from_str` on the characters of `v`.
pub fn parse_usize_text(v: &Vec<char>) -> (r: Option<usize>)
    ensures
        r == parse_usize(v@),
{
    let lo: usize = if v.len() > 0 && v[0] == '+' {
        1
    } else {
        0
    };
    assert(v@.subrange(lo as int, v@.len() as int) == (if v@.len() > 0 && v@[0] == '+' {
        v@.drop_first()
    } else {
        v@
    }));
    match scan_digits(v, lo) {
        None => None,
        Some(x) => {
            if x <= usize::MAX as u128 {
                Some(x as usize)
            } else {
                None
            }
        },
    }
}

/// `i32::from_str` on the characters of `v`.
pub fn parse_i32_text(v: &Vec<char>) -> (r: Option<i32>)
    ensures
        r == parse_i32(v@),
{
    if v.len() > 0 && v[0] == '-' {
        assert(v@.subrange(1, v@.len() as int) =~= v@.drop_first());
        match scan_digits(v, 1) {
            None => None,
            Some(x) => {
                if x <= 0x8000_0000 {
                    let m: i64 = x as i64;
                    Some((-m) as i32)
                } else {
                    None
                }
            },
        }
    } else {
        let lo: usize = if v.len() > 0 && v[0] == '+' {
            1
        } else {
            0
        };
        assert(v@.subrange(lo as int, v@.len() as int) == (if v@.len() > 0 && v@[0] == '+' {
            v@.drop_first()
        } else {
            v@
        }));
        match scan_digits(v, lo) {
            None => None,
            Some(x) => {
                if x <= 0x7fff_ffff {
                    Some(x as i32)
                } else {
                    None
                }
            },
        }
    }
}

pub proof fn lemma_digit_char(d: int)
    requires
        0 <= d < 10,
    ensures
        (digit_char(d) as int) - 48 == d,
        is_digit(digit_char(d)),
{
}

pub proof fn lemma_dec(x: nat)
    ensures
        dec(x).len() > 0,
        all_digits(dec(x)),
        digits_value(dec(x)) == x,
    decreases x,
{
    lemma_digit_char((x % 10) as int);
    if x < 10 {
        let e = dec(x);
        assert(e.drop_last() =~= Seq::<char>::empty());
        assert(e.last() == digit_char(x as int));
        assert(digits_value(e) == digits_value(e.drop_last()) * 10 + ((e.last() as int) - 48) as nat);
    } else {
        lemma_dec(x / 10);
        let d = dec(x / 10);
        let e = dec(x);
        assert(e == d.push(digit_char((x % 10) as int)));
        assert(e.drop_last() =~= d);
        assert(e.last() == digit_char((x % 10) as int));
        assert(digits_value(e) == digits_value(d) * 10 + ((e.last() as int) - 48) as nat);
        assert(x == (x / 10) * 10 + x % 10);
        assert forall|i: int| 0 <= i < e.len() implies is_digit(#[trigger] e[i]) by {
            if i < d.len() {
                assert(e[i] == d[i]);
            }
        }
    }
}

/// A digit run reads back through `usize::from_str` as its value.
pub proof fn lemma_parse_dec(x: usize)
    ensures
        parse_usize(dec(x as nat)) == Some(x),
        trim(dec(x as nat)) == dec(x as nat),
{
    lemma_dec(x as nat);
    let d = dec(x as nat);
    assert(is_digit(d[0]));
    lemma_trim_keeps(d);
}

/// Trimming changes nothing when both ends are not white space.
pub proof fn lemma_trim_keeps(s: Seq<char>)
    requires
        s.len() > 0,
        !is_space(s[0]),
        !is_space(s.last()),
    ensures
        trim(s) == s,
{
}

/// Trimming drops a leading white-space character in front of a word.
pub proof fn lemma_trim_drops_one_space(s: Seq<char>)
    requires
        s.len() > 1,
        is_space(s[0]),
        !is_space(s[1]),
        !is_space(s.last()),
    ensures
        trim(s) == s.drop_first(),
{
    let t = s.drop_first();
    assert(t[0] == s[1]);
    assert(t.last() == s.last());
    assert(trim_start(s) == trim_start(t));
}

/// No digit is `c`, so a digit run holds no `c`.
pub proof fn lemma_find_after_digits(d: Seq<char>, rest: Seq<char>, c: char)
    requires
        all_digits(d),
        !is_digit(c),
        rest.len() > 0,
        rest[0] == c,
    ensures
        find(d + rest, c) == Some(d.len() as int),
{
    let s = d + rest;
    lemma_find(s, c);
    match find(s, c) {
        Some(k) => {
            if k < d.len() {
                assert(s[k] == d[k]);
            } else if k > d.len() {
                assert(s[d.len() as int] == c);
            }
        },
        None => {
            assert(s[d.len() as int] == c);
        },
    }
}

} // verus!
