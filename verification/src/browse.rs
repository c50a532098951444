//! Finding locks of the history by name or by position.
use vstd::prelude::*;
use crate::history::Lock;
use crate::text::{chars_of, contains, contains_text, parse_usize, parse_usize_text};

verus! {

/// What `str::to_lowercase` gives for a text.
pub uninterp spec fn lowercase_of(s: Seq<char>) -> Seq<char>;

/// The text in lower case, through std's `str::to_lowercase`. Claimed: the result is a
/// function of the text alone; what that function is (Unicode's lowercase mapping) is
/// not stated.
#[verifier::external_body]
fn lowercase(s: &str) -> (r: String)
    ensures
        r@ == lowercase_of(s@),
{
    s.to_lowercase()
}

/// The positions of the names that contain the query, both in lower case.
pub open spec fn matching(names: Seq<Seq<char>>, query: Seq<char>) -> Seq<usize>
    decreases names.len(),
{
    if names.len() == 0 {
        Seq::empty()
    } else {
        let prev = matching(names.drop_last(), query);
        if contains(lowercase_of(names.last()), lowercase_of(query)) {
            prev.push((names.len() - 1) as usize)
        } else {
            prev
        }
    }
}

pub open spec fn lock_names(locks: Seq<Lock>) -> Seq<Seq<char>> {
    Seq::new(locks.len(), |i: int| locks[i].name@)
}

/// The positions of the locks whose name contains the query, ignoring case.
pub fn matching_locks(locks: &[Lock], query: &str) -> (r: Vec<usize>)
    ensures
        r@ == matching(lock_names(locks@), query@),
{
    let q = lowercase(query);
    let qv = chars_of(q.as_str());
    let ghost names = lock_names(locks@);
    let mut out: Vec<usize> = Vec::new();
    let mut i: usize = 0;
    while i < locks.len()
        invariant
            i <= locks@.len(),
            names == lock_names(locks@),
            qv@ == lowercase_of(query@),
            out@ == matching(names.take(i as int), query@),
        decreases locks@.len() - i,
    {
        let ghost sub = names.take(i + 1);
        assert(sub.drop_last() =~= names.take(i as int));
        assert(sub.last() == locks@[i as int].name@);
        let lname = lowercase(locks[i].name.as_str());
        let lv = chars_of(lname.as_str());
        if contains_text(&lv, &qv) {
            out.push(i);
        }
        i = i + 1;
    }
    assert(names.take(locks@.len() as int) =~= names);
    out
}

/// The locks a query picks: the one at that position (counted from 1) when the query
/// is such a number, else every lock whose name contains it, ignoring case.
pub fn pick_locks(locks: &[Lock], query: &str) -> (r: Vec<usize>)
    ensures
        r@ == match parse_usize(query@) {
            Some(k) => if 1 <= k <= locks@.len() {
                seq![(k - 1) as usize]
            } else {
                matching(lock_names(locks@), query@)
            },
            None => matching(lock_names(locks@), query@),
        },
{
    let qv = chars_of(query);
    match parse_usize_text(&qv) {
        Some(k) => {
            if 1 <= k && k <= locks.len() {
                let mut one: Vec<usize> = Vec::new();
                one.push(k - 1);
                assert(one@ =~= seq![(k - 1) as usize]);
                return one;
            }
        },
        None => {},
    }
    matching_locks(locks, query)
}

} // verus!
