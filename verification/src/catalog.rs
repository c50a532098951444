//! UI string catalogs: `key = value` lines, looked up with a fallback catalog.
use vstd::prelude::*;
use crate::history::same_text;
use crate::text::{chars_of, find, find_char, lemma_find, lines, lines_of, slice_of, string_of, texts, trim, trimmed};

verus! {

/// A catalog line as `(key, value)`: trimmed, not blank, not a `#` comment, split at
/// its first `=`, both sides trimmed.
pub open spec fn catalog_entry(raw: Seq<char>) -> Option<(Seq<char>, Seq<char>)> {
    let line = trim(raw);
    if line.len() == 0 || line[0] == '#' {
        None
    } else {
        match find(line, '=') {
            Some(e) => Some((trim(line.take(e)), trim(line.skip(e + 1)))),
            None => None,
        }
    }
}

/// The entries of the catalog lines, in order.
pub open spec fn catalog_pairs(ls: Seq<Seq<char>>) -> Seq<(Seq<char>, Seq<char>)>
    decreases ls.len(),
{
    if ls.len() == 0 {
        Seq::empty()
    } else {
        let prev = catalog_pairs(ls.drop_last());
        match catalog_entry(ls.last()) {
            Some(p) => prev.push(p),
            None => prev,
        }
    }
}

/// The value of the last entry with `key`: a later line for a key replaces an earlier one.
pub open spec fn lookup(pairs: Seq<(Seq<char>, Seq<char>)>, key: Seq<char>) -> Option<Seq<char>>
    decreases pairs.len(),
{
    if pairs.len() == 0 {
        None
    } else if pairs.last().0 == key {
        Some(pairs.last().1)
    } else {
        lookup(pairs.drop_last(), key)
    }
}

/// A parsed catalog.
pub struct Catalog {
    entries: Vec<(Vec<char>, Vec<char>)>,
}

impl Catalog {
    /// The entries, in the order of their lines.
    pub closed spec fn pairs(&self) -> Seq<(Seq<char>, Seq<char>)> {
        Seq::new(self.entries@.len(), |i: int| (self.entries@[i].0@, self.entries@[i].1@))
    }

    pub fn is_empty(&self) -> (r: bool)
        ensures
            r == (self.pairs().len() == 0),
    {
        self.entries.len() == 0
    }

    /// The value for `key`, if any line gives one.
    pub fn get(&self, key: &str) -> (r: Option<String>)
        ensures
            match r {
                Some(v) => lookup(self.pairs(), key@) == Some(v@),
                None => lookup(self.pairs(), key@) is None,
            },
    {
        let k = chars_of(key);
        let ghost ps = self.pairs();
        let mut j: usize = self.entries.len();
        assert(ps.take(j as int) =~= ps);
        while j > 0
            invariant
                j <= self.entries@.len(),
                ps == self.pairs(),
                k@ == key@,
                lookup(ps, key@) == lookup(ps.take(j as int), key@),
            decreases j,
        {
            let ghost pre = ps.take(j as int);
            assert(pre.drop_last() =~= ps.take(j - 1));
            assert(pre.last() == ps[j - 1]);
            if same_text(&self.entries[j - 1].0, &k) {
                return Some(string_of(&self.entries[j - 1].1));
            }
            j = j - 1;
        }
        None
    }

    pub fn contains_key(&self, key: &str) -> (r: bool)
        ensures
            r == lookup(self.pairs(), key@) is Some,
    {
        self.get(key).is_some()
    }
}

fn entry_of(raw: &Vec<char>) -> (r: Option<(Vec<char>, Vec<char>)>)
    ensures
        match r {
            Some((k, v)) => catalog_entry(raw@) == Some((k@, v@)),
            None => catalog_entry(raw@) is None,
        },
{
    let line = trimmed(raw);
    if line.len() == 0 || line[0] == '#' {
        return None;
    }
    match find_char(&line, '=') {
        Some(e) => {
            proof {
                lemma_find(line@, '=');
            }
            let head = slice_of(&line, 0, e);
            let tail = slice_of(&line, e + 1, line.len());
            assert(head@ =~= line@.take(e as int));
            assert(tail@ =~= line@.skip(e + 1));
            Some((trimmed(&head), trimmed(&tail)))
        },
        None => None,
    }
}

/// Reads a catalog: every line `key = value` that is not blank or a `#` comment.
pub fn parse_catalog(src: &str) -> (r: Catalog)
    ensures
        r.pairs() == catalog_pairs(lines(src@)),
{
    let v = chars_of(src);
    let ls = lines_of(&v);
    let ghost all = texts(ls@);
    let mut entries: Vec<(Vec<char>, Vec<char>)> = Vec::new();
    let mut i: usize = 0;
    while i < ls.len()
        invariant
            all == texts(ls@),
            all == lines(src@),
            i <= ls@.len(),
            Seq::new(entries@.len(), |q: int| (entries@[q].0@, entries@[q].1@)) == catalog_pairs(
                all.take(i as int),
            ),
        decreases ls@.len() - i,
    {
        let ghost sub = all.take(i + 1);
        assert(sub.drop_last() =~= all.take(i as int));
        assert(sub.last() == ls@[i as int]@);
        let ghost before = Seq::new(entries@.len(), |q: int| (entries@[q].0@, entries@[q].1@));
        match entry_of(&ls[i]) {
            Some(p) => {
                let ghost pv = (p.0@, p.1@);
                entries.push(p);
                assert(Seq::new(entries@.len(), |q: int| (entries@[q].0@, entries@[q].1@))
                    =~= before.push(pv));
            },
            None => {},
        }
        i = i + 1;
    }
    assert(all.take(all.len() as int) =~= all);
    Catalog { entries }
}

/// The strings of one UI language, with English behind it for missing keys.
pub struct I18n {
    map: Catalog,
    fallback: Catalog,
}

impl I18n {
    pub closed spec fn language(&self) -> Seq<(Seq<char>, Seq<char>)> {
        self.map.pairs()
    }

    pub closed spec fn fallback(&self) -> Seq<(Seq<char>, Seq<char>)> {
        self.fallback.pairs()
    }

    /// The strings of the catalog `src`, falling back to the catalog `fallback_src`.
    pub fn new(src: &str, fallback_src: &str) -> (r: I18n)
        ensures
            r.language() == catalog_pairs(lines(src@)),
            r.fallback() == catalog_pairs(lines(fallback_src@)),
    {
        I18n { map: parse_catalog(src), fallback: parse_catalog(fallback_src) }
    }

    /// Looks up a key: the language's value, else the fallback's, else the key itself.
    pub fn get(&self, key: &str) -> (r: String)
        ensures
            r@ == match lookup(self.language(), key@) {
                Some(v) => v,
                None => match lookup(self.fallback(), key@) {
                    Some(v) => v,
                    None => key@,
                },
            },
    {
        match self.map.get(key) {
            Some(v) => v,
            None => match self.fallback.get(key) {
                Some(v) => v,
                None => {
                    let k = chars_of(key);
                    string_of(&k)
                },
            },
        }
    }
}

} // verus!
