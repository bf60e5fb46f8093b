use vstd::prelude::*;
use crate::db::{DbColFam, RocksDB};
use crate::iter::gas_of;
use crate::keys::{joined, Key};
use crate::store::{clone_bytes, prefix_pred, Cf};
use crate::strings::has_prefix;

verus! {

#[verifier::external_type_specification]
#[verifier::external_body]
pub struct ExRegex(regex::Regex);

/// Whether the pattern matches somewhere in the text; the answer depends
/// on the pattern and the text alone.
pub uninterp spec fn regex_match(pattern: Seq<char>, text: Seq<char>) -> bool;

/// A compiled search pattern, kept with its source so that contracts can
/// speak of what it matches.
pub struct Pattern {
    src: String,
    re: regex::Regex,
}

impl Pattern {
    /// The pattern's source text.
    pub closed spec fn src_view(self) -> Seq<char> {
        self.src@
    }

    /// Relies on `regex::Regex::new`: compiles the pattern, `None` when
    /// it is not a valid regular expression.
    #[verifier::external_body]
    pub fn compile(pattern: &str) -> (r: Option<Pattern>)
        ensures
            r matches Some(p) ==> p.src_view() == pattern@,
    {
        match regex::Regex::new(pattern) {
            Ok(re) => Some(Pattern { src: pattern.to_owned(), re }),
            Err(_) => None,
        }
    }

    /// Relies on `regex::Regex::is_match`: whether the pattern matches
    /// the text; the result is a function of the two strings.
    #[verifier::external_body]
    pub fn is_match(&self, text: &str) -> (r: bool)
        ensures
            r == regex_match(self.src_view(), text@),
    {
        self.re.is_match(text)
    }
}

/// The entries of a prefix scan that also match the pattern, in order,
/// each with its stripped key and gas charge.
pub open spec fn pattern_items(
    f: Seq<(Seq<char>, Seq<u8>)>,
    stripped: Seq<char>,
    pat: Seq<char>,
) -> Seq<(Seq<char>, Seq<u8>, u64)>
    decreases f.len(),
{
    if f.len() == 0 {
        Seq::empty()
    } else {
        let rest = pattern_items(f.drop_last(), stripped, pat);
        let k = f.last().0.skip(stripped.len() as int);
        if regex_match(pat, k) {
            rest.push((k, f.last().1, gas_of(k, f.last().1)))
        } else {
            rest
        }
    }
}

/// A finished pattern scan, handed out entry by entry.
pub struct PersistentPatternIterator {
    items: Vec<(String, Vec<u8>, u64)>,
    pos: usize,
}

impl PersistentPatternIterator {
    /// The entries not yet handed out.
    pub closed spec fn remaining(self) -> Seq<(Seq<char>, Seq<u8>, u64)> {
        if self.pos <= self.items.len() {
            Seq::new(
                (self.items.len() - self.pos) as nat,
                |i: int| (
                    self.items[self.pos + i].0@,
                    self.items[self.pos + i].1@,
                    self.items[self.pos + i].2,
                ),
            )
        } else {
            Seq::empty()
        }
    }

    /// Hands out the next matching entry and its gas charge.
    pub fn next(&mut self) -> (r: Option<(String, Vec<u8>, u64)>)
        ensures
            match r {
                Some(t) => old(self).remaining().len() > 0 && (t.0@, t.1@, t.2) == old(
                    self,
                ).remaining()[0] && final(self).remaining() == old(self).remaining().skip(1),
                None => old(self).remaining().len() == 0 && final(self).remaining() == old(
                    self,
                ).remaining(),
            },
    {
        if self.pos < self.items.len() {
            let k = self.items[self.pos].0.clone();
            let v = clone_bytes(&self.items[self.pos].1);
            let g = self.items[self.pos].2;
            self.pos = self.pos + 1;
            proof {
                assert(final(self).remaining() =~= old(self).remaining().skip(1));
            }
            Some((k, v, g))
        } else {
            proof {
                assert(old(self).remaining().len() == 0);
            }
            None
        }
    }

    /// All matching entries as key/value pairs.
    pub fn into_pairs(self) -> (out: Vec<(String, Vec<u8>)>)
        requires
            self.remaining().len() == self.spec_item_count(),
        ensures
            out@.len() == self.remaining().len(),
            forall|i: int|
                0 <= i < out@.len() ==> ((#[trigger] out@[i]).0@, out@[i].1@) == (
                self.remaining()[i].0, self.remaining()[i].1),
    {
        let items = self.items;
        let mut out: Vec<(String, Vec<u8>)> = Vec::new();
        let n = items.len();
        let mut i: usize = 0;
        while i < n
            invariant
                i <= n,
                n == items@.len(),
                out@.len() == i,
                forall|j: int|
                    0 <= j < i ==> ((#[trigger] out@[j]).0@, out@[j].1@) == (items@[j].0@,
                    items@[j].1@),
            decreases n - i,
        {
            out.push((items[i].0.clone(), clone_bytes(&items[i].1)));
            i = i + 1;
        }
        out
    }
}

impl RocksDB {
    /// Scans the subspace under the given prefix — all of it when none is
    /// given — and keeps the entries whose key matches the pattern, in
    /// ascending key order.
    pub fn iter_pattern(&self, prefix: Option<&Key>, pattern: &Pattern) -> (it:
        PersistentPatternIterator)
        requires
            self.wf(),
            prefix matches Some(p) ==> p@.len() > 0,
        ensures
            it.remaining() == pattern_items(
                self.spec_cf(DbColFam::Subspace).entry_seq().filter(
                    prefix_pred(
                        match prefix {
                            Some(p) => joined(p@) + "/"@,
                            None => Seq::empty(),
                        },
                    ),
                ),
                Seq::empty(),
                pattern.src_view(),
            ),
            it.remaining().len() == it.spec_item_count(),
    {
        let scan: String = match prefix {
            Some(p) => {
                let mut s = p.to_string();
                s.append("/");
                s
            },
            None => String::new(),
        };
        let ghost scan_at = scan@;
        let cf: &Cf = self.cf(DbColFam::Subspace);
        let entries = cf.prefix_entries(scan.as_str());
        let ghost f = cf.entry_seq().filter(prefix_pred(scan_at));
        let mut items: Vec<(String, Vec<u8>, u64)> = Vec::new();
        let n = entries.len();
        let mut i: usize = 0;
        proof {
            assert(pattern_items(f.take(0), Seq::empty(), pattern.src_view())
                =~= Seq::<(Seq<char>, Seq<u8>, u64)>::empty());
        }
        while i < n
            invariant
                i <= n,
                n == entries@.len(),
                f.len() == n,
                forall|j: int|
                    0 <= j < n ==> ((#[trigger] entries@[j]).0@, entries@[j].1@) == f[j],
                items@.len() <= i,
                Seq::new(
                    items@.len(),
                    |j: int| ((#[trigger] items@[j]).0@, items@[j].1@, items@[j].2),
                ) == pattern_items(f.take(i as int), Seq::empty(), pattern.src_view()),
            decreases n - i,
        {
            let ghost prev = f.take(i as int);
            let ghost cur = f.take(i + 1);
            proof {
                assert(cur.drop_last() =~= prev);
                assert(cur.last() == f[i as int]);
                assert(f[i as int].0.skip(0) =~= f[i as int].0);
            }
            if pattern.is_match(entries[i].0.as_str()) {
                let k = entries[i].0.clone();
                let v = clone_bytes(&entries[i].1);
                let g = crate::iter::entry_gas(k.as_str(), &v);
                items.push((k, v, g));
                proof {
                    assert(Seq::new(
                        items@.len(),
                        |j: int| ((#[trigger] items@[j]).0@, items@[j].1@, items@[j].2),
                    ) =~= pattern_items(cur, Seq::empty(), pattern.src_view()));
                }
            } else {
                proof {
                    assert(Seq::new(
                        items@.len(),
                        |j: int| ((#[trigger] items@[j]).0@, items@[j].1@, items@[j].2),
                    ) =~= pattern_items(cur, Seq::empty(), pattern.src_view()));
                }
            }
            i = i + 1;
        }
        proof {
            assert(f.take(n as int) =~= f);
        }
        let it = PersistentPatternIterator { items, pos: 0 };
        proof {
            assert(it.remaining() =~= pattern_items(f, Seq::empty(), pattern.src_view()));
        }
        it
    }
}

impl PersistentPatternIterator {
    /// How many entries the scan produced in all.
    pub closed spec fn spec_item_count(self) -> nat {
        self.items@.len()
    }
}

} // verus!
