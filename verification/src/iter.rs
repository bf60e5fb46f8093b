use vstd::prelude::*;
use crate::db::{DbColFam, RocksDB};
use crate::keys::{joined, new_diff_prefix, old_diff_prefix, Key};
use crate::store::{clone_bytes, prefix_pred, Cf};
use crate::strings::{has_prefix, lemma_has_prefix_trans, lemma_lex_skip, lemma_prefix_decompose, lex_lt};

verus! {

/// The gas charged for yielding one entry: the length of the yielded key
/// plus the length of the value.
pub open spec fn gas_of(k: Seq<char>, v: Seq<u8>) -> u64 {
    if k.len() + v.len() <= u64::MAX {
        (k.len() + v.len()) as u64
    } else {
        u64::MAX
    }
}

pub fn entry_gas(k: &str, v: &Vec<u8>) -> (g: u64)
    ensures
        g == gas_of(k@, v@),
{
    let a: u64 = k.unicode_len() as u64;
    let b: u64 = v.len() as u64;
    if a <= u64::MAX - b {
        a + b
    } else {
        u64::MAX
    }
}

/// What a prefix scan yields: `items` lists, in strictly increasing key
/// order, exactly the entries of `m` whose key begins with `scan`, with
/// the leading `stripped` removed from each yielded key, together with the
/// entry's value and its gas charge.
pub open spec fn lists_prefix_scan(
    items: Seq<(Seq<char>, Seq<u8>, u64)>,
    m: Map<Seq<char>, Seq<u8>>,
    stripped: Seq<char>,
    scan: Seq<char>,
) -> bool {
    &&& forall|i: int|
        0 <= i < items.len() ==> {
            let full = stripped + (#[trigger] items[i]).0;
            &&& has_prefix(full, scan)
            &&& m.contains_key(full)
            &&& m[full] == items[i].1
            &&& items[i].2 == gas_of(items[i].0, items[i].1)
        }
    &&& forall|k: Seq<char>|
        m.contains_key(k) && has_prefix(k, scan) ==> exists|i: int|
            0 <= i < items.len() && (#[trigger] items[i]).0 == k.skip(stripped.len() as int)
    &&& forall|i: int, j: int|
        0 <= i < j < items.len() ==> lex_lt((#[trigger] items[i]).0, (#[trigger] items[j]).0)
}

/// A finished prefix scan, handed out entry by entry.
pub struct PersistentPrefixIterator {
    items: Vec<(String, Vec<u8>, u64)>,
    pos: usize,
}

impl PersistentPrefixIterator {
    /// The entries not yet handed out.
    pub closed spec fn remaining(self) -> Seq<(Seq<char>, Seq<u8>, u64)> {
        if self.pos <= self.items.len() {
            Seq::new(
                (self.items.len() - self.pos) as nat,
                |i: int| (
                    self.items[self.pos + i].0@,
                    self.items[self.pos + i].1@,
                    self.items[self.pos + i].2,
                ),
            )
        } else {
            Seq::empty()
        }
    }

    /// Hands out the next entry and its gas charge.
    pub fn next(&mut self) -> (r: Option<(String, Vec<u8>, u64)>)
        ensures
            match r {
                Some(t) => old(self).remaining().len() > 0 && (t.0@, t.1@, t.2) == old(
                    self,
                ).remaining()[0] && final(self).remaining() == old(self).remaining().skip(1),
                None => old(self).remaining().len() == 0 && final(self).remaining() == old(
                    self,
                ).remaining(),
            },
    {
        if self.pos < self.items.len() {
            let k = self.items[self.pos].0.clone();
            let v = clone_bytes(&self.items[self.pos].1);
            let g = self.items[self.pos].2;
            self.pos = self.pos + 1;
            proof {
                assert(final(self).remaining() =~= old(self).remaining().skip(1));
            }
            Some((k, v, g))
        } else {
            proof {
                assert(old(self).remaining().len() == 0);
            }
            None
        }
    }

    fn from_items(items: Vec<(String, Vec<u8>, u64)>) -> (it: PersistentPrefixIterator)
        ensures
            it.remaining().len() == items@.len(),
            forall|i: int|
                0 <= i < items@.len() ==> #[trigger] it.remaining()[i] == (items@[i].0@,
                items@[i].1@, items@[i].2),
    {
        let it = PersistentPrefixIterator { items, pos: 0 };
        it
    }
}

impl RocksDB {
    /// Scans one column family for the keys beginning with `scan`, hands
    /// the keys out with `stripped` removed.
    fn iter_prefix_raw(&self, fam: DbColFam, stripped: &str, scan: &str) -> (it:
        PersistentPrefixIterator)
        requires
            self.wf(),
            has_prefix(scan@, stripped@),
        ensures
            lists_prefix_scan(it.remaining(), self@.cf(fam), stripped@, scan@),
    {
        let ghost m = self@.cf(fam);
        let cf: &Cf = self.cf(fam);
        let entries = cf.prefix_entries(scan);
        let ghost f = cf.entry_seq().filter(prefix_pred(scan@));
        let mut items: Vec<(String, Vec<u8>, u64)> = Vec::new();
        let n = entries.len();
        let mut i: usize = 0;
        while i < n
            invariant
                i <= n,
                n == entries@.len(),
                f.len() == n,
                forall|j: int|
                    0 <= j < n ==> ((#[trigger] entries@[j]).0@, entries@[j].1@) == f[j],
                self.wf(),
                *cf == self.spec_cf(fam),
                cf.as_map() == m,
                f == cf.entry_seq().filter(prefix_pred(scan@)),
                has_prefix(scan@, stripped@),
                items@.len() == i,
                forall|j: int|
                    0 <= j < i ==> ((#[trigger] items@[j]).0@, items@[j].1@, items@[j].2) == (
                    f[j].0.skip(stripped@.len() as int),
                    f[j].1,
                    gas_of(f[j].0.skip(stripped@.len() as int), f[j].1),
                ),
            decreases n - i,
        {
            proof {
                cf.entry_seq().lemma_filter_pred(prefix_pred(scan@), i as int);
                lemma_has_prefix_trans(f[i as int].0, scan@, stripped@);
            }
            let stripped_key = match crate::strings::str_strip_prefix(
                entries[i].0.as_str(),
                stripped,
            ) {
                Some(s) => s,
                None => {
                    // unreachable: every scanned key begins with `stripped`
                    proof {
                        assert(false);
                    }
                    String::new()
                },
            };
            let value = clone_bytes(&entries[i].1);
            let g = entry_gas(stripped_key.as_str(), &value);
            items.push((stripped_key, value, g));
            i = i + 1;
        }
        let ghost item_views = items@;
        let it = PersistentPrefixIterator::from_items(items);
        proof {
            let res = it.remaining();
            assert forall|j: int| 0 <= j < res.len() implies #[trigger] res[j] == (
                item_views[j].0@,
                item_views[j].1@,
                item_views[j].2,
            ) && res[j] == (
                f[j].0.skip(stripped@.len() as int),
                f[j].1,
                gas_of(f[j].0.skip(stripped@.len() as int), f[j].1),
            ) by {
                assert((item_views[j].0@, item_views[j].1@, item_views[j].2) == (
                    f[j].0.skip(stripped@.len() as int),
                    f[j].1,
                    gas_of(f[j].0.skip(stripped@.len() as int), f[j].1),
                ));
            }
            assert forall|j: int| 0 <= j < res.len() implies {
                let full = stripped@ + (#[trigger] res[j]).0;
                &&& has_prefix(full, scan@)
                &&& m.contains_key(full)
                &&& m[full] == res[j].1
                &&& res[j].2 == gas_of(res[j].0, res[j].1)
            } by {
                cf.lemma_filter_exact(scan@, f[j].0);
                cf.entry_seq().lemma_filter_pred(prefix_pred(scan@), j);
                lemma_has_prefix_trans(f[j].0, scan@, stripped@);
                lemma_prefix_decompose(f[j].0, stripped@);
                assert(f[j].0 == stripped@ + f[j].0.skip(stripped@.len() as int));
                assert(res[j].0 == f[j].0.skip(stripped@.len() as int));
                assert(exists|x: int|
                    0 <= x < f.len() && (#[trigger] f[x]).0 == f[j].0);
            }
            assert forall|k: Seq<char>|
                m.contains_key(k) && has_prefix(k, scan@) implies exists|x: int|
                0 <= x < res.len() && (#[trigger] res[x]).0 == k.skip(stripped@.len() as int) by {
                cf.lemma_filter_exact(scan@, k);
                let x = choose|x: int| 0 <= x < f.len() && (#[trigger] f[x]).0 == k;
                assert(res[x].0 == k.skip(stripped@.len() as int));
            }
            assert forall|a: int, b: int| 0 <= a < b < res.len() implies lex_lt(
                (#[trigger] res[a]).0,
                (#[trigger] res[b]).0,
            ) by {
                cf.lemma_sorted();
                Cf::lemma_filter_sorted(cf.entry_seq(), prefix_pred(scan@));
                cf.entry_seq().lemma_filter_pred(prefix_pred(scan@), a);
                cf.entry_seq().lemma_filter_pred(prefix_pred(scan@), b);
                assert(lex_lt(f[a].0, f[b].0));
                assert(f[a].0.subrange(0, stripped@.len() as int) == f[b].0.subrange(
                    0,
                    stripped@.len() as int,
                )) by {
                    lemma_has_prefix_trans(f[a].0, scan@, stripped@);
                    lemma_has_prefix_trans(f[b].0, scan@, stripped@);
                }
                lemma_lex_skip(f[a].0, f[b].0, stripped@.len() as int);
            }
        }
        it
    }

    /// Iterates the subspace entries under the given key prefix — all of
    /// them when no prefix is given — in ascending key order. Yielded keys
    /// are the full subspace keys; every live entry under the prefix
    /// appears exactly once.
    pub fn iter_prefix(&self, prefix: Option<&Key>) -> (it: PersistentPrefixIterator)
        requires
            self.wf(),
            prefix matches Some(p) ==> p@.len() > 0,
        ensures
            lists_prefix_scan(
                it.remaining(),
                self@.subspace,
                Seq::empty(),
                match prefix {
                    Some(p) => joined(p@) + "/"@,
                    None => Seq::empty(),
                },
            ),
    {
        let scan: String = match prefix {
            Some(p) => {
                let mut s = p.to_string();
                s.append("/");
                s
            },
            None => String::new(),
        };
        let empty = String::new();
        proof {
            assert(has_prefix(scan@, empty@)) by {
                assert(scan@.subrange(0, 0) =~= Seq::<char>::empty());
            }
        }
        let it = self.iter_prefix_raw(DbColFam::Subspace, empty.as_str(), scan.as_str());
        it
    }

    /// Iterates the block results entries, keys stripped of the
    /// `results/` prefix.
    pub fn iter_results(&self) -> (it: PersistentPrefixIterator)
        requires
            self.wf(),
        ensures
            lists_prefix_scan(it.remaining(), self@.block, "results/"@, "results/"@),
    {
        let scan = "results/";
        proof {
            assert(has_prefix(scan@, scan@)) by {
                assert(scan@.subrange(0, scan@.len() as int) =~= scan@);
            }
        }
        self.iter_prefix_raw(DbColFam::Block, scan, scan)
    }

    /// Iterates the old diffs recorded at `height` in the persistent
    /// diffs, keys stripped of the `<height>/old/` prefix.
    pub fn iter_old_diffs(&self, height: u64) -> (it: PersistentPrefixIterator)
        requires
            self.wf(),
        ensures
            lists_prefix_scan(
                it.remaining(),
                self@.diffs,
                crate::keys::old_diff_pfx(height as nat),
                crate::keys::old_diff_pfx(height as nat),
            ),
    {
        let pfx = old_diff_prefix(height);
        proof {
            assert(has_prefix(pfx@, pfx@)) by {
                assert(pfx@.subrange(0, pfx@.len() as int) =~= pfx@);
            }
        }
        self.iter_prefix_raw(DbColFam::Diffs, pfx.as_str(), pfx.as_str())
    }

    /// Iterates the new diffs recorded at `height` in the persistent
    /// diffs, keys stripped of the `<height>/new/` prefix.
    pub fn iter_new_diffs(&self, height: u64) -> (it: PersistentPrefixIterator)
        requires
            self.wf(),
        ensures
            lists_prefix_scan(
                it.remaining(),
                self@.diffs,
                crate::keys::new_diff_pfx(height as nat),
                crate::keys::new_diff_pfx(height as nat),
            ),
    {
        let pfx = new_diff_prefix(height);
        proof {
            assert(has_prefix(pfx@, pfx@)) by {
                assert(pfx@.subrange(0, pfx@.len() as int) =~= pfx@);
            }
        }
        self.iter_prefix_raw(DbColFam::Diffs, pfx.as_str(), pfx.as_str())
    }

    /// Iterates the old or new diffs of `height` in the one-block rollback
    /// family, keys stripped of their height-and-kind prefix.
    pub fn iter_rollback_diffs(&self, height: u64, is_old: bool) -> (it: PersistentPrefixIterator)
        requires
            self.wf(),
        ensures
            lists_prefix_scan(
                it.remaining(),
                self@.rollback,
                if is_old {
                    crate::keys::old_diff_pfx(height as nat)
                } else {
                    crate::keys::new_diff_pfx(height as nat)
                },
                if is_old {
                    crate::keys::old_diff_pfx(height as nat)
                } else {
                    crate::keys::new_diff_pfx(height as nat)
                },
            ),
    {
        let pfx = if is_old {
            old_diff_prefix(height)
        } else {
            new_diff_prefix(height)
        };
        proof {
            assert(has_prefix(pfx@, pfx@)) by {
                assert(pfx@.subrange(0, pfx@.len() as int) =~= pfx@);
            }
        }
        self.iter_prefix_raw(DbColFam::Rollback, pfx.as_str(), pfx.as_str())
    }

    /// Iterates the hashes of the `last` replay-protection bucket.
    pub fn iter_replay_protection(&self) -> (it: PersistentPrefixIterator)
        requires
            self.wf(),
        ensures
            lists_prefix_scan(it.remaining(), self@.replay_prot, "last/"@, "last/"@),
    {
        let scan = "last/";
        proof {
            assert(has_prefix(scan@, scan@)) by {
                assert(scan@.subrange(0, scan@.len() as int) =~= scan@);
            }
        }
        self.iter_prefix_raw(DbColFam::ReplayProt, scan, scan)
    }

    /// Iterates the hashes of the `buffer` replay-protection bucket.
    pub fn iter_replay_protection_buffer(&self) -> (it: PersistentPrefixIterator)
        requires
            self.wf(),
        ensures
            lists_prefix_scan(it.remaining(), self@.replay_prot, "buffer/"@, "buffer/"@),
    {
        let scan = "buffer/";
        proof {
            assert(has_prefix(scan@, scan@)) by {
                assert(scan@.subrange(0, scan@.len() as int) =~= scan@);
            }
        }
        self.iter_prefix_raw(DbColFam::ReplayProt, scan, scan)
    }
}

} // verus!
