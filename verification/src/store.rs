use vstd::prelude::*;
use crate::strings::{lex_lt, has_prefix, lemma_lex_asym, lemma_lex_trans, lemma_lex_trichotomy, str_cmp, str_eq, str_has_prefix};

verus! {

/// The value under `k` in `m`, if any.
pub open spec fn map_get(m: Map<Seq<char>, Seq<u8>>, k: Seq<char>) -> Option<Seq<u8>> {
    if m.contains_key(k) {
        Some(m[k])
    } else {
        None
    }
}

/// The map holding the key/value pairs of `s`, later pairs overriding
/// earlier ones.
pub open spec fn seq_to_map(s: Seq<(Seq<char>, Seq<u8>)>) -> Map<Seq<char>, Seq<u8>>
    decreases s.len(),
{
    if s.len() == 0 {
        Map::empty()
    } else {
        seq_to_map(s.drop_last()).insert(s.last().0, s.last().1)
    }
}

/// No two pairs of `s` share a key.
pub open spec fn distinct_keys(s: Seq<(Seq<char>, Seq<u8>)>) -> bool {
    forall|i: int, j: int| 0 <= i < j < s.len() ==> (#[trigger] s[i]).0 != (#[trigger] s[j]).0
}

pub proof fn lemma_seq_to_map_contains(s: Seq<(Seq<char>, Seq<u8>)>, k: Seq<char>)
    ensures
        seq_to_map(s).contains_key(k) == exists|i: int|
            0 <= i < s.len() && (#[trigger] s[i]).0 == k,
    decreases s.len(),
{
    if s.len() > 0 {
        lemma_seq_to_map_contains(s.drop_last(), k);
        if seq_to_map(s).contains_key(k) {
            if s.last().0 == k {
                assert(s[s.len() - 1].0 == k);
            } else {
                let i = choose|i: int| 0 <= i < s.drop_last().len() && (#[trigger] s.drop_last()[i]).0 == k;
                assert(s[i].0 == k);
            }
        }
        if exists|i: int| 0 <= i < s.len() && (#[trigger] s[i]).0 == k {
            let i = choose|i: int| 0 <= i < s.len() && (#[trigger] s[i]).0 == k;
            if i < s.len() - 1 {
                assert(s.drop_last()[i].0 == k);
            }
        }
    }
}

pub proof fn lemma_seq_to_map_at(s: Seq<(Seq<char>, Seq<u8>)>, i: int)
    requires
        distinct_keys(s),
        0 <= i < s.len(),
    ensures
        seq_to_map(s).contains_key(s[i].0),
        seq_to_map(s)[s[i].0] == s[i].1,
    decreases s.len(),
{
    if i == s.len() - 1 {
        assert(s.last() == s[i]);
    } else {
        assert(distinct_keys(s.drop_last())) by {
            assert(forall|a: int, b: int|
                0 <= a < b < s.drop_last().len() ==> (#[trigger] s.drop_last()[a]).0 != (
                #[trigger] s.drop_last()[b]).0) by {
                assert(forall|a: int|
                    0 <= a < s.drop_last().len() ==> #[trigger] s.drop_last()[a] == s[a]);
            }
        }
        assert(s.drop_last()[i] == s[i]);
        lemma_seq_to_map_at(s.drop_last(), i);
        assert(s[i].0 != s.last().0) by {
            assert(s.last() == s[s.len() - 1]);
        }
    }
}

/// Copies a byte vector.
pub fn clone_bytes(v: &Vec<u8>) -> (r: Vec<u8>)
    ensures
        r@ == v@,
{
    let mut r: Vec<u8> = Vec::new();
    let n = v.len();
    let mut i: usize = 0;
    while i < n
        invariant
            i <= n,
            n == v.len(),
            r@ == v@.take(i as int),
        decreases n - i,
    {
        r.push(v[i]);
        proof {
            assert(v@.take(i + 1) =~= v@.take(i as int).push(v@[i as int]));
        }
        i = i + 1;
    }
    proof {
        assert(v@.take(n as int) =~= v@);
    }
    r
}

/// Copies a byte slice into a fresh vector.
pub fn slice_to_vec(v: &[u8]) -> (r: Vec<u8>)
    ensures
        r@ == v@,
{
    let mut r: Vec<u8> = Vec::new();
    let n = v.len();
    let mut i: usize = 0;
    while i < n
        invariant
            i <= n,
            n == v@.len(),
            r@ == v@.take(i as int),
        decreases n - i,
    {
        r.push(*vstd::slice::slice_index_get(v, i));
        proof {
            assert(v@.take(i + 1) =~= v@.take(i as int).push(v@[i as int]));
        }
        i = i + 1;
    }
    proof {
        assert(v@.take(n as int) =~= v@);
    }
    r
}

/// The predicate selecting entries whose key begins with `p`.
pub open spec fn prefix_pred(p: Seq<char>) -> spec_fn((Seq<char>, Seq<u8>)) -> bool {
    |kv: (Seq<char>, Seq<u8>)| has_prefix(kv.0, p)
}

/// One column family: an ordered association of string keys to byte values,
/// kept sorted by key so that prefix scans run in key order.
pub struct Cf {
    entries: Vec<(String, Vec<u8>)>,
}

impl Cf {
    /// Keys are strictly increasing, hence unique.
    pub closed spec fn wf(self) -> bool {
        forall|i: int, j: int|
            0 <= i < j < self.entries.len() ==> lex_lt(
                (#[trigger] self.entries[i]).0@,
                (#[trigger] self.entries[j]).0@,
            )
    }

    /// The entries as a sequence of key/value views, in key order.
    pub closed spec fn entry_seq(self) -> Seq<(Seq<char>, Seq<u8>)> {
        Seq::new(self.entries.len() as nat, |i: int| (self.entries[i].0@, self.entries[i].1@))
    }

    /// The contents as a map from key to value.
    pub open spec fn as_map(self) -> Map<Seq<char>, Seq<u8>> {
        seq_to_map(self.entry_seq())
    }

    pub open spec fn contains(self, k: Seq<char>) -> bool {
        self.as_map().contains_key(k)
    }

    /// The entry sequence of a well-formed column family is strictly
    /// sorted by key.
    pub proof fn lemma_sorted(self)
        requires
            self.wf(),
        ensures
            forall|i: int, j: int|
                0 <= i < j < self.entry_seq().len() ==> lex_lt(
                    (#[trigger] self.entry_seq()[i]).0,
                    (#[trigger] self.entry_seq()[j]).0,
                ),
    {
    }

    /// Entries are sorted strictly, so their keys are distinct.
    pub proof fn lemma_distinct(self)
        requires
            self.wf(),
        ensures
            distinct_keys(self.entry_seq()),
    {
        assert forall|i: int, j: int|
            0 <= i < j < self.entry_seq().len() implies (#[trigger] self.entry_seq()[i]).0 != (
        #[trigger] self.entry_seq()[j]).0 by {
            lemma_lex_asym(self.entries[i].0@, self.entries[j].0@);
        }
    }

    /// The map agrees with the entry at any position.
    pub proof fn lemma_at(self, i: int)
        requires
            self.wf(),
            0 <= i < self.entry_seq().len(),
        ensures
            self.as_map().contains_key(self.entry_seq()[i].0),
            self.as_map()[self.entry_seq()[i].0] == self.entry_seq()[i].1,
    {
        self.lemma_distinct();
        lemma_seq_to_map_at(self.entry_seq(), i);
    }

    /// A key is in the map exactly when some entry holds it.
    pub proof fn lemma_contains(self, k: Seq<char>)
        ensures
            self.as_map().contains_key(k) == exists|i: int|
                0 <= i < self.entry_seq().len() && (#[trigger] self.entry_seq()[i]).0 == k,
    {
        lemma_seq_to_map_contains(self.entry_seq(), k);
    }

    /// An empty column family.
    pub fn new() -> (cf: Cf)
        ensures
            cf.wf(),
            cf.as_map() == Map::<Seq<char>, Seq<u8>>::empty(),
            cf.entry_seq() == Seq::<(Seq<char>, Seq<u8>)>::empty(),
    {
        let cf = Cf { entries: Vec::new() };
        proof {
            assert(cf.entry_seq() =~= Seq::<(Seq<char>, Seq<u8>)>::empty());
        }
        cf
    }

    /// The position of the first entry whose key is not below `key`.
    fn position(&self, key: &str) -> (p: usize)
        requires
            self.wf(),
        ensures
            p <= self.entries@.len(),
            forall|i: int| 0 <= i < p ==> lex_lt((#[trigger] self.entries[i]).0@, key@),
            p < self.entries@.len() ==> !lex_lt(self.entries[p as int].0@, key@),
    {
        let n = self.entries.len();
        let mut p: usize = 0;
        while p < n
            invariant
                p <= n,
                n == self.entries@.len(),
                self.wf(),
                forall|i: int| 0 <= i < p ==> lex_lt((#[trigger] self.entries[i]).0@, key@),
            decreases n - p,
        {
            let c = str_cmp(self.entries[p].0.as_str(), key);
            if c != -1 {
                return p;
            }
            p = p + 1;
        }
        p
    }

    /// No entry holds `key` when the entry at the insertion position does not.
    proof fn lemma_absent(self, key: Seq<char>, p: int)
        requires
            self.wf(),
            0 <= p <= self.entries@.len(),
            forall|i: int| 0 <= i < p ==> lex_lt((#[trigger] self.entries[i]).0@, key),
            p < self.entries@.len() ==> !lex_lt(self.entries[p].0@, key),
            p < self.entries@.len() ==> self.entries[p].0@ != key,
        ensures
            !self.as_map().contains_key(key),
    {
        assert forall|i: int| 0 <= i < self.entries@.len() implies (#[trigger] self.entries[i]).0@
            != key by {
            if i < p {
                lemma_lex_asym(self.entries[i].0@, key);
            } else if p < self.entries@.len() {
                lemma_lex_trichotomy(self.entries[p].0@, key);
                if i > p {
                    lemma_lex_trans(key, self.entries[p].0@, self.entries[i].0@);
                    lemma_lex_asym(key, self.entries[i].0@);
                } else {
                    lemma_lex_asym(key, self.entries[p].0@);
                }
            }
        }
        self.lemma_contains(key);
        assert forall|i: int|
            0 <= i < self.entry_seq().len() implies (#[trigger] self.entry_seq()[i]).0 != key by {
            assert(self.entry_seq()[i].0 == self.entries[i].0@);
        }
    }

    /// Reads the value under `key`.
    pub fn get(&self, key: &str) -> (r: Option<Vec<u8>>)
        requires
            self.wf(),
        ensures
            r.deep_view() == map_get(self.as_map(), key@),
    {
        let p = self.position(key);
        if p < self.entries.len() && str_eq(self.entries[p].0.as_str(), key) {
            proof {
                self.lemma_at(p as int);
            }
            Some(clone_bytes(&self.entries[p].1))
        } else {
            proof {
                self.lemma_absent(key@, p as int);
            }
            None
        }
    }

    /// Inserts or replaces the value under `key`.
    #[verifier::rlimit(50)]
    pub fn insert(&mut self, key: &str, value: Vec<u8>)
        requires
            old(self).wf(),
        ensures
            final(self).wf(),
            final(self).as_map() == old(self).as_map().insert(key@, value@),
    {
        let ghost old_self = *old(self);
        let ghost v_at = value@;
        let p = self.position(key);
        let replace = p < self.entries.len() && str_eq(self.entries[p].0.as_str(), key);
        if replace {
            self.entries.remove(p);
            proof {
                old_self.entries@.remove_ensures(p as int);
                assert forall|i: int, j: int|
                    0 <= i < j < self.entries@.len() implies lex_lt(
                    (#[trigger] self.entries[i]).0@,
                    (#[trigger] self.entries[j]).0@,
                ) by {
                    assert(self.entries[i] == if i < p {
                        old_self.entries[i]
                    } else {
                        old_self.entries[i + 1]
                    });
                    assert(self.entries[j] == if j < p {
                        old_self.entries[j]
                    } else {
                        old_self.entries[j + 1]
                    });
                }
            }
        }
        let ghost mid_self = *self;
        let ghost q = p as int;
        self.entries.insert(p, (key.to_owned(), value));
        proof {
            mid_self.entries@.insert_ensures(q, (self.entries[q].0, self.entries[q].1));
            assert(self.entries[q].0@ == key@ && self.entries[q].1@ == v_at);
            // the entry at q is fresh in mid_self, and mid_self is sorted around q
            assert forall|i: int| 0 <= i < q implies lex_lt(
                (#[trigger] mid_self.entries[i]).0@,
                key@,
            ) by {
                if replace {
                    assert(mid_self.entries[i] == old_self.entries[i]);
                }
            }
            assert forall|i: int| q <= i < mid_self.entries@.len() implies (!lex_lt(
                (#[trigger] mid_self.entries[i]).0@,
                key@,
            ) && mid_self.entries[i].0@ != key@) by {
                if replace {
                    assert(mid_self.entries[i] == old_self.entries[i + 1]);
                    assert(lex_lt(old_self.entries[q].0@, old_self.entries[i + 1].0@));
                    assert(old_self.entries[q].0@ == key@);
                    lemma_lex_asym(key@, mid_self.entries[i].0@);
                } else {
                    if i == q {
                        lemma_lex_trichotomy(mid_self.entries[q].0@, key@);
                    } else {
                        assert(!lex_lt(mid_self.entries[q].0@, key@));
                        lemma_lex_trichotomy(mid_self.entries[q].0@, key@);
                        if mid_self.entries[q].0@ == key@ {
                            assert(false);
                        }
                        lemma_lex_trans(key@, mid_self.entries[q].0@, mid_self.entries[i].0@);
                        lemma_lex_asym(key@, mid_self.entries[i].0@);
                    }
                }
            }
            // sortedness of the result
            assert forall|i: int, j: int|
                0 <= i < j < self.entries@.len() implies lex_lt(
                (#[trigger] self.entries[i]).0@,
                (#[trigger] self.entries[j]).0@,
            ) by {
                if j < q {
                    assert(self.entries[i] == mid_self.entries[i]);
                    assert(self.entries[j] == mid_self.entries[j]);
                } else if j == q {
                    assert(self.entries[i] == mid_self.entries[i]);
                } else {
                    assert(self.entries[j] == mid_self.entries[j - 1]);
                    if i < q {
                        assert(self.entries[i] == mid_self.entries[i]);
                        lemma_lex_trichotomy(key@, mid_self.entries[j - 1].0@);
                        if lex_lt(mid_self.entries[j - 1].0@, key@) || mid_self.entries[j - 1].0@
                            == key@ {
                            assert(false);
                        }
                        lemma_lex_trans(self.entries[i].0@, key@, self.entries[j].0@);
                    } else if i == q {
                        lemma_lex_trichotomy(key@, mid_self.entries[j - 1].0@);
                        if lex_lt(mid_self.entries[j - 1].0@, key@) || mid_self.entries[j - 1].0@
                            == key@ {
                            assert(false);
                        }
                    } else {
                        assert(self.entries[i] == mid_self.entries[i - 1]);
                    }
                }
            }
            // the map of the result
            let m1 = self.as_map();
            let m2 = old_self.as_map().insert(key@, v_at);
            assert forall|x: Seq<char>| #[trigger] m1.contains_key(x) implies m2.contains_key(x)
                && m1[x] == m2[x] by {
                self.lemma_contains(x);
                let i = choose|i: int|
                    0 <= i < self.entry_seq().len() && (#[trigger] self.entry_seq()[i]).0 == x;
                self.lemma_at(i);
                if i == q {
                    assert(x == key@ && m1[x] == v_at);
                } else {
                    let i0 = if i < q {
                        i
                    } else {
                        i - 1
                    };
                    let j0 = if replace {
                        if i0 < q {
                            i0
                        } else {
                            i0 + 1
                        }
                    } else {
                        i0
                    };
                    assert(self.entries[i] == mid_self.entries[i0]);
                    assert(mid_self.entries[i0] == old_self.entries[j0]);
                    old_self.lemma_at(j0);
                    assert(x != key@) by {
                        if i < q {
                            lemma_lex_asym(x, key@);
                        }
                    }
                }
            }
            assert forall|x: Seq<char>| #[trigger] m2.contains_key(x) implies m1.contains_key(
                x,
            ) by {
                if x == key@ {
                    self.lemma_at(q);
                } else {
                    old_self.lemma_contains(x);
                    let j0 = choose|i: int|
                        0 <= i < old_self.entry_seq().len() && (#[trigger] old_self.entry_seq()[
                        i]).0 == x;
                    let i0 = if replace {
                        if j0 < q {
                            j0
                        } else {
                            j0 - 1
                        }
                    } else {
                        j0
                    };
                    if replace && j0 == q {
                        assert(old_self.entries[q].0@ == key@);
                        assert(false);
                    }
                    let i = if i0 < q {
                        i0
                    } else {
                        i0 + 1
                    };
                    assert(old_self.entries[j0] == mid_self.entries[i0]);
                    assert(mid_self.entries[i0] == self.entries[i]);
                    self.lemma_at(i);
                }
            }
            assert forall|x: Seq<char>| #[trigger] m1.dom().contains(x) implies m2.dom().contains(
                x,
            ) && m1[x] == m2[x] by {
                assert(m1.contains_key(x));
                assert(m2.contains_key(x));
            }
            assert forall|x: Seq<char>| #[trigger] m2.dom().contains(x) implies m1.dom().contains(
                x,
            ) by {
                assert(m2.contains_key(x));
                assert(m1.contains_key(x));
            }
            assert(m1.dom() =~= m2.dom());
            assert(m1 =~= m2);
        }
    }

    /// Deletes the entry under `key`, if present.
    pub fn delete(&mut self, key: &str)
        requires
            old(self).wf(),
        ensures
            final(self).wf(),
            final(self).as_map() == old(self).as_map().remove(key@),
    {
        let ghost old_self = *old(self);
        let p = self.position(key);
        if p < self.entries.len() && str_eq(self.entries[p].0.as_str(), key) {
            self.entries.remove(p);
            proof {
                old_self.entries@.remove_ensures(p as int);
                assert(old_self.entries[p as int].0@ == key@);
                assert forall|i: int, j: int|
                    0 <= i < j < self.entries@.len() implies lex_lt(
                    (#[trigger] self.entries[i]).0@,
                    (#[trigger] self.entries[j]).0@,
                ) by {
                    assert(self.entries[i] == if i < p {
                        old_self.entries[i]
                    } else {
                        old_self.entries[i + 1]
                    });
                    assert(self.entries[j] == if j < p {
                        old_self.entries[j]
                    } else {
                        old_self.entries[j + 1]
                    });
                }
                let m1 = self.as_map();
                let m2 = old_self.as_map().remove(key@);
                assert forall|x: Seq<char>| #[trigger] m1.contains_key(x) implies m2.contains_key(
                    x,
                ) && m1[x] == m2[x] by {
                    self.lemma_contains(x);
                    let i = choose|i: int|
                        0 <= i < self.entry_seq().len() && (#[trigger] self.entry_seq()[i]).0 == x;
                    self.lemma_at(i);
                    let j0 = if i < p {
                        i
                    } else {
                        i + 1
                    };
                    assert(self.entries[i] == old_self.entries[j0]);
                    old_self.lemma_at(j0);
                    old_self.lemma_unique(j0, p as int);
                }
                assert forall|x: Seq<char>| #[trigger] m2.contains_key(x) implies m1.contains_key(
                x,
            ) by {
                    old_self.lemma_contains(x);
                    let j0 = choose|i: int|
                        0 <= i < old_self.entry_seq().len() && (#[trigger] old_self.entry_seq()[
                        i]).0 == x;
                    old_self.lemma_unique(j0, p as int);
                    let i = if j0 < p {
                        j0
                    } else {
                        j0 - 1
                    };
                    assert(self.entries[i] == old_self.entries[j0]);
                    self.lemma_at(i);
                }
                assert forall|x: Seq<char>| #[trigger] m1.dom().contains(x) implies m2.dom()
                    .contains(x) && m1[x] == m2[x] by {
                    assert(m1.contains_key(x));
                    assert(m2.contains_key(x));
                }
                assert forall|x: Seq<char>| #[trigger] m2.dom().contains(x) implies m1.dom()
                    .contains(x) by {
                    assert(m2.contains_key(x));
                    assert(m1.contains_key(x));
                }
                assert(m1.dom() =~= m2.dom());
                assert(m1 =~= m2);
            }
        } else {
            proof {
                self.lemma_absent(key@, p as int);
                assert(self.as_map() =~= old_self.as_map().remove(key@));
            }
        }
    }

    /// Distinct positions hold distinct keys.
    proof fn lemma_unique(self, i: int, j: int)
        requires
            self.wf(),
            0 <= i < self.entries@.len(),
            0 <= j < self.entries@.len(),
            i != j,
        ensures
            self.entries[i].0@ != self.entries[j].0@,
    {
        if i < j {
            lemma_lex_asym(self.entries[i].0@, self.entries[j].0@);
        } else {
            lemma_lex_asym(self.entries[j].0@, self.entries[i].0@);
        }
    }

    /// Every element of a filtered entry sequence is one of the entries.
    pub proof fn lemma_filter_subset(
        s: Seq<(Seq<char>, Seq<u8>)>,
        pred: spec_fn((Seq<char>, Seq<u8>)) -> bool,
        i: int,
    )
        requires
            0 <= i < s.filter(pred).len(),
        ensures
            exists|j: int| 0 <= j < s.len() && #[trigger] s[j] == s.filter(pred)[i],
        decreases s.len(),
    {
        reveal(Seq::filter);
        if s.len() > 0 {
            let f = s.filter(pred);
            let fp = s.drop_last().filter(pred);
            if pred(s.last()) && i == f.len() - 1 {
                assert(s[s.len() - 1] == f[i]);
            } else {
                Cf::lemma_filter_subset(s.drop_last(), pred, i);
                let j = choose|j: int|
                    0 <= j < s.drop_last().len() && #[trigger] s.drop_last()[j] == fp[i];
                assert(s[j] == f[i]);
            }
        }
    }

    /// Filtering keeps the strict key order of the entries.
    pub proof fn lemma_filter_sorted(
        s: Seq<(Seq<char>, Seq<u8>)>,
        pred: spec_fn((Seq<char>, Seq<u8>)) -> bool,
    )
        requires
            forall|i: int, j: int|
                0 <= i < j < s.len() ==> lex_lt((#[trigger] s[i]).0, (#[trigger] s[j]).0),
        ensures
            forall|i: int, j: int|
                0 <= i < j < s.filter(pred).len() ==> lex_lt(
                    (#[trigger] s.filter(pred)[i]).0,
                    (#[trigger] s.filter(pred)[j]).0,
                ),
        decreases s.len(),
    {
        reveal(Seq::filter);
        if s.len() > 0 {
            let f = s.filter(pred);
            let prev = s.drop_last();
            let fp = prev.filter(pred);
            assert(forall|i: int, j: int|
                0 <= i < j < prev.len() ==> lex_lt(
                    (#[trigger] prev[i]).0,
                    (#[trigger] prev[j]).0,
                )) by {
                assert(forall|i: int| 0 <= i < prev.len() ==> #[trigger] prev[i] == s[i]);
            }
            Cf::lemma_filter_sorted(prev, pred);
            assert forall|i: int, j: int| 0 <= i < j < f.len() implies lex_lt(
                (#[trigger] f[i]).0,
                (#[trigger] f[j]).0,
            ) by {
                if pred(s.last()) && j == f.len() - 1 && f.len() == fp.len() + 1 {
                    Cf::lemma_filter_subset(prev, pred, i);
                    let j0 = choose|j0: int|
                        0 <= j0 < prev.len() && #[trigger] prev[j0] == fp[i];
                    assert(s[j0] == f[i]);
                    assert(f[j] == s[s.len() - 1]);
                    assert(lex_lt(s[j0].0, s[s.len() - 1].0));
                }
            }
        }
    }

    /// A key appears among the entries with a prefix exactly when the map
    /// holds it and it begins with the prefix.
    pub proof fn lemma_filter_exact(self, p: Seq<char>, k: Seq<char>)
        requires
            self.wf(),
        ensures
            (exists|i: int|
                0 <= i < self.entry_seq().filter(prefix_pred(p)).len() && (
                #[trigger] self.entry_seq().filter(prefix_pred(p))[i]).0 == k) <==> (
            self.as_map().contains_key(k) && has_prefix(k, p)),
            forall|i: int|
                0 <= i < self.entry_seq().filter(prefix_pred(p)).len() ==> {
                    let kv = #[trigger] self.entry_seq().filter(prefix_pred(p))[i];
                    self.as_map().contains_key(kv.0) && self.as_map()[kv.0] == kv.1 && has_prefix(
                        kv.0,
                        p,
                    )
                },
    {
        let pred = prefix_pred(p);
        let f = self.entry_seq().filter(pred);
        self.lemma_contains(k);
        assert forall|i: int| 0 <= i < f.len() implies {
            let kv = #[trigger] f[i];
            self.as_map().contains_key(kv.0) && self.as_map()[kv.0] == kv.1 && has_prefix(kv.0, p)
        } by {
            Cf::lemma_filter_subset(self.entry_seq(), pred, i);
            let j = choose|j: int|
                0 <= j < self.entry_seq().len() && #[trigger] self.entry_seq()[j] == f[i];
            self.lemma_at(j);
            self.entry_seq().lemma_filter_pred(pred, i);
        }
        if self.as_map().contains_key(k) && has_prefix(k, p) {
            let j = choose|j: int|
                0 <= j < self.entry_seq().len() && (#[trigger] self.entry_seq()[j]).0 == k;
            assert(pred(self.entry_seq()[j]));
            self.entry_seq().lemma_filter_contains(pred, j);
            assert(f.contains(self.entry_seq()[j]));
            let i = choose|i: int| 0 <= i < f.len() && f[i] == self.entry_seq()[j];
            assert(f[i].0 == k);
        }
    }

    /// All entries whose key begins with `prefix`, in key order.
    pub fn prefix_entries(&self, prefix: &str) -> (out: Vec<(String, Vec<u8>)>)
        requires
            self.wf(),
        ensures
            out@.len() == self.entry_seq().filter(prefix_pred(prefix@)).len(),
            forall|i: int|
                0 <= i < out@.len() ==> ((#[trigger] out@[i]).0@, out@[i].1@)
                    == self.entry_seq().filter(prefix_pred(prefix@))[i],
    {
        let ghost pred = prefix_pred(prefix@);
        let mut out: Vec<(String, Vec<u8>)> = Vec::new();
        let n = self.entries.len();
        let mut idx: usize = 0;
        proof {
            reveal(Seq::filter);
            assert(self.entry_seq().take(0) =~= Seq::<(Seq<char>, Seq<u8>)>::empty());
        }
        while idx < n
            invariant
                idx <= n,
                n == self.entries@.len(),
                self.wf(),
                out@.len() == self.entry_seq().take(idx as int).filter(pred).len(),
                forall|i: int|
                    0 <= i < out@.len() ==> ((#[trigger] out@[i]).0@, out@[i].1@)
                        == self.entry_seq().take(idx as int).filter(pred)[i],
                pred == prefix_pred(prefix@),
            decreases n - idx,
        {
            let ghost prev = self.entry_seq().take(idx as int);
            let ghost cur = self.entry_seq().take(idx + 1);
            proof {
                reveal(Seq::filter);
                assert(cur.len() == idx + 1);
                assert(cur.drop_last() =~= prev);
                assert(cur.last() == self.entry_seq()[idx as int]);
                assert(self.entry_seq()[idx as int] == (
                    self.entries[idx as int].0@,
                    self.entries[idx as int].1@,
                ));
                assert(cur.filter(pred) == if pred(cur.last()) {
                    prev.filter(pred).push(cur.last())
                } else {
                    prev.filter(pred)
                });
            }
            if str_has_prefix(self.entries[idx].0.as_str(), prefix) {
                let k = self.entries[idx].0.clone();
                let v = clone_bytes(&self.entries[idx].1);
                proof {
                    assert(pred(cur.last()));
                }
                out.push((k, v));
                proof {
                    assert forall|i: int|
                        0 <= i < out@.len() implies ((#[trigger] out@[i]).0@, out@[i].1@)
                            == cur.filter(pred)[i] by {
                        if i < out@.len() - 1 {
                            assert(out@[i] == out@.subrange(0, out@.len() - 1)[i]);
                        }
                    }
                }
            } else {
                proof {
                    assert(!pred(cur.last()));
                }
            }
            idx = idx + 1;
        }
        proof {
            assert(self.entry_seq().take(n as int) =~= self.entry_seq());
        }
        out
    }
}

} // verus!
