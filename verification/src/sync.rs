use vstd::prelude::*;

verus! {

// Two small caches accompany the engine in the client's shielded-sync
// layer: one of fetched-but-unscanned transactions keyed by the block
// position they were included at, and one of already decrypted notes.
// Both are modelled here over plain values: a transaction is an opaque
// byte blob, a position is a height and an index.

/// Whether some entry of `s` sits at the given position.
pub open spec fn has_position(s: Seq<(u64, u64, Seq<u8>)>, height: u64, index: u64) -> bool {
    exists|i: int| 0 <= i < s.len() && ((#[trigger] s[i]).0, s[i].1) == (height, index)
}

/// A cache of fetched transactions not yet scanned, keyed by the height
/// and intra-block index they were included at.
pub struct Unscanned {
    txs: Vec<(u64, u64, Vec<u8>)>,
}

impl Unscanned {
    /// The cached entries: position and transaction bytes.
    pub closed spec fn view_seq(self) -> Seq<(u64, u64, Seq<u8>)> {
        Seq::new(
            self.txs.len() as nat,
            |i: int| (self.txs[i].0, self.txs[i].1, self.txs[i].2@),
        )
    }

    /// No two entries share a position.
    pub closed spec fn wf(self) -> bool {
        forall|i: int, j: int|
            0 <= i < j < self.txs.len() ==> ((#[trigger] self.txs[i]).0, self.txs[i].1) != ((
            #[trigger] self.txs[j]).0, self.txs[j].1)
    }

    /// An empty cache.
    pub fn new() -> (c: Unscanned)
        ensures
            c.wf(),
            c.view_seq() == Seq::<(u64, u64, Seq<u8>)>::empty(),
    {
        let c = Unscanned { txs: Vec::new() };
        proof {
            assert(c.view_seq() =~= Seq::<(u64, u64, Seq<u8>)>::empty());
        }
        c
    }

    /// Adds one entry; an entry already cached at the same position is
    /// replaced.
    pub fn insert(&mut self, height: u64, index: u64, tx: Vec<u8>)
        requires
            old(self).wf(),
        ensures
            final(self).wf(),
            // the new entry is cached
            exists|i: int|
                0 <= i < final(self).view_seq().len() && #[trigger] final(self).view_seq()[i] == (
                height, index, tx@),
            // every other entry was cached before
            forall|i: int|
                #![trigger final(self).view_seq()[i]]
                0 <= i < final(self).view_seq().len() && (final(self).view_seq()[i].0,
                final(self).view_seq()[i].1) != (height, index) ==> exists|j: int|
                    0 <= j < old(self).view_seq().len() && #[trigger] old(self).view_seq()[j]
                        == final(self).view_seq()[i],
            // and every entry cached before at another position stays
            forall|j: int|
                #![trigger old(self).view_seq()[j]]
                0 <= j < old(self).view_seq().len() && (old(self).view_seq()[j].0,
                old(self).view_seq()[j].1) != (height, index) ==> exists|i: int|
                    0 <= i < final(self).view_seq().len() && #[trigger] final(self).view_seq()[i]
                        == old(self).view_seq()[j],
    {
        let ghost old_self = *old(self);
        proof {
            assert(old(self).view_seq() == old_self.view_seq());
        }
        let n = self.txs.len();
        let mut i: usize = 0;
        while i < n
            invariant
                i <= n,
                n == self.txs@.len(),
                *self == old_self,
                old_self == *old(self),
                old(self).view_seq() == old_self.view_seq(),
                self.wf(),
                forall|j: int|
                    0 <= j < i ==> ((#[trigger] self.txs@[j]).0, self.txs@[j].1) != (
                    height, index),
            decreases n - i,
        {
            if self.txs[i].0 == height && self.txs[i].1 == index {
                let ghost p = i as int;
                self.txs.remove(i);
                self.txs.insert(i, (height, index, tx));
                proof {
                    old_self.txs@.remove_ensures(p);
                    assert(forall|j: int|
                        0 <= j < self.txs@.len() && j != p ==> #[trigger] self.txs@[j]
                            == old_self.txs@[j]);
                    assert(self.view_seq()[p] == (height, index, tx@));
                    assert forall|i2: int|
                        #![trigger self.view_seq()[i2]]
                        0 <= i2 < self.view_seq().len() && (self.view_seq()[i2].0,
                        self.view_seq()[i2].1) != (height, index) implies exists|j: int|
                        0 <= j < old(self).view_seq().len() && #[trigger] old(self).view_seq()[j]
                            == self.view_seq()[i2] by {
                        assert(i2 != p);
                        assert(self.txs@[i2] == old_self.txs@[i2]);
                        assert(old_self.view_seq()[i2] == self.view_seq()[i2]);
                        assert(old(self).view_seq()[i2] == self.view_seq()[i2]);
                    }
                    assert forall|j: int|
                        #![trigger old(self).view_seq()[j]]
                        0 <= j < old(self).view_seq().len() && (old(self).view_seq()[j].0,
                        old(self).view_seq()[j].1) != (height, index) implies exists|i2: int|
                        0 <= i2 < self.view_seq().len() && #[trigger] self.view_seq()[i2]
                            == old(self).view_seq()[j] by {
                        assert((old_self.view_seq()[p].0, old_self.view_seq()[p].1) == (
                            height,
                            index,
                        ));
                        assert(j != p);
                        assert(self.txs@[j] == old_self.txs@[j]);
                        assert(self.view_seq()[j] == old(self).view_seq()[j]);
                    }
                }
                return ;
            }
            i = i + 1;
        }
        self.txs.push((height, index, tx));
        proof {
            assert(old(self).view_seq() == old_self.view_seq());
            let m = old_self.view_seq().len() as int;
            assert(self.view_seq().len() == m + 1);
            assert(forall|j: int|
                0 <= j < m ==> #[trigger] self.view_seq()[j] == old_self.view_seq()[j]);
            assert(self.view_seq()[m] == (height, index, tx@));
            assert forall|i2: int|
                #![trigger self.view_seq()[i2]]
                0 <= i2 < self.view_seq().len() && (self.view_seq()[i2].0,
                self.view_seq()[i2].1) != (height, index) implies exists|j: int|
                0 <= j < old(self).view_seq().len() && #[trigger] old(self).view_seq()[j]
                    == self.view_seq()[i2] by {
                assert(i2 != m);
                assert(old_self.view_seq()[i2] == self.view_seq()[i2]);
                assert(old(self).view_seq()[i2] == self.view_seq()[i2]);
            }
            assert forall|j: int|
                #![trigger old(self).view_seq()[j]]
                0 <= j < old(self).view_seq().len() && (old(self).view_seq()[j].0,
                old(self).view_seq()[j].1) != (height, index) implies exists|i2: int|
                0 <= i2 < self.view_seq().len() && #[trigger] self.view_seq()[i2]
                    == old(self).view_seq()[j] by {
                assert(self.view_seq()[j] == old(self).view_seq()[j]);
            }
        }
    }

    /// Adds a batch of fetched entries, later ones replacing earlier
    /// ones at the same position.
    pub fn extend(&mut self, items: Vec<(u64, u64, Vec<u8>)>)
        requires
            old(self).wf(),
        ensures
            final(self).wf(),
            // every handed-in position is cached afterwards
            forall|j: int|
                #![trigger items@[j]]
                0 <= j < items@.len() ==> has_position(
                    final(self).view_seq(),
                    items@[j].0,
                    items@[j].1,
                ),
    {
        let n = items.len();
        let mut i: usize = 0;
        while i < n
            invariant
                i <= n,
                n == items@.len(),
                self.wf(),
                forall|j: int|
                    #![trigger items@[j]]
                    0 <= j < i ==> has_position(self.view_seq(), items@[j].0, items@[j].1),
            decreases n - i,
        {
            let ghost pre = self.view_seq();
            let h = items[i].0;
            let x = items[i].1;
            let tx = crate::store::clone_bytes(&items[i].2);
            self.insert(h, x, tx);
            proof {
                let e = choose|e: int|
                    0 <= e < self.view_seq().len() && #[trigger] self.view_seq()[e] == (
                    h,
                    x,
                    tx@,
                );
                assert(has_position(self.view_seq(), h, x));
                assert forall|j: int|
                    #![trigger items@[j]]
                    0 <= j < i + 1 implies has_position(
                    self.view_seq(),
                    items@[j].0,
                    items@[j].1,
                ) by {
                    if j < i && (items@[j].0, items@[j].1) != (h, x) {
                        let w = choose|w: int|
                            0 <= w < pre.len() && ((#[trigger] pre[w]).0, pre[w].1) == (
                            items@[j].0,
                            items@[j].1,
                            );
                        let w2 = choose|w2: int|
                            0 <= w2 < self.view_seq().len() && #[trigger] self.view_seq()[w2]
                                == pre[w];
                        assert((self.view_seq()[w2].0, self.view_seq()[w2].1) == (items@[j].0,
                        items@[j].1));
                    }
                }
            }
            i = i + 1;
        }
    }

    /// Whether the cache was populated for a height.
    pub fn contains_height(&self, height: u64) -> (r: bool)
        ensures
            r == exists|i: int|
                0 <= i < self.view_seq().len() && (#[trigger] self.view_seq()[i]).0 == height,
    {
        let n = self.txs.len();
        let mut i: usize = 0;
        while i < n
            invariant
                i <= n,
                n == self.txs@.len(),
                forall|j: int| 0 <= j < i ==> (#[trigger] self.txs@[j]).0 != height,
            decreases n - i,
        {
            if self.txs[i].0 == height {
                proof {
                    assert(self.view_seq()[i as int].0 == height);
                }
                return true;
            }
            i = i + 1;
        }
        proof {
            assert(forall|j: int|
                0 <= j < self.view_seq().len() ==> (#[trigger] self.view_seq()[j]).0
                    == self.txs@[j].0);
        }
        false
    }

    /// Drops every entry of a block that was scanned through: entries
    /// below the given height leave, the rest stay.
    #[verifier::rlimit(50)]
    pub fn scanned(&mut self, height: u64)
        requires
            old(self).wf(),
        ensures
            final(self).wf(),
            forall|i: int|
                0 <= i < final(self).view_seq().len() ==> (#[trigger] final(self).view_seq()[
                i]).0 >= height,
            final(self).view_seq().len() <= old(self).view_seq().len(),
            // every kept entry was cached, and every cached entry at or
            // above the height is kept
            forall|i: int|
                0 <= i < final(self).view_seq().len() ==> old(self).view_seq().contains(
                    #[trigger] final(self).view_seq()[i],
                ),
            forall|j: int|
                #![trigger old(self).view_seq()[j]]
                0 <= j < old(self).view_seq().len() && old(self).view_seq()[j].0 >= height
                    ==> exists|i: int|
                    0 <= i < final(self).view_seq().len() && #[trigger] final(self).view_seq()[i]
                        == old(self).view_seq()[j],
    {
        let ghost old_self = *old(self);
        proof {
            assert(old(self).view_seq() == old_self.view_seq());
        }
        let mut kept: Vec<(u64, u64, Vec<u8>)> = Vec::new();
        let ghost mut idxs: Seq<int> = Seq::empty();
        let n = self.txs.len();
        let mut i: usize = 0;
        while i < n
            invariant
                i <= n,
                n == self.txs@.len(),
                *self == old_self,
                old_self == *old(self),
                self.wf(),
                idxs.len() == kept@.len(),
                kept@.len() <= i,
                forall|j: int| 0 <= j < idxs.len() ==> 0 <= #[trigger] idxs[j] < i,
                forall|a: int, b: int| 0 <= a < b < idxs.len() ==> idxs[a] < idxs[b],
                forall|j: int|
                    0 <= j < kept@.len() ==> ((#[trigger] kept@[j]).0, kept@[j].1, kept@[j].2@)
                        == old_self.view_seq()[idxs[j]],
                forall|j: int| 0 <= j < kept@.len() ==> (#[trigger] kept@[j]).0 >= height,
                forall|x: int|
                    #![trigger old_self.view_seq()[x]]
                    0 <= x < i && old_self.view_seq()[x].0 >= height ==> exists|jj: int|
                        0 <= jj < kept@.len() && ((#[trigger] kept@[jj]).0, kept@[jj].1,
                        kept@[jj].2@) == old_self.view_seq()[x],
            decreases n - i,
        {
            let ghost pre_kept = kept@;
            if self.txs[i].0 >= height {
                let h = self.txs[i].0;
                let x = self.txs[i].1;
                let tx = crate::store::clone_bytes(&self.txs[i].2);
                kept.push((h, x, tx));
                proof {
                    idxs = idxs.push(i as int);
                    assert((kept@[kept@.len() - 1].0, kept@[kept@.len() - 1].1, kept@[kept@.len()
                        - 1].2@) == old_self.view_seq()[i as int]);
                    assert forall|x2: int|
                        #![trigger old_self.view_seq()[x2]]
                        0 <= x2 < i + 1 && old_self.view_seq()[x2].0 >= height implies exists|
                            jj: int,
                        |
                            0 <= jj < kept@.len() && ((#[trigger] kept@[jj]).0, kept@[jj].1,
                            kept@[jj].2@) == old_self.view_seq()[x2] by {
                        if x2 < i {
                            let jj = choose|jj: int|
                                0 <= jj < pre_kept.len() && ((#[trigger] pre_kept[jj]).0,
                                pre_kept[jj].1, pre_kept[jj].2@) == old_self.view_seq()[x2];
                            assert(kept@[jj] == pre_kept[jj]);
                        }
                    }
                }
            } else {
                proof {
                    assert(old_self.view_seq()[i as int].0 == self.txs@[i as int].0);
                    assert forall|x2: int|
                        #![trigger old_self.view_seq()[x2]]
                        0 <= x2 < i + 1 && old_self.view_seq()[x2].0 >= height implies exists|
                            jj: int,
                        |
                            0 <= jj < kept@.len() && ((#[trigger] kept@[jj]).0, kept@[jj].1,
                            kept@[jj].2@) == old_self.view_seq()[x2] by {
                        assert(x2 < i);
                    }
                }
            }
            i = i + 1;
        }
        proof {
            // kept entries come from distinct positions of the list, so
            // their keys stay distinct
            assert forall|a: int, b: int|
                0 <= a < b < kept@.len() implies ((#[trigger] kept@[a]).0, kept@[a].1) != ((
            #[trigger] kept@[b]).0, kept@[b].1) by {
                let xa = idxs[a];
                let xb = idxs[b];
                assert(xa < xb);
                assert((old_self.txs@[xa].0, old_self.txs@[xa].1) == (kept@[a].0, kept@[a].1));
                assert((old_self.txs@[xb].0, old_self.txs@[xb].1) == (kept@[b].0, kept@[b].1));
            }
        }
        let ghost kept_view = kept@;
        *self = Unscanned { txs: kept };
        proof {
            assert(self.txs@ == kept_view);
            assert forall|i2: int|
                0 <= i2 < self.view_seq().len() implies (#[trigger] self.view_seq()[i2]).0
                >= height by {
                assert(self.view_seq()[i2] == (kept_view[i2].0, kept_view[i2].1, kept_view[
                i2].2@));
            }
            assert forall|i2: int|
                0 <= i2 < final(self).view_seq().len() implies old(self).view_seq().contains(
                #[trigger] final(self).view_seq()[i2],
            ) by {
                let x = idxs[i2];
                assert((kept_view[i2].0, kept_view[i2].1, kept_view[i2].2@)
                    == old_self.view_seq()[x]);
                assert(self.view_seq()[i2] == (kept_view[i2].0, kept_view[i2].1, kept_view[
                i2].2@));
                assert(old(self).view_seq()[x] == self.view_seq()[i2]);
                assert(final(self).view_seq()[i2] == self.view_seq()[i2]);
            }
            assert forall|j: int|
                #![trigger old(self).view_seq()[j]]
                0 <= j < old(self).view_seq().len() && old(self).view_seq()[j].0 >= height
                    implies exists|i2: int|
                0 <= i2 < self.view_seq().len() && #[trigger] self.view_seq()[i2] == old(
                    self,
                ).view_seq()[j] by {
                assert(old_self.view_seq()[j] == old(self).view_seq()[j]);
                let jj = choose|jj: int|
                    0 <= jj < kept_view.len() && ((#[trigger] kept_view[jj]).0, kept_view[jj].1,
                    kept_view[jj].2@) == old_self.view_seq()[j];
                assert(self.view_seq()[jj] == old(self).view_seq()[j]);
            }
        }
    }

    /// The highest height present in the cache, or zero when it is empty.
    pub fn latest_height(&self) -> (r: u64)
        ensures
            forall|i: int| 0 <= i < self.view_seq().len() ==> (#[trigger] self.view_seq()[i]).0 <= r,
            r > 0 ==> exists|i: int|
                0 <= i < self.view_seq().len() && (#[trigger] self.view_seq()[i]).0 == r,
    {
        let n = self.txs.len();
        let mut best: u64 = 0;
        let mut i: usize = 0;
        let ghost mut witness: int = 0;
        while i < n
            invariant
                i <= n,
                n == self.txs@.len(),
                forall|j: int| 0 <= j < i ==> (#[trigger] self.txs@[j]).0 <= best,
                best > 0 ==> 0 <= witness < i && self.txs@[witness].0 == best,
            decreases n - i,
        {
            if self.txs[i].0 > best {
                best = self.txs[i].0;
                proof {
                    witness = i as int;
                }
            }
            i = i + 1;
        }
        proof {
            if best > 0 {
                assert(self.view_seq()[witness].0 == best);
            }
            assert(forall|j: int|
                0 <= j < self.view_seq().len() ==> (#[trigger] self.view_seq()[j]).0
                    == self.txs@[j].0);
        }
        best
    }

    /// The lowest height present in the cache, or zero when it is empty.
    pub fn first_height(&self) -> (r: u64)
        ensures
            self.view_seq().len() > 0 ==> forall|i: int|
                0 <= i < self.view_seq().len() ==> r <= (#[trigger] self.view_seq()[i]).0,
            self.view_seq().len() > 0 ==> exists|i: int|
                0 <= i < self.view_seq().len() && (#[trigger] self.view_seq()[i]).0 == r,
            self.view_seq().len() == 0 ==> r == 0,
    {
        let n = self.txs.len();
        if n == 0 {
            return 0;
        }
        let mut best: u64 = self.txs[0].0;
        let ghost mut witness: int = 0;
        let mut i: usize = 1;
        while i < n
            invariant
                1 <= i <= n,
                n == self.txs@.len(),
                forall|j: int| 0 <= j < i ==> best <= (#[trigger] self.txs@[j]).0,
                0 <= witness < i && self.txs@[witness].0 == best,
            decreases n - i,
        {
            if self.txs[i].0 < best {
                best = self.txs[i].0;
                proof {
                    witness = i as int;
                }
            }
            i = i + 1;
        }
        proof {
            assert(self.view_seq()[witness].0 == best);
            assert(forall|j: int|
                0 <= j < self.view_seq().len() ==> (#[trigger] self.view_seq()[j]).0
                    == self.txs@[j].0);
        }
        best
    }

    /// Removes and returns an entry of the lowest cached position, or
    /// `None` when the cache is empty.
    pub fn pop_first(&mut self) -> (r: Option<(u64, u64, Vec<u8>)>)
        requires
            old(self).wf(),
        ensures
            final(self).wf(),
            match r {
                Some(e) => old(self).view_seq().len() > 0 && final(self).view_seq().len() == old(
                    self,
                ).view_seq().len() - 1 && (exists|j: int|
                    0 <= j < old(self).view_seq().len() && #[trigger] old(self).view_seq()[j] == (
                    e.0, e.1, e.2@)) && (forall|j: int|
                    0 <= j < old(self).view_seq().len() ==> ((#[trigger] old(self).view_seq()[
                    j]).0 > e.0 || (old(self).view_seq()[j].0 == e.0 && old(self).view_seq()[j].1
                        >= e.1))),
                None => old(self).view_seq().len() == 0 && final(self).view_seq() == old(
                    self,
                ).view_seq(),
            },
    {
        let n = self.txs.len();
        if n == 0 {
            return None;
        }
        let mut at: usize = 0;
        let mut i: usize = 1;
        while i < n
            invariant
                1 <= i <= n,
                at < i,
                n == self.txs@.len(),
                forall|j: int|
                    0 <= j < i ==> ((#[trigger] self.txs@[j]).0 > self.txs@[at as int].0 || (
                    self.txs@[j].0 == self.txs@[at as int].0 && self.txs@[j].1 >= self.txs@[
                    at as int].1)),
            decreases n - i,
        {
            if self.txs[i].0 < self.txs[at].0 || (self.txs[i].0 == self.txs[at].0 && self.txs[i].1
                < self.txs[at].1) {
                at = i;
            }
            i = i + 1;
        }
        let ghost old_self = *old(self);
        let e = self.txs.remove(at);
        proof {
            old_self.txs@.remove_ensures(at as int);
            assert(old_self.view_seq()[at as int] == (e.0, e.1, e.2@));
            assert forall|j: int|
                0 <= j < old(self).view_seq().len() implies ((#[trigger] old(self).view_seq()[
            j]).0 > e.0 || (old(self).view_seq()[j].0 == e.0 && old(self).view_seq()[j].1
                >= e.1)) by {
                assert((old_self.txs@[j].0, old_self.txs@[j].1) == (old(self).view_seq()[j].0,
                old(self).view_seq()[j].1));
            }
            assert forall|a: int, b: int|
                0 <= a < b < self.txs@.len() implies ((#[trigger] self.txs@[a]).0,
            self.txs@[a].1) != ((#[trigger] self.txs@[b]).0, self.txs@[b].1) by {
                assert(self.txs@[a] == if a < at {
                    old_self.txs@[a]
                } else {
                    old_self.txs@[a + 1]
                });
                assert(self.txs@[b] == if b < at {
                    old_self.txs@[b]
                } else {
                    old_self.txs@[b + 1]
                });
            }
        }
        Some(e)
    }
}

/// A cache of decrypted notes not yet folded into the shielded context,
/// keyed by the transaction position and the viewing key that decrypted
/// it.
pub struct DecryptedDataCache {
    entries: Vec<((u64, u64), Vec<u8>, Vec<u8>)>,
}

impl DecryptedDataCache {
    /// The cached entries: position, viewing key, decrypted data.
    pub closed spec fn view_seq(self) -> Seq<((u64, u64), Seq<u8>, Seq<u8>)> {
        Seq::new(
            self.entries.len() as nat,
            |i: int| (self.entries[i].0, self.entries[i].1@, self.entries[i].2@),
        )
    }

    /// An empty cache.
    pub fn new() -> (c: DecryptedDataCache)
        ensures
            c.view_seq() == Seq::<((u64, u64), Seq<u8>, Seq<u8>)>::empty(),
    {
        let c = DecryptedDataCache { entries: Vec::new() };
        proof {
            assert(c.view_seq() =~= Seq::<((u64, u64), Seq<u8>, Seq<u8>)>::empty());
        }
        c
    }

    /// Adds one decrypted entry.
    pub fn insert(&mut self, height: u64, index: u64, viewing_key: Vec<u8>, data: Vec<u8>)
        ensures
            final(self).view_seq() == old(self).view_seq().push(
                ((height, index), viewing_key@, data@),
            ),
    {
        self.entries.push(((height, index), viewing_key, data));
        proof {
            assert(final(self).view_seq() =~= old(self).view_seq().push(
                ((height, index), viewing_key@, data@),
            ));
        }
    }

    /// Whether an entry for the given position and viewing key is cached.
    pub fn contains(&self, height: u64, index: u64, viewing_key: &Vec<u8>) -> (r: bool)
        ensures
            r == exists|i: int|
                0 <= i < self.view_seq().len() && ((#[trigger] self.view_seq()[i]).0,
                self.view_seq()[i].1) == ((height, index), viewing_key@),
    {
        let n = self.entries.len();
        let mut i: usize = 0;
        while i < n
            invariant
                i <= n,
                n == self.entries@.len(),
                forall|j: int|
                    0 <= j < i ==> ((#[trigger] self.entries@[j]).0, self.entries@[j].1@) != ((
                    height, index), viewing_key@),
            decreases n - i,
        {
            if self.entries[i].0.0 == height && self.entries[i].0.1 == index
                && crate::codec::bytes_eq(&self.entries[i].1, viewing_key) {
                proof {
                    assert((self.view_seq()[i as int].0, self.view_seq()[i as int].1) == ((
                        height,
                        index,
                    ), viewing_key@));
                }
                return true;
            }
            i = i + 1;
        }
        proof {
            assert(forall|j: int|
                0 <= j < self.view_seq().len() ==> ((#[trigger] self.view_seq()[j]).0,
                self.view_seq()[j].1) == (self.entries@[j].0, self.entries@[j].1@));
        }
        false
    }

    /// Hands every cached entry out and leaves the cache empty.
    pub fn drain(&mut self) -> (out: Vec<((u64, u64), Vec<u8>, Vec<u8>)>)
        ensures
            out@.len() == old(self).view_seq().len(),
            forall|i: int|
                0 <= i < out@.len() ==> ((#[trigger] out@[i]).0, out@[i].1@, out@[i].2@) == old(
                    self,
                ).view_seq()[i],
            final(self).view_seq() == Seq::<((u64, u64), Seq<u8>, Seq<u8>)>::empty(),
    {
        let mut out: Vec<((u64, u64), Vec<u8>, Vec<u8>)> = Vec::new();
        core::mem::swap(&mut out, &mut self.entries);
        proof {
            assert(final(self).view_seq() =~= Seq::<((u64, u64), Seq<u8>, Seq<u8>)>::empty());
            assert(forall|i: int|
                0 <= i < out@.len() ==> ((#[trigger] out@[i]).0, out@[i].1@, out@[i].2@) == old(
                    self,
                ).view_seq()[i]);
        }
        out
    }
}

} // verus!
