use vstd::prelude::*;
use crate::db::{apply_ops, DbColFam, RocksDB, RocksDBWriteBatch};
use crate::db::{lemma_apply_ops_get, lemma_last_op_all_deletes, lemma_last_op_touched};
use crate::error::Error;
use crate::keys::{diff_keys_str, Key, new_diff_key, new_diff_pfx, old_diff_key, old_diff_pfx, old_and_new_diff_key};
use crate::store::{map_get, prefix_pred, slice_to_vec};
use crate::strings::has_prefix;

verus! {

/// The diff column family that records changes of a key: diffs kept
/// forever when its diffs persist, else the rollback family.
pub open spec fn diff_fam(persist_diffs: bool) -> DbColFam {
    if persist_diffs {
        DbColFam::Diffs
    } else {
        DbColFam::Rollback
    }
}

/// The batch operations recording a subspace write: the prior value (if
/// any) as the old diff, the written value as the new diff, and the
/// subspace entry itself.
pub open spec fn subspace_write_ops(
    k: Seq<char>,
    height: nat,
    value: Seq<u8>,
    persist_diffs: bool,
    prev: Option<Seq<u8>>,
) -> Seq<(DbColFam, Seq<char>, Option<Seq<u8>>)> {
    let dfam = diff_fam(persist_diffs);
    match prev {
        Some(p) => seq![
            (dfam, old_diff_key(height, k), Some(p)),
            (dfam, new_diff_key(height, k), Some(value)),
            (DbColFam::Subspace, k, Some(value)),
        ],
        None => seq![
            (dfam, new_diff_key(height, k), Some(value)),
            (DbColFam::Subspace, k, Some(value)),
        ],
    }
}

/// The batch operations recording a subspace delete: the prior value (if
/// any) as the old diff, and the removal of the subspace entry.
pub open spec fn subspace_delete_ops(
    k: Seq<char>,
    height: nat,
    persist_diffs: bool,
    prev: Option<Seq<u8>>,
) -> Seq<(DbColFam, Seq<char>, Option<Seq<u8>>)> {
    let dfam = diff_fam(persist_diffs);
    match prev {
        Some(p) => seq![
            (dfam, old_diff_key(height, k), Some(p)),
            (DbColFam::Subspace, k, None),
        ],
        None => seq![(DbColFam::Subspace, k, None)],
    }
}

/// The operations of an admin overwrite: the put itself, and — for a
/// subspace overwrite — the refreshed new diff of the last height.
pub open spec fn overwrite_ops(cf: DbColFam, k: Seq<char>, value: Seq<u8>, last: u64) -> Seq<
    (DbColFam, Seq<char>, Option<Seq<u8>>),
> {
    if cf == DbColFam::Subspace {
        seq![
            (cf, k, Some(value)),
            (DbColFam::Diffs, new_diff_key(last as nat, k), Some(value)),
        ]
    } else {
        seq![(cf, k, Some(value))]
    }
}

/// One delete of each listed key, aimed at the rollback family.
pub open spec fn delete_ops_for(f: Seq<(Seq<char>, Seq<u8>)>) -> Seq<
    (DbColFam, Seq<char>, Option<Seq<u8>>),
> {
    Seq::new(f.len(), |i: int| (DbColFam::Rollback, f[i].0, None))
}

/// The batch operations of a prune at `height`: deletes of every rollback
/// entry under the height's old-diff and new-diff prefixes.
pub open spec fn prune_ops(db: RocksDB, height: nat) -> Seq<
    (DbColFam, Seq<char>, Option<Seq<u8>>),
> {
    delete_ops_for(
        db.spec_cf(DbColFam::Rollback).entry_seq().filter(prefix_pred(old_diff_pfx(height))),
    ) + delete_ops_for(
        db.spec_cf(DbColFam::Rollback).entry_seq().filter(prefix_pred(new_diff_pfx(height))),
    )
}

/// After the prune operations are applied, the rollback family holds no
/// diff of the pruned height: neither an old nor a new entry of any key.
pub proof fn lemma_prune_clears(db: RocksDB, height: nat, k: Seq<char>)
    requires
        db.wf(),
    ensures
        !apply_ops(db@, prune_ops(db, height)).rollback.contains_key(old_diff_key(height, k)),
        !apply_ops(db@, prune_ops(db, height)).rollback.contains_key(new_diff_key(height, k)),
{
    let ops = prune_ops(db, height);
    let cf = db.spec_cf(DbColFam::Rollback);
    let f_old = cf.entry_seq().filter(prefix_pred(old_diff_pfx(height)));
    let f_new = cf.entry_seq().filter(prefix_pred(new_diff_pfx(height)));
    assert(forall|i: int| 0 <= i < ops.len() ==> (#[trigger] ops[i]).2 is None) by {
        assert(forall|i: int|
            0 <= i < f_old.len() ==> (#[trigger] ops[i]) == (
                DbColFam::Rollback,
                f_old[i].0,
                None::<Seq<u8>>,
            ));
        assert(forall|i: int|
            f_old.len() <= i < ops.len() ==> (#[trigger] ops[i]) == (
                DbColFam::Rollback,
                f_new[i - f_old.len()].0,
                None::<Seq<u8>>,
            ));
    }
    crate::strings::lemma_prefix_of_concat(old_diff_pfx(height), k);
    crate::strings::lemma_prefix_of_concat(new_diff_pfx(height), k);
    lemma_prune_clears_one(db, height, old_diff_key(height, k), true);
    lemma_prune_clears_one(db, height, new_diff_key(height, k), false);
}

proof fn lemma_prune_clears_one(db: RocksDB, height: nat, kk: Seq<char>, is_old: bool)
    requires
        db.wf(),
        is_old ==> has_prefix(kk, old_diff_pfx(height)),
        !is_old ==> has_prefix(kk, new_diff_pfx(height)),
        forall|i: int|
            0 <= i < prune_ops(db, height).len() ==> (#[trigger] prune_ops(db, height)[i]).2
                is None,
    ensures
        !apply_ops(db@, prune_ops(db, height)).rollback.contains_key(kk),
{
    let ops = prune_ops(db, height);
    let cf = db.spec_cf(DbColFam::Rollback);
    let f_old = cf.entry_seq().filter(prefix_pred(old_diff_pfx(height)));
    let f_new = cf.entry_seq().filter(prefix_pred(new_diff_pfx(height)));
    lemma_apply_ops_get(db@, ops, DbColFam::Rollback, kk);
    lemma_last_op_all_deletes(ops, DbColFam::Rollback, kk);
    db.lemma_view_cf(DbColFam::Rollback);
    if cf.as_map().contains_key(kk) {
        if is_old {
            cf.lemma_filter_exact(old_diff_pfx(height), kk);
            let i = choose|i: int| 0 <= i < f_old.len() && (#[trigger] f_old[i]).0 == kk;
            assert(ops[i] == (DbColFam::Rollback, kk, None::<Seq<u8>>)) by {
                assert(ops[i] == (delete_ops_for(f_old) + delete_ops_for(f_new))[i]);
                assert((delete_ops_for(f_old) + delete_ops_for(f_new))[i] == delete_ops_for(
                    f_old,
                )[i]);
            }
            lemma_last_op_touched(ops, DbColFam::Rollback, kk);
        } else {
            cf.lemma_filter_exact(new_diff_pfx(height), kk);
            let i = choose|i: int| 0 <= i < f_new.len() && (#[trigger] f_new[i]).0 == kk;
            assert(ops[f_old.len() + i] == (DbColFam::Rollback, kk, None::<Seq<u8>>)) by {
                assert(ops[f_old.len() + i] == (delete_ops_for(f_old) + delete_ops_for(f_new))[
                    f_old.len() + i]);
            }
            lemma_last_op_touched(ops, DbColFam::Rollback, kk);
        }
    }
}

/// Scans heights `h`, `h+1`, ... for the first diff of `key` after the
/// queried height: a surviving old diff carries the queried value forward;
/// a new diff without one means the key was created later, so it was
/// absent; past `last` the current subspace value stands.
pub open spec fn scan_forward(
    diffs: Map<Seq<char>, Seq<u8>>,
    subspace: Map<Seq<char>, Seq<u8>>,
    key: Seq<char>,
    h: nat,
    last: nat,
) -> Option<Seq<u8>>
    decreases (if h <= last {
        last + 1 - h
    } else {
        0
    }),
{
    if diffs.contains_key(old_diff_key(h, key)) {
        Some(diffs[old_diff_key(h, key)])
    } else if diffs.contains_key(new_diff_key(h, key)) {
        None
    } else if h >= last {
        map_get(subspace, key)
    } else {
        scan_forward(diffs, subspace, key, h + 1, last)
    }
}

/// The value of `key` as of block `height`, answered from the persisted
/// diffs: the new diff at the height itself when the key changed there, a
/// deletion when only an old diff stands, and otherwise the first trace of
/// the key in later blocks.
pub open spec fn read_with_height_spec(
    diffs: Map<Seq<char>, Seq<u8>>,
    subspace: Map<Seq<char>, Seq<u8>>,
    key: Seq<char>,
    height: nat,
    last: nat,
) -> Option<Seq<u8>> {
    if diffs.contains_key(new_diff_key(height, key)) {
        Some(diffs[new_diff_key(height, key)])
    } else if diffs.contains_key(old_diff_key(height, key)) {
        None
    } else {
        scan_forward(diffs, subspace, key, height + 1, last)
    }
}

impl RocksDB {
    /// Reads the current subspace value of `key`.
    pub fn read_subspace_val(&self, key: &Key) -> (r: Result<Option<Vec<u8>>, Error>)
        requires
            self.wf(),
            key@.len() > 0,
        ensures
            r is Ok,
            r matches Ok(v) ==> v.deep_view() == map_get(self@.subspace, key.str_view()),
    {
        let key_str = key.to_string();
        Ok(self.read_value_bytes(DbColFam::Subspace, key_str.as_str()))
    }

    /// Reads one diff of `key` at `height` from the persistent diffs.
    pub fn read_diffs_val(&self, key: &Key, height: u64, is_old: bool) -> (r: Result<
        Option<Vec<u8>>,
        Error,
    >)
        requires
            self.wf(),
            key@.len() > 0,
        ensures
            r is Ok,
            r matches Ok(v) ==> v.deep_view() == map_get(
                self@.diffs,
                if is_old {
                    old_diff_key(height as nat, key.str_view())
                } else {
                    new_diff_key(height as nat, key.str_view())
                },
            ),
    {
        let (old_key, new_key) = old_and_new_diff_key(key, height);
        let k = if is_old {
            old_key
        } else {
            new_key
        };
        Ok(self.read_value_bytes(DbColFam::Diffs, k.as_str()))
    }

    /// Reads one diff of `key` at `height` from the one-block rollback
    /// diffs.
    pub fn read_rollback_val(&self, key: &Key, height: u64, is_old: bool) -> (r: Result<
        Option<Vec<u8>>,
        Error,
    >)
        requires
            self.wf(),
            key@.len() > 0,
        ensures
            r is Ok,
            r matches Ok(v) ==> v.deep_view() == map_get(
                self@.rollback,
                if is_old {
                    old_diff_key(height as nat, key.str_view())
                } else {
                    new_diff_key(height as nat, key.str_view())
                },
            ),
    {
        let (old_key, new_key) = old_and_new_diff_key(key, height);
        let k = if is_old {
            old_key
        } else {
            new_key
        };
        Ok(self.read_value_bytes(DbColFam::Rollback, k.as_str()))
    }

    /// Schedules a subspace write at `height`: the prior value (when one
    /// exists) and the new value go to the diff family selected by
    /// `persist_diffs`, and the subspace entry is replaced. Returns how
    /// many bytes the write grows the subspace by.
    pub fn batch_write_subspace_val(
        &self,
        batch: &mut RocksDBWriteBatch,
        height: u64,
        key: &Key,
        value: &[u8],
        persist_diffs: bool,
    ) -> (r: Result<i64, Error>)
        requires
            self.wf(),
            key@.len() > 0,
            value@.len() <= 0x7fff_ffff_ffff_ffff,
        ensures
            r is Ok,
            final(batch)@ == old(batch)@ + subspace_write_ops(
                key.str_view(),
                height as nat,
                value@,
                persist_diffs,
                map_get(self@.subspace, key.str_view()),
            ),
            r matches Ok(d) ==> match map_get(self@.subspace, key.str_view()) {
                Some(p) => p.len() <= 0x7fff_ffff_ffff_ffff ==> d == value@.len() - p.len(),
                None => d == value@.len(),
            },
    {
        let dfam = if persist_diffs {
            DbColFam::Diffs
        } else {
            DbColFam::Rollback
        };
        let key_str = key.to_string();
        let (old_key, new_key) = old_and_new_diff_key(key, height);
        let prev = self.read_value_bytes(DbColFam::Subspace, key_str.as_str());
        let ghost ops0 = old(batch)@;
        let size_diff: i64;
        match prev {
            Some(prev_value) => {
                let prev_len = prev_value.len();
                // a stored value never reaches this bound; clamp to keep the
                // subtraction in range
                let prev_i: i64 = if prev_len as u64 <= 0x7fff_ffff_ffff_ffffu64 {
                    prev_len as i64
                } else {
                    i64::MAX
                };
                size_diff = value.len() as i64 - prev_i;
                proof {
                    assert(map_get(self@.subspace, key.str_view()) == Some(prev_value@));
                }
                batch.put(dfam, old_key, prev_value);
                batch.put(dfam, new_key, slice_to_vec(value));
                batch.put(DbColFam::Subspace, key_str, slice_to_vec(value));
                proof {
                    assert(dfam == diff_fam(persist_diffs));
                    let ops = subspace_write_ops(
                        key.str_view(),
                        height as nat,
                        value@,
                        persist_diffs,
                        map_get(self@.subspace, key.str_view()),
                    );
                    assert(batch@ =~= ops0 + ops);
                }
            },
            None => {
                size_diff = value.len() as i64;
                batch.put(dfam, new_key, slice_to_vec(value));
                batch.put(DbColFam::Subspace, key_str, slice_to_vec(value));
                proof {
                    let ops = subspace_write_ops(
                        key.str_view(),
                        height as nat,
                        value@,
                        persist_diffs,
                        map_get(self@.subspace, key.str_view()),
                    );
                    assert(batch@ =~= ops0 + ops);
                }
            },
        }
        Ok(size_diff)
    }

    /// Schedules a subspace delete at `height`: the prior value (when one
    /// exists) goes to the diff family selected by `persist_diffs`, and
    /// the subspace entry is removed. Returns the length of the prior
    /// value, or zero.
    pub fn batch_delete_subspace_val(
        &self,
        batch: &mut RocksDBWriteBatch,
        height: u64,
        key: &Key,
        persist_diffs: bool,
    ) -> (r: Result<i64, Error>)
        requires
            self.wf(),
            key@.len() > 0,
        ensures
            r is Ok,
            final(batch)@ == old(batch)@ + subspace_delete_ops(
                key.str_view(),
                height as nat,
                persist_diffs,
                map_get(self@.subspace, key.str_view()),
            ),
            r matches Ok(d) ==> match map_get(self@.subspace, key.str_view()) {
                Some(p) => p.len() <= 0x7fff_ffff_ffff_ffff ==> d == p.len(),
                None => d == 0,
            },
    {
        let dfam = if persist_diffs {
            DbColFam::Diffs
        } else {
            DbColFam::Rollback
        };
        let key_str = key.to_string();
        let (old_key, _new_key) = old_and_new_diff_key(key, height);
        let prev = self.read_value_bytes(DbColFam::Subspace, key_str.as_str());
        let ghost ops0 = old(batch)@;
        let prev_len: i64;
        match prev {
            Some(prev_value) => {
                let n = prev_value.len();
                // a stored value never reaches this bound; clamp to keep the
                // cast in range
                prev_len = if n as u64 <= 0x7fff_ffff_ffff_ffffu64 {
                    n as i64
                } else {
                    i64::MAX
                };
                proof {
                    assert(map_get(self@.subspace, key.str_view()) == Some(prev_value@));
                }
                batch.put(dfam, old_key, prev_value);
                batch.delete(DbColFam::Subspace, key_str);
                proof {
                    assert(dfam == diff_fam(persist_diffs));
                    let ops = subspace_delete_ops(
                        key.str_view(),
                        height as nat,
                        persist_diffs,
                        map_get(self@.subspace, key.str_view()),
                    );
                    assert(batch@ =~= ops0 + ops);
                }
            },
            None => {
                prev_len = 0;
                batch.delete(DbColFam::Subspace, key_str);
                proof {
                    let ops = subspace_delete_ops(
                        key.str_view(),
                        height as nat,
                        persist_diffs,
                        map_get(self@.subspace, key.str_view()),
                    );
                    assert(batch@ =~= ops0 + ops);
                }
            },
        }
        Ok(prev_len)
    }

    /// Writes one subspace value at `height` in a batch of its own,
    /// applied atomically.
    pub fn write_subspace_val(
        &mut self,
        height: u64,
        key: &Key,
        value: &[u8],
        persist_diffs: bool,
    ) -> (r: Result<i64, Error>)
        requires
            old(self).wf(),
            key@.len() > 0,
            value@.len() <= 0x7fff_ffff_ffff_ffff,
        ensures
            final(self).wf(),
            r is Ok,
            final(self)@ == apply_ops(
                old(self)@,
                subspace_write_ops(
                    key.str_view(),
                    height as nat,
                    value@,
                    persist_diffs,
                    map_get(old(self)@.subspace, key.str_view()),
                ),
            ),
            r matches Ok(d) ==> match map_get(old(self)@.subspace, key.str_view()) {
                Some(p) => p.len() <= 0x7fff_ffff_ffff_ffff ==> d == value@.len() - p.len(),
                None => d == value@.len(),
            },
    {
        let mut batch = RocksDB::batch();
        let ghost empty_ops = batch@;
        let size_diff = self.batch_write_subspace_val(&mut batch, height, key, value, persist_diffs)?;
        proof {
            assert(empty_ops + subspace_write_ops(
                key.str_view(),
                height as nat,
                value@,
                persist_diffs,
                map_get(self@.subspace, key.str_view()),
            ) =~= subspace_write_ops(
                key.str_view(),
                height as nat,
                value@,
                persist_diffs,
                map_get(self@.subspace, key.str_view()),
            ));
        }
        self.exec_batch(batch)?;
        Ok(size_diff)
    }

    /// Deletes one subspace value at `height` in a batch of its own,
    /// applied atomically.
    pub fn delete_subspace_val(&mut self, height: u64, key: &Key, persist_diffs: bool) -> (r:
        Result<i64, Error>)
        requires
            old(self).wf(),
            key@.len() > 0,
        ensures
            final(self).wf(),
            r is Ok,
            final(self)@ == apply_ops(
                old(self)@,
                subspace_delete_ops(
                    key.str_view(),
                    height as nat,
                    persist_diffs,
                    map_get(old(self)@.subspace, key.str_view()),
                ),
            ),
            r matches Ok(d) ==> match map_get(old(self)@.subspace, key.str_view()) {
                Some(p) => p.len() <= 0x7fff_ffff_ffff_ffff ==> d == p.len(),
                None => d == 0,
            },
    {
        let mut batch = RocksDB::batch();
        let ghost empty_ops = batch@;
        let prev_len = self.batch_delete_subspace_val(&mut batch, height, key, persist_diffs)?;
        proof {
            assert(empty_ops + subspace_delete_ops(
                key.str_view(),
                height as nat,
                persist_diffs,
                map_get(self@.subspace, key.str_view()),
            ) =~= subspace_delete_ops(
                key.str_view(),
                height as nat,
                persist_diffs,
                map_get(self@.subspace, key.str_view()),
            ));
        }
        self.exec_batch(batch)?;
        Ok(prev_len)
    }

    /// Overwrites one entry at the last committed height, for migration
    /// tooling: the value is replaced in the named family, and a subspace
    /// overwrite additionally refreshes the height's new diff. A request
    /// for any other height is refused with `UnsupportedHeight`.
    pub fn overwrite_entry(
        &self,
        batch: &mut RocksDBWriteBatch,
        height: Option<u64>,
        cf: DbColFam,
        key: &Key,
        new_value: &[u8],
    ) -> (r: Result<(), Error>)
        requires
            self.wf(),
            key@.len() > 0,
        ensures
            match r {
                Ok(_) => exists|h: u64|
                    {
                        &&& map_get(self@.state, "height"@) == Some(#[trigger] crate::codec::enc_u64(h))
                        &&& (height matches Some(d) ==> d == h)
                        &&& final(batch)@ == old(batch)@ + overwrite_ops(
                            cf,
                            key.str_view(),
                            new_value@,
                            h,
                        )
                    },
                Err(e) => final(batch)@ == old(batch)@ && (e is Io || e is Coding
                    || e is UnsupportedHeight),
            },
            // the overwrite is owed success at the recorded height, and owed
            // each refusal on its own cause
            !self@.state.contains_key("height"@) ==> (r matches Err(e) && e is Io),
            forall|h: u64|
                (self@.state.contains_key("height"@) && self@.state["height"@]
                    == #[trigger] crate::codec::enc_u64(h) && (height matches Some(d) ==> d == h))
                    ==> r is Ok,
            forall|h: u64|
                (self@.state.contains_key("height"@) && self@.state["height"@]
                    == #[trigger] crate::codec::enc_u64(h) && (height matches Some(d) && d != h))
                    ==> (r matches Err(e) && e is UnsupportedHeight),
    {
        let last_bytes = match self.read_value_bytes(DbColFam::State, "height") {
            Some(b) => b,
            None => {
                return Err(Error::Io("no block height found".to_owned()));
            },
        };
        let last_height = match crate::codec::decode_u64(last_bytes.as_slice()) {
            Ok(h) => h,
            Err(e) => {
                proof {
                    assert(self@.state["height"@] == last_bytes@);
                    assert forall|h: u64|
                        self@.state["height"@] != #[trigger] crate::codec::enc_u64(h) by {
                        crate::codec::lemma_enc_u64_decodable(h);
                    }
                }
                return Err(e);
            },
        };
        proof {
            assert forall|h: u64|
                self@.state["height"@] == #[trigger] crate::codec::enc_u64(h) implies h
                == last_height by {
                assert(self@.state["height"@] == last_bytes@);
                assert(last_bytes@ == crate::codec::enc_u64(last_height));
                crate::codec::lemma_roundtrip_u64(h, last_height);
            }
        }
        if let Some(d) = height {
            if d != last_height {
                return Err(Error::UnsupportedHeight);
            }
        }
        let key_str = key.to_string();
        batch.put(cf, key_str, crate::store::slice_to_vec(new_value));
        if cf == DbColFam::Subspace {
            let (_old_key, new_key) = old_and_new_diff_key(key, last_height);
            batch.put(DbColFam::Diffs, new_key, crate::store::slice_to_vec(new_value));
            proof {
                assert(batch@ =~= old(batch)@ + overwrite_ops(
                    cf,
                    key.str_view(),
                    new_value@,
                    last_height,
                ));
            }
        } else {
            proof {
                assert(batch@ =~= old(batch)@ + overwrite_ops(
                    cf,
                    key.str_view(),
                    new_value@,
                    last_height,
                ));
            }
        }
        Ok(())
    }

    /// Schedules the deletion of every rollback diff recorded at `height`,
    /// so that the rollback family keeps only the last block's diffs.
    pub fn prune_non_persisted_diffs(&self, batch: &mut RocksDBWriteBatch, height: u64) -> (r:
        Result<(), Error>)
        requires
            self.wf(),
        ensures
            r is Ok,
            final(batch)@ == old(batch)@ + prune_ops(*self, height as nat),
    {
        let ghost ops0 = old(batch)@;
        let old_pfx = crate::keys::old_diff_prefix(height);
        let new_pfx = crate::keys::new_diff_prefix(height);
        let ghost f_old = self.spec_cf(DbColFam::Rollback).entry_seq().filter(
            prefix_pred(old_diff_pfx(height as nat)),
        );
        let ghost f_new = self.spec_cf(DbColFam::Rollback).entry_seq().filter(
            prefix_pred(new_diff_pfx(height as nat)),
        );
        let rollback_cf = self.cf(DbColFam::Rollback);
        let old_entries = rollback_cf.prefix_entries(old_pfx.as_str());
        let n = old_entries.len();
        let mut i: usize = 0;
        while i < n
            invariant
                i <= n,
                n == old_entries@.len(),
                f_old.len() == n,
                forall|j: int|
                    0 <= j < n ==> ((#[trigger] old_entries@[j]).0@, old_entries@[j].1@) == f_old[
                    j],
                batch@ == ops0 + delete_ops_for(f_old.take(i as int)),
            decreases n - i,
        {
            batch.delete(DbColFam::Rollback, old_entries[i].0.clone());
            proof {
                assert(batch@ =~= ops0 + delete_ops_for(f_old.take(i + 1)));
            }
            i = i + 1;
        }
        proof {
            assert(f_old.take(n as int) =~= f_old);
        }
        let new_entries = rollback_cf.prefix_entries(new_pfx.as_str());
        let m = new_entries.len();
        let mut j: usize = 0;
        while j < m
            invariant
                j <= m,
                m == new_entries@.len(),
                f_new.len() == m,
                forall|x: int|
                    0 <= x < m ==> ((#[trigger] new_entries@[x]).0@, new_entries@[x].1@) == f_new[
                    x],
                batch@ == ops0 + delete_ops_for(f_old) + delete_ops_for(f_new.take(j as int)),
            decreases m - j,
        {
            batch.delete(DbColFam::Rollback, new_entries[j].0.clone());
            proof {
                assert(batch@ =~= ops0 + delete_ops_for(f_old) + delete_ops_for(
                    f_new.take(j + 1),
                ));
            }
            j = j + 1;
        }
        proof {
            assert(f_new.take(m as int) =~= f_new);
            assert(ops0 + delete_ops_for(f_old) + delete_ops_for(f_new) =~= ops0 + prune_ops(
                *self,
                height as nat,
            ));
        }
        Ok(())
    }

    /// Answers what value `key` held as of block `height`, walking the
    /// persistent diffs up to `last_height` and falling back to the
    /// current subspace value when no diff mentions the key.
    pub fn read_subspace_val_with_height(&self, key: &Key, height: u64, last_height: u64) -> (r:
        Result<Option<Vec<u8>>, Error>)
        requires
            self.wf(),
            key@.len() > 0,
            height < u64::MAX,
        ensures
            r is Ok,
            r matches Ok(v) ==> v.deep_view() == read_with_height_spec(
                self@.diffs,
                self@.subspace,
                key.str_view(),
                height as nat,
                last_height as nat,
            ),
    {
        let key_str = key.to_string();
        Ok(self.read_with_height_str(key_str.as_str(), height, last_height))
    }

    /// The historic read over a rendered key string.
    pub(crate) fn read_with_height_str(&self, key_str: &str, height: u64, last_height: u64) -> (r:
        Option<Vec<u8>>)
        requires
            self.wf(),
            height < u64::MAX,
        ensures
            r.deep_view() == read_with_height_spec(
                self@.diffs,
                self@.subspace,
                key_str@,
                height as nat,
                last_height as nat,
            ),
    {
        let ghost d = self@.diffs;
        let ghost s = self@.subspace;
        let ghost k = key_str@;
        let (old_key, new_key) = diff_keys_str(key_str, height);
        if let Some(new_val) = self.read_value_bytes(DbColFam::Diffs, new_key.as_str()) {
            return Some(new_val);
        }
        if self.read_value_bytes(DbColFam::Diffs, old_key.as_str()).is_some() {
            return None;
        }
        let mut raw_height: u64 = height + 1;
        loop
            invariant
                self.wf(),
                d == self@.diffs,
                s == self@.subspace,
                k == key_str@,
                height < raw_height,
                raw_height <= last_height || raw_height == height + 1,
                !d.contains_key(new_diff_key(height as nat, k)),
                !d.contains_key(old_diff_key(height as nat, k)),
                scan_forward(d, s, k, (height + 1) as nat, last_height as nat) == scan_forward(
                    d,
                    s,
                    k,
                    raw_height as nat,
                    last_height as nat,
                ),
            decreases (if raw_height <= last_height {
                last_height + 1 - raw_height
            } else {
                0
            }),
        {
            let (old_key, new_key) = diff_keys_str(key_str, raw_height);
            if let Some(old_val) = self.read_value_bytes(DbColFam::Diffs, old_key.as_str()) {
                return Some(old_val);
            }
            if self.read_value_bytes(DbColFam::Diffs, new_key.as_str()).is_some() {
                return None;
            }
            if raw_height >= last_height {
                return self.read_value_bytes(DbColFam::Subspace, key_str);
            }
            raw_height = raw_height + 1;
        }
    }
}

} // verus!
