use vstd::prelude::*;
use crate::db::{DbColFam, DbView, RocksDB, RocksDBWriteBatch};
use crate::error::Error;
use crate::keys::Key;
use crate::pattern::{pattern_items, Pattern};
use crate::store::{map_get, prefix_pred};
use crate::subspace::{overwrite_ops, subspace_delete_ops};

verus! {

/// A visitor that collects a set of admin updates against one store,
/// registering them all in one batch to be applied atomically.
pub struct RocksDBUpdateVisitor<'db> {
    db: &'db RocksDB,
    batch: RocksDBWriteBatch,
}

impl<'db> RocksDBUpdateVisitor<'db> {
    /// The store the updates run against.
    pub closed spec fn db_view(self) -> DbView {
        self.db@
    }

    /// Whether the underlying store is well-formed.
    pub closed spec fn db_wf(self) -> bool {
        self.db.wf()
    }

    /// The operations collected so far.
    pub closed spec fn ops(self) -> Seq<(DbColFam, Seq<char>, Option<Seq<u8>>)> {
        self.batch@
    }

    /// Starts a visitor with an empty batch.
    pub fn new(db: &'db RocksDB) -> (v: RocksDBUpdateVisitor<'db>)
        requires
            db.wf(),
        ensures
            v.db_wf(),
            v.db_view() == db@,
            v.ops() == Seq::<(DbColFam, Seq<char>, Option<Seq<u8>>)>::empty(),
    {
        RocksDBUpdateVisitor { db, batch: RocksDB::batch() }
    }

    /// Hands the collected batch over for execution.
    pub fn take_batch(self) -> (b: RocksDBWriteBatch)
        ensures
            b@ == self.ops(),
    {
        self.batch
    }

    /// Reads the current value under a key of one family.
    pub fn read(&self, key: &Key, cf: DbColFam) -> (r: Option<Vec<u8>>)
        requires
            self.db_wf(),
            key@.len() > 0,
        ensures
            r.deep_view() == map_get(self.db_view().cf(cf), key.str_view()),
    {
        let key_str = key.to_string();
        self.db.read_value_bytes(cf, key_str.as_str())
    }

    /// Registers an overwrite of one entry at the last committed height.
    pub fn write(&mut self, key: &Key, cf: DbColFam, value: &[u8]) -> (r: Result<(), Error>)
        requires
            old(self).db_wf(),
            key@.len() > 0,
        ensures
            final(self).db_wf(),
            final(self).db_view() == old(self).db_view(),
            match r {
                Ok(_) => exists|h: u64|
                    {
                        &&& map_get(old(self).db_view().state, "height"@) == Some(
                            #[trigger] crate::codec::enc_u64(h),
                        )
                        &&& final(self).ops() == old(self).ops() + overwrite_ops(
                            cf,
                            key.str_view(),
                            value@,
                            h,
                        )
                    },
                Err(e) => final(self).ops() == old(self).ops() && (e is Io || e is Coding
                    || e is UnsupportedHeight),
            },
            !old(self).db_view().state.contains_key("height"@) ==> (r matches Err(e) && e is Io),
            forall|h: u64|
                (old(self).db_view().state.contains_key("height"@) && old(
                    self,
                ).db_view().state["height"@] == #[trigger] crate::codec::enc_u64(h)) ==> r is Ok,
    {
        self.db.overwrite_entry(&mut self.batch, None, cf, key, value)
    }

    /// Registers the deletion of one entry: a subspace key leaves through
    /// the usual diff-recording delete at the last height, other families
    /// lose the entry directly.
    pub fn delete(&mut self, key: &Key, cf: DbColFam) -> (r: Result<(), Error>)
        requires
            old(self).db_wf(),
            key@.len() > 0,
        ensures
            final(self).db_wf(),
            final(self).db_view() == old(self).db_view(),
            match r {
                Ok(_) => {
                    ||| (cf == DbColFam::Subspace && exists|h: u64|
                        {
                            &&& map_get(old(self).db_view().state, "height"@) == Some(
                                #[trigger] crate::codec::enc_u64(h),
                            )
                            &&& final(self).ops() == old(self).ops() + subspace_delete_ops(
                                key.str_view(),
                                h as nat,
                                true,
                                map_get(old(self).db_view().subspace, key.str_view()),
                            )
                        })
                    ||| (cf != DbColFam::Subspace && final(self).ops() == old(self).ops().push(
                        (cf, key.str_view(), None),
                    ))
                },
                Err(e) => final(self).ops() == old(self).ops() && (e is Io || e is Coding),
            },
            cf != DbColFam::Subspace ==> r is Ok,
            forall|h: u64|
                (old(self).db_view().state.contains_key("height"@) && old(
                    self,
                ).db_view().state["height"@] == #[trigger] crate::codec::enc_u64(h)) ==> r is Ok,
    {
        match cf {
            DbColFam::Subspace => {
                let last_bytes = match self.db.read_value_bytes(DbColFam::State, "height") {
                    Some(b) => b,
                    None => {
                        return Err(Error::Io("no block height found".to_owned()));
                    },
                };
                let last_height = match crate::codec::decode_u64(last_bytes.as_slice()) {
                    Ok(h) => h,
                    Err(e) => {
                        proof {
                            assert(self.db@.state["height"@] == last_bytes@);
                            assert forall|h: u64|
                                self.db@.state["height"@] != #[trigger] crate::codec::enc_u64(
                                    h,
                                ) by {
                                crate::codec::lemma_enc_u64_decodable(h);
                            }
                        }
                        return Err(e);
                    },
                };
                let _ = self.db.batch_delete_subspace_val(
                    &mut self.batch,
                    last_height,
                    key,
                    true,
                )?;
                Ok(())
            },
            _ => {
                self.batch.delete(cf, key.to_string());
                Ok(())
            },
        }
    }

    /// All subspace entries whose key matches the pattern.
    pub fn get_pattern(&self, pattern: &Pattern) -> (out: Vec<(String, Vec<u8>)>)
        requires
            self.db_wf(),
        ensures
            ({
                let matched = pattern_items(
                    self.db_view_subspace_entries(),
                    Seq::empty(),
                    pattern.src_view(),
                );
                out@.len() == matched.len() && forall|i: int|
                    0 <= i < out@.len() ==> ((#[trigger] out@[i]).0@, out@[i].1@) == (
                    matched[i].0, matched[i].1)
            }),
    {
        let it = self.db.iter_pattern(None, pattern);
        it.into_pairs()
    }

    /// The subspace entries the pattern scan runs over.
    pub closed spec fn db_view_subspace_entries(self) -> Seq<(Seq<char>, Seq<u8>)> {
        self.db.spec_cf(DbColFam::Subspace).entry_seq().filter(prefix_pred(Seq::empty()))
    }
}

} // verus!
