use vstd::prelude::*;
use crate::db::{apply_ops, last_op_on, lemma_apply_ops_get, DbColFam, DbView, RocksDB, RocksDBWriteBatch};
use crate::error::Error;
use crate::keys::Key;
use crate::store::{map_get, prefix_pred};
use crate::strings::has_prefix;

verus! {

/// The `last/<hash>` key of the bucket of hashes included in the last
/// block.
pub open spec fn last_key_spec(h: Seq<char>) -> Seq<char> {
    "last/"@ + h
}

/// The `all/<hash>` key of the bucket of hashes included before the last
/// block.
pub open spec fn all_key_spec(h: Seq<char>) -> Seq<char> {
    "all/"@ + h
}

/// The `buffer/<hash>` key of the bucket of hashes in transition across a
/// rollback window.
pub open spec fn buffer_key_spec(h: Seq<char>) -> Seq<char> {
    "buffer/"@ + h
}

/// Composes the `last/<hash>` key.
pub fn replay_last_key(hash: &str) -> (r: String)
    ensures
        r@ == last_key_spec(hash@),
{
    let mut r = "last/".to_owned();
    r.append(hash);
    r
}

/// Composes the `all/<hash>` key.
pub fn replay_all_key(hash: &str) -> (r: String)
    ensures
        r@ == all_key_spec(hash@),
{
    let mut r = "all/".to_owned();
    r.append(hash);
    r
}

/// Composes the `buffer/<hash>` key.
pub fn replay_buffer_key(hash: &str) -> (r: String)
    ensures
        r@ == buffer_key_spec(hash@),
{
    let mut r = "buffer/".to_owned();
    r.append(hash);
    r
}

/// Whether a hash counts as already processed: it stands in the `last` or
/// the `all` bucket; the transient `buffer` is not consulted.
pub open spec fn has_replay_spec(v: DbView, h: Seq<char>) -> bool {
    v.replay_prot.contains_key(last_key_spec(h)) || v.replay_prot.contains_key(all_key_spec(h))
}

/// The batch operations clearing the `buffer` bucket: one delete per
/// buffered hash.
pub open spec fn buffer_prune_ops(db: RocksDB) -> Seq<(DbColFam, Seq<char>, Option<Seq<u8>>)> {
    buffer_delete_ops(
        db.spec_cf(DbColFam::ReplayProt).entry_seq().filter(prefix_pred("buffer/"@)),
    )
}

/// One replay-bucket delete per listed entry.
pub open spec fn buffer_delete_ops(f: Seq<(Seq<char>, Seq<u8>)>) -> Seq<
    (DbColFam, Seq<char>, Option<Seq<u8>>),
> {
    Seq::new(f.len(), |i: int| (DbColFam::ReplayProt, f[i].0, None))
}

impl RocksDB {
    /// Schedules one replay-protection entry: the key marks the hash, the
    /// value is empty.
    pub fn write_replay_protection_entry(&self, batch: &mut RocksDBWriteBatch, key: &Key) -> (r:
        Result<(), Error>)
        requires
            key@.len() > 0,
        ensures
            r is Ok,
            final(batch)@ == old(batch)@.push(
                (DbColFam::ReplayProt, key.str_view(), Some(Seq::<u8>::empty())),
            ),
    {
        let empty: Vec<u8> = Vec::new();
        batch.put(DbColFam::ReplayProt, key.to_string(), empty);
        Ok(())
    }

    /// Schedules the removal of one replay-protection entry.
    pub fn delete_replay_protection_entry(&self, batch: &mut RocksDBWriteBatch, key: &Key) -> (r:
        Result<(), Error>)
        requires
            key@.len() > 0,
        ensures
            r is Ok,
            final(batch)@ == old(batch)@.push((DbColFam::ReplayProt, key.str_view(), None)),
    {
        batch.delete(DbColFam::ReplayProt, key.to_string());
        Ok(())
    }

    /// Schedules the deletion of every hash in the `buffer` bucket.
    pub fn prune_replay_protection_buffer(&self, batch: &mut RocksDBWriteBatch) -> (r: Result<
        (),
        Error,
    >)
        requires
            self.wf(),
        ensures
            r is Ok,
            final(batch)@ == old(batch)@ + buffer_prune_ops(*self),
    {
        let ghost ops0 = old(batch)@;
        let ghost f = self.spec_cf(DbColFam::ReplayProt).entry_seq().filter(
            prefix_pred("buffer/"@),
        );
        let replay_cf = self.cf(DbColFam::ReplayProt);
        let entries = replay_cf.prefix_entries("buffer/");
        let n = entries.len();
        let mut i: usize = 0;
        while i < n
            invariant
                i <= n,
                n == entries@.len(),
                f.len() == n,
                forall|j: int|
                    0 <= j < n ==> ((#[trigger] entries@[j]).0@, entries@[j].1@) == f[j],
                batch@ == ops0 + buffer_delete_ops(f.take(i as int)),
            decreases n - i,
        {
            batch.delete(DbColFam::ReplayProt, entries[i].0.clone());
            proof {
                assert(batch@ =~= ops0 + buffer_delete_ops(f.take(i + 1)));
            }
            i = i + 1;
        }
        proof {
            assert(f.take(n as int) =~= f);
        }
        Ok(())
    }

    /// Answers whether a hash was already processed: present in `last` or
    /// in `all`.
    pub fn has_replay_protection_entry(&self, hash: &str) -> (r: Result<bool, Error>)
        requires
            self.wf(),
        ensures
            r matches Ok(b) && b == has_replay_spec(self@, hash@),
    {
        let last_key = replay_last_key(hash);
        if self.read_value_bytes(DbColFam::ReplayProt, last_key.as_str()).is_some() {
            return Ok(true);
        }
        let all_key = replay_all_key(hash);
        Ok(self.read_value_bytes(DbColFam::ReplayProt, all_key.as_str()).is_some())
    }
}

/// A hash written to the `last` or `all` bucket by a batch, and not
/// re-deleted later in it, answers true to the replay query once the
/// batch applies.
pub proof fn lemma_replay_written_visible(
    v: DbView,
    ops: Seq<(DbColFam, Seq<char>, Option<Seq<u8>>)>,
    h: Seq<char>,
)
    requires
        (last_op_on(ops, DbColFam::ReplayProt, last_key_spec(h)) matches Some(c) && c is Some)
            || (last_op_on(ops, DbColFam::ReplayProt, all_key_spec(h)) matches Some(c) && c
            is Some),
    ensures
        has_replay_spec(apply_ops(v, ops), h),
{
    lemma_apply_ops_get(v, ops, DbColFam::ReplayProt, last_key_spec(h));
    lemma_apply_ops_get(v, ops, DbColFam::ReplayProt, all_key_spec(h));
}

/// A hash already counted as processed stays so under any batch that does
/// not touch its two bucket keys.
pub proof fn lemma_replay_untouched_stable(
    v: DbView,
    ops: Seq<(DbColFam, Seq<char>, Option<Seq<u8>>)>,
    h: Seq<char>,
)
    requires
        has_replay_spec(v, h),
        last_op_on(ops, DbColFam::ReplayProt, last_key_spec(h)) is None,
        last_op_on(ops, DbColFam::ReplayProt, all_key_spec(h)) is None,
    ensures
        has_replay_spec(apply_ops(v, ops), h),
{
    lemma_apply_ops_get(v, ops, DbColFam::ReplayProt, last_key_spec(h));
    lemma_apply_ops_get(v, ops, DbColFam::ReplayProt, all_key_spec(h));
}

} // verus!
