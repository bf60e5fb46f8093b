use vstd::prelude::*;
use crate::block::BlockStateRead;
use crate::codec::enc_u64;
use crate::db::{apply_ops, DbColFam, RocksDB, RocksDBWriteBatch};
use crate::error::Error;
use crate::keys::{new_diff_key, new_diff_pfx, old_diff_key, old_diff_pfx, pred_key, pred_key_spec, results_key_spec};
use crate::replay::{all_key_spec, last_key_spec};
use crate::store::{map_get, prefix_pred, Cf};
use crate::strings::has_prefix;
use crate::subspace::read_with_height_spec;

verus! {

/// The epoch a height belongs to, given the first height of every epoch:
/// the last epoch that started at or before it.
pub open spec fn epoch_of_height(pred_epochs: Seq<u64>, h: u64) -> Option<u64>
    decreases pred_epochs.len(),
{
    if pred_epochs.len() == 0 {
        None
    } else if pred_epochs.last() <= h {
        Some((pred_epochs.len() - 1) as u64)
    } else {
        epoch_of_height(pred_epochs.drop_last(), h)
    }
}

/// Computes the epoch of a height from the first-height list.
pub fn get_epoch_of_height(pred_epochs: &Vec<u64>, h: u64) -> (r: Option<u64>)
    ensures
        r == epoch_of_height(pred_epochs@, h),
{
    let mut n = pred_epochs.len();
    proof {
        assert(pred_epochs@.take(pred_epochs@.len() as int) =~= pred_epochs@);
    }
    while n > 0
        invariant
            n <= pred_epochs@.len(),
            epoch_of_height(pred_epochs@, h) == epoch_of_height(
                pred_epochs@.take(n as int),
                h,
            ),
        decreases n,
    {
        proof {
            assert(pred_epochs@.take(n as int).last() == pred_epochs@[n - 1]);
            assert(pred_epochs@.take(n as int).drop_last() =~= pred_epochs@.take(n - 1));
        }
        if pred_epochs[n - 1] <= h {
            return Some((n - 1) as u64);
        }
        n = n - 1;
    }
    proof {
        assert(pred_epochs@.take(0) =~= Seq::<u64>::empty());
    }
    None
}

/// Whether the epoch changed with the last block, read from its
/// predecessor-epochs map: rollback must then restore the conversion
/// state.
pub open spec fn epoch_changed(bs: BlockStateRead, prev_height: u64) -> bool {
    epoch_of_height(bs.pred_epochs@, prev_height) != Some(bs.epoch)
}

/// The metadata restores of a rollback: the height marker moves back one
/// step, and each tracked singleton takes its `pred/` sibling's value.
pub open spec fn meta_restore_ops(m: Map<Seq<char>, Seq<u8>>, prev_height: u64) -> Seq<
    (DbColFam, Seq<char>, Option<Seq<u8>>),
> {
    seq![
        (DbColFam::State, "height"@, Some(enc_u64(prev_height))),
        (DbColFam::State, "next_epoch_min_start_height"@, Some(
        m[pred_key_spec("next_epoch_min_start_height"@)])),
        (DbColFam::State, "next_epoch_min_start_time"@, Some(
        m[pred_key_spec("next_epoch_min_start_time"@)])),
        (DbColFam::State, "commit_only_data_commitment"@, Some(
        m[pred_key_spec("commit_only_data_commitment"@)])),
        (DbColFam::State, "update_epoch_blocks_delay"@, Some(
        m[pred_key_spec("update_epoch_blocks_delay"@)])),
    ]
}

/// Whether every `pred/` sibling a rollback needs is present.
pub open spec fn preds_present(m: Map<Seq<char>, Seq<u8>>) -> bool {
    &&& m.contains_key(pred_key_spec("next_epoch_min_start_height"@))
    &&& m.contains_key(pred_key_spec("next_epoch_min_start_time"@))
    &&& m.contains_key(pred_key_spec("commit_only_data_commitment"@))
    &&& m.contains_key(pred_key_spec("update_epoch_blocks_delay"@))
}

/// The conversion-state restore, owed exactly when the rolled-back block
/// changed the epoch.
pub open spec fn conversion_restore_ops(
    m: Map<Seq<char>, Seq<u8>>,
    bs: BlockStateRead,
    prev_height: u64,
) -> Seq<(DbColFam, Seq<char>, Option<Seq<u8>>)> {
    if epoch_changed(bs, prev_height) {
        seq![
            (DbColFam::State, "conversion_state"@, Some(m[pred_key_spec("conversion_state"@)])),
        ]
    } else {
        Seq::empty()
    }
}

/// The replay-protection restore: every `last/` hash is dropped, then
/// every buffered hash is promoted back to `last/` and withdrawn from
/// `all/`.
pub open spec fn replay_restore_ops(db: RocksDB) -> Seq<
    (DbColFam, Seq<char>, Option<Seq<u8>>),
> {
    let f_last = db.spec_cf(DbColFam::ReplayProt).entry_seq().filter(prefix_pred("last/"@));
    let f_buf = db.spec_cf(DbColFam::ReplayProt).entry_seq().filter(prefix_pred("buffer/"@));
    Seq::new(f_last.len(), |i: int| (DbColFam::ReplayProt, f_last[i].0, None)) + promote_ops(
        f_buf,
    )
}

/// Per buffered hash: a put back into `last/` and a delete from `all/`.
pub open spec fn promote_ops(f: Seq<(Seq<char>, Seq<u8>)>) -> Seq<
    (DbColFam, Seq<char>, Option<Seq<u8>>),
>
    decreases f.len(),
{
    if f.len() == 0 {
        Seq::empty()
    } else {
        let h = f.last().0.skip("buffer/"@.len() as int);
        promote_ops(f.drop_last()) + seq![
            (DbColFam::ReplayProt, last_key_spec(h), Some(Seq::<u8>::empty())),
            (DbColFam::ReplayProt, all_key_spec(h), None),
        ]
    }
}

/// The per-key subspace restore: each live key takes its historic value
/// at the previous height, or disappears when it had none.
pub open spec fn subspace_restore_ops(
    f: Seq<(Seq<char>, Seq<u8>)>,
    diffs: Map<Seq<char>, Seq<u8>>,
    sub: Map<Seq<char>, Seq<u8>>,
    prev_height: u64,
    last_height: u64,
) -> Seq<(DbColFam, Seq<char>, Option<Seq<u8>>)>
    decreases f.len(),
{
    if f.len() == 0 {
        Seq::empty()
    } else {
        let rest = subspace_restore_ops(f.drop_last(), diffs, sub, prev_height, last_height);
        let k = f.last().0;
        rest + seq![
            (DbColFam::Subspace, k, read_with_height_spec(
            diffs,
            sub,
            k,
            prev_height as nat,
            last_height as nat,
        )),
        ]
    }
}

/// The replay of the persistent diffs at the rolled-back height: a key
/// whose new value is missing — it was deleted by the block — takes its
/// old value back.
pub open spec fn diffs_replay_ops(
    f: Seq<(Seq<char>, Seq<u8>)>,
    sub: Map<Seq<char>, Seq<u8>>,
    height: u64,
) -> Seq<(DbColFam, Seq<char>, Option<Seq<u8>>)>
    decreases f.len(),
{
    if f.len() == 0 {
        Seq::empty()
    } else {
        let rest = diffs_replay_ops(f.drop_last(), sub, height);
        let k = f.last().0.skip(old_diff_pfx(height as nat).len() as int);
        if !sub.contains_key(new_diff_key(height as nat, k)) {
            rest + seq![(DbColFam::Subspace, k, Some(f.last().1))]
        } else {
            rest
        }
    }
}

/// The first rollback-family pass: every old value is restored.
pub open spec fn rb_old_ops(f: Seq<(Seq<char>, Seq<u8>)>, height: u64) -> Seq<
    (DbColFam, Seq<char>, Option<Seq<u8>>),
> {
    Seq::new(
        f.len(),
        |i: int| (
            DbColFam::Subspace,
            f[i].0.skip(old_diff_pfx(height as nat).len() as int),
            Some(f[i].1),
        ),
    )
}

/// The second rollback-family pass: a key created by the block — it has a
/// new value but no old one — is deleted.
pub open spec fn rb_new_ops(
    f: Seq<(Seq<char>, Seq<u8>)>,
    rb: Map<Seq<char>, Seq<u8>>,
    height: u64,
) -> Seq<(DbColFam, Seq<char>, Option<Seq<u8>>)>
    decreases f.len(),
{
    if f.len() == 0 {
        Seq::empty()
    } else {
        let rest = rb_new_ops(f.drop_last(), rb, height);
        let k = f.last().0.skip(new_diff_pfx(height as nat).len() as int);
        if !rb.contains_key(old_diff_key(height as nat, k)) {
            rest + seq![(DbColFam::Subspace, k, None)]
        } else {
            rest
        }
    }
}

/// One delete per entry of a height-prefixed scan of one family.
pub open spec fn prefix_delete_ops(f: Seq<(Seq<char>, Seq<u8>)>, fam: DbColFam) -> Seq<
    (DbColFam, Seq<char>, Option<Seq<u8>>),
> {
    Seq::new(f.len(), |i: int| (fam, f[i].0, None))
}

/// Every operation of a one-step rollback from `bs.height`, in the order
/// the engine schedules them.
pub open spec fn rollback_ops(db: RocksDB, bs: BlockStateRead, prev_height: u64) -> Seq<
    (DbColFam, Seq<char>, Option<Seq<u8>>),
> {
    let m = db@.state;
    let height_pfx = crate::strings::dec_str(bs.height as nat) + "/"@;
    meta_restore_ops(m, prev_height) + conversion_restore_ops(m, bs, prev_height) + seq![
        (DbColFam::Block, results_key_spec(bs.height as nat), None),
    ] + replay_restore_ops(db) + subspace_restore_ops(
        db.spec_cf(DbColFam::Subspace).entry_seq().filter(prefix_pred(Seq::empty())),
        db@.diffs,
        db@.subspace,
        prev_height,
        bs.height,
    ) + diffs_replay_ops(
        db.spec_cf(DbColFam::Diffs).entry_seq().filter(
            prefix_pred(old_diff_pfx(bs.height as nat)),
        ),
        db@.subspace,
        bs.height,
    ) + rb_old_ops(
        db.spec_cf(DbColFam::Rollback).entry_seq().filter(
            prefix_pred(old_diff_pfx(bs.height as nat)),
        ),
        bs.height,
    ) + rb_new_ops(
        db.spec_cf(DbColFam::Rollback).entry_seq().filter(
            prefix_pred(new_diff_pfx(bs.height as nat)),
        ),
        db@.rollback,
        bs.height,
    ) + prefix_delete_ops(
        db.spec_cf(DbColFam::Diffs).entry_seq().filter(prefix_pred(height_pfx)),
        DbColFam::Diffs,
    ) + prefix_delete_ops(
        db.spec_cf(DbColFam::Block).entry_seq().filter(prefix_pred(height_pfx)),
        DbColFam::Block,
    )
}

proof fn lemma_promote_ops_fam(f: Seq<(Seq<char>, Seq<u8>)>)
    ensures
        forall|i: int|
            0 <= i < promote_ops(f).len() ==> (#[trigger] promote_ops(f)[i]).0
                == DbColFam::ReplayProt,
    decreases f.len(),
{
    if f.len() > 0 {
        lemma_promote_ops_fam(f.drop_last());
    }
}

proof fn lemma_subspace_restore_ops_fam(
    f: Seq<(Seq<char>, Seq<u8>)>,
    diffs: Map<Seq<char>, Seq<u8>>,
    sub: Map<Seq<char>, Seq<u8>>,
    prev_height: u64,
    last_height: u64,
)
    ensures
        forall|i: int|
            0 <= i < subspace_restore_ops(f, diffs, sub, prev_height, last_height).len() ==> (
            #[trigger] subspace_restore_ops(f, diffs, sub, prev_height, last_height)[i]).0
                == DbColFam::Subspace,
    decreases f.len(),
{
    if f.len() > 0 {
        lemma_subspace_restore_ops_fam(f.drop_last(), diffs, sub, prev_height, last_height);
    }
}

proof fn lemma_diffs_replay_ops_fam(
    f: Seq<(Seq<char>, Seq<u8>)>,
    sub: Map<Seq<char>, Seq<u8>>,
    height: u64,
)
    ensures
        forall|i: int|
            0 <= i < diffs_replay_ops(f, sub, height).len() ==> (#[trigger] diffs_replay_ops(
                f,
                sub,
                height,
            )[i]).0 == DbColFam::Subspace,
    decreases f.len(),
{
    if f.len() > 0 {
        lemma_diffs_replay_ops_fam(f.drop_last(), sub, height);
    }
}

proof fn lemma_rb_new_ops_fam(
    f: Seq<(Seq<char>, Seq<u8>)>,
    rb: Map<Seq<char>, Seq<u8>>,
    height: u64,
)
    ensures
        forall|i: int|
            0 <= i < rb_new_ops(f, rb, height).len() ==> (#[trigger] rb_new_ops(f, rb, height)[
            i]).0 == DbColFam::Subspace,
    decreases f.len(),
{
    if f.len() > 0 {
        lemma_rb_new_ops_fam(f.drop_last(), rb, height);
    }
}

/// When the front of a batch decides a key and the back never touches
/// it, the whole batch decides it the same way.
proof fn lemma_last_op_through(
    a: Seq<(DbColFam, Seq<char>, Option<Seq<u8>>)>,
    b: Seq<(DbColFam, Seq<char>, Option<Seq<u8>>)>,
    fam: DbColFam,
    key: Seq<char>,
)
    requires
        forall|i: int| 0 <= i < b.len() ==> !((#[trigger] b[i]).0 == fam && b[i].1 == key),
    ensures
        crate::db::last_op_on(a + b, fam, key) == crate::db::last_op_on(a, fam, key),
{
    crate::db::lemma_last_op_untouched(b, fam, key);
    crate::db::lemma_last_op_on_add(a, b, fam, key);
}

/// After a successful rewind to `prev_height`, the store's recorded
/// height is `prev_height`: a reload sees the previous block, and a
/// second rollback to the same target finds its height already matching
/// and does nothing.
pub proof fn lemma_rollback_restores_height(db: RocksDB, bs: BlockStateRead, prev_height: u64)
    ensures
        crate::store::map_get(
            apply_ops(db@, rollback_ops(db, bs, prev_height)).state,
            "height"@,
        ) == Some(enc_u64(prev_height)),
{
    reveal_strlit("height");
    reveal_strlit("next_epoch_min_start_height");
    reveal_strlit("next_epoch_min_start_time");
    reveal_strlit("commit_only_data_commitment");
    reveal_strlit("update_epoch_blocks_delay");
    reveal_strlit("conversion_state");
    let hk = "height"@;
    let m = db@.state;
    let meta = meta_restore_ops(m, prev_height);
    let conv = conversion_restore_ops(m, bs, prev_height);
    let res = seq![
        (DbColFam::Block, results_key_spec(bs.height as nat), None::<Seq<u8>>),
    ];
    let replay = replay_restore_ops(db);
    let subs = subspace_restore_ops(
        db.spec_cf(DbColFam::Subspace).entry_seq().filter(prefix_pred(Seq::empty())),
        db@.diffs,
        db@.subspace,
        prev_height,
        bs.height,
    );
    let drep = diffs_replay_ops(
        db.spec_cf(DbColFam::Diffs).entry_seq().filter(
            prefix_pred(old_diff_pfx(bs.height as nat)),
        ),
        db@.subspace,
        bs.height,
    );
    let rold = rb_old_ops(
        db.spec_cf(DbColFam::Rollback).entry_seq().filter(
            prefix_pred(old_diff_pfx(bs.height as nat)),
        ),
        bs.height,
    );
    let rnew = rb_new_ops(
        db.spec_cf(DbColFam::Rollback).entry_seq().filter(
            prefix_pred(new_diff_pfx(bs.height as nat)),
        ),
        db@.rollback,
        bs.height,
    );
    let height_pfx = crate::strings::dec_str(bs.height as nat) + "/"@;
    let deld = prefix_delete_ops(
        db.spec_cf(DbColFam::Diffs).entry_seq().filter(prefix_pred(height_pfx)),
        DbColFam::Diffs,
    );
    let delb = prefix_delete_ops(
        db.spec_cf(DbColFam::Block).entry_seq().filter(prefix_pred(height_pfx)),
        DbColFam::Block,
    );
    let ops = rollback_ops(db, bs, prev_height);
    assert(ops == meta + conv + res + replay + subs + drep + rold + rnew + deld + delb);
    // no later segment touches the height singleton
    lemma_last_op_through(
        meta + conv + res + replay + subs + drep + rold + rnew + deld,
        delb,
        DbColFam::State,
        hk,
    );
    lemma_last_op_through(
        meta + conv + res + replay + subs + drep + rold + rnew,
        deld,
        DbColFam::State,
        hk,
    );
    assert(forall|i: int| 0 <= i < rnew.len() ==> (#[trigger] rnew[i]).0 == DbColFam::Subspace)
        by {
        lemma_rb_new_ops_fam(
            db.spec_cf(DbColFam::Rollback).entry_seq().filter(
                prefix_pred(new_diff_pfx(bs.height as nat)),
            ),
            db@.rollback,
            bs.height,
        );
    }
    lemma_last_op_through(
        meta + conv + res + replay + subs + drep + rold,
        rnew,
        DbColFam::State,
        hk,
    );
    lemma_last_op_through(meta + conv + res + replay + subs + drep, rold, DbColFam::State, hk);
    assert(forall|i: int| 0 <= i < drep.len() ==> (#[trigger] drep[i]).0 == DbColFam::Subspace)
        by {
        lemma_diffs_replay_ops_fam(
            db.spec_cf(DbColFam::Diffs).entry_seq().filter(
                prefix_pred(old_diff_pfx(bs.height as nat)),
            ),
            db@.subspace,
            bs.height,
        );
    }
    lemma_last_op_through(meta + conv + res + replay + subs, drep, DbColFam::State, hk);
    assert(forall|i: int| 0 <= i < subs.len() ==> (#[trigger] subs[i]).0 == DbColFam::Subspace)
        by {
        lemma_subspace_restore_ops_fam(
            db.spec_cf(DbColFam::Subspace).entry_seq().filter(prefix_pred(Seq::empty())),
            db@.diffs,
            db@.subspace,
            prev_height,
            bs.height,
        );
    }
    lemma_last_op_through(meta + conv + res + replay, subs, DbColFam::State, hk);
    assert(forall|i: int|
        0 <= i < replay.len() ==> (#[trigger] replay[i]).0 == DbColFam::ReplayProt) by {
        lemma_promote_ops_fam(
            db.spec_cf(DbColFam::ReplayProt).entry_seq().filter(prefix_pred("buffer/"@)),
        );
    }
    lemma_last_op_through(meta + conv + res, replay, DbColFam::State, hk);
    lemma_last_op_through(meta + conv, res, DbColFam::State, hk);
    // the conversion restore, if any, writes another singleton
    assert(forall|i: int| 0 <= i < conv.len() ==> !((#[trigger] conv[i]).0 == DbColFam::State
        && conv[i].1 == hk)) by {
        assert("conversion_state"@.len() == 16 && hk.len() == 6);
    }
    lemma_last_op_through(meta, conv, DbColFam::State, hk);
    // within the metadata restores, only the first operation names the
    // height; the four pred restores write longer names
    assert("next_epoch_min_start_height"@.len() == 27);
    assert("next_epoch_min_start_time"@.len() == 25);
    assert("commit_only_data_commitment"@.len() == 27);
    assert("update_epoch_blocks_delay"@.len() == 25);
    assert(hk.len() == 6);
    assert(crate::db::last_op_on(meta, DbColFam::State, hk) == Some(
        Some(enc_u64(prev_height)),
    )) by {
        assert(meta =~= seq![meta[0]] + meta.skip(1));
        assert(forall|i: int|
            0 <= i < meta.skip(1).len() ==> !((#[trigger] meta.skip(1)[i]).0 == DbColFam::State
                && meta.skip(1)[i].1 == hk));
        lemma_last_op_through(seq![meta[0]], meta.skip(1), DbColFam::State, hk);
        assert(crate::db::last_op_on(seq![meta[0]], DbColFam::State, hk) == Some(
            Some(enc_u64(prev_height)),
        ));
    }
    crate::db::lemma_apply_ops_get(db@, ops, DbColFam::State, hk);
}

/// What the subspace-restore pass leaves under `k`: the historic value
/// when `k` is among the scanned entries, nothing otherwise.
proof fn lemma_subs_restore_last(
    f: Seq<(Seq<char>, Seq<u8>)>,
    diffs: Map<Seq<char>, Seq<u8>>,
    sub: Map<Seq<char>, Seq<u8>>,
    prev_height: u64,
    last_height: u64,
    k: Seq<char>,
)
    ensures
        crate::db::last_op_on(
            subspace_restore_ops(f, diffs, sub, prev_height, last_height),
            DbColFam::Subspace,
            k,
        ) == if exists|i: int| 0 <= i < f.len() && (#[trigger] f[i]).0 == k {
            Some(read_with_height_spec(diffs, sub, k, prev_height as nat, last_height as nat))
        } else {
            None
        },
    decreases f.len(),
{
    if f.len() > 0 {
        lemma_subs_restore_last(f.drop_last(), diffs, sub, prev_height, last_height, k);
        let ops = subspace_restore_ops(f, diffs, sub, prev_height, last_height);
        let rest = subspace_restore_ops(f.drop_last(), diffs, sub, prev_height, last_height);
        let op = (
            DbColFam::Subspace,
            f.last().0,
            read_with_height_spec(diffs, sub, f.last().0, prev_height as nat, last_height as nat),
        );
        assert(subspace_restore_ops(f, diffs, sub, prev_height, last_height) =~= rest + seq![op]);
        crate::db::lemma_last_op_on_add(rest, seq![op], DbColFam::Subspace, k);
        assert(crate::db::last_op_on(seq![op], DbColFam::Subspace, k) == if f.last().0 == k {
            Some(op.2)
        } else {
            None
        }) by {
            reveal_with_fuel(crate::db::last_op_on, 3);
            assert(seq![op].drop_last() =~= Seq::<(DbColFam, Seq<char>, Option<Seq<u8>>)>::empty());
            assert(seq![op].last() == op);
        }
        assert(f[f.len() - 1] == f.last());
        if f.last().0 == k {
        } else {
            if exists|i: int| 0 <= i < f.len() && (#[trigger] f[i]).0 == k {
                let i = choose|i: int| 0 <= i < f.len() && (#[trigger] f[i]).0 == k;
                assert(f.drop_last()[i] == f[i]);
            }
            if exists|i: int| 0 <= i < f.drop_last().len() && (#[trigger] f.drop_last()[i]).0
                == k {
                let i = choose|i: int|
                    0 <= i < f.drop_last().len() && (#[trigger] f.drop_last()[i]).0 == k;
                assert(f[i].0 == k);
            }
        }
    }
}

/// What the persistent-diff replay leaves under `k`, for entries whose
/// stripped key never equals `k`: nothing.
proof fn lemma_diffs_replay_untouched(
    f: Seq<(Seq<char>, Seq<u8>)>,
    sub: Map<Seq<char>, Seq<u8>>,
    height: u64,
    k: Seq<char>,
)
    requires
        forall|i: int|
            0 <= i < f.len() ==> (#[trigger] f[i]).0.skip(
                old_diff_pfx(height as nat).len() as int,
            ) != k,
    ensures
        crate::db::last_op_on(diffs_replay_ops(f, sub, height), DbColFam::Subspace, k) is None,
    decreases f.len(),
{
    if f.len() > 0 {
        assert(f[f.len() - 1] == f.last());
        assert(forall|i: int|
            0 <= i < f.drop_last().len() ==> #[trigger] f.drop_last()[i] == f[i]);
        lemma_diffs_replay_untouched(f.drop_last(), sub, height, k);
        let rest = diffs_replay_ops(f.drop_last(), sub, height);
        let kk = f.last().0.skip(old_diff_pfx(height as nat).len() as int);
        if !sub.contains_key(new_diff_key(height as nat, kk)) {
            let op = (DbColFam::Subspace, kk, Some(f.last().1));
            assert(diffs_replay_ops(f, sub, height) =~= rest + seq![op]);
            crate::db::lemma_last_op_on_add(rest, seq![op], DbColFam::Subspace, k);
            assert(crate::db::last_op_on(seq![op], DbColFam::Subspace, k) is None) by {
                reveal_with_fuel(crate::db::last_op_on, 3);
                assert(seq![op].drop_last() =~= Seq::<
                    (DbColFam, Seq<char>, Option<Seq<u8>>),
                >::empty());
                assert(seq![op].last() == op);
            }
        } else {
            assert(diffs_replay_ops(f, sub, height) == rest);
        }
    }
}

/// What the persistent-diff replay leaves under `k` when exactly one
/// entry strips to `k`: that entry's old value, when the replay takes it.
proof fn lemma_diffs_replay_at(
    f: Seq<(Seq<char>, Seq<u8>)>,
    sub: Map<Seq<char>, Seq<u8>>,
    height: u64,
    k: Seq<char>,
    at: int,
)
    requires
        0 <= at < f.len(),
        f[at].0.skip(old_diff_pfx(height as nat).len() as int) == k,
        forall|i: int|
            0 <= i < f.len() && i != at ==> (#[trigger] f[i]).0.skip(
                old_diff_pfx(height as nat).len() as int,
            ) != k,
    ensures
        crate::db::last_op_on(diffs_replay_ops(f, sub, height), DbColFam::Subspace, k) == (
        if !sub.contains_key(new_diff_key(height as nat, k)) {
            Some(Some(f[at].1))
        } else {
            None
        }),
    decreases f.len(),
{
    assert(f[f.len() - 1] == f.last());
    assert(forall|i: int| 0 <= i < f.drop_last().len() ==> #[trigger] f.drop_last()[i] == f[i]);
    let rest = diffs_replay_ops(f.drop_last(), sub, height);
    let kk = f.last().0.skip(old_diff_pfx(height as nat).len() as int);
    if at == f.len() - 1 {
        lemma_diffs_replay_untouched(f.drop_last(), sub, height, k);
        if !sub.contains_key(new_diff_key(height as nat, kk)) {
            let op = (DbColFam::Subspace, kk, Some(f.last().1));
            assert(diffs_replay_ops(f, sub, height) =~= rest + seq![op]);
            crate::db::lemma_last_op_on_add(rest, seq![op], DbColFam::Subspace, k);
            assert(crate::db::last_op_on(seq![op], DbColFam::Subspace, k) == Some(
                Some(f[at].1),
            )) by {
                reveal_with_fuel(crate::db::last_op_on, 3);
                assert(seq![op].drop_last() =~= Seq::<
                    (DbColFam, Seq<char>, Option<Seq<u8>>),
                >::empty());
                assert(seq![op].last() == op);
            }
        } else {
            assert(diffs_replay_ops(f, sub, height) == rest);
        }
    } else {
        lemma_diffs_replay_at(f.drop_last(), sub, height, k, at);
        assert(f.drop_last()[at] == f[at]);
        if !sub.contains_key(new_diff_key(height as nat, kk)) {
            let op = (DbColFam::Subspace, kk, Some(f.last().1));
            assert(diffs_replay_ops(f, sub, height) =~= rest + seq![op]);
            crate::db::lemma_last_op_on_add(rest, seq![op], DbColFam::Subspace, k);
            assert(crate::db::last_op_on(seq![op], DbColFam::Subspace, k) is None) by {
                reveal_with_fuel(crate::db::last_op_on, 3);
                assert(seq![op].drop_last() =~= Seq::<
                    (DbColFam, Seq<char>, Option<Seq<u8>>),
                >::empty());
                assert(seq![op].last() == op);
            }
        } else {
            assert(diffs_replay_ops(f, sub, height) == rest);
        }
    }
}

/// The rollback-family passes leave `k` alone when the one-block family
/// holds no diff of it.
proof fn lemma_rb_old_untouched(f: Seq<(Seq<char>, Seq<u8>)>, height: u64, k: Seq<char>)
    requires
        forall|i: int|
            0 <= i < f.len() ==> (#[trigger] f[i]).0.skip(
                old_diff_pfx(height as nat).len() as int,
            ) != k,
    ensures
        crate::db::last_op_on(rb_old_ops(f, height), DbColFam::Subspace, k) is None,
{
    crate::db::lemma_last_op_untouched(rb_old_ops(f, height), DbColFam::Subspace, k);
}

proof fn lemma_rb_new_untouched(
    f: Seq<(Seq<char>, Seq<u8>)>,
    rb: Map<Seq<char>, Seq<u8>>,
    height: u64,
    k: Seq<char>,
)
    requires
        forall|i: int|
            0 <= i < f.len() ==> (#[trigger] f[i]).0.skip(
                new_diff_pfx(height as nat).len() as int,
            ) != k,
    ensures
        crate::db::last_op_on(rb_new_ops(f, rb, height), DbColFam::Subspace, k) is None,
    decreases f.len(),
{
    if f.len() > 0 {
        assert(f[f.len() - 1] == f.last());
        assert(forall|i: int|
            0 <= i < f.drop_last().len() ==> #[trigger] f.drop_last()[i] == f[i]);
        lemma_rb_new_untouched(f.drop_last(), rb, height, k);
        let rest = rb_new_ops(f.drop_last(), rb, height);
        let kk = f.last().0.skip(new_diff_pfx(height as nat).len() as int);
        if !rb.contains_key(old_diff_key(height as nat, kk)) {
            let op = (DbColFam::Subspace, kk, None::<Seq<u8>>);
            assert(rb_new_ops(f, rb, height) =~= rest + seq![op]);
            crate::db::lemma_last_op_on_add(rest, seq![op], DbColFam::Subspace, k);
            assert(crate::db::last_op_on(seq![op], DbColFam::Subspace, k) is None) by {
                reveal_with_fuel(crate::db::last_op_on, 3);
                assert(seq![op].drop_last() =~= Seq::<
                    (DbColFam, Seq<char>, Option<Seq<u8>>),
                >::empty());
                assert(seq![op].last() == op);
            }
        } else {
            assert(rb_new_ops(f, rb, height) == rest);
        }
    }
}

/// The two bucket keys of one hash never collide with each other's
/// bucket, and two distinct hashes never share a bucket key.
proof fn lemma_replay_keys_distinct(a: Seq<char>, b: Seq<char>)
    ensures
        last_key_spec(a) != all_key_spec(b),
        a != b ==> last_key_spec(a) != last_key_spec(b),
        a != b ==> all_key_spec(a) != all_key_spec(b),
{
    reveal_strlit("last/");
    reveal_strlit("all/");
    assert(last_key_spec(a)[0] == 'l' && all_key_spec(b)[0] == 'a');
    if a != b {
        if last_key_spec(a) =~= last_key_spec(b) {
            assert(a =~= b) by {
                assert(forall|i: int|
                    0 <= i < a.len() ==> #[trigger] a[i] == last_key_spec(a)[i + 5]);
                assert(forall|i: int|
                    0 <= i < b.len() ==> #[trigger] b[i] == last_key_spec(b)[i + 5]);
            }
        }
        if all_key_spec(a) =~= all_key_spec(b) {
            assert(a =~= b) by {
                assert(forall|i: int|
                    0 <= i < a.len() ==> #[trigger] a[i] == all_key_spec(a)[i + 4]);
                assert(forall|i: int|
                    0 <= i < b.len() ==> #[trigger] b[i] == all_key_spec(b)[i + 4]);
            }
        }
    }
}

/// What the buffer promotion leaves under the `last/` key of `h`: the
/// empty marker when `h` is among the buffered hashes, nothing
/// otherwise.
proof fn lemma_promote_last(f: Seq<(Seq<char>, Seq<u8>)>, h: Seq<char>)
    ensures
        crate::db::last_op_on(promote_ops(f), DbColFam::ReplayProt, last_key_spec(h)) == (
        if exists|i: int|
            0 <= i < f.len() && (#[trigger] f[i]).0.skip("buffer/"@.len() as int) == h {
            Some(Some(Seq::<u8>::empty()))
        } else {
            None
        }),
    decreases f.len(),
{
    if f.len() > 0 {
        lemma_promote_last(f.drop_last(), h);
        assert(f[f.len() - 1] == f.last());
        assert(forall|i: int|
            0 <= i < f.drop_last().len() ==> #[trigger] f.drop_last()[i] == f[i]);
        let hh = f.last().0.skip("buffer/"@.len() as int);
        let rest = promote_ops(f.drop_last());
        let pair = seq![
            (DbColFam::ReplayProt, last_key_spec(hh), Some(Seq::<u8>::empty())),
            (DbColFam::ReplayProt, all_key_spec(hh), None::<Seq<u8>>),
        ];
        assert(promote_ops(f) =~= rest + pair);
        crate::db::lemma_last_op_on_add(rest, pair, DbColFam::ReplayProt, last_key_spec(h));
        lemma_replay_keys_distinct(h, hh);
        lemma_replay_keys_distinct(hh, h);
        assert(crate::db::last_op_on(pair, DbColFam::ReplayProt, last_key_spec(h)) == (
        if hh == h {
            Some(Some(Seq::<u8>::empty()))
        } else {
            None
        })) by {
            reveal_with_fuel(crate::db::last_op_on, 4);
            assert(pair.drop_last() =~= seq![
                (DbColFam::ReplayProt, last_key_spec(hh), Some(Seq::<u8>::empty())),
            ]);
            assert(pair.drop_last().drop_last() =~= Seq::<
                (DbColFam, Seq<char>, Option<Seq<u8>>),
            >::empty());
            assert(pair.last() == (DbColFam::ReplayProt, all_key_spec(hh), None::<Seq<u8>>));
            assert(pair.drop_last().last() == (
                DbColFam::ReplayProt,
                last_key_spec(hh),
                Some(Seq::<u8>::empty()),
            ));
        }
        if hh != h {
            if exists|i: int|
                0 <= i < f.len() && (#[trigger] f[i]).0.skip("buffer/"@.len() as int) == h {
                let i = choose|i: int|
                    0 <= i < f.len() && (#[trigger] f[i]).0.skip("buffer/"@.len() as int) == h;
                assert(f.drop_last()[i].0.skip("buffer/"@.len() as int) == h);
            }
            if exists|i: int|
                0 <= i < f.drop_last().len() && (#[trigger] f.drop_last()[i]).0.skip(
                    "buffer/"@.len() as int,
                ) == h {
                let i = choose|i: int|
                    0 <= i < f.drop_last().len() && (#[trigger] f.drop_last()[i]).0.skip(
                        "buffer/"@.len() as int,
                    ) == h;
                assert(f[i].0.skip("buffer/"@.len() as int) == h);
            }
        }
    }
}

/// Rollback restores the replay window: every hash sitting in the
/// transition buffer answers true to the replay query once the rollback
/// operations apply — it returns to the `last/` bucket.
pub proof fn lemma_rollback_restores_buffered_hash(
    db: RocksDB,
    bs: BlockStateRead,
    prev_height: u64,
    h: Seq<char>,
)
    requires
        db.wf(),
        db@.replay_prot.contains_key(crate::replay::buffer_key_spec(h)),
    ensures
        crate::replay::has_replay_spec(apply_ops(db@, rollback_ops(db, bs, prev_height)), h),
{
    let ops = rollback_ops(db, bs, prev_height);
    let m = db@.state;
    let height = bs.height;
    let meta = meta_restore_ops(m, prev_height);
    let conv = conversion_restore_ops(m, bs, prev_height);
    let res = seq![
        (DbColFam::Block, results_key_spec(height as nat), None::<Seq<u8>>),
    ];
    let f_last = db.spec_cf(DbColFam::ReplayProt).entry_seq().filter(prefix_pred("last/"@));
    let dels = Seq::new(
        f_last.len(),
        |i: int| (DbColFam::ReplayProt, f_last[i].0, None::<Seq<u8>>),
    );
    let f_buf = db.spec_cf(DbColFam::ReplayProt).entry_seq().filter(prefix_pred("buffer/"@));
    let replay = replay_restore_ops(db);
    let f_sub = db.spec_cf(DbColFam::Subspace).entry_seq().filter(prefix_pred(Seq::empty()));
    let subs = subspace_restore_ops(f_sub, db@.diffs, db@.subspace, prev_height, height);
    let f_dold = db.spec_cf(DbColFam::Diffs).entry_seq().filter(
        prefix_pred(old_diff_pfx(height as nat)),
    );
    let drep = diffs_replay_ops(f_dold, db@.subspace, height);
    let f_rold = db.spec_cf(DbColFam::Rollback).entry_seq().filter(
        prefix_pred(old_diff_pfx(height as nat)),
    );
    let rold = rb_old_ops(f_rold, height);
    let f_rnew = db.spec_cf(DbColFam::Rollback).entry_seq().filter(
        prefix_pred(new_diff_pfx(height as nat)),
    );
    let rnew = rb_new_ops(f_rnew, db@.rollback, height);
    let height_pfx = crate::strings::dec_str(height as nat) + "/"@;
    let deld = prefix_delete_ops(
        db.spec_cf(DbColFam::Diffs).entry_seq().filter(prefix_pred(height_pfx)),
        DbColFam::Diffs,
    );
    let delb = prefix_delete_ops(
        db.spec_cf(DbColFam::Block).entry_seq().filter(prefix_pred(height_pfx)),
        DbColFam::Block,
    );
    assert(ops == meta + conv + res + replay + subs + drep + rold + rnew + deld + delb);
    db.lemma_view_cf(DbColFam::ReplayProt);

    let lk = last_key_spec(h);
    // every pass after the replay restore works on other families
    lemma_last_op_through(
        meta + conv + res + replay + subs + drep + rold + rnew + deld,
        delb,
        DbColFam::ReplayProt,
        lk,
    );
    lemma_last_op_through(
        meta + conv + res + replay + subs + drep + rold + rnew,
        deld,
        DbColFam::ReplayProt,
        lk,
    );
    assert(forall|i: int| 0 <= i < rnew.len() ==> (#[trigger] rnew[i]).0 == DbColFam::Subspace)
        by {
        lemma_rb_new_ops_fam(f_rnew, db@.rollback, height);
    }
    lemma_last_op_through(
        meta + conv + res + replay + subs + drep + rold,
        rnew,
        DbColFam::ReplayProt,
        lk,
    );
    lemma_last_op_through(meta + conv + res + replay + subs + drep, rold, DbColFam::ReplayProt, lk);
    assert(forall|i: int| 0 <= i < drep.len() ==> (#[trigger] drep[i]).0 == DbColFam::Subspace)
        by {
        lemma_diffs_replay_ops_fam(f_dold, db@.subspace, height);
    }
    lemma_last_op_through(meta + conv + res + replay + subs, drep, DbColFam::ReplayProt, lk);
    assert(forall|i: int| 0 <= i < subs.len() ==> (#[trigger] subs[i]).0 == DbColFam::Subspace)
        by {
        lemma_subspace_restore_ops_fam(f_sub, db@.diffs, db@.subspace, prev_height, height);
    }
    lemma_last_op_through(meta + conv + res + replay, subs, DbColFam::ReplayProt, lk);
    crate::db::lemma_last_op_on_add(meta + conv + res, replay, DbColFam::ReplayProt, lk);

    // within the replay restore, the buffered hash is promoted last
    assert(replay =~= dels + promote_ops(f_buf));
    crate::db::lemma_last_op_on_add(dels, promote_ops(f_buf), DbColFam::ReplayProt, lk);
    crate::strings::lemma_prefix_of_concat("buffer/"@, h);
    db.spec_cf(DbColFam::ReplayProt).lemma_filter_exact(
        "buffer/"@,
        crate::replay::buffer_key_spec(h),
    );
    let i = choose|i: int|
        0 <= i < f_buf.len() && (#[trigger] f_buf[i]).0 == crate::replay::buffer_key_spec(h);
    assert(f_buf[i].0.skip("buffer/"@.len() as int) == h) by {
        assert(("buffer/"@ + h).skip("buffer/"@.len() as int) =~= h);
    }
    lemma_promote_last(f_buf, h);
    assert(crate::db::last_op_on(ops, DbColFam::ReplayProt, lk) == Some(
        Some(Seq::<u8>::empty()),
    ));
    crate::db::lemma_apply_ops_get(db@, ops, DbColFam::ReplayProt, lk);
}

/// What the first rollback-family pass leaves under `k` when exactly one
/// entry strips to it: that entry's old value.
proof fn lemma_rb_old_at(f: Seq<(Seq<char>, Seq<u8>)>, height: u64, k: Seq<char>, at: int)
    requires
        0 <= at < f.len(),
        f[at].0.skip(old_diff_pfx(height as nat).len() as int) == k,
        forall|i: int|
            0 <= i < f.len() && i != at ==> (#[trigger] f[i]).0.skip(
                old_diff_pfx(height as nat).len() as int,
            ) != k,
    ensures
        crate::db::last_op_on(rb_old_ops(f, height), DbColFam::Subspace, k) == Some(
            Some(f[at].1),
        ),
    decreases f.len(),
{
    reveal_with_fuel(crate::db::last_op_on, 2);
    let ops = rb_old_ops(f, height);
    assert(ops.last() == (
        DbColFam::Subspace,
        f[f.len() - 1].0.skip(old_diff_pfx(height as nat).len() as int),
        Some(f[f.len() - 1].1),
    ));
    if at == f.len() - 1 {
    } else {
        assert(forall|i: int|
            0 <= i < f.drop_last().len() ==> #[trigger] f.drop_last()[i] == f[i]);
        lemma_rb_old_at(f.drop_last(), height, k, at);
        assert(ops.drop_last() =~= rb_old_ops(f.drop_last(), height));
    }
}

/// The second rollback-family pass leaves alone every key that also has
/// an old diff: its delete is skipped.
proof fn lemma_rb_new_skips(
    f: Seq<(Seq<char>, Seq<u8>)>,
    rb: Map<Seq<char>, Seq<u8>>,
    height: u64,
    k: Seq<char>,
)
    requires
        rb.contains_key(old_diff_key(height as nat, k)),
    ensures
        crate::db::last_op_on(rb_new_ops(f, rb, height), DbColFam::Subspace, k) is None,
    decreases f.len(),
{
    if f.len() > 0 {
        lemma_rb_new_skips(f.drop_last(), rb, height, k);
        let rest = rb_new_ops(f.drop_last(), rb, height);
        let kk = f.last().0.skip(new_diff_pfx(height as nat).len() as int);
        if !rb.contains_key(old_diff_key(height as nat, kk)) {
            let op = (DbColFam::Subspace, kk, None::<Seq<u8>>);
            assert(rb_new_ops(f, rb, height) =~= rest + seq![op]);
            crate::db::lemma_last_op_on_add(rest, seq![op], DbColFam::Subspace, k);
            assert(kk != k);
            assert(crate::db::last_op_on(seq![op], DbColFam::Subspace, k) is None) by {
                reveal_with_fuel(crate::db::last_op_on, 3);
                assert(seq![op].drop_last() =~= Seq::<
                    (DbColFam, Seq<char>, Option<Seq<u8>>),
                >::empty());
                assert(seq![op].last() == op);
            }
        } else {
            assert(rb_new_ops(f, rb, height) == rest);
        }
    }
}

/// What the second rollback-family pass leaves under a key created by the
/// block — a new diff with no old one: a delete.
proof fn lemma_rb_new_at(
    f: Seq<(Seq<char>, Seq<u8>)>,
    rb: Map<Seq<char>, Seq<u8>>,
    height: u64,
    k: Seq<char>,
    at: int,
)
    requires
        0 <= at < f.len(),
        f[at].0.skip(new_diff_pfx(height as nat).len() as int) == k,
        forall|i: int|
            0 <= i < f.len() && i != at ==> (#[trigger] f[i]).0.skip(
                new_diff_pfx(height as nat).len() as int,
            ) != k,
        !rb.contains_key(old_diff_key(height as nat, k)),
    ensures
        crate::db::last_op_on(rb_new_ops(f, rb, height), DbColFam::Subspace, k) == Some(
            None::<Seq<u8>>,
        ),
    decreases f.len(),
{
    assert(f[f.len() - 1] == f.last());
    assert(forall|i: int| 0 <= i < f.drop_last().len() ==> #[trigger] f.drop_last()[i] == f[i]);
    let rest = rb_new_ops(f.drop_last(), rb, height);
    let kk = f.last().0.skip(new_diff_pfx(height as nat).len() as int);
    if at == f.len() - 1 {
        lemma_rb_new_untouched(f.drop_last(), rb, height, k);
        let op = (DbColFam::Subspace, kk, None::<Seq<u8>>);
        assert(rb_new_ops(f, rb, height) =~= rest + seq![op]);
        crate::db::lemma_last_op_on_add(rest, seq![op], DbColFam::Subspace, k);
        assert(crate::db::last_op_on(seq![op], DbColFam::Subspace, k) == Some(None::<Seq<u8>>))
            by {
            reveal_with_fuel(crate::db::last_op_on, 3);
            assert(seq![op].drop_last() =~= Seq::<
                (DbColFam, Seq<char>, Option<Seq<u8>>),
            >::empty());
            assert(seq![op].last() == op);
        }
    } else {
        lemma_rb_new_at(f.drop_last(), rb, height, k, at);
        if !rb.contains_key(old_diff_key(height as nat, kk)) {
            let op = (DbColFam::Subspace, kk, None::<Seq<u8>>);
            assert(rb_new_ops(f, rb, height) =~= rest + seq![op]);
            crate::db::lemma_last_op_on_add(rest, seq![op], DbColFam::Subspace, k);
            assert(crate::db::last_op_on(seq![op], DbColFam::Subspace, k) is None) by {
                reveal_with_fuel(crate::db::last_op_on, 3);
                assert(seq![op].drop_last() =~= Seq::<
                    (DbColFam, Seq<char>, Option<Seq<u8>>),
                >::empty());
                assert(seq![op].last() == op);
            }
        } else {
            assert(rb_new_ops(f, rb, height) == rest);
        }
    }
}

/// Rollback restores a key whose diffs do not persist and that the block
/// changed or deleted: the one-block family's old diff puts its previous
/// value back, overriding whatever the earlier passes wrote.
pub proof fn lemma_rollback_restores_nonpersisted(
    db: RocksDB,
    bs: BlockStateRead,
    prev_height: u64,
    k: Seq<char>,
)
    requires
        db.wf(),
        prev_height < u64::MAX,
        prev_height + 1 == bs.height,
        db@.rollback.contains_key(old_diff_key(bs.height as nat, k)),
    ensures
        map_get(apply_ops(db@, rollback_ops(db, bs, prev_height)).subspace, k) == Some(
            db@.rollback[old_diff_key(bs.height as nat, k)],
        ),
{
    let ops = rollback_ops(db, bs, prev_height);
    let height = bs.height;
    let m = db@.state;
    let front = meta_restore_ops(m, prev_height) + conversion_restore_ops(m, bs, prev_height)
        + seq![(DbColFam::Block, results_key_spec(height as nat), None::<Seq<u8>>)]
        + replay_restore_ops(db) + subspace_restore_ops(
        db.spec_cf(DbColFam::Subspace).entry_seq().filter(prefix_pred(Seq::empty())),
        db@.diffs,
        db@.subspace,
        prev_height,
        height,
    ) + diffs_replay_ops(
        db.spec_cf(DbColFam::Diffs).entry_seq().filter(
            prefix_pred(old_diff_pfx(height as nat)),
        ),
        db@.subspace,
        height,
    );
    let f_rold = db.spec_cf(DbColFam::Rollback).entry_seq().filter(
        prefix_pred(old_diff_pfx(height as nat)),
    );
    let rold = rb_old_ops(f_rold, height);
    let f_rnew = db.spec_cf(DbColFam::Rollback).entry_seq().filter(
        prefix_pred(new_diff_pfx(height as nat)),
    );
    let rnew = rb_new_ops(f_rnew, db@.rollback, height);
    let height_pfx = crate::strings::dec_str(height as nat) + "/"@;
    let deld = prefix_delete_ops(
        db.spec_cf(DbColFam::Diffs).entry_seq().filter(prefix_pred(height_pfx)),
        DbColFam::Diffs,
    );
    let delb = prefix_delete_ops(
        db.spec_cf(DbColFam::Block).entry_seq().filter(prefix_pred(height_pfx)),
        DbColFam::Block,
    );
    assert(ops == front + rold + rnew + deld + delb);
    db.lemma_view_cf(DbColFam::Rollback);

    // the passes after the old-diff restore leave the key alone
    lemma_last_op_through(front + rold + rnew + deld, delb, DbColFam::Subspace, k);
    lemma_last_op_through(front + rold + rnew, deld, DbColFam::Subspace, k);
    lemma_rb_new_skips(f_rnew, db@.rollback, height, k);
    crate::db::lemma_last_op_on_add(front + rold, rnew, DbColFam::Subspace, k);

    // the old-diff restore writes the previous value last
    crate::strings::lemma_prefix_of_concat(old_diff_pfx(height as nat), k);
    db.spec_cf(DbColFam::Rollback).lemma_filter_exact(
        old_diff_pfx(height as nat),
        old_diff_key(height as nat, k),
    );
    let at = choose|i: int|
        0 <= i < f_rold.len() && (#[trigger] f_rold[i]).0 == old_diff_key(height as nat, k);
    assert((old_diff_pfx(height as nat) + k).skip(old_diff_pfx(height as nat).len() as int)
        =~= k);
    assert forall|i: int|
        0 <= i < f_rold.len() && i != at implies (#[trigger] f_rold[i]).0.skip(
        old_diff_pfx(height as nat).len() as int,
    ) != k by {
        db.spec_cf(DbColFam::Rollback).entry_seq().lemma_filter_pred(
            prefix_pred(old_diff_pfx(height as nat)),
            i,
        );
        crate::strings::lemma_prefix_decompose(f_rold[i].0, old_diff_pfx(height as nat));
        if f_rold[i].0.skip(old_diff_pfx(height as nat).len() as int) == k {
            assert(f_rold[i].0 == f_rold[at].0);
            db.spec_cf(DbColFam::Rollback).lemma_sorted();
            Cf::lemma_filter_sorted(
                db.spec_cf(DbColFam::Rollback).entry_seq(),
                prefix_pred(old_diff_pfx(height as nat)),
            );
            if i < at {
                crate::strings::lemma_lex_asym(f_rold[i].0, f_rold[at].0);
            } else {
                crate::strings::lemma_lex_asym(f_rold[at].0, f_rold[i].0);
            }
        }
    }
    lemma_rb_old_at(f_rold, height, k, at);
    crate::db::lemma_last_op_on_add(front, rold, DbColFam::Subspace, k);
    assert(f_rold[at].1 == db@.rollback[old_diff_key(height as nat, k)]);
    crate::db::lemma_apply_ops_get(db@, ops, DbColFam::Subspace, k);
}

/// Rollback deletes a key whose diffs do not persist and that the block
/// created: a new diff with no old one leaves no value behind.
pub proof fn lemma_rollback_deletes_created(
    db: RocksDB,
    bs: BlockStateRead,
    prev_height: u64,
    k: Seq<char>,
)
    requires
        db.wf(),
        prev_height < u64::MAX,
        prev_height + 1 == bs.height,
        db@.rollback.contains_key(new_diff_key(bs.height as nat, k)),
        !db@.rollback.contains_key(old_diff_key(bs.height as nat, k)),
    ensures
        !apply_ops(db@, rollback_ops(db, bs, prev_height)).subspace.contains_key(k),
{
    let ops = rollback_ops(db, bs, prev_height);
    let height = bs.height;
    let m = db@.state;
    let front2 = meta_restore_ops(m, prev_height) + conversion_restore_ops(m, bs, prev_height)
        + seq![(DbColFam::Block, results_key_spec(height as nat), None::<Seq<u8>>)]
        + replay_restore_ops(db) + subspace_restore_ops(
        db.spec_cf(DbColFam::Subspace).entry_seq().filter(prefix_pred(Seq::empty())),
        db@.diffs,
        db@.subspace,
        prev_height,
        height,
    ) + diffs_replay_ops(
        db.spec_cf(DbColFam::Diffs).entry_seq().filter(
            prefix_pred(old_diff_pfx(height as nat)),
        ),
        db@.subspace,
        height,
    ) + rb_old_ops(
        db.spec_cf(DbColFam::Rollback).entry_seq().filter(
            prefix_pred(old_diff_pfx(height as nat)),
        ),
        height,
    );
    let f_rnew = db.spec_cf(DbColFam::Rollback).entry_seq().filter(
        prefix_pred(new_diff_pfx(height as nat)),
    );
    let rnew = rb_new_ops(f_rnew, db@.rollback, height);
    let height_pfx = crate::strings::dec_str(height as nat) + "/"@;
    let deld = prefix_delete_ops(
        db.spec_cf(DbColFam::Diffs).entry_seq().filter(prefix_pred(height_pfx)),
        DbColFam::Diffs,
    );
    let delb = prefix_delete_ops(
        db.spec_cf(DbColFam::Block).entry_seq().filter(prefix_pred(height_pfx)),
        DbColFam::Block,
    );
    assert(ops == front2 + rnew + deld + delb);
    db.lemma_view_cf(DbColFam::Rollback);

    lemma_last_op_through(front2 + rnew + deld, delb, DbColFam::Subspace, k);
    lemma_last_op_through(front2 + rnew, deld, DbColFam::Subspace, k);

    // the created key's delete comes from the new-diff pass
    crate::strings::lemma_prefix_of_concat(new_diff_pfx(height as nat), k);
    db.spec_cf(DbColFam::Rollback).lemma_filter_exact(
        new_diff_pfx(height as nat),
        new_diff_key(height as nat, k),
    );
    let at = choose|i: int|
        0 <= i < f_rnew.len() && (#[trigger] f_rnew[i]).0 == new_diff_key(height as nat, k);
    assert((new_diff_pfx(height as nat) + k).skip(new_diff_pfx(height as nat).len() as int)
        =~= k);
    assert forall|i: int|
        0 <= i < f_rnew.len() && i != at implies (#[trigger] f_rnew[i]).0.skip(
        new_diff_pfx(height as nat).len() as int,
    ) != k by {
        db.spec_cf(DbColFam::Rollback).entry_seq().lemma_filter_pred(
            prefix_pred(new_diff_pfx(height as nat)),
            i,
        );
        crate::strings::lemma_prefix_decompose(f_rnew[i].0, new_diff_pfx(height as nat));
        if f_rnew[i].0.skip(new_diff_pfx(height as nat).len() as int) == k {
            assert(f_rnew[i].0 == f_rnew[at].0);
            db.spec_cf(DbColFam::Rollback).lemma_sorted();
            Cf::lemma_filter_sorted(
                db.spec_cf(DbColFam::Rollback).entry_seq(),
                prefix_pred(new_diff_pfx(height as nat)),
            );
            if i < at {
                crate::strings::lemma_lex_asym(f_rnew[i].0, f_rnew[at].0);
            } else {
                crate::strings::lemma_lex_asym(f_rnew[at].0, f_rnew[i].0);
            }
        }
    }
    lemma_rb_new_at(f_rnew, db@.rollback, height, k, at);
    crate::db::lemma_last_op_on_add(front2, rnew, DbColFam::Subspace, k);
    crate::db::lemma_apply_ops_get(db@, ops, DbColFam::Subspace, k);
}

/// Rollback restores the subspace: a key whose diffs persist holds,
/// after the rollback operations apply, exactly the value its commit
/// trace gives at the previous height — the value it had right after
/// block `prev_height` was committed.
pub proof fn lemma_rollback_restores_subspace(
    db: RocksDB,
    bs: BlockStateRead,
    prev_height: u64,
    k: Seq<char>,
    t: crate::history::Trace,
)
    requires
        db.wf(),
        prev_height < u64::MAX,
        prev_height + 1 == bs.height,
        crate::history::trace_wf(t),
        crate::history::diffs_match(db@.diffs, k, t),
        crate::history::subspace_matches(db@.subspace, k, t, bs.height),
        crate::history::trace_bounded(t, bs.height),
        // the key's diffs persist: the one-block family holds nothing of it
        !db@.rollback.contains_key(old_diff_key(bs.height as nat, k)),
        !db@.rollback.contains_key(new_diff_key(bs.height as nat, k)),
        // subspace keys are account paths; none has the shape of a diff key
        !db@.subspace.contains_key(new_diff_key(bs.height as nat, k)),
    ensures
        map_get(apply_ops(db@, rollback_ops(db, bs, prev_height)).subspace, k)
            == crate::history::trace_val_at(t, prev_height as int),
{
    let ops = rollback_ops(db, bs, prev_height);
    let m = db@.state;
    let height = bs.height;
    let meta = meta_restore_ops(m, prev_height);
    let conv = conversion_restore_ops(m, bs, prev_height);
    let res = seq![
        (DbColFam::Block, results_key_spec(height as nat), None::<Seq<u8>>),
    ];
    let replay = replay_restore_ops(db);
    let f_sub = db.spec_cf(DbColFam::Subspace).entry_seq().filter(prefix_pred(Seq::empty()));
    let subs = subspace_restore_ops(f_sub, db@.diffs, db@.subspace, prev_height, height);
    let f_dold = db.spec_cf(DbColFam::Diffs).entry_seq().filter(
        prefix_pred(old_diff_pfx(height as nat)),
    );
    let drep = diffs_replay_ops(f_dold, db@.subspace, height);
    let f_rold = db.spec_cf(DbColFam::Rollback).entry_seq().filter(
        prefix_pred(old_diff_pfx(height as nat)),
    );
    let rold = rb_old_ops(f_rold, height);
    let f_rnew = db.spec_cf(DbColFam::Rollback).entry_seq().filter(
        prefix_pred(new_diff_pfx(height as nat)),
    );
    let rnew = rb_new_ops(f_rnew, db@.rollback, height);
    let height_pfx = crate::strings::dec_str(height as nat) + "/"@;
    let deld = prefix_delete_ops(
        db.spec_cf(DbColFam::Diffs).entry_seq().filter(prefix_pred(height_pfx)),
        DbColFam::Diffs,
    );
    let delb = prefix_delete_ops(
        db.spec_cf(DbColFam::Block).entry_seq().filter(prefix_pred(height_pfx)),
        DbColFam::Block,
    );
    assert(ops == meta + conv + res + replay + subs + drep + rold + rnew + deld + delb);
    db.lemma_view_cf(DbColFam::Subspace);
    db.lemma_view_cf(DbColFam::Diffs);
    db.lemma_view_cf(DbColFam::Rollback);

    // the trailing delete passes live in other families
    lemma_last_op_through(
        meta + conv + res + replay + subs + drep + rold + rnew + deld,
        delb,
        DbColFam::Subspace,
        k,
    );
    lemma_last_op_through(
        meta + conv + res + replay + subs + drep + rold + rnew,
        deld,
        DbColFam::Subspace,
        k,
    );

    // the one-block passes never touch a key whose diffs persist
    assert forall|i: int|
        0 <= i < f_rnew.len() implies (#[trigger] f_rnew[i]).0.skip(
        new_diff_pfx(height as nat).len() as int,
    ) != k by {
        db.spec_cf(DbColFam::Rollback).entry_seq().lemma_filter_pred(
            prefix_pred(new_diff_pfx(height as nat)),
            i,
        );
        crate::strings::lemma_prefix_decompose(f_rnew[i].0, new_diff_pfx(height as nat));
        if f_rnew[i].0.skip(new_diff_pfx(height as nat).len() as int) == k {
            assert(f_rnew[i].0 == new_diff_key(height as nat, k));
            db.spec_cf(DbColFam::Rollback).lemma_filter_exact(
                new_diff_pfx(height as nat),
                f_rnew[i].0,
            );
        }
    }
    lemma_rb_new_untouched(f_rnew, db@.rollback, height, k);
    crate::db::lemma_last_op_on_add(
        meta + conv + res + replay + subs + drep + rold,
        rnew,
        DbColFam::Subspace,
        k,
    );
    assert forall|i: int|
        0 <= i < f_rold.len() implies (#[trigger] f_rold[i]).0.skip(
        old_diff_pfx(height as nat).len() as int,
    ) != k by {
        db.spec_cf(DbColFam::Rollback).entry_seq().lemma_filter_pred(
            prefix_pred(old_diff_pfx(height as nat)),
            i,
        );
        crate::strings::lemma_prefix_decompose(f_rold[i].0, old_diff_pfx(height as nat));
        if f_rold[i].0.skip(old_diff_pfx(height as nat).len() as int) == k {
            assert(f_rold[i].0 == old_diff_key(height as nat, k));
            db.spec_cf(DbColFam::Rollback).lemma_filter_exact(
                old_diff_pfx(height as nat),
                f_rold[i].0,
            );
        }
    }
    lemma_rb_old_untouched(f_rold, height, k);
    crate::db::lemma_last_op_on_add(
        meta + conv + res + replay + subs + drep,
        rold,
        DbColFam::Subspace,
        k,
    );

    // the head of the batch works on other families
    assert(forall|i: int|
        0 <= i < replay.len() ==> (#[trigger] replay[i]).0 == DbColFam::ReplayProt) by {
        lemma_promote_ops_fam(
            db.spec_cf(DbColFam::ReplayProt).entry_seq().filter(prefix_pred("buffer/"@)),
        );
    }
    crate::db::lemma_last_op_untouched(meta + conv + res + replay, DbColFam::Subspace, k);
    crate::db::lemma_last_op_on_add(meta + conv + res + replay, subs, DbColFam::Subspace, k);
    crate::db::lemma_last_op_on_add(meta + conv + res + replay + subs, drep, DbColFam::Subspace, k);

    // the subspace restore answers the historic read for live keys
    assert(has_prefix(k, Seq::empty())) by {
        assert(k.subrange(0, 0) =~= Seq::<char>::empty());
    }
    db.spec_cf(DbColFam::Subspace).lemma_filter_exact(Seq::empty(), k);
    lemma_subs_restore_last(f_sub, db@.diffs, db@.subspace, prev_height, height, k);

    // the diff replay restores exactly a deleted key's old value
    crate::strings::lemma_prefix_of_concat(old_diff_pfx(height as nat), k);
    db.spec_cf(DbColFam::Diffs).lemma_filter_exact(
        old_diff_pfx(height as nat),
        old_diff_key(height as nat, k),
    );
    crate::db::lemma_apply_ops_get(db@, ops, DbColFam::Subspace, k);
    crate::history::lemma_entry_at_some(t, height);
    if db@.diffs.contains_key(old_diff_key(height as nat, k)) {
        let at = choose|i: int|
            0 <= i < f_dold.len() && (#[trigger] f_dold[i]).0 == old_diff_key(height as nat, k);
        assert((old_diff_pfx(height as nat) + k).skip(old_diff_pfx(height as nat).len() as int)
            =~= k);
        assert forall|i: int|
            0 <= i < f_dold.len() && i != at implies (#[trigger] f_dold[i]).0.skip(
            old_diff_pfx(height as nat).len() as int,
        ) != k by {
            db.spec_cf(DbColFam::Diffs).entry_seq().lemma_filter_pred(
                prefix_pred(old_diff_pfx(height as nat)),
                i,
            );
            crate::strings::lemma_prefix_decompose(f_dold[i].0, old_diff_pfx(height as nat));
            if f_dold[i].0.skip(old_diff_pfx(height as nat).len() as int) == k {
                assert(f_dold[i].0 == f_dold[at].0);
                db.spec_cf(DbColFam::Diffs).lemma_sorted();
                Cf::lemma_filter_sorted(
                    db.spec_cf(DbColFam::Diffs).entry_seq(),
                    prefix_pred(old_diff_pfx(height as nat)),
                );
                if i < at {
                    crate::strings::lemma_lex_asym(f_dold[i].0, f_dold[at].0);
                } else {
                    crate::strings::lemma_lex_asym(f_dold[at].0, f_dold[i].0);
                }
            }
        }
        lemma_diffs_replay_at(f_dold, db@.subspace, height, k, at);
        // the diff value is the value the key held before this block
        assert(f_dold[at].1 == db@.diffs[old_diff_key(height as nat, k)]);
        assert(map_get(db@.diffs, old_diff_key(height as nat, k)) == crate::history::trace_val_at(
            t,
            height - 1,
        ));
    } else {
        assert forall|i: int|
            0 <= i < f_dold.len() implies (#[trigger] f_dold[i]).0.skip(
            old_diff_pfx(height as nat).len() as int,
        ) != k by {
            db.spec_cf(DbColFam::Diffs).entry_seq().lemma_filter_pred(
                prefix_pred(old_diff_pfx(height as nat)),
                i,
            );
            crate::strings::lemma_prefix_decompose(f_dold[i].0, old_diff_pfx(height as nat));
        }
        lemma_diffs_replay_untouched(f_dold, db@.subspace, height, k);
        if db@.subspace.contains_key(k) {
            // the restore pass wrote the historic value
            crate::history::lemma_read_with_height_correct(
                db@.diffs,
                db@.subspace,
                k,
                t,
                prev_height,
                height,
            );
        } else {
            // the key was absent at the last height and did not change
            // with the last block, so it was absent before it too
            match crate::history::entry_at(t, height) {
                Some(nv) => {
                    match nv {
                        Some(v) => {
                            crate::history::lemma_val_at_entry(t, height);
                            assert(map_get(db@.subspace, k) == Some(v));
                            assert(false);
                        },
                        None => {
                            assert(crate::history::trace_val_at(t, height - 1) is Some);
                            assert(db@.diffs.contains_key(old_diff_key(height as nat, k)));
                            assert(false);
                        },
                    }
                },
                None => {
                    crate::history::lemma_trace_const(t, prev_height as int, height as int);
                },
            }
        }
    }
}

impl RocksDB {
    /// Schedules one delete for every key of `fam` beginning with
    /// `prefix`.
    fn delete_prefixed(&self, batch: &mut RocksDBWriteBatch, fam: DbColFam, prefix: &str)
        requires
            self.wf(),
        ensures
            final(batch)@ == old(batch)@ + prefix_delete_ops(
                self.spec_cf(fam).entry_seq().filter(prefix_pred(prefix@)),
                fam,
            ),
    {
        let ghost ops0 = old(batch)@;
        let ghost f = self.spec_cf(fam).entry_seq().filter(prefix_pred(prefix@));
        let cf = self.cf(fam);
        let entries = cf.prefix_entries(prefix);
        let n = entries.len();
        let mut i: usize = 0;
        while i < n
            invariant
                i <= n,
                n == entries@.len(),
                f.len() == n,
                forall|j: int|
                    0 <= j < n ==> ((#[trigger] entries@[j]).0@, entries@[j].1@) == f[j],
                batch@ == ops0 + prefix_delete_ops(f.take(i as int), fam),
            decreases n - i,
        {
            batch.delete(fam, entries[i].0.clone());
            proof {
                assert(batch@ =~= ops0 + prefix_delete_ops(f.take(i + 1), fam));
            }
            i = i + 1;
        }
        proof {
            assert(f.take(n as int) =~= f);
        }
    }

    /// Rolls the store back one block: re-reads the state as of the
    /// previous height and commits the whole rewind as one batch. A target
    /// equal to the recorded height is a completed rollback and changes
    /// nothing; any target other than that or the height before it is
    /// refused.
    #[verifier::rlimit(100)]
    pub fn rollback(&mut self, tendermint_block_height: u64) -> (r: Result<(), Error>)
        requires
            old(self).wf(),
        ensures
            final(self).wf(),
            match r {
                Ok(_) => exists|bs: BlockStateRead|
                    {
                        &&& crate::block::last_block_present(old(self)@, bs.height)
                        &&& #[trigger] crate::block::last_block_matches(old(self)@, bs)
                        &&& {
                            ||| (bs.height == tendermint_block_height && *final(self)
                                == *old(self))
                            ||| (bs.height > 0 && tendermint_block_height == bs.height - 1
                                && final(self)@ == apply_ops(
                                old(self)@,
                                rollback_ops(*old(self), bs, tendermint_block_height),
                            ))
                        }
                    },
                Err(_) => *final(self) == *old(self),
            },
            // a completed rollback — the recorded height already matches —
            // is owed a quiet success
            forall|h: u64|
                (#[trigger] crate::block::last_block_ok(old(self)@, h)
                    && tendermint_block_height == h) ==> r is Ok,
            // any target other than the height or its predecessor is owed
            // the distance refusal
            forall|h: u64|
                (#[trigger] crate::block::last_block_ok(old(self)@, h)
                    && tendermint_block_height != h && (h == 0 || tendermint_block_height != h
                    - 1)) ==> (r matches Err(e) && e is UnsupportedRollbackDistance),
            // a missing metadata sibling is owed the unknown-key refusal
            forall|h: u64|
                (#[trigger] crate::block::last_block_ok(old(self)@, h) && h > 0
                    && tendermint_block_height == h - 1 && !preds_present(old(self)@.state))
                    ==> (r matches Err(e) && e is UnknownKey),
            // the one-step rewind itself is owed success when the siblings
            // are present — the conversion one only when the epoch changed
            forall|h: u64, pe: Seq<u64>, ep: u64|
                (#[trigger] crate::block::last_block_ok(old(self)@, h) && h > 0
                    && tendermint_block_height == h - 1 && preds_present(old(self)@.state)
                    && old(self)@.block[crate::keys::height_seg_key(h as nat, "pred_epochs"@)]
                    == #[trigger] crate::codec::enc_u64_list(pe) && pe.len() <= u32::MAX && old(
                    self,
                )@.block[crate::keys::height_seg_key(h as nat, "epoch"@)]
                    == #[trigger] crate::codec::enc_u64(ep) && (epoch_of_height(
                    pe,
                    (h - 1) as u64,
                ) != Some(ep) ==> old(self)@.state.contains_key(
                    pred_key_spec("conversion_state"@),
                ))) ==> r is Ok,
            forall|h: u64, pe: Seq<u64>, ep: u64|
                (#[trigger] crate::block::last_block_ok(old(self)@, h) && h > 0
                    && tendermint_block_height == h - 1 && preds_present(old(self)@.state)
                    && old(self)@.block[crate::keys::height_seg_key(h as nat, "pred_epochs"@)]
                    == #[trigger] crate::codec::enc_u64_list(pe) && pe.len() <= u32::MAX && old(
                    self,
                )@.block[crate::keys::height_seg_key(h as nat, "epoch"@)]
                    == #[trigger] crate::codec::enc_u64(ep) && epoch_of_height(
                    pe,
                    (h - 1) as u64,
                ) != Some(ep) && !old(self)@.state.contains_key(
                    pred_key_spec("conversion_state"@),
                )) ==> (r matches Err(e) && e is UnknownKey),
    {
        let last_block = match self.read_last_block()? {
            Some(bs) => bs,
            None => {
                proof {
                    assert forall|h: u64|
                        !crate::block::last_block_ok(self@, h) by {
                        if crate::block::last_block_ok(self@, h) {
                            let h2 = choose|h2: u64|
                                self@.state["height"@] == crate::codec::enc_u64(h2)
                                    && !crate::block::last_block_present(self@, h2);
                            crate::codec::lemma_roundtrip_u64(h, h2);
                        }
                    }
                }
                return Err(Error::Io("missing last block in storage".to_owned()));
            },
        };
        proof {
            // a complete block's recorded height, epochs and epoch list are
            // the loaded ones
            assert forall|h: u64|
                (self@.state.contains_key("height"@) && self@.state["height"@]
                    == crate::codec::enc_u64(h)) implies h == last_block.height by {
                crate::codec::lemma_roundtrip_u64(h, last_block.height);
            }
            assert forall|pe: Seq<u64>|
                (pe.len() <= u32::MAX && self@.block[crate::keys::height_seg_key(
                    last_block.height as nat,
                    "pred_epochs"@,
                )] == crate::codec::enc_u64_list(pe)) implies pe == last_block.pred_epochs@ by {
                crate::codec::lemma_roundtrip_u64_list(pe, last_block.pred_epochs@);
            }
            assert forall|ep: u64|
                self@.block[crate::keys::height_seg_key(last_block.height as nat, "epoch"@)]
                    == crate::codec::enc_u64(ep) implies ep == last_block.epoch by {
                crate::codec::lemma_roundtrip_u64(ep, last_block.epoch);
            }
        }
        if tendermint_block_height == last_block.height {
            // the store already sits at the rollback target
            return Ok(());
        }
        if last_block.height == 0 || tendermint_block_height != last_block.height - 1 {
            return Err(Error::UnsupportedRollbackDistance);
        }
        let prev_height = last_block.height - 1;
        let ghost db0 = *self;
        let mut batch = RocksDB::batch();

        // Step 1: metadata singletons move back to their predecessors.
        batch.put(DbColFam::State, "height".to_owned(), crate::codec::encode_u64(prev_height));
        let p1 = match self.read_value_bytes(
            DbColFam::State,
            pred_key("next_epoch_min_start_height").as_str(),
        ) {
            Some(v) => v,
            None => {
                return Err(Error::UnknownKey("pred/next_epoch_min_start_height".to_owned()));
            },
        };
        batch.put(DbColFam::State, "next_epoch_min_start_height".to_owned(), p1);
        let p2 = match self.read_value_bytes(
            DbColFam::State,
            pred_key("next_epoch_min_start_time").as_str(),
        ) {
            Some(v) => v,
            None => {
                return Err(Error::UnknownKey("pred/next_epoch_min_start_time".to_owned()));
            },
        };
        batch.put(DbColFam::State, "next_epoch_min_start_time".to_owned(), p2);
        let p3 = match self.read_value_bytes(
            DbColFam::State,
            pred_key("commit_only_data_commitment").as_str(),
        ) {
            Some(v) => v,
            None => {
                return Err(Error::UnknownKey("pred/commit_only_data_commitment".to_owned()));
            },
        };
        batch.put(DbColFam::State, "commit_only_data_commitment".to_owned(), p3);
        let p4 = match self.read_value_bytes(
            DbColFam::State,
            pred_key("update_epoch_blocks_delay").as_str(),
        ) {
            Some(v) => v,
            None => {
                return Err(Error::UnknownKey("pred/update_epoch_blocks_delay".to_owned()));
            },
        };
        batch.put(DbColFam::State, "update_epoch_blocks_delay".to_owned(), p4);
        proof {
            assert(batch@ =~= meta_restore_ops(self@.state, prev_height));
        }

        // Step 2: the conversion state returns when the epoch had changed.
        if get_epoch_of_height(&last_block.pred_epochs, prev_height).is_none()
            || get_epoch_of_height(&last_block.pred_epochs, prev_height)
            != Some(last_block.epoch) {
            let pc = match self.read_value_bytes(
                DbColFam::State,
                pred_key("conversion_state").as_str(),
            ) {
                Some(v) => v,
                None => {
                    return Err(Error::UnknownKey("pred/conversion_state".to_owned()));
                },
            };
            batch.put(DbColFam::State, "conversion_state".to_owned(), pc);
        }
        let ghost ops_meta = meta_restore_ops(self@.state, prev_height)
            + conversion_restore_ops(self@.state, last_block, prev_height);
        proof {
            assert(batch@ =~= ops_meta);
        }

        // Step 3: the last block's results disappear.
        batch.delete(DbColFam::Block, crate::keys::results_key(last_block.height));
        let ghost ops_res = ops_meta + seq![
            (DbColFam::Block, results_key_spec(last_block.height as nat), None),
        ];
        proof {
            assert(batch@ =~= ops_res);
        }

        // Step 4: replay protection returns to its prior window.
        let ghost f_last = self.spec_cf(DbColFam::ReplayProt).entry_seq().filter(
            prefix_pred("last/"@),
        );
        let replay_cf = self.cf(DbColFam::ReplayProt);
        let last_entries = replay_cf.prefix_entries("last/");
        let n = last_entries.len();
        let mut i: usize = 0;
        while i < n
            invariant
                i <= n,
                n == last_entries@.len(),
                f_last.len() == n,
                forall|j: int|
                    0 <= j < n ==> ((#[trigger] last_entries@[j]).0@, last_entries@[j].1@)
                        == f_last[j],
                batch@ == ops_res + Seq::new(
                    i as nat,
                    |j: int| (DbColFam::ReplayProt, f_last[j].0, None),
                ),
            decreases n - i,
        {
            batch.delete(DbColFam::ReplayProt, last_entries[i].0.clone());
            proof {
                assert(batch@ =~= ops_res + Seq::new(
                    (i + 1) as nat,
                    |j: int| (DbColFam::ReplayProt, f_last[j].0, None),
                ));
            }
            i = i + 1;
        }
        let ghost ops_last = ops_res + Seq::new(
            f_last.len(),
            |j: int| (DbColFam::ReplayProt, f_last[j].0, None),
        );
        proof {
            assert(batch@ =~= ops_last);
        }
        let ghost f_buf = self.spec_cf(DbColFam::ReplayProt).entry_seq().filter(
            prefix_pred("buffer/"@),
        );
        let buf_entries = replay_cf.prefix_entries("buffer/");
        let n2 = buf_entries.len();
        let mut i2: usize = 0;
        while i2 < n2
            invariant
                i2 <= n2,
                n2 == buf_entries@.len(),
                f_buf.len() == n2,
                forall|j: int|
                    0 <= j < n2 ==> ((#[trigger] buf_entries@[j]).0@, buf_entries@[j].1@)
                        == f_buf[j],
                batch@ == ops_last + promote_ops(f_buf.take(i2 as int)),
                self.wf(),
                f_buf == self.spec_cf(DbColFam::ReplayProt).entry_seq().filter(
                    prefix_pred("buffer/"@),
                ),
            decreases n2 - i2,
        {
            proof {
                self.spec_cf(DbColFam::ReplayProt).entry_seq().lemma_filter_pred(
                    prefix_pred("buffer/"@),
                    i2 as int,
                );
            }
            let hash = match crate::strings::str_strip_prefix(
                buf_entries[i2].0.as_str(),
                "buffer/",
            ) {
                Some(h) => h,
                None => {
                    proof {
                        assert(false);
                    }
                    String::new()
                },
            };
            let empty: Vec<u8> = Vec::new();
            batch.put(
                DbColFam::ReplayProt,
                crate::replay::replay_last_key(hash.as_str()),
                empty,
            );
            batch.delete(
                DbColFam::ReplayProt,
                crate::replay::replay_all_key(hash.as_str()),
            );
            proof {
                let cur = f_buf.take(i2 + 1);
                assert(cur.drop_last() =~= f_buf.take(i2 as int));
                assert(cur.last() == f_buf[i2 as int]);
                assert(batch@ =~= ops_last + promote_ops(cur));
            }
            i2 = i2 + 1;
        }
        proof {
            assert(f_buf.take(n2 as int) =~= f_buf);
        }
        let ghost ops_replay = ops_res + replay_restore_ops(db0);
        proof {
            assert(ops_last + promote_ops(f_buf) =~= ops_replay);
            assert(batch@ =~= ops_replay);
        }

        // Step 5: every live subspace key takes its value as of the
        // previous height.
        let ghost f_sub = self.spec_cf(DbColFam::Subspace).entry_seq().filter(
            prefix_pred(Seq::empty()),
        );
        let empty_prefix = String::new();
        let sub_entries = self.cf(DbColFam::Subspace).prefix_entries(empty_prefix.as_str());
        let n3 = sub_entries.len();
        let mut i3: usize = 0;
        while i3 < n3
            invariant
                i3 <= n3,
                n3 == sub_entries@.len(),
                f_sub.len() == n3,
                forall|j: int|
                    0 <= j < n3 ==> ((#[trigger] sub_entries@[j]).0@, sub_entries@[j].1@)
                        == f_sub[j],
                batch@ == ops_replay + subspace_restore_ops(
                    f_sub.take(i3 as int),
                    self@.diffs,
                    self@.subspace,
                    prev_height,
                    last_block.height,
                ),
                self.wf(),
                prev_height < u64::MAX,
                prev_height == last_block.height - 1,
                f_sub == self.spec_cf(DbColFam::Subspace).entry_seq().filter(
                    prefix_pred(Seq::empty()),
                ),
            decreases n3 - i3,
        {
            let restored = self.read_with_height_str(
                sub_entries[i3].0.as_str(),
                prev_height,
                last_block.height,
            );
            match restored {
                Some(v) => {
                    proof {
                        assert(read_with_height_spec(
                            self@.diffs,
                            self@.subspace,
                            sub_entries@[i3 as int].0@,
                            prev_height as nat,
                            last_block.height as nat,
                        ) == Some(v@));
                    }
                    batch.put(DbColFam::Subspace, sub_entries[i3].0.clone(), v);
                },
                None => {
                    proof {
                        assert(read_with_height_spec(
                            self@.diffs,
                            self@.subspace,
                            sub_entries@[i3 as int].0@,
                            prev_height as nat,
                            last_block.height as nat,
                        ) is None);
                    }
                    batch.delete(DbColFam::Subspace, sub_entries[i3].0.clone());
                },
            }
            proof {
                let cur = f_sub.take(i3 + 1);
                assert(cur.drop_last() =~= f_sub.take(i3 as int));
                assert(cur.last() == f_sub[i3 as int]);
                assert(batch@ =~= ops_replay + subspace_restore_ops(
                    cur,
                    self@.diffs,
                    self@.subspace,
                    prev_height,
                    last_block.height,
                ));
            }
            i3 = i3 + 1;
        }
        proof {
            assert(f_sub.take(n3 as int) =~= f_sub);
        }
        let ghost ops_sub = ops_replay + subspace_restore_ops(
            f_sub,
            self@.diffs,
            self@.subspace,
            prev_height,
            last_block.height,
        );
        proof {
            assert(batch@ =~= ops_sub);
        }

        // Step 6: a key deleted by the last block returns from its
        // persistent old diff.
        let old_pfx = crate::keys::old_diff_prefix(last_block.height);
        let new_pfx = crate::keys::new_diff_prefix(last_block.height);
        let ghost f_dold = self.spec_cf(DbColFam::Diffs).entry_seq().filter(
            prefix_pred(old_diff_pfx(last_block.height as nat)),
        );
        let dold_entries = self.cf(DbColFam::Diffs).prefix_entries(old_pfx.as_str());
        let n4 = dold_entries.len();
        let mut i4: usize = 0;
        while i4 < n4
            invariant
                i4 <= n4,
                n4 == dold_entries@.len(),
                f_dold.len() == n4,
                forall|j: int|
                    0 <= j < n4 ==> ((#[trigger] dold_entries@[j]).0@, dold_entries@[j].1@)
                        == f_dold[j],
                batch@ == ops_sub + diffs_replay_ops(
                    f_dold.take(i4 as int),
                    self@.subspace,
                    last_block.height,
                ),
                self.wf(),
                old_pfx@ == old_diff_pfx(last_block.height as nat),
                new_pfx@ == new_diff_pfx(last_block.height as nat),
                f_dold == self.spec_cf(DbColFam::Diffs).entry_seq().filter(
                    prefix_pred(old_diff_pfx(last_block.height as nat)),
                ),
            decreases n4 - i4,
        {
            proof {
                self.spec_cf(DbColFam::Diffs).entry_seq().lemma_filter_pred(
                    prefix_pred(old_diff_pfx(last_block.height as nat)),
                    i4 as int,
                );
            }
            let k = match crate::strings::str_strip_prefix(
                dold_entries[i4].0.as_str(),
                old_pfx.as_str(),
            ) {
                Some(s) => s,
                None => {
                    proof {
                        assert(false);
                    }
                    String::new()
                },
            };
            let mut new_full = new_pfx.clone();
            new_full.append(k.as_str());
            if self.read_value_bytes(DbColFam::Subspace, new_full.as_str()).is_none() {
                batch.put(
                    DbColFam::Subspace,
                    k,
                    crate::store::clone_bytes(&dold_entries[i4].1),
                );
            }
            proof {
                let cur = f_dold.take(i4 + 1);
                assert(cur.drop_last() =~= f_dold.take(i4 as int));
                assert(cur.last() == f_dold[i4 as int]);
                assert(batch@ =~= ops_sub + diffs_replay_ops(
                    cur,
                    self@.subspace,
                    last_block.height,
                ));
            }
            i4 = i4 + 1;
        }
        proof {
            assert(f_dold.take(n4 as int) =~= f_dold);
        }
        let ghost ops_dold = ops_sub + diffs_replay_ops(
            f_dold,
            self@.subspace,
            last_block.height,
        );
        proof {
            assert(batch@ =~= ops_dold);
        }

        // Step 7: one-block diffs replay — old values return, keys the
        // block created disappear.
        let ghost f_rold = self.spec_cf(DbColFam::Rollback).entry_seq().filter(
            prefix_pred(old_diff_pfx(last_block.height as nat)),
        );
        let rold_entries = self.cf(DbColFam::Rollback).prefix_entries(old_pfx.as_str());
        let n5 = rold_entries.len();
        let mut i5: usize = 0;
        while i5 < n5
            invariant
                i5 <= n5,
                n5 == rold_entries@.len(),
                f_rold.len() == n5,
                forall|j: int|
                    0 <= j < n5 ==> ((#[trigger] rold_entries@[j]).0@, rold_entries@[j].1@)
                        == f_rold[j],
                batch@ == ops_dold + rb_old_ops(f_rold.take(i5 as int), last_block.height),
                self.wf(),
                old_pfx@ == old_diff_pfx(last_block.height as nat),
                f_rold == self.spec_cf(DbColFam::Rollback).entry_seq().filter(
                    prefix_pred(old_diff_pfx(last_block.height as nat)),
                ),
            decreases n5 - i5,
        {
            proof {
                self.spec_cf(DbColFam::Rollback).entry_seq().lemma_filter_pred(
                    prefix_pred(old_diff_pfx(last_block.height as nat)),
                    i5 as int,
                );
            }
            let k = match crate::strings::str_strip_prefix(
                rold_entries[i5].0.as_str(),
                old_pfx.as_str(),
            ) {
                Some(s) => s,
                None => {
                    proof {
                        assert(false);
                    }
                    String::new()
                },
            };
            batch.put(DbColFam::Subspace, k, crate::store::clone_bytes(&rold_entries[i5].1));
            proof {
                assert(batch@ =~= ops_dold + rb_old_ops(
                    f_rold.take(i5 + 1),
                    last_block.height,
                ));
            }
            i5 = i5 + 1;
        }
        proof {
            assert(f_rold.take(n5 as int) =~= f_rold);
        }
        let ghost ops_rold = ops_dold + rb_old_ops(f_rold, last_block.height);
        proof {
            assert(batch@ =~= ops_rold);
        }
        let ghost f_rnew = self.spec_cf(DbColFam::Rollback).entry_seq().filter(
            prefix_pred(new_diff_pfx(last_block.height as nat)),
        );
        let rnew_entries = self.cf(DbColFam::Rollback).prefix_entries(new_pfx.as_str());
        let n6 = rnew_entries.len();
        let mut i6: usize = 0;
        while i6 < n6
            invariant
                i6 <= n6,
                n6 == rnew_entries@.len(),
                f_rnew.len() == n6,
                forall|j: int|
                    0 <= j < n6 ==> ((#[trigger] rnew_entries@[j]).0@, rnew_entries@[j].1@)
                        == f_rnew[j],
                batch@ == ops_rold + rb_new_ops(
                    f_rnew.take(i6 as int),
                    self@.rollback,
                    last_block.height,
                ),
                self.wf(),
                new_pfx@ == new_diff_pfx(last_block.height as nat),
                f_rnew == self.spec_cf(DbColFam::Rollback).entry_seq().filter(
                    prefix_pred(new_diff_pfx(last_block.height as nat)),
                ),
            decreases n6 - i6,
        {
            proof {
                self.spec_cf(DbColFam::Rollback).entry_seq().lemma_filter_pred(
                    prefix_pred(new_diff_pfx(last_block.height as nat)),
                    i6 as int,
                );
            }
            let k = match crate::strings::str_strip_prefix(
                rnew_entries[i6].0.as_str(),
                new_pfx.as_str(),
            ) {
                Some(s) => s,
                None => {
                    proof {
                        assert(false);
                    }
                    String::new()
                },
            };
            let (old_key, _new_key) = crate::keys::diff_keys_str(k.as_str(), last_block.height);
            if self.read_value_bytes(DbColFam::Rollback, old_key.as_str()).is_none() {
                batch.delete(DbColFam::Subspace, k);
            }
            proof {
                let cur = f_rnew.take(i6 + 1);
                assert(cur.drop_last() =~= f_rnew.take(i6 as int));
                assert(cur.last() == f_rnew[i6 as int]);
                assert(batch@ =~= ops_rold + rb_new_ops(
                    cur,
                    self@.rollback,
                    last_block.height,
                ));
            }
            i6 = i6 + 1;
        }
        proof {
            assert(f_rnew.take(n6 as int) =~= f_rnew);
        }
        let ghost ops_rnew = ops_rold + rb_new_ops(f_rnew, self@.rollback, last_block.height);
        proof {
            assert(batch@ =~= ops_rnew);
        }

        // Step 8: every key prepended with the rolled-back height leaves
        // the diffs and block families.
        let mut height_pfx = crate::strings::u64_to_string(last_block.height);
        height_pfx.append("/");
        self.delete_prefixed(&mut batch, DbColFam::Diffs, height_pfx.as_str());
        self.delete_prefixed(&mut batch, DbColFam::Block, height_pfx.as_str());
        proof {
            assert(batch@ =~= rollback_ops(db0, last_block, prev_height));
        }

        // Step 9: the whole rewind commits atomically.
        self.exec_batch(batch)?;
        Ok(())
    }
}

} // verus!
