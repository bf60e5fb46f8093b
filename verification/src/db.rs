use vstd::prelude::*;
use crate::error::Error;
use crate::store::{Cf, map_get};

verus! {

/// The fixed set of column families of the engine.
#[derive(Clone, Copy, Debug, PartialEq, Eq, Structural)]
pub enum DbColFam {
    /// Top-level state singletons and their `pred/` siblings.
    State,
    /// The canonical account-keyed byte blobs.
    Subspace,
    /// Per-height diffs of keys whose diffs persist forever.
    Diffs,
    /// Per-height diffs kept only one block, for rollback.
    Rollback,
    /// Per-height block records and Merkle tree stores.
    Block,
    /// Replay-protection hash buckets.
    ReplayProt,
}

impl DbColFam {
    /// The column family's name.
    pub fn to_str(&self) -> (r: &'static str)
        ensures
            r@ == self.name(),
    {
        match self {
            DbColFam::State => "state",
            DbColFam::Subspace => "subspace",
            DbColFam::Diffs => "diffs",
            DbColFam::Rollback => "rollback",
            DbColFam::Block => "block",
            DbColFam::ReplayProt => "replay_protection",
        }
    }

    /// The column family's name.
    pub open spec fn name(self) -> Seq<char> {
        match self {
            DbColFam::State => "state"@,
            DbColFam::Subspace => "subspace"@,
            DbColFam::Diffs => "diffs"@,
            DbColFam::Rollback => "rollback"@,
            DbColFam::Block => "block"@,
            DbColFam::ReplayProt => "replay_protection"@,
        }
    }

    /// Looks a column family up by name.
    pub fn from_str(s: &str) -> (r: Option<DbColFam>)
        ensures
            match r {
                Some(fam) => s@ == fam.name(),
                None => forall|fam: DbColFam| s@ != #[trigger] fam.name(),
            },
    {
        proof {
            reveal_strlit("state");
            reveal_strlit("subspace");
            reveal_strlit("diffs");
            reveal_strlit("rollback");
            reveal_strlit("block");
            reveal_strlit("replay_protection");
        }
        if crate::strings::str_eq(s, "state") {
            Some(DbColFam::State)
        } else if crate::strings::str_eq(s, "subspace") {
            Some(DbColFam::Subspace)
        } else if crate::strings::str_eq(s, "diffs") {
            Some(DbColFam::Diffs)
        } else if crate::strings::str_eq(s, "rollback") {
            Some(DbColFam::Rollback)
        } else if crate::strings::str_eq(s, "block") {
            Some(DbColFam::Block)
        } else if crate::strings::str_eq(s, "replay_protection") {
            Some(DbColFam::ReplayProt)
        } else {
            proof {
                assert forall|fam: DbColFam| s@ != #[trigger] fam.name() by {
                    match fam {
                        DbColFam::State => {},
                        DbColFam::Subspace => {},
                        DbColFam::Diffs => {},
                        DbColFam::Rollback => {},
                        DbColFam::Block => {},
                        DbColFam::ReplayProt => {},
                    }
                }
            }
            None
        }
    }
}

/// One pending operation of a write batch: a put, or a delete when
/// `value` is `None`.
pub struct BatchOp {
    pub fam: DbColFam,
    pub key: String,
    pub value: Option<Vec<u8>>,
}

impl View for BatchOp {
    type V = (DbColFam, Seq<char>, Option<Seq<u8>>);

    open spec fn view(&self) -> (DbColFam, Seq<char>, Option<Seq<u8>>) {
        (self.fam, self.key@, self.value.deep_view())
    }
}

/// A write batch: an in-memory list of puts and deletes across column
/// families, applied atomically by `RocksDB::exec_batch`.
pub struct RocksDBWriteBatch {
    pub ops: Vec<BatchOp>,
}

impl View for RocksDBWriteBatch {
    type V = Seq<(DbColFam, Seq<char>, Option<Seq<u8>>)>;

    open spec fn view(&self) -> Seq<(DbColFam, Seq<char>, Option<Seq<u8>>)> {
        Seq::new(self.ops.len() as nat, |i: int| self.ops[i]@)
    }
}

impl RocksDBWriteBatch {
    /// An empty batch.
    pub fn new() -> (b: RocksDBWriteBatch)
        ensures
            b@ == Seq::<(DbColFam, Seq<char>, Option<Seq<u8>>)>::empty(),
    {
        let b = RocksDBWriteBatch { ops: Vec::new() };
        proof {
            assert(b@ =~= Seq::<(DbColFam, Seq<char>, Option<Seq<u8>>)>::empty());
        }
        b
    }

    /// Schedules a put.
    pub fn put(&mut self, fam: DbColFam, key: String, value: Vec<u8>)
        ensures
            final(self)@ == old(self)@.push((fam, key@, Some(value@))),
    {
        let ghost old_ops = self@;
        let ghost k = key@;
        let ghost v = value@;
        self.ops.push(BatchOp { fam, key, value: Some(value) });
        proof {
            assert(self.ops@.last()@ == (fam, k, Some(v)));
            assert(self@ =~= old_ops.push((fam, k, Some(v))));
        }
    }

    /// Schedules a delete.
    pub fn delete(&mut self, fam: DbColFam, key: String)
        ensures
            final(self)@ == old(self)@.push((fam, key@, None)),
    {
        let ghost old_ops = self@;
        let ghost k = key@;
        self.ops.push(BatchOp { fam, key, value: None });
        proof {
            assert(self.ops@.last()@ == (fam, k, None::<Seq<u8>>));
            assert(self@ =~= old_ops.push((fam, k, None::<Seq<u8>>)));
        }
    }
}

/// The contents of the whole store: one map per column family.
pub struct DbView {
    pub state: Map<Seq<char>, Seq<u8>>,
    pub subspace: Map<Seq<char>, Seq<u8>>,
    pub diffs: Map<Seq<char>, Seq<u8>>,
    pub rollback: Map<Seq<char>, Seq<u8>>,
    pub block: Map<Seq<char>, Seq<u8>>,
    pub replay_prot: Map<Seq<char>, Seq<u8>>,
}

impl DbView {
    /// The map of one column family.
    pub open spec fn cf(self, fam: DbColFam) -> Map<Seq<char>, Seq<u8>> {
        match fam {
            DbColFam::State => self.state,
            DbColFam::Subspace => self.subspace,
            DbColFam::Diffs => self.diffs,
            DbColFam::Rollback => self.rollback,
            DbColFam::Block => self.block,
            DbColFam::ReplayProt => self.replay_prot,
        }
    }

    /// This view with one column family replaced.
    pub open spec fn with_cf(self, fam: DbColFam, m: Map<Seq<char>, Seq<u8>>) -> DbView {
        match fam {
            DbColFam::State => DbView { state: m, ..self },
            DbColFam::Subspace => DbView { subspace: m, ..self },
            DbColFam::Diffs => DbView { diffs: m, ..self },
            DbColFam::Rollback => DbView { rollback: m, ..self },
            DbColFam::Block => DbView { block: m, ..self },
            DbColFam::ReplayProt => DbView { replay_prot: m, ..self },
        }
    }
}

/// The effect of one batch operation on the store contents.
pub open spec fn apply_op(v: DbView, op: (DbColFam, Seq<char>, Option<Seq<u8>>)) -> DbView {
    match op.2 {
        Some(value) => v.with_cf(op.0, v.cf(op.0).insert(op.1, value)),
        None => v.with_cf(op.0, v.cf(op.0).remove(op.1)),
    }
}

/// The effect of a batch on the store contents, operations applied in order.
pub open spec fn apply_ops(
    v: DbView,
    ops: Seq<(DbColFam, Seq<char>, Option<Seq<u8>>)>,
) -> DbView
    decreases ops.len(),
{
    if ops.len() == 0 {
        v
    } else {
        apply_op(apply_ops(v, ops.drop_last()), ops.last())
    }
}

/// The last operation of `ops` touching `key` in `fam`: `None` when the
/// batch leaves the key alone, otherwise the put value or the delete.
pub open spec fn last_op_on(
    ops: Seq<(DbColFam, Seq<char>, Option<Seq<u8>>)>,
    fam: DbColFam,
    key: Seq<char>,
) -> Option<Option<Seq<u8>>>
    decreases ops.len(),
{
    if ops.len() == 0 {
        None
    } else if ops.last().0 == fam && ops.last().1 == key {
        Some(ops.last().2)
    } else {
        last_op_on(ops.drop_last(), fam, key)
    }
}

/// What a batch leaves under one key: the batch's last operation on the
/// key when there is one, else what the store held before.
pub proof fn lemma_apply_ops_get(
    v: DbView,
    ops: Seq<(DbColFam, Seq<char>, Option<Seq<u8>>)>,
    fam: DbColFam,
    key: Seq<char>,
)
    ensures
        crate::store::map_get(apply_ops(v, ops).cf(fam), key) == match last_op_on(ops, fam, key) {
            Some(change) => change,
            None => crate::store::map_get(v.cf(fam), key),
        },
    decreases ops.len(),
{
    if ops.len() > 0 {
        lemma_apply_ops_get(v, ops.drop_last(), fam, key);
        let w = apply_ops(v, ops.drop_last());
        let op = ops.last();
        assert(apply_ops(v, ops) == apply_op(w, op));
        match op.2 {
            Some(value) => {
                if op.0 == fam {
                    assert(apply_op(w, op).cf(fam) == w.cf(fam).insert(op.1, value));
                } else {
                    assert(apply_op(w, op).cf(fam) == w.cf(fam));
                }
            },
            None => {
                if op.0 == fam {
                    assert(apply_op(w, op).cf(fam) == w.cf(fam).remove(op.1));
                } else {
                    assert(apply_op(w, op).cf(fam) == w.cf(fam));
                }
            },
        }
    }
}

/// Extending a batch only re-routes keys the extension touches: on a key
/// the extension leaves alone, the whole batch acts as its front part.
pub proof fn lemma_last_op_on_add(
    a: Seq<(DbColFam, Seq<char>, Option<Seq<u8>>)>,
    b: Seq<(DbColFam, Seq<char>, Option<Seq<u8>>)>,
    fam: DbColFam,
    key: Seq<char>,
)
    ensures
        last_op_on(a + b, fam, key) == match last_op_on(b, fam, key) {
            Some(change) => Some(change),
            None => last_op_on(a, fam, key),
        },
    decreases b.len(),
{
    if b.len() == 0 {
        assert(a + b =~= a);
    } else {
        assert((a + b).drop_last() =~= a + b.drop_last());
        assert((a + b).last() == b.last());
        lemma_last_op_on_add(a, b.drop_last(), fam, key);
    }
}

/// A batch that never names a key leaves it alone.
pub proof fn lemma_last_op_untouched(
    ops: Seq<(DbColFam, Seq<char>, Option<Seq<u8>>)>,
    fam: DbColFam,
    key: Seq<char>,
)
    requires
        forall|i: int| 0 <= i < ops.len() ==> !((#[trigger] ops[i]).0 == fam && ops[i].1 == key),
    ensures
        last_op_on(ops, fam, key) is None,
    decreases ops.len(),
{
    if ops.len() > 0 {
        assert(ops[ops.len() - 1] == ops.last());
        lemma_last_op_untouched(ops.drop_last(), fam, key);
    }
}

/// A batch that names a key decides it.
pub proof fn lemma_last_op_touched(
    ops: Seq<(DbColFam, Seq<char>, Option<Seq<u8>>)>,
    fam: DbColFam,
    key: Seq<char>,
)
    requires
        exists|i: int| 0 <= i < ops.len() && (#[trigger] ops[i]).0 == fam && ops[i].1 == key,
    ensures
        last_op_on(ops, fam, key) is Some,
    decreases ops.len(),
{
    if ops.last().0 == fam && ops.last().1 == key {
    } else {
        let i = choose|i: int| 0 <= i < ops.len() && (#[trigger] ops[i]).0 == fam && ops[i].1
            == key;
        assert(ops.drop_last()[i] == ops[i]);
        lemma_last_op_touched(ops.drop_last(), fam, key);
    }
}

/// A batch of deletes only ever removes.
pub proof fn lemma_last_op_all_deletes(
    ops: Seq<(DbColFam, Seq<char>, Option<Seq<u8>>)>,
    fam: DbColFam,
    key: Seq<char>,
)
    requires
        forall|i: int| 0 <= i < ops.len() ==> (#[trigger] ops[i]).2 is None,
    ensures
        last_op_on(ops, fam, key) is None || last_op_on(ops, fam, key) == Some(
            None::<Seq<u8>>,
        ),
    decreases ops.len(),
{
    if ops.len() > 0 {
        assert(ops[ops.len() - 1] == ops.last());
        lemma_last_op_all_deletes(ops.drop_last(), fam, key);
    }
}

/// Opens the storage engine: raises the process file-descriptor limit as
/// far as the system allows — failure there is tolerated — and hands back
/// the store with its six column families ready.
pub fn open() -> (db: RocksDB)
    ensures
        db.wf(),
        forall|fam: DbColFam| db@.cf(fam) == Map::<Seq<char>, Seq<u8>>::empty(),
{
    let _ = crate::limits::increase_nofile_limit();
    RocksDB::open()
}

/// The block-state storage engine: six column families holding the
/// committed chain state.
pub struct RocksDB {
    state: Cf,
    subspace: Cf,
    diffs: Cf,
    rollback: Cf,
    block: Cf,
    replay_prot: Cf,
}

impl View for RocksDB {
    type V = DbView;

    closed spec fn view(&self) -> DbView {
        DbView {
            state: self.state.as_map(),
            subspace: self.subspace.as_map(),
            diffs: self.diffs.as_map(),
            rollback: self.rollback.as_map(),
            block: self.block.as_map(),
            replay_prot: self.replay_prot.as_map(),
        }
    }
}

impl RocksDB {
    /// All column families keep their entries sorted.
    pub closed spec fn wf(self) -> bool {
        self.state.wf() && self.subspace.wf() && self.diffs.wf() && self.rollback.wf()
            && self.block.wf() && self.replay_prot.wf()
    }

    /// The column family struct selected by `fam`.
    pub closed spec fn spec_cf(self, fam: DbColFam) -> Cf {
        match fam {
            DbColFam::State => self.state,
            DbColFam::Subspace => self.subspace,
            DbColFam::Diffs => self.diffs,
            DbColFam::Rollback => self.rollback,
            DbColFam::Block => self.block,
            DbColFam::ReplayProt => self.replay_prot,
        }
    }

    /// The store's view agrees with its column family structs.
    pub proof fn lemma_view_cf(self, fam: DbColFam)
        ensures
            self@.cf(fam) == self.spec_cf(fam).as_map(),
            self.wf() ==> self.spec_cf(fam).wf(),
    {
    }

    /// A reference to the column family selected by `fam`.
    pub fn cf(&self, fam: DbColFam) -> (c: &Cf)
        ensures
            *c == self.spec_cf(fam),
            self.wf() ==> c.wf(),
            c.as_map() == self@.cf(fam),
    {
        match fam {
            DbColFam::State => &self.state,
            DbColFam::Subspace => &self.subspace,
            DbColFam::Diffs => &self.diffs,
            DbColFam::Rollback => &self.rollback,
            DbColFam::Block => &self.block,
            DbColFam::ReplayProt => &self.replay_prot,
        }
    }

    /// Opens a fresh engine with the six column families, all empty.
    pub fn open() -> (db: RocksDB)
        ensures
            db.wf(),
            forall|fam: DbColFam| db@.cf(fam) == Map::<Seq<char>, Seq<u8>>::empty(),
    {
        let db = RocksDB {
            state: Cf::new(),
            subspace: Cf::new(),
            diffs: Cf::new(),
            rollback: Cf::new(),
            block: Cf::new(),
            replay_prot: Cf::new(),
        };
        proof {
            assert forall|fam: DbColFam| db@.cf(fam) == Map::<Seq<char>, Seq<u8>>::empty() by {
                match fam {
                    DbColFam::State => {},
                    DbColFam::Subspace => {},
                    DbColFam::Diffs => {},
                    DbColFam::Rollback => {},
                    DbColFam::Block => {},
                    DbColFam::ReplayProt => {},
                }
            }
        }
        db
    }

    /// A point read of the current value under `key` in one column family.
    pub fn read_value_bytes(&self, fam: DbColFam, key: &str) -> (r: Option<Vec<u8>>)
        requires
            self.wf(),
        ensures
            r.deep_view() == map_get(self@.cf(fam), key@),
            r matches Some(v) ==> map_get(self@.cf(fam), key@) == Some(v@),
            r is None ==> map_get(self@.cf(fam), key@) is None,
    {
        let r = self.cf(fam).get(key);
        proof {
            match &r {
                Some(v) => {
                    assert(r.deep_view() == Some(v@));
                },
                None => {
                    assert(r.deep_view() == None::<Seq<u8>>);
                },
            }
        }
        r
    }

    /// Writes one value directly, bypassing batches.
    fn put_now(&mut self, fam: DbColFam, key: &str, value: Vec<u8>)
        requires
            old(self).wf(),
        ensures
            final(self).wf(),
            final(self)@ == old(self)@.with_cf(fam, old(self)@.cf(fam).insert(key@, value@)),
    {
        match fam {
            DbColFam::State => self.state.insert(key, value),
            DbColFam::Subspace => self.subspace.insert(key, value),
            DbColFam::Diffs => self.diffs.insert(key, value),
            DbColFam::Rollback => self.rollback.insert(key, value),
            DbColFam::Block => self.block.insert(key, value),
            DbColFam::ReplayProt => self.replay_prot.insert(key, value),
        }
    }

    /// Deletes one key directly, bypassing batches.
    fn delete_now(&mut self, fam: DbColFam, key: &str)
        requires
            old(self).wf(),
        ensures
            final(self).wf(),
            final(self)@ == old(self)@.with_cf(fam, old(self)@.cf(fam).remove(key@)),
    {
        match fam {
            DbColFam::State => self.state.delete(key),
            DbColFam::Subspace => self.subspace.delete(key),
            DbColFam::Diffs => self.diffs.delete(key),
            DbColFam::Rollback => self.rollback.delete(key),
            DbColFam::Block => self.block.delete(key),
            DbColFam::ReplayProt => self.replay_prot.delete(key),
        }
    }

    /// Flushes buffered writes. The store applies batches synchronously,
    /// so there is nothing left to write out; the call reports success.
    pub fn flush(&self, _wait: bool) -> (r: Result<(), Error>)
        ensures
            r is Ok,
    {
        Ok(())
    }

    /// Creates an empty write batch.
    pub fn batch() -> (b: RocksDBWriteBatch)
        ensures
            b@ == Seq::<(DbColFam, Seq<char>, Option<Seq<u8>>)>::empty(),
    {
        RocksDBWriteBatch::new()
    }

    /// Applies every operation of the batch, in order. The store holds the
    /// batch's whole effect afterwards; no caller observes a prefix of it.
    pub fn exec_batch(&mut self, batch: RocksDBWriteBatch) -> (r: Result<(), Error>)
        requires
            old(self).wf(),
        ensures
            final(self).wf(),
            final(self)@ == apply_ops(old(self)@, batch@),
            r is Ok,
    {
        let ghost v0 = old(self)@;
        let ghost ops = batch@;
        let n = batch.ops.len();
        let mut i: usize = 0;
        proof {
            assert(ops.take(0) =~= Seq::<(DbColFam, Seq<char>, Option<Seq<u8>>)>::empty());
        }
        while i < n
            invariant
                i <= n,
                n == batch.ops@.len(),
                ops == batch@,
                self.wf(),
                self@ == apply_ops(v0, ops.take(i as int)),
            decreases n - i,
        {
            proof {
                assert(ops.take(i + 1).drop_last() =~= ops.take(i as int));
                assert(ops.take(i + 1).last() == ops[i as int]);
                assert(ops[i as int] == batch.ops[i as int]@);
            }
            let ghost prev = self@;
            let op = &batch.ops[i];
            match &op.value {
                Some(v) => {
                    let value = crate::store::clone_bytes(v);
                    self.put_now(op.fam, op.key.as_str(), value);
                    proof {
                        assert(ops[i as int].2 == Some(v@));
                        assert(self@ == apply_op(prev, ops[i as int]));
                    }
                },
                None => {
                    self.delete_now(op.fam, op.key.as_str());
                    proof {
                        assert(ops[i as int].2 == None::<Seq<u8>>);
                        assert(self@ == apply_op(prev, ops[i as int]));
                    }
                },
            }
            proof {
                assert(apply_ops(v0, ops.take(i + 1)) == apply_op(
                    apply_ops(v0, ops.take(i as int)),
                    ops[i as int],
                ));
            }
            i = i + 1;
        }
        proof {
            assert(ops.take(n as int) =~= ops);
        }
        Ok(())
    }
}

} // verus!
