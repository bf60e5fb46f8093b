use vstd::prelude::*;
use vstd::utf8::encode_utf8;
use crate::codec::{enc_bytes, enc_opt_u64, enc_string, enc_u64, enc_u64_list};
use crate::codec::{decode_bytes, decode_opt_u64, decode_string, decode_u64, decode_u64_list, encode_bytes, encode_opt_u64, encode_string, encode_u64, encode_u64_list};
use crate::db::{DbColFam, DbView, RocksDB, RocksDBWriteBatch};
use crate::error::Error;
use crate::keys::{height_seg_key, pred_key_spec, results_key_spec};
use crate::store::map_get;
use crate::strings::dec_str;

verus! {

/// The sub-trees composing the ledger's Merkle state.
#[derive(Clone, Copy, Debug, PartialEq, Eq, Structural)]
pub enum StoreType {
    /// The base tree over the other trees' roots; kept per height.
    Base,
    /// The accounts tree; kept per epoch.
    Account,
    /// The inter-blockchain state tree; kept per epoch.
    Ibc,
    /// The proof-of-stake tree; kept per epoch.
    Pos,
    /// The bridge pool tree; kept per epoch.
    BridgePool,
    /// The commit-only data; kept per height.
    CommitData,
}

impl StoreType {
    /// Whether this store is keyed by block height rather than by epoch.
    pub open spec fn keyed_by_height(self) -> bool {
        self == StoreType::Base || self == StoreType::CommitData
    }

    /// The key segment naming this store.
    pub open spec fn seg(self) -> Seq<char> {
        match self {
            StoreType::Base => "base"@,
            StoreType::Account => "account"@,
            StoreType::Ibc => "ibc"@,
            StoreType::Pos => "pos"@,
            StoreType::BridgePool => "bridge_pool"@,
            StoreType::CommitData => "commit_data"@,
        }
    }

    /// The key segment naming this store.
    pub fn seg_str(&self) -> (r: &'static str)
        ensures
            r@ == self.seg(),
    {
        match self {
            StoreType::Base => "base",
            StoreType::Account => "account",
            StoreType::Ibc => "ibc",
            StoreType::Pos => "pos",
            StoreType::BridgePool => "bridge_pool",
            StoreType::CommitData => "commit_data",
        }
    }

    /// Whether this store is keyed by block height rather than by epoch.
    pub fn is_keyed_by_height(&self) -> (r: bool)
        ensures
            r == self.keyed_by_height(),
    {
        match self {
            StoreType::Base => true,
            StoreType::CommitData => true,
            _ => false,
        }
    }

    /// All store types, in the order blocks persist them.
    pub open spec fn all_spec() -> Seq<StoreType> {
        seq![
            StoreType::Base,
            StoreType::Account,
            StoreType::Ibc,
            StoreType::Pos,
            StoreType::BridgePool,
            StoreType::CommitData,
        ]
    }

    /// All store types, in the order blocks persist them.
    pub fn all() -> (r: Vec<StoreType>)
        ensures
            r@ == StoreType::all_spec(),
    {
        let mut r: Vec<StoreType> = Vec::new();
        r.push(StoreType::Base);
        r.push(StoreType::Account);
        r.push(StoreType::Ibc);
        r.push(StoreType::Pos);
        r.push(StoreType::BridgePool);
        r.push(StoreType::CommitData);
        proof {
            assert(r@ =~= StoreType::all_spec());
        }
        r
    }

    /// The selector a block uses for this store: the height for per-height
    /// stores, else the epoch.
    pub open spec fn selector(self, epoch: nat, height: nat) -> nat {
        if self.keyed_by_height() {
            height
        } else {
            epoch
        }
    }
}

/// The store types one read requests: the named one, or all of them.
pub open spec fn wanted_stores(store_type: Option<StoreType>) -> Seq<StoreType> {
    match store_type {
        Some(st) => seq![st],
        None => StoreType::all_spec(),
    }
}

/// The key of a Merkle root entry: `<store-type>/<selector>/root`.
pub open spec fn merkle_root_key(st: StoreType, sel: nat) -> Seq<char> {
    st.seg() + "/"@ + dec_str(sel) + "/root"@
}

/// The key of a Merkle store entry: `<store-type>/<selector>/store`.
pub open spec fn merkle_store_key(st: StoreType, sel: nat) -> Seq<char> {
    st.seg() + "/"@ + dec_str(sel) + "/store"@
}

/// Composes the Merkle root and store keys for one store and selector.
pub fn merkle_keys(st: &StoreType, sel: u64) -> (r: (String, String))
    ensures
        r.0@ == merkle_root_key(*st, sel as nat),
        r.1@ == merkle_store_key(*st, sel as nat),
{
    let mut p = st.seg_str().to_owned();
    p.append("/");
    p.append(crate::strings::u64_to_string(sel).as_str());
    let mut root = p.clone();
    root.append("/root");
    let mut store = p;
    store.append("/store");
    (root, store)
}

/// Everything a block commit persists.
pub struct BlockStateWrite {
    /// One (store type, root, encoded store) triple per Merkle sub-tree.
    pub merkle_tree_stores: Vec<(StoreType, Vec<u8>, Vec<u8>)>,
    /// The encoded block header, when kept.
    pub header: Option<Vec<u8>>,
    /// The block hash.
    pub hash: String,
    /// The committed height.
    pub height: u64,
    /// The block time.
    pub time: String,
    /// The block's epoch.
    pub epoch: u64,
    /// The first height of every epoch so far.
    pub pred_epochs: Vec<u64>,
    /// The lowest height at which the next epoch may start.
    pub next_epoch_min_start_height: u64,
    /// The earliest time at which the next epoch may start.
    pub next_epoch_min_start_time: String,
    /// Blocks still to wait before an epoch update, when counting.
    pub update_epoch_blocks_delay: Option<u64>,
    /// The established-address generator state.
    pub address_gen: Vec<u8>,
    /// The block results.
    pub results: Vec<u8>,
    /// The conversion state, persisted on full commits.
    pub conversion_state: Vec<u8>,
    /// The last Ethereum block seen by the oracle, if any.
    pub ethereum_height: Option<u64>,
    /// The queue of confirmed Ethereum events.
    pub eth_events_queue: Vec<u8>,
    /// The commit-only data commitment.
    pub commit_only_data: Vec<u8>,
}

impl BlockStateWrite {
    /// The machine bounds under which every field encodes.
    pub open spec fn encodable(self) -> bool {
        &&& encode_utf8(self.hash@).len() <= u32::MAX
        &&& encode_utf8(self.time@).len() <= u32::MAX
        &&& encode_utf8(self.next_epoch_min_start_time@).len() <= u32::MAX
        &&& self.pred_epochs@.len() <= u32::MAX
        &&& self.address_gen@.len() <= u32::MAX
        &&& self.results@.len() <= u32::MAX
        &&& self.conversion_state@.len() <= u32::MAX
        &&& self.eth_events_queue@.len() <= u32::MAX
        &&& self.commit_only_data@.len() <= u32::MAX
        &&& (self.header matches Some(h) ==> h@.len() <= u32::MAX)
        &&& forall|i: int|
            0 <= i < self.merkle_tree_stores@.len() ==> (#[trigger] self.merkle_tree_stores@[
            i]).1@.len() <= u32::MAX
    }
}

/// The state a node reloads from the last committed block.
pub struct BlockStateRead {
    /// The block hash.
    pub hash: String,
    /// The committed height.
    pub height: u64,
    /// The block time.
    pub time: String,
    /// The block's epoch.
    pub epoch: u64,
    /// The first height of every epoch so far.
    pub pred_epochs: Vec<u64>,
    /// The block results.
    pub results: Vec<u8>,
    /// The conversion state.
    pub conversion_state: Vec<u8>,
    /// The lowest height at which the next epoch may start.
    pub next_epoch_min_start_height: u64,
    /// The earliest time at which the next epoch may start.
    pub next_epoch_min_start_time: String,
    /// Blocks still to wait before an epoch update, when counting.
    pub update_epoch_blocks_delay: Option<u64>,
    /// The established-address generator state.
    pub address_gen: Vec<u8>,
    /// The last Ethereum block seen by the oracle, if any.
    pub ethereum_height: Option<u64>,
    /// The queue of confirmed Ethereum events.
    pub eth_events_queue: Vec<u8>,
    /// The commit-only data commitment.
    pub commit_only_data: Vec<u8>,
}

/// The puts recording one state singleton: its current value moves to the
/// `pred/` sibling first, when there is one.
pub open spec fn state_value_ops(m: Map<Seq<char>, Seq<u8>>, name: Seq<char>, enc: Seq<u8>) -> Seq<
    (DbColFam, Seq<char>, Option<Seq<u8>>),
> {
    match map_get(m, name) {
        Some(p) => seq![
            (DbColFam::State, pred_key_spec(name), Some(p)),
            (DbColFam::State, name, Some(enc)),
        ],
        None => seq![(DbColFam::State, name, Some(enc))],
    }
}

/// The Merkle entries a block writes: per-height stores always, the rest
/// only on a full commit; each as an encoded root and a raw store blob.
pub open spec fn merkle_ops(
    entries: Seq<(StoreType, Vec<u8>, Vec<u8>)>,
    epoch: nat,
    height: nat,
    full: bool,
) -> Seq<(DbColFam, Seq<char>, Option<Seq<u8>>)>
    decreases entries.len(),
{
    if entries.len() == 0 {
        Seq::empty()
    } else {
        let rest = merkle_ops(entries.drop_last(), epoch, height, full);
        let e = entries.last();
        if e.0.keyed_by_height() || full {
            rest + seq![
                (DbColFam::Block, merkle_root_key(e.0, e.0.selector(epoch, height)), Some(
                enc_bytes(e.1@))),
                (DbColFam::Block, merkle_store_key(e.0, e.0.selector(epoch, height)), Some(
                e.2@)),
            ]
        } else {
            rest
        }
    }
}

/// Every operation of a block commit, in the order the writer schedules
/// them; the height goes last, as the marker that the block is complete.
pub open spec fn block_write_ops(m: Map<Seq<char>, Seq<u8>>, st: BlockStateWrite, full: bool) -> Seq<
    (DbColFam, Seq<char>, Option<Seq<u8>>),
> {
    state_value_ops(m, "next_epoch_min_start_height"@, enc_u64(st.next_epoch_min_start_height))
        + state_value_ops(m, "next_epoch_min_start_time"@, enc_string(st.next_epoch_min_start_time@))
        + state_value_ops(m, "update_epoch_blocks_delay"@, enc_opt_u64(st.update_epoch_blocks_delay))
        + state_value_ops(m, "commit_only_data_commitment"@, enc_bytes(st.commit_only_data@)) + (
    if full {
        state_value_ops(m, "conversion_state"@, enc_bytes(st.conversion_state@))
    } else {
        Seq::empty()
    }) + seq![
        (DbColFam::State, "ethereum_height"@, Some(enc_opt_u64(st.ethereum_height))),
        (DbColFam::State, "eth_events_queue"@, Some(enc_bytes(st.eth_events_queue@))),
    ] + merkle_ops(st.merkle_tree_stores@, st.epoch as nat, st.height as nat, full) + (
    match st.header {
        Some(h) => seq![
            (DbColFam::Block, height_seg_key(st.height as nat, "header"@), Some(enc_bytes(h@))),
        ],
        None => Seq::empty(),
    }) + seq![
        (DbColFam::Block, height_seg_key(st.height as nat, "hash"@), Some(enc_string(st.hash@))),
        (DbColFam::Block, height_seg_key(st.height as nat, "time"@), Some(enc_string(st.time@))),
        (DbColFam::Block, height_seg_key(st.height as nat, "epoch"@), Some(enc_u64(st.epoch))),
        (DbColFam::Block, results_key_spec(st.height as nat), Some(enc_bytes(st.results@))),
        (DbColFam::Block, height_seg_key(st.height as nat, "pred_epochs"@), Some(
        enc_u64_list(st.pred_epochs@))),
        (DbColFam::Block, height_seg_key(st.height as nat, "address_gen"@), Some(
        enc_bytes(st.address_gen@))),
        (DbColFam::State, "height"@, Some(enc_u64(st.height))),
    ]
}

/// Whether every entry a loaded block needs is present for height `h`.
pub open spec fn last_block_present(v: DbView, h: u64) -> bool {
    &&& v.state.contains_key("next_epoch_min_start_height"@)
    &&& v.state.contains_key("next_epoch_min_start_time"@)
    &&& v.state.contains_key("update_epoch_blocks_delay"@)
    &&& v.state.contains_key("commit_only_data_commitment"@)
    &&& v.state.contains_key("conversion_state"@)
    &&& v.state.contains_key("ethereum_height"@)
    &&& v.state.contains_key("eth_events_queue"@)
    &&& v.block.contains_key(results_key_spec(h as nat))
    &&& v.block.contains_key(height_seg_key(h as nat, "hash"@))
    &&& v.block.contains_key(height_seg_key(h as nat, "time"@))
    &&& v.block.contains_key(height_seg_key(h as nat, "epoch"@))
    &&& v.block.contains_key(height_seg_key(h as nat, "pred_epochs"@))
    &&& v.block.contains_key(height_seg_key(h as nat, "address_gen"@))
}

/// Whether every entry a loaded block needs decodes: each stored byte
/// string lies in its encoder's image.
pub open spec fn last_block_decodable(v: DbView, h: u64) -> bool {
    &&& crate::codec::decodable_u64(v.state["next_epoch_min_start_height"@])
    &&& crate::codec::decodable_string(v.state["next_epoch_min_start_time"@])
    &&& crate::codec::decodable_opt_u64(v.state["update_epoch_blocks_delay"@])
    &&& crate::codec::decodable_bytes(v.state["commit_only_data_commitment"@])
    &&& crate::codec::decodable_bytes(v.state["conversion_state"@])
    &&& crate::codec::decodable_opt_u64(v.state["ethereum_height"@])
    &&& crate::codec::decodable_bytes(v.state["eth_events_queue"@])
    &&& crate::codec::decodable_bytes(v.block[results_key_spec(h as nat)])
    &&& crate::codec::decodable_string(v.block[height_seg_key(h as nat, "hash"@)])
    &&& crate::codec::decodable_string(v.block[height_seg_key(h as nat, "time"@)])
    &&& crate::codec::decodable_u64(v.block[height_seg_key(h as nat, "epoch"@)])
    &&& crate::codec::decodable_u64_list(v.block[height_seg_key(h as nat, "pred_epochs"@)])
    &&& crate::codec::decodable_bytes(v.block[height_seg_key(h as nat, "address_gen"@)])
}

/// Whether the store records a loadable last block at height `h`: the
/// height marker says `h`, every required entry is present, and every
/// entry decodes. Loading is owed success exactly here.
pub open spec fn last_block_ok(v: DbView, h: u64) -> bool {
    &&& v.state.contains_key("height"@)
    &&& v.state["height"@] == enc_u64(h)
    &&& last_block_present(v, h)
    &&& last_block_decodable(v, h)
}

/// Whether the loaded block state matches the stored encodings for height
/// `bs.height`.
pub open spec fn last_block_matches(v: DbView, bs: BlockStateRead) -> bool {
    &&& v.state["height"@] == enc_u64(bs.height)
    &&& v.state["next_epoch_min_start_height"@] == enc_u64(bs.next_epoch_min_start_height)
    &&& v.state["next_epoch_min_start_time"@] == enc_string(bs.next_epoch_min_start_time@)
    &&& v.state["update_epoch_blocks_delay"@] == enc_opt_u64(bs.update_epoch_blocks_delay)
    &&& v.state["commit_only_data_commitment"@] == enc_bytes(bs.commit_only_data@)
    &&& v.state["conversion_state"@] == enc_bytes(bs.conversion_state@)
    &&& v.state["ethereum_height"@] == enc_opt_u64(bs.ethereum_height)
    &&& v.state["eth_events_queue"@] == enc_bytes(bs.eth_events_queue@)
    &&& v.block[results_key_spec(bs.height as nat)] == enc_bytes(bs.results@)
    &&& v.block[height_seg_key(bs.height as nat, "hash"@)] == enc_string(bs.hash@)
    &&& v.block[height_seg_key(bs.height as nat, "time"@)] == enc_string(bs.time@)
    &&& v.block[height_seg_key(bs.height as nat, "epoch"@)] == enc_u64(bs.epoch)
    &&& v.block[height_seg_key(bs.height as nat, "pred_epochs"@)] == enc_u64_list(bs.pred_epochs@)
    &&& v.block[height_seg_key(bs.height as nat, "address_gen"@)] == enc_bytes(bs.address_gen@)
}

impl RocksDB {
    /// Reads one state singleton, before any batch applies.
    fn read_state_bytes(&self, name: &str) -> (r: Option<Vec<u8>>)
        requires
            self.wf(),
        ensures
            r.deep_view() == map_get(self@.state, name@),
    {
        self.read_value_bytes(DbColFam::State, name)
    }

    /// Schedules a state singleton put, first moving the current value to
    /// its `pred/` sibling when one exists.
    fn add_state_value(&self, batch: &mut RocksDBWriteBatch, name: &str, enc: Vec<u8>)
        requires
            self.wf(),
        ensures
            final(batch)@ == old(batch)@ + state_value_ops(self@.state, name@, enc@),
    {
        let ghost ops0 = old(batch)@;
        let prev = self.read_state_bytes(name);
        match prev {
            Some(p) => {
                let ghost pv = p@;
                let ghost ev = enc@;
                proof {
                    assert(map_get(self@.state, name@) == Some(pv));
                }
                batch.put(DbColFam::State, crate::keys::pred_key(name), p);
                batch.put(DbColFam::State, name.to_owned(), enc);
                proof {
                    assert(state_value_ops(self@.state, name@, ev) == seq![
                        (DbColFam::State, pred_key_spec(name@), Some(pv)),
                        (DbColFam::State, name@, Some(ev)),
                    ]);
                    assert(batch@ =~= ops0 + state_value_ops(self@.state, name@, ev));
                }
            },
            None => {
                let ghost ev = enc@;
                proof {
                    assert(map_get(self@.state, name@) is None);
                }
                batch.put(DbColFam::State, name.to_owned(), enc);
                proof {
                    assert(state_value_ops(self@.state, name@, ev) == seq![
                        (DbColFam::State, name@, Some(ev)),
                    ]);
                    assert(batch@ =~= ops0 + state_value_ops(self@.state, name@, ev));
                }
            },
        }
    }

    /// Decomposes one block's state into batch operations: the pred-tracked
    /// and plain state singletons, the Merkle entries, the per-height block
    /// record, and — last — the height marker.
    #[verifier::rlimit(100)]
    pub fn add_block_to_batch(
        &self,
        st: &BlockStateWrite,
        batch: &mut RocksDBWriteBatch,
        is_full_commit: bool,
    ) -> (r: Result<(), Error>)
        requires
            self.wf(),
            st.encodable(),
        ensures
            r is Ok,
            final(batch)@ == old(batch)@ + block_write_ops(self@.state, *st, is_full_commit),
    {
        let ghost m = self@.state;
        let ghost ops0 = old(batch)@;
        self.add_state_value(
            batch,
            "next_epoch_min_start_height",
            encode_u64(st.next_epoch_min_start_height),
        );
        self.add_state_value(
            batch,
            "next_epoch_min_start_time",
            encode_string(st.next_epoch_min_start_time.as_str()),
        );
        self.add_state_value(
            batch,
            "update_epoch_blocks_delay",
            encode_opt_u64(&st.update_epoch_blocks_delay),
        );
        self.add_state_value(
            batch,
            "commit_only_data_commitment",
            encode_bytes(&st.commit_only_data),
        );
        if is_full_commit {
            self.add_state_value(batch, "conversion_state", encode_bytes(&st.conversion_state));
        }
        batch.put(
            DbColFam::State,
            "ethereum_height".to_owned(),
            encode_opt_u64(&st.ethereum_height),
        );
        batch.put(
            DbColFam::State,
            "eth_events_queue".to_owned(),
            encode_bytes(&st.eth_events_queue),
        );
        let ghost ops_head = ops0 + state_value_ops(
            m,
            "next_epoch_min_start_height"@,
            enc_u64(st.next_epoch_min_start_height),
        ) + state_value_ops(
            m,
            "next_epoch_min_start_time"@,
            enc_string(st.next_epoch_min_start_time@),
        ) + state_value_ops(
            m,
            "update_epoch_blocks_delay"@,
            enc_opt_u64(st.update_epoch_blocks_delay),
        ) + state_value_ops(m, "commit_only_data_commitment"@, enc_bytes(st.commit_only_data@)) + (
        if is_full_commit {
            state_value_ops(m, "conversion_state"@, enc_bytes(st.conversion_state@))
        } else {
            Seq::empty()
        }) + seq![
            (DbColFam::State, "ethereum_height"@, Some(enc_opt_u64(st.ethereum_height))),
            (DbColFam::State, "eth_events_queue"@, Some(enc_bytes(st.eth_events_queue@))),
        ];
        proof {
            assert(batch@ =~= ops_head);
        }
        // Merkle tree entries
        let n = st.merkle_tree_stores.len();
        let mut i: usize = 0;
        while i < n
            invariant
                i <= n,
                n == st.merkle_tree_stores@.len(),
                self.wf(),
                st.encodable(),
                batch@ == ops_head + merkle_ops(
                    st.merkle_tree_stores@.take(i as int),
                    st.epoch as nat,
                    st.height as nat,
                    is_full_commit,
                ),
            decreases n - i,
        {
            let ghost pre = st.merkle_tree_stores@.take(i as int);
            let ghost cur = st.merkle_tree_stores@.take(i + 1);
            proof {
                assert(cur.drop_last() =~= pre);
                assert(cur.last() == st.merkle_tree_stores@[i as int]);
            }
            let entry_st = st.merkle_tree_stores[i].0;
            if entry_st.is_keyed_by_height() || is_full_commit {
                let sel = if entry_st.is_keyed_by_height() {
                    st.height
                } else {
                    st.epoch
                };
                let (root_key, store_key) = merkle_keys(&entry_st, sel);
                batch.put(DbColFam::Block, root_key, encode_bytes(&st.merkle_tree_stores[i].1));
                batch.put(
                    DbColFam::Block,
                    store_key,
                    crate::store::clone_bytes(&st.merkle_tree_stores[i].2),
                );
                proof {
                    assert(batch@ =~= ops_head + merkle_ops(
                        cur,
                        st.epoch as nat,
                        st.height as nat,
                        is_full_commit,
                    ));
                }
            } else {
                proof {
                    assert(merkle_ops(cur, st.epoch as nat, st.height as nat, is_full_commit)
                        =~= merkle_ops(pre, st.epoch as nat, st.height as nat, is_full_commit));
                }
            }
            i = i + 1;
        }
        proof {
            assert(st.merkle_tree_stores@.take(n as int) =~= st.merkle_tree_stores@);
        }
        let ghost ops_merkle = ops_head + merkle_ops(
            st.merkle_tree_stores@,
            st.epoch as nat,
            st.height as nat,
            is_full_commit,
        );
        proof {
            assert(batch@ =~= ops_merkle);
        }
        // Header, when kept
        match &st.header {
            Some(h) => {
                batch.put(
                    DbColFam::Block,
                    crate::keys::height_key(st.height, "header"),
                    encode_bytes(h),
                );
            },
            None => {},
        }
        let ghost ops_hdr = ops_merkle + (match &st.header {
            Some(h) => seq![
                (DbColFam::Block, height_seg_key(st.height as nat, "header"@), Some(
                enc_bytes(h@))),
            ],
            None => Seq::<(DbColFam, Seq<char>, Option<Seq<u8>>)>::empty(),
        });
        proof {
            assert(batch@ =~= ops_hdr);
        }
        // Hash, time, epoch, results, predecessor epochs, address generator
        batch.put(
            DbColFam::Block,
            crate::keys::height_key(st.height, "hash"),
            encode_string(st.hash.as_str()),
        );
        batch.put(
            DbColFam::Block,
            crate::keys::height_key(st.height, "time"),
            encode_string(st.time.as_str()),
        );
        batch.put(
            DbColFam::Block,
            crate::keys::height_key(st.height, "epoch"),
            encode_u64(st.epoch),
        );
        batch.put(DbColFam::Block, crate::keys::results_key(st.height), encode_bytes(&st.results));
        batch.put(
            DbColFam::Block,
            crate::keys::height_key(st.height, "pred_epochs"),
            encode_u64_list(&st.pred_epochs),
        );
        batch.put(
            DbColFam::Block,
            crate::keys::height_key(st.height, "address_gen"),
            encode_bytes(&st.address_gen),
        );
        // The height marks the block complete; it goes last.
        batch.put(DbColFam::State, "height".to_owned(), encode_u64(st.height));
        proof {
            let tail = seq![
                (DbColFam::Block, height_seg_key(st.height as nat, "hash"@), Some(
                enc_string(st.hash@))),
                (DbColFam::Block, height_seg_key(st.height as nat, "time"@), Some(
                enc_string(st.time@))),
                (DbColFam::Block, height_seg_key(st.height as nat, "epoch"@), Some(
                enc_u64(st.epoch))),
                (DbColFam::Block, results_key_spec(st.height as nat), Some(
                enc_bytes(st.results@))),
                (DbColFam::Block, height_seg_key(st.height as nat, "pred_epochs"@), Some(
                enc_u64_list(st.pred_epochs@))),
                (DbColFam::Block, height_seg_key(st.height as nat, "address_gen"@), Some(
                enc_bytes(st.address_gen@))),
                (DbColFam::State, "height"@, Some(enc_u64(st.height))),
            ];
            assert(batch@ =~= ops_hdr + tail);
            assert(ops_hdr + tail =~= ops0 + block_write_ops(m, *st, is_full_commit));
        }
        Ok(())
    }

    /// Loads the state of the last committed block: `None` when the store
    /// has never committed one or any required entry is missing, the
    /// decoded state otherwise. It fails only when a stored entry does
    /// not decode, and is owed success on every store holding a complete,
    /// well-encoded block.
    pub fn read_last_block(&self) -> (r: Result<Option<BlockStateRead>, Error>)
        requires
            self.wf(),
        ensures
            match r {
                Ok(Some(bs)) => last_block_present(self@, bs.height) && self@.state.contains_key(
                    "height"@,
                ) && last_block_matches(self@, bs) && bs.pred_epochs@.len() <= u32::MAX,
                Ok(None) => !self@.state.contains_key("height"@) || (exists|h: u64|
                    self@.state["height"@] == enc_u64(h) && !last_block_present(self@, h)),
                Err(e) => e is Coding,
            },
            forall|h: u64| #[trigger]
                last_block_ok(self@, h) ==> (r matches Ok(b) && b is Some),
    {
        proof {
            // encodings of the height pin it: needed to tie a complete
            // block's height to the decoded one at every early return
            vstd::bytes::lemma_auto_spec_u64_to_from_le_bytes();
        }
        let height_bytes = match self.read_state_bytes("height") {
            Some(b) => b,
            None => {
                return Ok(None);
            },
        };
        let height = decode_u64(height_bytes.as_slice())?;
        proof {
            // a complete block's recorded height is the decoded one
            assert forall|h: u64|
                self@.state.contains_key("height"@) && self@.state["height"@] == enc_u64(
                    h,
                ) implies h == height by {
                assert(self@.state["height"@] == height_bytes@);
                assert(height_bytes@ == enc_u64(height));
                crate::codec::lemma_roundtrip_u64(h, height);
            }
        }
        let next_epoch_min_start_height = match self.read_state_bytes(
            "next_epoch_min_start_height",
        ) {
            Some(b) => decode_u64(b.as_slice())?,
            None => {
                return Ok(None);
            },
        };
        let next_epoch_min_start_time = match self.read_state_bytes("next_epoch_min_start_time") {
            Some(b) => {
                match decode_string(b.as_slice()) {
                    Ok(v) => v,
                    Err(e) => {
                        proof {
                            assert(self@.state["next_epoch_min_start_time"@] == b@);
                            assert(!crate::codec::decodable_string(
                                self@.state["next_epoch_min_start_time"@],
                            ));
                        }
                        return Err(e);
                    },
                }
            },
            None => {
                return Ok(None);
            },
        };
        let update_epoch_blocks_delay = match self.read_state_bytes("update_epoch_blocks_delay") {
            Some(b) => {
                match decode_opt_u64(b.as_slice()) {
                    Ok(v) => v,
                    Err(e) => {
                        proof {
                            assert(self@.state["update_epoch_blocks_delay"@] == b@);
                            assert(!crate::codec::decodable_opt_u64(self@.state["update_epoch_blocks_delay"@]));
                        }
                        return Err(e);
                    },
                }
            },
            None => {
                return Ok(None);
            },
        };
        let commit_only_data = match self.read_state_bytes("commit_only_data_commitment") {
            Some(b) => {
                match decode_bytes(b.as_slice()) {
                    Ok(v) => v,
                    Err(e) => {
                        proof {
                            assert(self@.state["commit_only_data_commitment"@] == b@);
                            assert(!crate::codec::decodable_bytes(self@.state["commit_only_data_commitment"@]));
                        }
                        return Err(e);
                    },
                }
            },
            None => {
                return Ok(None);
            },
        };
        let conversion_state = match self.read_state_bytes("conversion_state") {
            Some(b) => {
                match decode_bytes(b.as_slice()) {
                    Ok(v) => v,
                    Err(e) => {
                        proof {
                            assert(self@.state["conversion_state"@] == b@);
                            assert(!crate::codec::decodable_bytes(self@.state["conversion_state"@]));
                        }
                        return Err(e);
                    },
                }
            },
            None => {
                return Ok(None);
            },
        };
        let ethereum_height = match self.read_state_bytes("ethereum_height") {
            Some(b) => {
                match decode_opt_u64(b.as_slice()) {
                    Ok(v) => v,
                    Err(e) => {
                        proof {
                            assert(self@.state["ethereum_height"@] == b@);
                            assert(!crate::codec::decodable_opt_u64(self@.state["ethereum_height"@]));
                        }
                        return Err(e);
                    },
                }
            },
            None => {
                return Ok(None);
            },
        };
        let eth_events_queue = match self.read_state_bytes("eth_events_queue") {
            Some(b) => {
                match decode_bytes(b.as_slice()) {
                    Ok(v) => v,
                    Err(e) => {
                        proof {
                            assert(self@.state["eth_events_queue"@] == b@);
                            assert(!crate::codec::decodable_bytes(self@.state["eth_events_queue"@]));
                        }
                        return Err(e);
                    },
                }
            },
            None => {
                return Ok(None);
            },
        };
        let results = match self.read_value_bytes(
            DbColFam::Block,
            crate::keys::results_key(height).as_str(),
        ) {
            Some(b) => {
                match decode_bytes(b.as_slice()) {
                    Ok(v) => v,
                    Err(e) => {
                        proof {
                            assert(self@.block[results_key_spec(height as nat)] == b@);
                            assert(!crate::codec::decodable_bytes(self@.block[results_key_spec(height as nat)]));
                        }
                        return Err(e);
                    },
                }
            },
            None => {
                return Ok(None);
            },
        };
        let hash = match self.read_value_bytes(
            DbColFam::Block,
            crate::keys::height_key(height, "hash").as_str(),
        ) {
            Some(b) => {
                match decode_string(b.as_slice()) {
                    Ok(v) => v,
                    Err(e) => {
                        proof {
                            assert(self@.block[height_seg_key(height as nat, "hash"@)] == b@);
                            assert(!crate::codec::decodable_string(self@.block[height_seg_key(height as nat, "hash"@)]));
                        }
                        return Err(e);
                    },
                }
            },
            None => {
                return Ok(None);
            },
        };
        let time = match self.read_value_bytes(
            DbColFam::Block,
            crate::keys::height_key(height, "time").as_str(),
        ) {
            Some(b) => {
                match decode_string(b.as_slice()) {
                    Ok(v) => v,
                    Err(e) => {
                        proof {
                            assert(self@.block[height_seg_key(height as nat, "time"@)] == b@);
                            assert(!crate::codec::decodable_string(self@.block[height_seg_key(height as nat, "time"@)]));
                        }
                        return Err(e);
                    },
                }
            },
            None => {
                return Ok(None);
            },
        };
        let epoch = match self.read_value_bytes(
            DbColFam::Block,
            crate::keys::height_key(height, "epoch").as_str(),
        ) {
            Some(b) => decode_u64(b.as_slice())?,
            None => {
                return Ok(None);
            },
        };
        let pred_epochs = match self.read_value_bytes(
            DbColFam::Block,
            crate::keys::height_key(height, "pred_epochs").as_str(),
        ) {
            Some(b) => {
                match decode_u64_list(b.as_slice()) {
                    Ok(v) => v,
                    Err(e) => {
                        proof {
                            assert(self@.block[height_seg_key(height as nat, "pred_epochs"@)] == b@);
                            assert(!crate::codec::decodable_u64_list(self@.block[height_seg_key(height as nat, "pred_epochs"@)]));
                        }
                        return Err(e);
                    },
                }
            },
            None => {
                return Ok(None);
            },
        };
        let address_gen = match self.read_value_bytes(
            DbColFam::Block,
            crate::keys::height_key(height, "address_gen").as_str(),
        ) {
            Some(b) => {
                match decode_bytes(b.as_slice()) {
                    Ok(v) => v,
                    Err(e) => {
                        proof {
                            assert(self@.block[height_seg_key(height as nat, "address_gen"@)] == b@);
                            assert(!crate::codec::decodable_bytes(self@.block[height_seg_key(height as nat, "address_gen"@)]));
                        }
                        return Err(e);
                    },
                }
            },
            None => {
                return Ok(None);
            },
        };
        proof {
            assert(self@.state.contains_key("height"@));
            assert(self@.state["height"@] == enc_u64(height));
            assert(last_block_present(self@, height));
            assert(self@.state["next_epoch_min_start_height"@] == enc_u64(
                next_epoch_min_start_height,
            ));
            assert(self@.state["next_epoch_min_start_time"@] == enc_string(
                next_epoch_min_start_time@,
            ));
            assert(self@.state["update_epoch_blocks_delay"@] == enc_opt_u64(
                update_epoch_blocks_delay,
            ));
            assert(self@.state["commit_only_data_commitment"@] == enc_bytes(commit_only_data@));
            assert(self@.state["conversion_state"@] == enc_bytes(conversion_state@));
            assert(self@.state["ethereum_height"@] == enc_opt_u64(ethereum_height));
            assert(self@.state["eth_events_queue"@] == enc_bytes(eth_events_queue@));
            assert(self@.block[results_key_spec(height as nat)] == enc_bytes(results@));
            assert(self@.block[height_seg_key(height as nat, "hash"@)] == enc_string(hash@));
            assert(self@.block[height_seg_key(height as nat, "time"@)] == enc_string(time@));
            assert(self@.block[height_seg_key(height as nat, "epoch"@)] == enc_u64(epoch));
            assert(self@.block[height_seg_key(height as nat, "pred_epochs"@)] == enc_u64_list(
                pred_epochs@,
            ));
            assert(self@.block[height_seg_key(height as nat, "address_gen"@)] == enc_bytes(
                address_gen@,
            ));
        }
        Ok(
            Some(
                BlockStateRead {
                    hash,
                    height,
                    time,
                    epoch,
                    pred_epochs,
                    results,
                    conversion_state,
                    next_epoch_min_start_height,
                    next_epoch_min_start_time,
                    update_epoch_blocks_delay,
                    address_gen,
                    ethereum_height,
                    eth_events_queue,
                    commit_only_data,
                },
            ),
        )
    }

    /// Reads the header kept for the block at `height`, if any.
    pub fn read_block_header(&self, height: u64) -> (r: Result<Option<Vec<u8>>, Error>)
        requires
            self.wf(),
        ensures
            match r {
                Ok(Some(h)) => map_get(self@.block, height_seg_key(height as nat, "header"@))
                    == Some(enc_bytes(h@)),
                Ok(None) => !self@.block.contains_key(height_seg_key(height as nat, "header"@)),
                Err(e) => e is Coding,
            },
            (!self@.block.contains_key(height_seg_key(height as nat, "header"@))
                || crate::codec::decodable_bytes(
                self@.block[height_seg_key(height as nat, "header"@)],
            )) ==> r is Ok,
    {
        match self.read_value_bytes(
            DbColFam::Block,
            crate::keys::height_key(height, "header").as_str(),
        ) {
            Some(b) => {
                let h = decode_bytes(b.as_slice())?;
                Ok(Some(h))
            },
            None => Ok(None),
        }
    }

    /// Reloads the Merkle stores written for `epoch` — per-height ones for
    /// `base_height` — of the one requested store type, or of all of them.
    /// Yields `None` as soon as any required root or store is missing.
    pub fn read_merkle_tree_stores(
        &self,
        epoch: u64,
        base_height: u64,
        store_type: Option<StoreType>,
    ) -> (r: Result<Option<Vec<(StoreType, Vec<u8>, Vec<u8>)>>, Error>)
        requires
            self.wf(),
        ensures
            match r {
                Ok(Some(out)) => {
                    &&& out@.len() == wanted_stores(store_type).len()
                    &&& forall|i: int|
                        0 <= i < wanted_stores(store_type).len() ==> {
                            let st = wanted_stores(store_type)[i];
                            let sel = st.selector(epoch as nat, base_height as nat);
                            &&& (#[trigger] out@[i]).0 == st
                            &&& map_get(self@.block, merkle_root_key(st, sel)) == Some(
                                enc_bytes(out@[i].1@),
                            )
                            &&& map_get(self@.block, merkle_store_key(st, sel)) == Some(
                                out@[i].2@,
                            )
                        }
                },
                Ok(None) => exists|i: int|
                    0 <= i < wanted_stores(store_type).len() && {
                        let st = #[trigger] wanted_stores(store_type)[i];
                        let sel = st.selector(epoch as nat, base_height as nat);
                        !self@.block.contains_key(merkle_root_key(st, sel))
                            || !self@.block.contains_key(merkle_store_key(st, sel))
                    },
                Err(e) => e is Coding,
            },
            (forall|i: int|
                0 <= i < wanted_stores(store_type).len() ==> {
                    let st = #[trigger] wanted_stores(store_type)[i];
                    let sel = st.selector(epoch as nat, base_height as nat);
                    &&& self@.block.contains_key(merkle_root_key(st, sel))
                    &&& self@.block.contains_key(merkle_store_key(st, sel))
                    &&& crate::codec::decodable_bytes(self@.block[merkle_root_key(st, sel)])
                }) ==> (r matches Ok(o) && o is Some),
    {
        let wanted: Vec<StoreType> = match store_type {
            Some(st) => {
                let mut v: Vec<StoreType> = Vec::new();
                v.push(st);
                proof {
                    assert(v@ =~= seq![st]);
                }
                v
            },
            None => StoreType::all(),
        };
        let ghost wanted_spec = wanted@;
        let mut out: Vec<(StoreType, Vec<u8>, Vec<u8>)> = Vec::new();
        let n = wanted.len();
        let mut i: usize = 0;
        while i < n
            invariant
                i <= n,
                n == wanted@.len(),
                wanted@ == wanted_stores(store_type),
                wanted_spec == wanted_stores(store_type),
                self.wf(),
                out@.len() == i,
                forall|j: int|
                    0 <= j < i ==> {
                        let st = wanted@[j];
                        let sel = st.selector(epoch as nat, base_height as nat);
                        &&& (#[trigger] out@[j]).0 == st
                        &&& map_get(self@.block, merkle_root_key(st, sel)) == Some(
                            enc_bytes(out@[j].1@),
                        )
                        &&& map_get(self@.block, merkle_store_key(st, sel)) == Some(out@[j].2@)
                    },
            decreases n - i,
        {
            let st = wanted[i];
            let sel = if st.is_keyed_by_height() {
                base_height
            } else {
                epoch
            };
            let (root_key, store_key) = merkle_keys(&st, sel);
            let root = match self.read_value_bytes(DbColFam::Block, root_key.as_str()) {
                Some(b) => {
                    match decode_bytes(b.as_slice()) {
                        Ok(v) => v,
                        Err(e) => {
                            proof {
                                let st0 = wanted_stores(store_type)[i as int];
                                let sel0 = st0.selector(epoch as nat, base_height as nat);
                                assert(self@.block[merkle_root_key(st0, sel0)] == b@);
                                assert(!crate::codec::decodable_bytes(
                                    self@.block[merkle_root_key(st0, sel0)],
                                ));
                            }
                            return Err(e);
                        },
                    }
                },
                None => {
                    proof {
                        let st0 = wanted_stores(store_type)[i as int];
                        let sel0 = st0.selector(epoch as nat, base_height as nat);
                        assert(!self@.block.contains_key(merkle_root_key(st0, sel0)));
                    }
                    return Ok(None);
                },
            };
            let store = match self.read_value_bytes(DbColFam::Block, store_key.as_str()) {
                Some(b) => b,
                None => {
                    proof {
                        let st0 = wanted_stores(store_type)[i as int];
                        let sel0 = st0.selector(epoch as nat, base_height as nat);
                        assert(!self@.block.contains_key(merkle_store_key(st0, sel0)));
                    }
                    return Ok(None);
                },
            };
            out.push((st, root, store));
            i = i + 1;
        }
        Ok(Some(out))
    }

    /// Schedules the deletion of the epoch-keyed Merkle entries of one
    /// store type.
    pub fn prune_merkle_tree_store(
        &self,
        batch: &mut RocksDBWriteBatch,
        store_type: &StoreType,
        epoch: u64,
    ) -> (r: Result<(), Error>)
        ensures
            r is Ok,
            final(batch)@ == old(batch)@ + seq![
                (DbColFam::Block, merkle_root_key(*store_type, epoch as nat), None),
                (DbColFam::Block, merkle_store_key(*store_type, epoch as nat), None),
            ],
    {
        let ghost ops0 = old(batch)@;
        let (root_key, store_key) = merkle_keys(store_type, epoch);
        batch.delete(DbColFam::Block, root_key);
        batch.delete(DbColFam::Block, store_key);
        proof {
            assert(batch@ =~= ops0 + seq![
                (DbColFam::Block, merkle_root_key(*store_type, epoch as nat), None),
                (DbColFam::Block, merkle_store_key(*store_type, epoch as nat), None),
            ]);
        }
        Ok(())
    }
}

} // verus!
