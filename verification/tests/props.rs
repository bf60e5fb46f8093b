use statedb::block::{BlockStateWrite, StoreType};
use statedb::db::{DbColFam, RocksDB};
use statedb::keys::Key;
use statedb::pattern::Pattern;

fn commit_block(db: &mut RocksDB, height: u64, epoch: u64, pred_epochs: Vec<u64>) {
    let merkle: Vec<(StoreType, Vec<u8>, Vec<u8>)> = StoreType::all()
        .into_iter()
        .map(|st| (st, vec![0u8; 4], vec![1u8; 8]))
        .collect();
    let bs = BlockStateWrite {
        merkle_tree_stores: merkle,
        header: Some(vec![3u8, 3]),
        hash: "h".to_string(),
        height,
        time: "t".to_string(),
        epoch,
        pred_epochs,
        next_epoch_min_start_height: height,
        next_epoch_min_start_time: "t".to_string(),
        update_epoch_blocks_delay: Some(2),
        address_gen: vec![1u8],
        results: vec![2u8],
        conversion_state: vec![5u8],
        ethereum_height: Some(9),
        eth_events_queue: vec![6u8],
        commit_only_data: vec![7u8],
    };
    let mut batch = RocksDB::batch();
    db.add_block_to_batch(&bs, &mut batch, true).unwrap();
    db.exec_batch(batch).unwrap();
}

/// Reading at the last height itself agrees with the live subspace read.
#[test]
fn historic_read_at_last_equals_current() {
    let mut db = statedb::db::open();
    let k = Key::parse("k").unwrap();
    db.write_subspace_val(50, &k, &[1u8, 2], true).unwrap();
    db.write_subspace_val(70, &k, &[3u8, 4], true).unwrap();
    let historic = db.read_subspace_val_with_height(&k, 70, 70).unwrap();
    let current = db.read_subspace_val(&k).unwrap();
    assert_eq!(historic, current);
    assert_eq!(historic, Some(vec![3u8, 4]));

    // a key never written reads as absent either way
    let missing = Key::parse("missing").unwrap();
    assert_eq!(db.read_subspace_val_with_height(&missing, 70, 70).unwrap(), None);
    assert_eq!(db.read_subspace_val(&missing).unwrap(), None);
}

/// After pruning a height, the rollback family holds none of its diffs.
#[test]
fn prune_clears_rollback_diffs() {
    let mut db = statedb::db::open();
    let k1 = Key::parse("k1").unwrap();
    let k2 = Key::parse("k2").unwrap();
    db.write_subspace_val(5, &k1, &[1u8], false).unwrap();
    db.write_subspace_val(5, &k2, &[2u8], false).unwrap();
    db.write_subspace_val(6, &k2, &[3u8], false).unwrap();
    assert!(db.read_rollback_val(&k1, 5, false).unwrap().is_some());

    let mut batch = RocksDB::batch();
    db.prune_non_persisted_diffs(&mut batch, 5).unwrap();
    db.exec_batch(batch).unwrap();

    assert!(db.read_rollback_val(&k1, 5, false).unwrap().is_none());
    assert!(db.read_rollback_val(&k1, 5, true).unwrap().is_none());
    assert!(db.read_rollback_val(&k2, 5, false).unwrap().is_none());
    // the next height's diffs stay
    assert!(db.read_rollback_val(&k2, 6, false).unwrap().is_some());
    assert!(db.read_rollback_val(&k2, 6, true).unwrap().is_some());
}

/// The last block loads only when every piece of it is present.
#[test]
fn last_block_needs_every_field() {
    let mut db = statedb::db::open();
    // nothing committed: no height marker, so no block
    assert!(db.read_last_block().unwrap().is_none());

    commit_block(&mut db, 4, 1, vec![0, 4]);
    let bs = db.read_last_block().unwrap().expect("committed block should load");
    assert_eq!(bs.height, 4);
    assert_eq!(bs.epoch, 1);
    assert_eq!(bs.pred_epochs, vec![0, 4]);
    assert_eq!(bs.results, vec![2u8]);
    assert_eq!(bs.update_epoch_blocks_delay, Some(2));
    assert_eq!(bs.ethereum_height, Some(9));

    // removing one required entry makes the load report no block
    let mut batch = RocksDB::batch();
    batch.delete(DbColFam::Block, "4/epoch".to_string());
    db.exec_batch(batch).unwrap();
    assert!(db.read_last_block().unwrap().is_none());
}

/// A hash written to a queried bucket and left alone stays visible.
#[test]
fn replay_entry_stays_visible() {
    let mut db = statedb::db::open();
    let mut batch = RocksDB::batch();
    db.write_replay_protection_entry(&mut batch, &Key::parse("last/aa11").unwrap()).unwrap();
    db.write_replay_protection_entry(&mut batch, &Key::parse("all/bb22").unwrap()).unwrap();
    db.write_replay_protection_entry(&mut batch, &Key::parse("buffer/cc33").unwrap()).unwrap();
    db.exec_batch(batch).unwrap();

    assert!(db.has_replay_protection_entry("aa11").unwrap());
    assert!(db.has_replay_protection_entry("bb22").unwrap());
    // the transient buffer is not consulted
    assert!(!db.has_replay_protection_entry("cc33").unwrap());

    let mut batch = RocksDB::batch();
    db.delete_replay_protection_entry(&mut batch, &Key::parse("last/aa11").unwrap()).unwrap();
    db.exec_batch(batch).unwrap();
    assert!(!db.has_replay_protection_entry("aa11").unwrap());
    assert!(db.has_replay_protection_entry("bb22").unwrap());
}

/// The unfiltered subspace iteration yields exactly the live keys.
#[test]
fn iter_prefix_none_is_exact() {
    let mut db = statedb::db::open();
    let keys = ["b/2", "a/1", "c/3"];
    for (i, k) in keys.iter().enumerate() {
        db.write_subspace_val(1, &Key::parse(k).unwrap(), &[i as u8], true).unwrap();
    }
    db.delete_subspace_val(2, &Key::parse("b/2").unwrap(), true).unwrap();

    let mut it = db.iter_prefix(None);
    let mut seen: Vec<(String, Vec<u8>, u64)> = Vec::new();
    while let Some(e) = it.next() {
        seen.push(e);
    }
    // exactly the live keys, in order, with gas = key length + value length
    assert_eq!(seen.len(), 2);
    assert_eq!(seen[0].0, "a/1");
    assert_eq!(seen[0].1, vec![1u8]);
    assert_eq!(seen[0].2, 4);
    assert_eq!(seen[1].0, "c/3");
    assert_eq!(seen[1].1, vec![2u8]);
    assert_eq!(seen[1].2, 4);
}

/// The diff iterators hand out the stripped keys of one height.
#[test]
fn diff_iterators_strip_height() {
    let mut db = statedb::db::open();
    let k = Key::parse("x/y").unwrap();
    db.write_subspace_val(9, &k, &[1u8], true).unwrap();
    db.write_subspace_val(10, &k, &[2u8], true).unwrap();

    let mut it = db.iter_new_diffs(10);
    let first = it.next().expect("one new diff at height ten");
    assert_eq!(first.0, "x/y");
    assert_eq!(first.1, vec![2u8]);
    assert!(it.next().is_none());

    let mut it = db.iter_old_diffs(10);
    let first = it.next().expect("one old diff at height ten");
    assert_eq!(first.0, "x/y");
    assert_eq!(first.1, vec![1u8]);

    let mut it = db.iter_old_diffs(9);
    assert!(it.next().is_none());
}

/// The pattern iteration is the prefix iteration filtered by the regex.
#[test]
fn pattern_iteration_filters() {
    let mut db = statedb::db::open();
    for k in ["0/a", "0/b", "1/a"] {
        db.write_subspace_val(1, &Key::parse(k).unwrap(), &[0u8], true).unwrap();
    }
    let pattern = Pattern::compile("/a$").unwrap();
    assert!(pattern.is_match("0/a"));
    assert!(!pattern.is_match("0/b"));

    let mut it = db.iter_pattern(None, &pattern);
    let mut seen: Vec<String> = Vec::new();
    while let Some((k, _v, _g)) = it.next() {
        seen.push(k);
    }
    assert_eq!(seen, vec!["0/a", "1/a"]);
}

/// The dump renders quoted keys and lowercase-hex values, line by line.
#[test]
fn dump_renders_hex_lines() {
    let mut db = statedb::db::open();
    commit_block(&mut db, 3, 1, vec![0]);
    db.write_subspace_val(3, &Key::parse("k").unwrap(), &[1u8, 1, 1, 1], true).unwrap();

    let dump = db.dump_block_string(false, None).unwrap();
    assert!(dump.contains("\"k\" = \"01010101\"\n"), "dump was: {dump}");

    // the historic sections list the height-prefixed entries
    let dump = db.dump_block_string(true, None).unwrap();
    assert!(dump.contains("\"3/new/k\""), "dump was: {dump}");

    // a height just before the last one dumps only the archived hashes
    let mut batch = RocksDB::batch();
    db.write_replay_protection_entry(&mut batch, &Key::parse("all/dd44").unwrap()).unwrap();
    db.write_replay_protection_entry(&mut batch, &Key::parse("last/ee55").unwrap()).unwrap();
    db.exec_batch(batch).unwrap();
    let dump = db.dump_block_string(false, Some(2)).unwrap();
    assert!(dump.contains("\"dd44\"") || dump.contains("\"all/dd44\""), "dump was: {dump}");
    assert!(!dump.contains("ee55"), "dump was: {dump}");
}

/// The admin overwrite replaces a value at the last height only.
#[test]
fn overwrite_entry_at_last_height() {
    let mut db = statedb::db::open();
    commit_block(&mut db, 8, 1, vec![0]);
    let k = Key::parse("adm").unwrap();
    db.write_subspace_val(8, &k, &[1u8], true).unwrap();

    let mut batch = RocksDB::batch();
    db.overwrite_entry(&mut batch, None, DbColFam::Subspace, &k, &[9u8]).unwrap();
    db.exec_batch(batch).unwrap();
    assert_eq!(db.read_subspace_val(&k).unwrap(), Some(vec![9u8]));
    // the diff of the last height follows the overwrite
    assert_eq!(db.read_diffs_val(&k, 8, false).unwrap(), Some(vec![9u8]));

    // any other height is refused
    let mut batch = RocksDB::batch();
    let r = db.overwrite_entry(&mut batch, Some(7), DbColFam::Subspace, &k, &[9u8]);
    assert!(matches!(r, Err(statedb::error::Error::UnsupportedHeight)));
}

/// Merkle stores split between height-keyed and epoch-keyed entries.
#[test]
fn merkle_stores_roundtrip() {
    let mut db = statedb::db::open();
    commit_block(&mut db, 12, 3, vec![0]);

    let all = db.read_merkle_tree_stores(3, 12, None).unwrap().expect("all stores written");
    assert_eq!(all.len(), 6);

    let one = db
        .read_merkle_tree_stores(3, 12, Some(StoreType::Base))
        .unwrap()
        .expect("base store written");
    assert_eq!(one.len(), 1);
    assert_eq!(one[0].0, StoreType::Base);

    // pruning an epoch-keyed store removes it
    let mut batch = RocksDB::batch();
    db.prune_merkle_tree_store(&mut batch, &StoreType::Pos, 3).unwrap();
    db.exec_batch(batch).unwrap();
    assert!(db.read_merkle_tree_stores(3, 12, Some(StoreType::Pos)).unwrap().is_none());
    // a wrong selector finds nothing
    assert!(db.read_merkle_tree_stores(4, 12, Some(StoreType::Pos)).unwrap().is_none());
}

/// The rollback target must be the last height or the one before it.
#[test]
fn rollback_distance_is_checked() {
    let mut db = statedb::db::open();
    commit_block(&mut db, 30, 1, vec![0]);
    let r = db.rollback(5);
    assert!(matches!(r, Err(statedb::error::Error::UnsupportedRollbackDistance)));
    // rolling back to the current height changes nothing
    db.rollback(30).unwrap();
    assert_eq!(db.read_last_block().unwrap().unwrap().height, 30);
}

/// A store that never committed cannot roll back.
#[test]
fn rollback_needs_a_block() {
    let mut db = statedb::db::open();
    assert!(matches!(db.rollback(0), Err(statedb::error::Error::Io(_))));
}

/// A rewind without the metadata siblings is refused as an unknown key.
#[test]
fn rollback_needs_pred_siblings() {
    let mut db = statedb::db::open();
    // the first commit has no prior values, so no pred/ siblings exist
    commit_block(&mut db, 9, 1, vec![0]);
    let r = db.rollback(8);
    assert!(matches!(r, Err(statedb::error::Error::UnknownKey(_))));
    // the store is left untouched
    assert_eq!(db.read_last_block().unwrap().unwrap().height, 9);

    // after a second commit the siblings exist and the rewind succeeds
    commit_block(&mut db, 10, 1, vec![0]);
    db.rollback(9).unwrap();
    assert_eq!(db.read_last_block().unwrap().unwrap().height, 9);
}

/// The update visitor registers reads, writes and deletes against one
/// batch.
#[test]
fn visitor_collects_updates() {
    let mut db = statedb::db::open();
    commit_block(&mut db, 2, 1, vec![0]);
    let k = Key::parse("vis").unwrap();
    db.write_subspace_val(2, &k, &[4u8], true).unwrap();

    let mut visitor = statedb::visitor::RocksDBUpdateVisitor::new(&db);
    assert_eq!(visitor.read(&k, DbColFam::Subspace), Some(vec![4u8]));
    visitor.write(&k, DbColFam::Subspace, &[5u8]).unwrap();
    let batch = visitor.take_batch();
    db.exec_batch(batch).unwrap();
    assert_eq!(db.read_subspace_val(&k).unwrap(), Some(vec![5u8]));
}

/// Block headers are kept per height when present.
#[test]
fn block_header_roundtrip() {
    let mut db = statedb::db::open();
    commit_block(&mut db, 6, 1, vec![0]);
    assert_eq!(db.read_block_header(6).unwrap(), Some(vec![3u8, 3]));
    assert_eq!(db.read_block_header(7).unwrap(), None);
}

/// The flush call reports success; batches apply synchronously.
#[test]
fn flush_succeeds() {
    let db = statedb::db::open();
    db.flush(true).unwrap();
    db.flush(false).unwrap();
}
