use statedb::block::{BlockStateWrite, StoreType};
use statedb::db::{DbColFam, RocksDB, RocksDBWriteBatch};
use statedb::keys::Key;
use statedb::replay::{replay_all_key, replay_buffer_key, replay_last_key};

fn block_state(height: u64, epoch: u64, pred_epochs: Vec<u64>, conversion_state: &[u8]) -> BlockStateWrite {
    let merkle: Vec<(StoreType, Vec<u8>, Vec<u8>)> = StoreType::all()
        .into_iter()
        .map(|st| (st, vec![0u8; 4], vec![1u8; 8]))
        .collect();
    BlockStateWrite {
        merkle_tree_stores: merkle,
        header: None,
        hash: "block-hash".to_string(),
        height,
        time: "2024-01-01T00:00:00Z".to_string(),
        epoch,
        pred_epochs,
        next_epoch_min_start_height: 0,
        next_epoch_min_start_time: "2024-01-01T00:00:00Z".to_string(),
        update_epoch_blocks_delay: None,
        address_gen: vec![7u8; 3],
        results: vec![],
        conversion_state: conversion_state.to_vec(),
        ethereum_height: None,
        eth_events_queue: vec![],
        commit_only_data: vec![],
    }
}

fn add_block_to_batch(
    db: &RocksDB,
    batch: &mut RocksDBWriteBatch,
    height: u64,
    epoch: u64,
    pred_epochs: Vec<u64>,
    conversion_state: &[u8],
) {
    let bs = block_state(height, epoch, pred_epochs, conversion_state);
    db.add_block_to_batch(&bs, batch, true).unwrap();
}

#[test]
fn test_load_state() {
    let db = statedb::db::open();
    let mut db = db;

    let mut batch = RocksDB::batch();
    let last_height = 0u64;
    db.batch_write_subspace_val(
        &mut batch,
        last_height,
        &Key::parse("test").unwrap(),
        &[1u8, 1, 1, 1],
        true,
    )
    .unwrap();

    add_block_to_batch(&db, &mut batch, 0, 0, vec![0], &[]);
    db.exec_batch(batch).unwrap();

    let _state = db
        .read_last_block()
        .expect("Should be able to read last block")
        .expect("Block should have been written");
}

#[test]
fn test_read() {
    let mut db = statedb::db::open();

    let key = Key::parse("test").unwrap();
    let batch_key = Key::parse("batch").unwrap();

    let mut batch = RocksDB::batch();
    let last_height = 100u64;
    db.batch_write_subspace_val(&mut batch, last_height, &batch_key, &[1u8, 1, 1, 1], true)
        .unwrap();
    db.exec_batch(batch).unwrap();

    db.write_subspace_val(last_height, &key, &[1u8, 1, 1, 0], true).unwrap();

    let mut batch = RocksDB::batch();
    let last_height = 111u64;
    db.batch_write_subspace_val(&mut batch, last_height, &batch_key, &[2u8, 2, 2, 2], true)
        .unwrap();
    db.exec_batch(batch).unwrap();

    db.write_subspace_val(last_height, &key, &[2u8, 2, 2, 0], true).unwrap();

    let prev_value = db
        .read_subspace_val_with_height(&batch_key, 100, last_height)
        .expect("read should succeed");
    assert_eq!(prev_value, Some(vec![1u8, 1, 1, 1]));
    let prev_value = db
        .read_subspace_val_with_height(&key, 100, last_height)
        .expect("read should succeed");
    assert_eq!(prev_value, Some(vec![1u8, 1, 1, 0]));

    let updated_value = db
        .read_subspace_val_with_height(&batch_key, 111, last_height)
        .expect("read should succeed");
    assert_eq!(updated_value, Some(vec![2u8, 2, 2, 2]));
    let updated_value = db
        .read_subspace_val_with_height(&key, 111, last_height)
        .expect("read should succeed");
    assert_eq!(updated_value, Some(vec![2u8, 2, 2, 0]));

    let latest_value = db.read_subspace_val(&batch_key).expect("read should succeed");
    assert_eq!(latest_value, Some(vec![2u8, 2, 2, 2]));
    let latest_value = db.read_subspace_val(&key).expect("read should succeed");
    assert_eq!(latest_value, Some(vec![2u8, 2, 2, 0]));

    let mut batch = RocksDB::batch();
    let last_height = 222u64;
    db.batch_delete_subspace_val(&mut batch, last_height, &batch_key, true).unwrap();
    db.exec_batch(batch).unwrap();

    db.delete_subspace_val(last_height, &key, true).unwrap();

    let deleted_value = db
        .read_subspace_val_with_height(&batch_key, 222, last_height)
        .expect("read should succeed");
    assert_eq!(deleted_value, None);
    let deleted_value = db
        .read_subspace_val_with_height(&key, 222, last_height)
        .expect("read should succeed");
    assert_eq!(deleted_value, None);

    let latest_value = db.read_subspace_val(&batch_key).expect("read should succeed");
    assert_eq!(latest_value, None);
    let latest_value = db.read_subspace_val(&key).expect("read should succeed");
    assert_eq!(latest_value, None);
}

#[test]
fn test_prefix_iter() {
    let mut db = statedb::db::open();

    let prefix_0 = Key::parse("0").unwrap();
    let key_0_a = prefix_0.push("a").unwrap();
    let key_0_b = prefix_0.push("b").unwrap();
    let key_0_c = prefix_0.push("c").unwrap();
    let prefix_1 = Key::parse("1").unwrap();
    let key_1_a = prefix_1.push("a").unwrap();
    let key_1_b = prefix_1.push("b").unwrap();
    let key_1_c = prefix_1.push("c").unwrap();
    let prefix_01 = Key::parse("01").unwrap();
    let key_01_a = prefix_01.push("a").unwrap();

    let keys_0 = vec!["0/a", "0/b", "0/c"];
    let keys_1 = vec!["1/a", "1/b", "1/c"];
    let all_keys = vec!["0/a", "0/b", "0/c", "01/a", "1/a", "1/b", "1/c"];

    // Write the keys
    let mut batch = RocksDB::batch();
    let height = 1u64;
    for key in [&key_0_a, &key_0_b, &key_0_c, &key_01_a, &key_1_a, &key_1_b, &key_1_c] {
        db.batch_write_subspace_val(&mut batch, height, key, &[0u8], true).unwrap();
    }
    db.exec_batch(batch).unwrap();

    // Prefix "0" should not match prefix "01"
    let mut it = db.iter_prefix(Some(&prefix_0));
    let mut itered: Vec<String> = Vec::new();
    while let Some((k, _v, _gas)) = it.next() {
        itered.push(k);
    }
    assert_eq!(itered, keys_0);

    let mut it = db.iter_prefix(Some(&prefix_1));
    let mut itered: Vec<String> = Vec::new();
    while let Some((k, _v, _gas)) = it.next() {
        itered.push(k);
    }
    assert_eq!(itered, keys_1);

    let mut it = db.iter_prefix(None);
    let mut itered: Vec<String> = Vec::new();
    while let Some((k, _v, _gas)) = it.next() {
        itered.push(k);
    }
    assert_eq!(itered, all_keys);
}

#[test]
fn test_rollback() {
    for persist_diffs in [true, false] {
        println!("Running with persist_diffs: {persist_diffs}");

        let mut db = statedb::db::open();

        // A key added on the second block
        let add_key = Key::parse("add").unwrap();
        // A key deleted on the second block
        let delete_key = Key::parse("delete").unwrap();
        // A key overwritten on the second block
        let overwrite_key = Key::parse("overwrite").unwrap();

        // Write first block
        let mut batch = RocksDB::batch();
        let height_0 = 100u64;
        let mut pred_epochs: Vec<u64> = Vec::new();
        pred_epochs.push(height_0);
        let conversion_state_0 = vec![10u8, 10];
        let to_delete_val = vec![1u8, 1, 0, 0];
        let to_overwrite_val = vec![1u8, 1, 1, 0];
        db.batch_write_subspace_val(&mut batch, height_0, &delete_key, &to_delete_val, persist_diffs)
            .unwrap();
        db.batch_write_subspace_val(
            &mut batch,
            height_0,
            &overwrite_key,
            &to_overwrite_val,
            persist_diffs,
        )
        .unwrap();
        for tx in ["tx1", "tx2"] {
            db.write_replay_protection_entry(
                &mut batch,
                &Key::parse(&replay_all_key(tx)).unwrap(),
            )
            .unwrap();
            db.write_replay_protection_entry(
                &mut batch,
                &Key::parse(&replay_buffer_key(tx)).unwrap(),
            )
            .unwrap();
        }
        for tx in ["tx3", "tx4"] {
            db.write_replay_protection_entry(
                &mut batch,
                &Key::parse(&replay_last_key(tx)).unwrap(),
            )
            .unwrap();
        }
        add_block_to_batch(&db, &mut batch, height_0, 1, pred_epochs.clone(), &conversion_state_0);
        db.exec_batch(batch).unwrap();

        // Write second block
        let mut batch = RocksDB::batch();
        let height_1 = 101u64;
        pred_epochs.push(height_1);
        let conversion_state_1 = vec![20u8, 20];
        let add_val = vec![1u8, 0, 0, 0];
        let overwrite_val = vec![1u8, 1, 1, 1];
        db.batch_write_subspace_val(&mut batch, height_1, &add_key, &add_val, persist_diffs)
            .unwrap();
        db.batch_write_subspace_val(
            &mut batch,
            height_1,
            &overwrite_key,
            &overwrite_val,
            persist_diffs,
        )
        .unwrap();
        db.batch_delete_subspace_val(&mut batch, height_1, &delete_key, persist_diffs).unwrap();

        db.prune_replay_protection_buffer(&mut batch).unwrap();
        db.write_replay_protection_entry(&mut batch, &Key::parse(&replay_all_key("tx3")).unwrap()).unwrap();

        for tx in ["tx3", "tx4"] {
            db.delete_replay_protection_entry(
                &mut batch,
                &Key::parse(&replay_last_key(tx)).unwrap(),
            )
            .unwrap();
            db.write_replay_protection_entry(
                &mut batch,
                &Key::parse(&replay_buffer_key(tx)).unwrap(),
            )
            .unwrap();
        }
        for tx in ["tx5", "tx6"] {
            db.write_replay_protection_entry(
                &mut batch,
                &Key::parse(&replay_last_key(tx)).unwrap(),
            )
            .unwrap();
        }
        add_block_to_batch(&db, &mut batch, height_1, 2, pred_epochs.clone(), &conversion_state_1);
        db.exec_batch(batch).unwrap();

        // Check the values as of the second block
        let added = db.read_subspace_val(&add_key).unwrap();
        assert_eq!(added, Some(add_val));
        let overwritten = db.read_subspace_val(&overwrite_key).unwrap();
        assert_eq!(overwritten, Some(overwrite_val));
        let deleted = db.read_subspace_val(&delete_key).unwrap();
        assert_eq!(deleted, None);

        for tx in ["tx1", "tx2", "tx3", "tx5", "tx6"] {
            assert!(db.has_replay_protection_entry(tx).unwrap());
        }
        assert!(!db.has_replay_protection_entry("tx4").unwrap());

        // Rollback to the first block height
        db.rollback(height_0).unwrap();

        // Check that the values are back to the state at the first block
        let added = db.read_subspace_val(&add_key).unwrap();
        assert_eq!(added, None);
        let overwritten = db.read_subspace_val(&overwrite_key).unwrap();
        assert_eq!(overwritten, Some(to_overwrite_val));
        let deleted = db.read_subspace_val(&delete_key).unwrap();
        assert_eq!(deleted, Some(to_delete_val));
        // Check the conversion state
        let conversion_state = db.read_value_bytes(DbColFam::State, "conversion_state").unwrap();
        assert_eq!(conversion_state, statedb::codec::encode_bytes(&conversion_state_0));
        for tx in ["tx1", "tx2", "tx3", "tx4"] {
            assert!(db.has_replay_protection_entry(tx).unwrap());
        }
        for tx in ["tx5", "tx6"] {
            assert!(!db.has_replay_protection_entry(tx).unwrap());
        }

        // A second rollback to the same height is a no-op
        db.rollback(height_0).unwrap();
        let overwritten = db.read_subspace_val(&overwrite_key).unwrap();
        assert_eq!(overwritten, Some(vec![1u8, 1, 1, 0]));
    }
}

#[test]
fn test_diffs() {
    let mut db = statedb::db::open();

    let key_with_diffs = Key::parse("with_diffs").unwrap();
    let key_without_diffs = Key::parse("without_diffs").unwrap();

    let initial_val = vec![1u8, 1, 0, 0];
    let overwrite_val = vec![1u8, 1, 1, 0];

    // Write first block
    let mut batch = RocksDB::batch();
    let height_0 = 1u64;
    db.batch_write_subspace_val(&mut batch, height_0, &key_with_diffs, &initial_val, true)
        .unwrap();
    db.batch_write_subspace_val(&mut batch, height_0, &key_without_diffs, &initial_val, false)
        .unwrap();
    db.exec_batch(batch).unwrap();

    {
        // The new diff of the persisted key at height_0 must be present
        assert!(db.read_diffs_val(&key_with_diffs, height_0, true).unwrap().is_none());
        assert!(db.read_diffs_val(&key_with_diffs, height_0, false).unwrap().is_some());

        // The new diff of the non-persisted key at height_0 must be present
        assert!(db.read_rollback_val(&key_without_diffs, height_0, true).unwrap().is_none());
        assert!(db.read_rollback_val(&key_without_diffs, height_0, false).unwrap().is_some());
    }

    // Write second block
    let mut batch = RocksDB::batch();
    let height_1 = height_0 + 10;
    db.batch_write_subspace_val(&mut batch, height_1, &key_with_diffs, &overwrite_val, true)
        .unwrap();
    db.batch_write_subspace_val(&mut batch, height_1, &key_without_diffs, &overwrite_val, false)
        .unwrap();
    db.prune_non_persisted_diffs(&mut batch, height_0).unwrap();
    db.exec_batch(batch).unwrap();

    {
        // Diffs of the persisted key at height_0 must still be present
        assert!(db.read_diffs_val(&key_with_diffs, height_0, true).unwrap().is_none());
        assert!(db.read_diffs_val(&key_with_diffs, height_0, false).unwrap().is_some());

        // Diffs of the non-persisted key at height_0 must be gone
        assert!(db.read_rollback_val(&key_without_diffs, height_0, true).unwrap().is_none());
        assert!(db.read_rollback_val(&key_without_diffs, height_0, false).unwrap().is_none());

        // Diffs of the persisted key at height_1 must be present
        assert!(db.read_diffs_val(&key_with_diffs, height_1, true).unwrap().is_some());
        assert!(db.read_diffs_val(&key_with_diffs, height_1, false).unwrap().is_some());

        // Diffs of the non-persisted key at height_1 must be present
        assert!(db.read_rollback_val(&key_without_diffs, height_1, true).unwrap().is_some());
        assert!(db.read_rollback_val(&key_without_diffs, height_1, false).unwrap().is_some());
    }

    // Write third block
    let mut batch = RocksDB::batch();
    let height_2 = height_1 + 10;
    db.batch_write_subspace_val(&mut batch, height_2, &key_with_diffs, &initial_val, true)
        .unwrap();
    db.batch_write_subspace_val(&mut batch, height_2, &key_without_diffs, &initial_val, false)
        .unwrap();
    db.prune_non_persisted_diffs(&mut batch, height_1).unwrap();
    db.exec_batch(batch).unwrap();

    {
        // Diffs of the persisted key at height_1 must still be present
        assert!(db.read_diffs_val(&key_with_diffs, height_1, true).unwrap().is_some());
        assert!(db.read_diffs_val(&key_with_diffs, height_1, false).unwrap().is_some());

        // Diffs of the non-persisted key at height_1 must be gone
        assert!(db.read_rollback_val(&key_without_diffs, height_1, true).unwrap().is_none());
        assert!(db.read_rollback_val(&key_without_diffs, height_1, false).unwrap().is_none());

        // Diffs of the persisted key at height_2 must be present
        assert!(db.read_diffs_val(&key_with_diffs, height_2, true).unwrap().is_some());
        assert!(db.read_diffs_val(&key_with_diffs, height_2, false).unwrap().is_some());

        // Diffs of the non-persisted key at height_2 must be present
        assert!(db.read_rollback_val(&key_without_diffs, height_2, true).unwrap().is_some());
        assert!(db.read_rollback_val(&key_without_diffs, height_2, false).unwrap().is_some());
    }
}
