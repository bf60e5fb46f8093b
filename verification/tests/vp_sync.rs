use statedb::keys::Key;
use statedb::sync::{DecryptedDataCache, Unscanned};
use statedb::vp::{validate_tx, EthBridge, MultitokenKey};

fn arbitrary_key(n: u64) -> Key {
    Key::parse(&format!("#eth_bridge/arbitrary key segment {n}")).unwrap()
}

fn dai_supply_key() -> Key {
    Key::parse("#eth_bridge/ERC20/0x6b175474e89094c44da98b954eedeac495271d0f/supply").unwrap()
}

fn dai_balance_key() -> Key {
    Key::parse(
        "#eth_bridge/ERC20/0x6b175474e89094c44da98b954eedeac495271d0f/balance/#owner",
    )
    .unwrap()
}

#[test]
fn test_error_if_triggered_without_keys_changed() {
    let tx_data = vec![];
    let keys_changed: Vec<Key> = Vec::new();
    let verifiers: Vec<String> = Vec::new();

    let result = validate_tx(&tx_data, &keys_changed, &verifiers);

    assert!(result.is_err());
}

#[test]
fn test_rejects_if_not_two_keys_changed() {
    let tx_data = vec![];
    let verifiers: Vec<String> = Vec::new();
    {
        let keys_changed = vec![arbitrary_key(1)];

        let result = validate_tx(&tx_data, &keys_changed, &verifiers);

        assert!(matches!(result, Ok(false)));
    }
    {
        let keys_changed = vec![arbitrary_key(1), arbitrary_key(2), arbitrary_key(3)];

        let result = validate_tx(&tx_data, &keys_changed, &verifiers);

        assert!(matches!(result, Ok(false)));
    }
}

#[test]
fn test_rejects_if_not_two_multitoken_keys_changed() {
    let tx_data = vec![];
    let verifiers: Vec<String> = Vec::new();
    {
        let keys_changed = vec![arbitrary_key(1), arbitrary_key(2)];

        let result = validate_tx(&tx_data, &keys_changed, &verifiers);

        assert!(matches!(result, Ok(false)));
    }
    {
        let keys_changed = vec![arbitrary_key(1), dai_supply_key()];

        let result = validate_tx(&tx_data, &keys_changed, &verifiers);

        assert!(matches!(result, Ok(false)));
    }
    {
        let keys_changed = vec![arbitrary_key(1), dai_balance_key()];

        let result = validate_tx(&tx_data, &keys_changed, &verifiers);

        assert!(matches!(result, Ok(false)));
    }
}

#[test]
fn bridge_vp_through_struct() {
    let vp = EthBridge {};
    let keys_changed = vec![dai_supply_key(), dai_balance_key()];
    let verifiers: Vec<String> = Vec::new();
    assert!(matches!(vp.validate_tx(&[], &keys_changed, &verifiers), Ok(false)));
}

#[test]
fn multitoken_key_parses_shapes() {
    assert!(matches!(
        MultitokenKey::try_from(&dai_supply_key()),
        Some(MultitokenKey::Supply { .. })
    ));
    assert!(matches!(
        MultitokenKey::try_from(&dai_balance_key()),
        Some(MultitokenKey::Balance { .. })
    ));
    assert!(MultitokenKey::try_from(&arbitrary_key(7)).is_none());
    assert!(MultitokenKey::try_from(&Key::parse("other/ERC20/0xabc/supply").unwrap()).is_none());
}

#[test]
fn unscanned_tracks_heights() {
    let mut cache = Unscanned::new();
    cache.extend(vec![(5, 0, vec![0u8])]);
    cache.insert(5, 0, vec![1u8]);
    cache.insert(5, 1, vec![2u8]);
    cache.insert(7, 0, vec![3u8]);
    // replacing the same position does not duplicate it
    cache.insert(5, 1, vec![9u8]);

    assert!(cache.contains_height(5));
    assert!(cache.contains_height(7));
    assert!(!cache.contains_height(6));
    assert_eq!(cache.first_height(), 5);
    assert_eq!(cache.latest_height(), 7);

    cache.scanned(6);
    assert!(!cache.contains_height(5));
    assert!(cache.contains_height(7));

    let popped = cache.pop_first().expect("one entry left");
    assert_eq!((popped.0, popped.1, popped.2), (7, 0, vec![3u8]));
    assert!(cache.pop_first().is_none());
}

#[test]
fn decrypted_cache_insert_contains_drain() {
    let mut cache = DecryptedDataCache::new();
    let vk1 = vec![1u8, 1];
    let vk2 = vec![2u8, 2];
    cache.insert(3, 0, vk1.clone(), vec![10u8]);
    cache.insert(3, 1, vk2.clone(), vec![20u8]);

    assert!(cache.contains(3, 0, &vk1));
    assert!(!cache.contains(3, 0, &vk2));
    assert!(cache.contains(3, 1, &vk2));

    let drained = cache.drain();
    assert_eq!(drained.len(), 2);
    assert!(!cache.contains(3, 0, &vk1));
}

#[test]
fn builder_default_is_empty() {
    let b = statedb::builder::TxBuilder::default();
    assert_eq!(b.chain_id, "");
    assert!(b.expiration.is_none());
    assert!(b.sections.is_empty());
    assert!(b.wrapper.is_none());
    assert!(b.gas_payer.is_none());
    assert!(b.signing_keys.is_empty());
    assert!(b.account_public_keys_map.is_none());
}
