use statedb::codec;
use statedb::error::Error;
use statedb::keys::{diff_keys_str, Key, old_and_new_diff_key, pred_key, results_key};
use statedb::block::{merkle_keys, StoreType};

#[test]
fn codec_u64_roundtrip() {
    for v in [0u64, 1, 100, 222, u64::MAX] {
        let enc = codec::encode_u64(v);
        assert_eq!(enc.len(), 8);
        assert_eq!(codec::decode_u64(&enc).unwrap(), v);
    }
    // little endian: the low byte comes first
    assert_eq!(codec::encode_u64(0x0102030405060708), vec![8u8, 7, 6, 5, 4, 3, 2, 1]);
}

#[test]
fn codec_u64_rejects_wrong_length() {
    let r = codec::decode_u64(&[1u8, 2, 3]);
    assert!(matches!(r, Err(Error::Coding(_))));
}

#[test]
fn codec_bytes_roundtrip() {
    for v in [vec![], vec![1u8, 1, 1, 1], vec![0u8; 100]] {
        let enc = codec::encode_bytes(&v);
        assert_eq!(codec::decode_bytes(&enc).unwrap(), v);
    }
    // length-prefixed: four bytes of length, then the payload
    assert_eq!(codec::encode_bytes(&vec![9u8, 8]), vec![2u8, 0, 0, 0, 9, 8]);
    assert!(matches!(codec::decode_bytes(&[5u8, 0, 0, 0, 1]), Err(Error::Coding(_))));
}

#[test]
fn codec_string_roundtrip() {
    for s in ["", "height", "2024-01-01T00:00:00Z", "naïve"] {
        let enc = codec::encode_string(s);
        assert_eq!(codec::decode_string(&enc).unwrap(), s);
    }
}

#[test]
fn codec_u64_list_roundtrip() {
    for v in [vec![], vec![100u64], vec![100u64, 101, 222]] {
        let enc = codec::encode_u64_list(&v);
        assert_eq!(codec::decode_u64_list(&enc).unwrap(), v);
    }
}

#[test]
fn codec_opt_u64_roundtrip() {
    for v in [None, Some(0u64), Some(12345u64)] {
        let enc = codec::encode_opt_u64(&v);
        assert_eq!(codec::decode_opt_u64(&enc).unwrap(), v);
    }
    assert_eq!(codec::encode_opt_u64(&None), vec![0u8]);
    assert!(matches!(codec::decode_opt_u64(&[2u8]), Err(Error::Coding(_))));
}

#[test]
fn key_parse_roundtrip() {
    for s in ["test", "0/a", "a/b/c", "#eth_bridge/ERC20/0xabc/supply"] {
        let k = Key::parse(s).unwrap();
        assert_eq!(k.to_string(), s);
    }
}

#[test]
fn key_parse_rejects_malformed() {
    for s in ["", "/", "/a", "a/", "a//b"] {
        assert!(matches!(Key::parse(s), Err(Error::InvalidKey(_))), "{s:?} should be refused");
    }
}

#[test]
fn key_push_rejects_separator() {
    let k = Key::parse("a").unwrap();
    assert!(k.push("b").is_ok());
    assert!(matches!(k.push(""), Err(Error::InvalidKey(_))));
    assert!(matches!(k.push("b/c"), Err(Error::InvalidKey(_))));
}

#[test]
fn composed_keys() {
    let k = Key::parse("a/b").unwrap();
    let (old_key, new_key) = old_and_new_diff_key(&k, 100);
    assert_eq!(old_key, "100/old/a/b");
    assert_eq!(new_key, "100/new/a/b");
    let (old_key, new_key) = diff_keys_str("a/b", 7);
    assert_eq!(old_key, "7/old/a/b");
    assert_eq!(new_key, "7/new/a/b");
    assert_eq!(pred_key("conversion_state"), "pred/conversion_state");
    assert_eq!(results_key(222), "results/222");
    let (root, store) = merkle_keys(&StoreType::Base, 42);
    assert_eq!(root, "base/42/root");
    assert_eq!(store, "base/42/store");
    let (root, store) = merkle_keys(&StoreType::Pos, 3);
    assert_eq!(root, "pos/3/root");
    assert_eq!(store, "pos/3/store");
}

#[test]
fn key_join_concatenates() {
    let a = Key::parse("1/old").unwrap();
    let b = Key::parse("x/y").unwrap();
    assert_eq!(a.join(&b).to_string(), "1/old/x/y");
}
