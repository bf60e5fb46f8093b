use vstd::prelude::*;
use crate::keys::{seg_wf, Key};

verus! {

/// The error the bridge validity predicate reports when it was triggered
/// without any change under its account.
pub struct Error {
    msg: String,
}

impl Error {
    /// A human-readable description of the error.
    pub fn message(&self) -> (m: String)
    {
        self.msg.clone()
    }

    fn new(msg: String) -> (e: Error)
    {
        Error { msg }
    }
}

/// The storage segment under which the bridge account keeps its state.
pub open spec fn bridge_seg() -> Seq<char> {
    "#eth_bridge"@
}

/// Whether a key belongs to the bridge account's storage.
pub open spec fn is_eth_bridge_key(k: Seq<Seq<char>>) -> bool {
    k.len() > 0 && k[0] == bridge_seg()
}

/// Checks whether a key belongs to the bridge account's storage.
pub fn check_eth_bridge_key(key: &Key) -> (r: bool)
    ensures
        r == is_eth_bridge_key(key@),
{
    key.segments.len() > 0 && crate::strings::str_eq(key.segments[0].as_str(), "#eth_bridge")
}

/// A parsed wrapped-ERC20 key: the supply of a token, or one owner's
/// balance of it.
pub enum MultitokenKey {
    /// `.../ERC20/<token>/supply`
    Supply { erc20: String },
    /// `.../ERC20/<token>/balance/<owner>`
    Balance { erc20: String, owner: String },
}

/// Whether a key has the shape of a wrapped-ERC20 supply key.
pub open spec fn is_supply_key(k: Seq<Seq<char>>) -> bool {
    k.len() == 4 && k[0] == bridge_seg() && k[1] == "ERC20"@ && k[3] == "supply"@
}

/// Whether a key has the shape of a wrapped-ERC20 balance key.
pub open spec fn is_balance_key(k: Seq<Seq<char>>) -> bool {
    k.len() == 5 && k[0] == bridge_seg() && k[1] == "ERC20"@ && k[3] == "balance"@
}

impl MultitokenKey {
    /// Parses a wrapped-ERC20 key; fails on any other shape.
    pub fn try_from(key: &Key) -> (r: Option<MultitokenKey>)
        ensures
            match r {
                Some(MultitokenKey::Supply { erc20 }) => is_supply_key(key@) && erc20@ == key@[2],
                Some(MultitokenKey::Balance { erc20, owner }) => is_balance_key(key@) && erc20@
                    == key@[2] && owner@ == key@[4],
                None => !is_supply_key(key@) && !is_balance_key(key@),
            },
    {
        if !check_eth_bridge_key(key) {
            return None;
        }
        if key.segments.len() == 4 {
            if crate::strings::str_eq(key.segments[1].as_str(), "ERC20") && crate::strings::str_eq(
                key.segments[3].as_str(),
                "supply",
            ) {
                return Some(MultitokenKey::Supply { erc20: key.segments[2].clone() });
            }
            return None;
        }
        if key.segments.len() == 5 {
            if crate::strings::str_eq(key.segments[1].as_str(), "ERC20") && crate::strings::str_eq(
                key.segments[3].as_str(),
                "balance",
            ) {
                return Some(
                    MultitokenKey::Balance {
                        erc20: key.segments[2].clone(),
                        owner: key.segments[4].clone(),
                    },
                );
            }
            return None;
        }
        None
    }
}

/// Validates a transaction against the bridge account: only balance and
/// supply moves of wrapped ERC20 tokens could ever be accepted, and for
/// the time being every change through this path is rejected. It is an
/// error to trigger the predicate with no change under the account at
/// all.
pub fn validate_tx(_tx_data: &[u8], keys_changed: &Vec<Key>, _verifiers: &Vec<String>) -> (r:
    Result<bool, Error>)
    ensures
        match r {
            Ok(b) => !b && (exists|i: int|
                0 <= i < keys_changed@.len() && is_eth_bridge_key(
                    (#[trigger] keys_changed@[i])@,
                )),
            Err(_) => forall|i: int|
                0 <= i < keys_changed@.len() ==> !is_eth_bridge_key(
                    (#[trigger] keys_changed@[i])@,
                ),
        },
{
    // keep only the keys under the bridge account
    let mut relevant: usize = 0;
    let n = keys_changed.len();
    let mut i: usize = 0;
    let mut witness: usize = 0;
    while i < n
        invariant
            i <= n,
            n == keys_changed@.len(),
            relevant <= i,
            relevant > 0 ==> witness < i && is_eth_bridge_key(keys_changed@[witness as int]@),
            relevant == 0 ==> forall|j: int|
                0 <= j < i ==> !is_eth_bridge_key((#[trigger] keys_changed@[j])@),
        decreases n - i,
    {
        if check_eth_bridge_key(&keys_changed[i]) {
            if relevant == 0 {
                witness = i;
            }
            relevant = relevant + 1;
        }
        i = i + 1;
    }
    if relevant == 0 {
        return Err(
            Error::new(
                "no keys changed under our account so this validity predicate should not have been triggered".to_owned(),
            ),
        );
    }
    if relevant != 2 {
        return Ok(false);
    }
    // both changed keys must be wrapped-ERC20 keys; and even then, wasm
    // transactions may not move bridge tokens directly
    let mut j: usize = 0;
    while j < n
        invariant
            j <= n,
            n == keys_changed@.len(),
            exists|x: int|
                0 <= x < keys_changed@.len() && is_eth_bridge_key(
                    (#[trigger] keys_changed@[x])@,
                ),
        decreases n - j,
    {
        if check_eth_bridge_key(&keys_changed[j]) {
            if MultitokenKey::try_from(&keys_changed[j]).is_none() {
                return Ok(false);
            }
        }
        j = j + 1;
    }
    Ok(false)
}

/// The validity predicate of the Ethereum bridge account.
pub struct EthBridge {
}

impl EthBridge {
    /// Validates a transaction touching the bridge account.
    pub fn validate_tx(&self, tx_data: &[u8], keys_changed: &Vec<Key>, verifiers: &Vec<String>)
        -> (r: Result<bool, Error>)
        ensures
            match r {
                Ok(b) => !b && (exists|i: int|
                    0 <= i < keys_changed@.len() && is_eth_bridge_key(
                        (#[trigger] keys_changed@[i])@,
                    )),
                Err(_) => forall|i: int|
                    0 <= i < keys_changed@.len() ==> !is_eth_bridge_key(
                        (#[trigger] keys_changed@[i])@,
                    ),
            },
    {
        validate_tx(tx_data, keys_changed, verifiers)
    }
}

} // verus!
