use vstd::prelude::*;

verus! {

/// A helper that accumulates the parts of a transaction before it is
/// assembled: the chain it targets, an optional expiry time, its raw
/// sections, the optional wrapper, and the signing material.
pub struct TxBuilder {
    /// The target chain's identifier.
    pub chain_id: String,
    /// The expiry time, when one is set.
    pub expiration: Option<String>,
    /// The raw transaction sections gathered so far.
    pub sections: Vec<Vec<u8>>,
    /// The encoded wrapper transaction, when one is set.
    pub wrapper: Option<Vec<u8>>,
    /// The encoded fee payer's key, when one is set.
    pub gas_payer: Option<Vec<u8>>,
    /// The encoded signing keys.
    pub signing_keys: Vec<Vec<u8>>,
    /// The encoded map of account public keys, when one is set.
    pub account_public_keys_map: Option<Vec<u8>>,
}

impl Default for TxBuilder {
    /// An empty builder: no sections, nothing set.
    fn default() -> (r: TxBuilder)
        ensures
            r.chain_id@ == Seq::<char>::empty(),
            r.expiration is None,
            r.sections@ == Seq::<Vec<u8>>::empty(),
            r.wrapper is None,
            r.gas_payer is None,
            r.signing_keys@ == Seq::<Vec<u8>>::empty(),
            r.account_public_keys_map is None,
    {
        let r = TxBuilder {
            chain_id: String::new(),
            expiration: None,
            sections: Vec::new(),
            wrapper: None,
            gas_payer: None,
            signing_keys: Vec::new(),
            account_public_keys_map: None,
        };
        proof {
            assert(r.sections@ =~= Seq::<Vec<u8>>::empty());
            assert(r.signing_keys@ =~= Seq::<Vec<u8>>::empty());
        }
        r
    }
}

} // verus!
