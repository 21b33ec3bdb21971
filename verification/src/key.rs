//! Logical keys: a trie key together with its serialization.

use vstd::prelude::*;
use near_primitives::trie_key::TrieKey;
use crate::primitives::{key_kind, serializable, serialize_key, trie_key_bytes, trie_key_kind,
    TrieKeyKind, MAX_SERIALIZED_SHARD};

verus! {

/// A trie key with the bytes under which the trie, and both layers of the
/// overlay, hold it. The bytes are computed once, when the key is made.
#[derive(Debug)]
pub struct LogicalKey {
    trie_key: TrieKey,
    raw: Vec<u8>,
    contract_data: bool,
}

impl LogicalKey {
    /// The trie key.
    pub closed spec fn trie_key(&self) -> TrieKey {
        self.trie_key
    }

    /// The serialized key.
    pub closed spec fn raw(&self) -> Seq<u8> {
        self.raw@
    }

    /// Whether the key is a record that a contract keeps under its account.
    pub closed spec fn contract_data(&self) -> bool {
        self.contract_data
    }

    /// The key says of its trie key what `near_primitives` says of it.
    pub open spec fn describes(&self, trie_key: TrieKey) -> bool {
        &&& self.trie_key() == trie_key
        &&& self.raw() == trie_key_bytes(trie_key)
        &&& self.contract_data() == (trie_key_kind(trie_key) == TrieKeyKind::ContractData)
    }

    /// Serializes `trie_key`. There is no key for a buffered receipt whose
    /// shard id does not fit in 16 bits: it has no serialization.
    pub fn new(trie_key: TrieKey) -> (key: Option<LogicalKey>)
        ensures
            key is Some <==> serializable(trie_key),
            key matches Some(k) ==> k.describes(trie_key),
    {
        let kind = key_kind(&trie_key);
        let contract_data = match kind {
            TrieKeyKind::ContractData => true,
            TrieKeyKind::BufferedReceipt { receiving_shard } => {
                if receiving_shard > MAX_SERIALIZED_SHARD {
                    return None;
                }
                false
            },
            TrieKeyKind::Other => false,
        };
        let raw = serialize_key(&trie_key);
        Some(LogicalKey { trie_key, raw, contract_data })
    }

    /// The serialized key.
    pub fn as_bytes(&self) -> (raw: &[u8])
        ensures
            raw@ == self.raw(),
    {
        self.raw.as_slice()
    }

    /// Whether the key is a record that a contract keeps under its account.
    pub fn is_contract_data(&self) -> (contract_data: bool)
        ensures
            contract_data == self.contract_data(),
    {
        self.contract_data
    }

    /// The trie key.
    pub fn as_trie_key(&self) -> (trie_key: &TrieKey)
        ensures
            *trie_key == self.trie_key(),
    {
        &self.trie_key
    }

    /// Takes the key apart into the trie key and its serialization.
    pub fn into_parts(self) -> (parts: (TrieKey, Vec<u8>))
        ensures
            parts.0 == self.trie_key(),
            parts.1@ == self.raw(),
    {
        (self.trie_key, self.raw)
    }
}

} // verus!
