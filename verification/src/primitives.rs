//! What the overlay takes from `near_primitives`: the types it carries
//! through, and the calls it makes. Verus does not read that crate, so every
//! contract in this file is taken on trust from its source.

use vstd::prelude::*;
use near_primitives::errors::StorageError;
use near_primitives::trie_key::TrieKey;
use near_primitives::types::{AccountId, StateChangeCause, TrieCacheMode};
use near_primitives::version::ProtocolFeature;
use near_vm_runner::logic::ProtocolVersion;

verus! {

/// `near_primitives::trie_key::TrieKey`: the key of a record in the trie.
#[verifier::external_type_specification]
#[verifier::external_body]
pub struct ExTrieKey(TrieKey);

/// `near_primitives::types::AccountId`: the name of an account.
#[verifier::external_type_specification]
#[verifier::external_body]
pub struct ExAccountId(AccountId);

/// `near_primitives::types::StateChangeCause`: why a change was made.
#[verifier::external_type_specification]
#[verifier::external_body]
pub struct ExStateChangeCause(StateChangeCause);

/// `near_primitives::types::TrieCacheMode`: where the trie caches the nodes
/// that it visits.
#[verifier::external_type_specification]
#[verifier::external_body]
pub struct ExTrieCacheMode(TrieCacheMode);

/// `near_primitives::errors::StorageError`: a failure of the trie's storage.
#[verifier::external_type_specification]
#[verifier::external_body]
pub struct ExStorageError(StorageError);

/// What the overlay has to know of a trie key's variant.
#[derive(Clone, Copy, Debug, PartialEq, Eq, Structural)]
pub enum TrieKeyKind {
    /// A record that a contract keeps under its account.
    ContractData,
    /// A receipt buffered for the shard with this id.
    BufferedReceipt { receiving_shard: u64 },
    /// Any other key.
    Other,
}

/// The protocol version from which the code of a called contract is left
/// out of the state witness.
pub const CODE_EXCLUDED_FROM_WITNESS_VERSION: u32 = 73;

/// The greatest shard id that a trie key can be serialized with.
pub const MAX_SERIALIZED_SHARD: u64 = 0xffff;

/// The bytes that `TrieKey::to_vec` gives for `key`.
pub uninterp spec fn trie_key_bytes(key: TrieKey) -> Seq<u8>;

/// The variant of `key`.
pub uninterp spec fn trie_key_kind(key: TrieKey) -> TrieKeyKind;

/// The key `TrieKey::ContractCode` of an account.
pub uninterp spec fn contract_code_key(account_id: AccountId) -> TrieKey;

/// The SHA-256 digest that `near_primitives::hash::hash` gives for `data`.
pub uninterp spec fn sha256(data: Seq<u8>) -> Seq<u8>;

/// Whether `err` is `StorageError::MissingTrieValue`.
pub uninterp spec fn is_missing_trie_value(err: StorageError) -> bool;

/// Whether `mode` is `TrieCacheMode::CachingChunk`.
pub uninterp spec fn is_caching_chunk(mode: TrieCacheMode) -> bool;

/// `TrieKey::to_vec` can serialize the key without failing.
pub open spec fn serializable(key: TrieKey) -> bool {
    trie_key_kind(key) matches TrieKeyKind::BufferedReceipt { receiving_shard }
        ==> receiving_shard <= MAX_SERIALIZED_SHARD
}

/// The hash in which every byte is zero.
pub open spec fn zero_hash() -> Seq<u8> {
    Seq::new(32, |i: int| 0u8)
}

/// Matches on the variants of `TrieKey`. The result is by definition
/// `trie_key_kind`; nothing more is claimed of it.
#[verifier::external_body]
pub(crate) fn key_kind(key: &TrieKey) -> (kind: TrieKeyKind)
    ensures
        kind == trie_key_kind(*key),
{
    match key {
        TrieKey::ContractData { .. } => TrieKeyKind::ContractData,
        TrieKey::BufferedReceipt { receiving_shard, .. } => {
            TrieKeyKind::BufferedReceipt { receiving_shard: (*receiving_shard).into() }
        },
        _ => TrieKeyKind::Other,
    }
}

/// Calls `TrieKey::to_vec`. It is a function of the key alone; it panics on
/// a buffered receipt whose shard id does not fit in 16 bits, which `requires`
/// leaves out.
#[verifier::external_body]
pub(crate) fn serialize_key(key: &TrieKey) -> (raw: Vec<u8>)
    requires
        serializable(*key),
    ensures
        raw@ == trie_key_bytes(*key),
{
    key.to_vec()
}

/// Builds `TrieKey::ContractCode { account_id }`, which is no contract data
/// and no buffered receipt.
#[verifier::external_body]
pub(crate) fn contract_code_trie_key(account_id: AccountId) -> (key: TrieKey)
    ensures
        key == contract_code_key(account_id),
        trie_key_kind(key) == TrieKeyKind::Other,
{
    TrieKey::ContractCode { account_id }
}

/// Calls `near_primitives::hash::hash`, the SHA-256 digest of `data`, and
/// hands out its 32 bytes.
#[verifier::external_body]
pub(crate) fn hash_bytes(data: &[u8]) -> (digest: [u8; 32])
    ensures
        digest@ == sha256(data@),
{
    near_primitives::hash::hash(data).0
}

/// Calls `CryptoHash::default`, which is 32 zero bytes.
#[verifier::external_body]
pub(crate) fn default_hash() -> (digest: [u8; 32])
    ensures
        digest@ == zero_hash(),
{
    near_primitives::hash::CryptoHash::default().0
}

/// Calls `ProtocolFeature::ExcludeContractCodeFromStateWitness.enabled`: the
/// feature is on from the protocol version that `ProtocolFeature` gives it.
#[verifier::external_body]
pub(crate) fn code_excluded_from_witness(protocol_version: ProtocolVersion) -> (enabled: bool)
    ensures
        enabled == (protocol_version >= CODE_EXCLUDED_FROM_WITNESS_VERSION),
{
    ProtocolFeature::ExcludeContractCodeFromStateWitness.enabled(protocol_version)
}

/// Calls the derived `Clone` of `StateChangeCause`, which copies every field.
#[verifier::external_body]
pub(crate) fn clone_cause(cause: &StateChangeCause) -> (copy: StateChangeCause)
    ensures
        copy == *cause,
{
    cause.clone()
}

/// Tells `StorageError::MissingTrieValue` from the other variants.
#[verifier::external_body]
pub(crate) fn missing_trie_value(err: &StorageError) -> (missing: bool)
    ensures
        missing == is_missing_trie_value(*err),
{
    match err {
        StorageError::MissingTrieValue(_, _) => true,
        _ => false,
    }
}

/// Tells `TrieCacheMode::CachingChunk` from `TrieCacheMode::CachingShard`.
#[verifier::external_body]
pub(crate) fn caching_chunk(mode: &TrieCacheMode) -> (chunk: bool)
    ensures
        chunk == is_caching_chunk(*mode),
{
    match mode {
        TrieCacheMode::CachingChunk => true,
        TrieCacheMode::CachingShard => false,
    }
}

} // verus!
