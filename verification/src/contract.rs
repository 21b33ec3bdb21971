//! Recording that a contract was called.

use vstd::prelude::*;
use near_primitives::errors::StorageError;
use near_primitives::types::AccountId;
use near_vm_runner::logic::ProtocolVersion;
use crate::key::LogicalKey;
use crate::primitives::{code_excluded_from_witness, contract_code_key, contract_code_trie_key,
    default_hash, hash_bytes, is_missing_trie_value, missing_trie_value, sha256, zero_hash,
    CODE_EXCLUDED_FROM_WITNESS_VERSION};
use crate::update::TrieUpdate;
use crate::value::OptimizedValueRef;

verus! {

/// What is to be done to record a call of a contract.
#[derive(Debug)]
pub enum ContractCall {
    /// The code goes into the state witness: the base trie is to read the
    /// code of this account, with the side effects of a read.
    RequestCodeRecording(AccountId),
    /// The call names no code: there is nothing to record.
    Nothing,
    /// The code is distributed apart from the witness. The base trie is to
    /// look this key up without side effects; `contract_call_confirmed` then
    /// says whether the call is recorded.
    Probe(LogicalKey),
}

/// Whether the account has the called code, given what the base trie found
/// under the account's code key. A value that is missing in storage counts
/// as no code; any other error is handed on.
pub open spec fn confirmed(
    code_hash: Seq<u8>,
    found: Result<Option<OptimizedValueRef>, StorageError>,
) -> Result<bool, StorageError> {
    match found {
        Err(err) => if is_missing_trie_value(err) {
            Ok(false)
        } else {
            Err(err)
        },
        Ok(None) => Ok(false),
        Ok(Some(OptimizedValueRef::Ref(value_ref))) => Ok(value_ref.hash@ == code_hash),
        Ok(Some(OptimizedValueRef::AvailableValue(value))) => Ok(sha256(value@) == code_hash),
    }
}

/// Tells whether two hashes are the same.
pub fn same_hash(a: &[u8; 32], b: &[u8; 32]) -> (same: bool)
    ensures
        same == (a@ == b@),
{
    let mut i: usize = 0;
    while i < 32
        invariant
            i <= 32,
            forall|j: int| 0 <= j < i ==> a@[j] == b@[j],
        decreases 32 - i,
    {
        if a[i] != b[i] {
            return false;
        }
        i += 1;
    }
    assert(a@ =~= b@);
    true
}

impl TrieUpdate {
    /// Decides how the call of the contract with `code_hash`, on the account
    /// `account_id`, is recorded at `protocol_version`.
    pub fn record_contract_call(
        &self,
        account_id: AccountId,
        code_hash: &[u8; 32],
        protocol_version: ProtocolVersion,
    ) -> (call: ContractCall)
        ensures
            match call {
                ContractCall::RequestCodeRecording(id) => {
                    &&& protocol_version < CODE_EXCLUDED_FROM_WITNESS_VERSION
                    &&& id == account_id
                },
                ContractCall::Nothing => {
                    &&& protocol_version >= CODE_EXCLUDED_FROM_WITNESS_VERSION
                    &&& code_hash@ == zero_hash()
                },
                ContractCall::Probe(key) => {
                    &&& protocol_version >= CODE_EXCLUDED_FROM_WITNESS_VERSION
                    &&& code_hash@ != zero_hash()
                    &&& key.describes(contract_code_key(account_id))
                },
            },
    {
        if !code_excluded_from_witness(protocol_version) {
            return ContractCall::RequestCodeRecording(account_id);
        }
        if same_hash(code_hash, &default_hash()) {
            return ContractCall::Nothing;
        }
        let key = LogicalKey::new(contract_code_trie_key(account_id));
        ContractCall::Probe(key.unwrap())
    }

    /// Tells whether the call is recorded: it is where the account has the
    /// code with `code_hash`, by what the base trie found under the key of
    /// the probe.
    pub fn contract_call_confirmed(
        &self,
        code_hash: &[u8; 32],
        found: Result<Option<OptimizedValueRef>, StorageError>,
    ) -> (record: Result<bool, StorageError>)
        ensures
            record == confirmed(code_hash@, found),
    {
        match found {
            Err(err) => if missing_trie_value(&err) {
                Ok(false)
            } else {
                Err(err)
            },
            Ok(None) => Ok(false),
            Ok(Some(OptimizedValueRef::Ref(value_ref))) => Ok(same_hash(&value_ref.hash, code_hash)),
            Ok(Some(OptimizedValueRef::AvailableValue(value))) => Ok(
                same_hash(&hash_bytes(value.as_slice()), code_hash),
            ),
        }
    }
}

} // verus!
