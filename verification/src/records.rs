//! The entries of the two layers, and what they stand for.

use vstd::prelude::*;
use near_primitives::trie_key::TrieKey;
use near_primitives::types::StateChangeCause;

verus! {

/// The bytes of a value, or `None` for a tombstone.
pub open spec fn bytes_view(value: Option<Vec<u8>>) -> Option<Seq<u8>> {
    match value {
        Some(bytes) => Some(bytes@),
        None => None,
    }
}

/// A change that is not committed yet: the new value of a key, or `None`
/// where the key is removed.
#[derive(Debug)]
pub struct TrieKeyValueUpdate {
    pub trie_key: TrieKey,
    pub value: Option<Vec<u8>>,
}

/// What a `TrieKeyValueUpdate` stands for.
pub struct PendingUpdate {
    pub trie_key: TrieKey,
    pub value: Option<Seq<u8>>,
}

impl View for TrieKeyValueUpdate {
    type V = PendingUpdate;

    open spec fn view(&self) -> PendingUpdate {
        PendingUpdate { trie_key: self.trie_key, value: bytes_view(self.value) }
    }
}

/// One committed change of a key, with what caused it.
#[derive(Debug)]
pub struct RawStateChange {
    pub cause: StateChangeCause,
    pub data: Option<Vec<u8>>,
}

/// What a `RawStateChange` stands for.
pub struct ChangeRecord {
    pub cause: StateChangeCause,
    pub data: Option<Seq<u8>>,
}

impl View for RawStateChange {
    type V = ChangeRecord;

    open spec fn view(&self) -> ChangeRecord {
        ChangeRecord { cause: self.cause, data: bytes_view(self.data) }
    }
}

/// The committed changes of one key, the oldest first.
#[derive(Debug)]
pub struct RawStateChangesWithTrieKey {
    pub trie_key: TrieKey,
    pub changes: Vec<RawStateChange>,
}

/// What a `RawStateChangesWithTrieKey` stands for.
pub struct CommittedEntry {
    pub trie_key: TrieKey,
    pub changes: Seq<ChangeRecord>,
}

impl CommittedEntry {
    /// The value that the key has by its last change.
    pub open spec fn current(self) -> Option<Seq<u8>>
        recommends
            self.changes.len() > 0,
    {
        self.changes.last().data
    }
}

impl View for RawStateChangesWithTrieKey {
    type V = CommittedEntry;

    open spec fn view(&self) -> CommittedEntry {
        CommittedEntry {
            trie_key: self.trie_key,
            changes: Seq::new(self.changes@.len(), |i: int| self.changes@[i]@),
        }
    }
}

} // verus!
