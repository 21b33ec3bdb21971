//! Handles on the value of a key.

use vstd::prelude::*;
use vstd::slice::slice_to_vec;

verus! {

/// The length and the hash of a value that the base trie stores.
#[derive(Clone, Copy, Debug, PartialEq, Eq)]
pub struct ValueRef {
    /// The length of the value, in bytes.
    pub length: u32,
    /// The SHA-256 digest of the value.
    pub hash: [u8; 32],
}

/// What a lookup in the base trie gives for a key that has a value.
#[derive(Debug, PartialEq, Eq)]
pub enum OptimizedValueRef {
    /// The value is in storage, under its hash.
    Ref(ValueRef),
    /// The value itself.
    AvailableValue(Vec<u8>),
}

impl OptimizedValueRef {
    /// The length of the value, in bytes.
    pub open spec fn spec_len(&self) -> nat {
        match self {
            OptimizedValueRef::Ref(value_ref) => value_ref.length as nat,
            OptimizedValueRef::AvailableValue(value) => value@.len(),
        }
    }

    /// The length of the value, in bytes.
    pub fn len(&self) -> (length: usize)
        ensures
            length == self.spec_len(),
    {
        match self {
            OptimizedValueRef::Ref(value_ref) => value_ref.length as usize,
            OptimizedValueRef::AvailableValue(value) => value.len(),
        }
    }
}

/// A handle on the value that a key resolves to.
#[derive(Debug, PartialEq, Eq)]
pub enum TrieUpdateValuePtr<'a> {
    /// The value is the base trie's.
    Ref(OptimizedValueRef),
    /// The value is held by one of the overlay's layers.
    MemoryRef(&'a [u8]),
}

/// What it takes to have the bytes of a value.
#[derive(Debug, PartialEq, Eq)]
pub enum ValueSource {
    /// The bytes.
    Bytes(Vec<u8>),
    /// The value is in storage: the base trie retrieves it by this reference.
    Stored(ValueRef),
}

impl<'a> TrieUpdateValuePtr<'a> {
    /// The length of the value, in bytes.
    pub open spec fn spec_len(&self) -> nat {
        match self {
            TrieUpdateValuePtr::MemoryRef(value) => value@.len(),
            TrieUpdateValuePtr::Ref(value_ref) => value_ref.spec_len(),
        }
    }

    /// The length of the value as a `u32`. A length that does not fit is cut
    /// to its low 32 bits.
    pub fn len(&self) -> (length: u32)
        ensures
            length == self.spec_len() as u32,
            self.spec_len() <= u32::MAX ==> length == self.spec_len(),
    {
        match self {
            TrieUpdateValuePtr::MemoryRef(value) => value.len() as u32,
            TrieUpdateValuePtr::Ref(value_ref) => value_ref.len() as u32,
        }
    }

    /// The bytes of the value where the handle has them, else the reference
    /// by which the base trie retrieves them.
    pub fn deref_value(&self) -> (source: ValueSource)
        ensures
            match *self {
                TrieUpdateValuePtr::MemoryRef(value) => source matches ValueSource::Bytes(bytes)
                    && bytes@ == value@,
                TrieUpdateValuePtr::Ref(OptimizedValueRef::AvailableValue(value)) => source matches ValueSource::Bytes(
                    bytes,
                ) && bytes@ == value@,
                TrieUpdateValuePtr::Ref(OptimizedValueRef::Ref(value_ref)) => source
                    == ValueSource::Stored(value_ref),
            },
    {
        match self {
            TrieUpdateValuePtr::MemoryRef(value) => ValueSource::Bytes(slice_to_vec(value)),
            TrieUpdateValuePtr::Ref(OptimizedValueRef::AvailableValue(value)) => ValueSource::Bytes(
                slice_to_vec(value.as_slice()),
            ),
            TrieUpdateValuePtr::Ref(OptimizedValueRef::Ref(value_ref)) => ValueSource::Stored(
                *value_ref,
            ),
        }
    }
}

} // verus!
