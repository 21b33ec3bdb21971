//! A transactional write overlay for a persistent key/value trie.
//!
//! The overlay keeps two in-memory layers above a base trie: the prospective
//! layer of changes that are not committed yet, and the committed layer, which
//! holds for every key the history of the changes committed so far. Reads
//! resolve a key in the order prospective, committed, base trie. The base trie
//! itself, its storage and its caches stay with the caller: where a read has
//! to go on to the base trie, the functions here say so in their result.
//!
//! - [`update`]: the overlay and its operations.
//! - [`state`]: what the overlay holds, as a pair of maps, and the laws of
//!   set, remove, commit, rollback and finalize.
//! - [`iterator`]: the merge of both layers with a scan of the base trie.
//! - [`contract`]: how the call of a contract is recorded.
//! - [`cache_mode`]: the guard on the mode of the accounting cache.
//! - [`key`], [`records`], [`value`]: keys, the entries of the layers, and
//!   handles on values.
//! - [`key_order`], [`sorted_map`]: the order of serialized keys, and the
//!   map in that order of which both layers are made.
//! - [`primitives`]: what is taken from `near_primitives` on trust.

pub mod cache_mode;
pub mod contract;
pub mod iterator;
pub mod key;
pub mod key_order;
pub mod primitives;
pub mod records;
pub mod sorted_map;
pub mod state;
pub mod update;
pub mod value;
