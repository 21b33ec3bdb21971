//! The overlay: two layers of changes above a base trie.

use vstd::prelude::*;
use vstd::slice::slice_to_vec;
use near_primitives::trie_key::TrieKey;
use near_primitives::types::StateChangeCause;
use crate::key::LogicalKey;
use crate::key_order::{ascending, key_views, lemma_lex_irreflexive, lex_lt};
use crate::primitives::clone_cause;
use crate::records::{bytes_view, CommittedEntry, PendingUpdate, RawStateChange,
    RawStateChangesWithTrieKey, TrieKeyValueUpdate};
use crate::sorted_map::SortedMap;
use crate::state::{appended, lemma_updated, updated, OverlayState};
use crate::value::TrieUpdateValuePtr;

verus! {

/// Where the value of a key comes from.
#[derive(Debug, PartialEq, Eq)]
pub enum Lookup<T> {
    /// One of the layers has the key: this is what it holds.
    Overlay(T),
    /// Neither layer has the key: the base trie decides.
    Base,
}

/// Provides a way to read the state of a trie and to record changes to it,
/// to be committed later.
#[derive(Debug)]
pub struct TrieUpdate {
    committed: SortedMap<RawStateChangesWithTrieKey>,
    prospective: SortedMap<TrieKeyValueUpdate>,
}

impl View for TrieUpdate {
    type V = OverlayState;

    closed spec fn view(&self) -> OverlayState {
        OverlayState { prospective: self.prospective@, committed: self.committed@ }
    }
}

impl TrieUpdate {
    /// The invariant of the overlay: both layers are in key order, and every
    /// committed key has at least one change.
    pub closed spec fn wf(&self) -> bool {
        &&& self.prospective.wf()
        &&& self.committed.wf()
        &&& self@.history_kept()
    }

    /// Every committed key of an overlay has at least one change.
    pub proof fn lemma_history_kept(&self)
        requires
            self.wf(),
        ensures
            self@.history_kept(),
    {
    }

    /// An overlay with both layers empty.
    pub fn new() -> (update: TrieUpdate)
        ensures
            update.wf(),
            update@ == OverlayState::empty(),
    {
        TrieUpdate { committed: SortedMap::new(), prospective: SortedMap::new() }
    }

    /// Resolves `key` in the layers, without copying the value.
    pub fn get_ref(&self, key: &LogicalKey) -> (found: Lookup<Option<TrieUpdateValuePtr<'_>>>)
        requires
            self.wf(),
        ensures
            match self@.resolve(key.raw()) {
                Some(Some(bytes)) => found matches Lookup::Overlay(
                    Some(TrieUpdateValuePtr::MemoryRef(value)),
                ) && value@ == bytes,
                Some(None) => found matches Lookup::Overlay(None),
                None => found is Base,
            },
    {
        if let Some(key_value) = self.prospective.get(key.as_bytes()) {
            return Lookup::Overlay(
                match &key_value.value {
                    Some(value) => Some(TrieUpdateValuePtr::MemoryRef(value.as_slice())),
                    None => None,
                },
            );
        } else if let Some(changes_with_trie_key) = self.committed.get(key.as_bytes()) {
            let changes = &changes_with_trie_key.changes;
            if changes.len() > 0 {
                let last = &changes[changes.len() - 1];
                return Lookup::Overlay(
                    match &last.data {
                        Some(value) => Some(TrieUpdateValuePtr::MemoryRef(value.as_slice())),
                        None => None,
                    },
                );
            }
        }
        Lookup::Base
    }

    /// Tells whether `key` has a value in the layers. A tombstone counts as
    /// no value.
    pub fn contains_key(&self, key: &LogicalKey) -> (found: Lookup<bool>)
        requires
            self.wf(),
        ensures
            match self@.resolve(key.raw()) {
                Some(value) => found == Lookup::Overlay(value is Some),
                None => found is Base,
            },
    {
        match self.get_ref(key) {
            Lookup::Overlay(value) => Lookup::Overlay(value.is_some()),
            Lookup::Base => Lookup::Base,
        }
    }

    /// Resolves `key` in the layers and copies the value.
    pub fn get_from_updates(&self, key: &LogicalKey) -> (found: Lookup<Option<Vec<u8>>>)
        requires
            self.wf(),
        ensures
            match self@.resolve(key.raw()) {
                Some(value) => found matches Lookup::Overlay(copy) && bytes_view(copy) == value,
                None => found is Base,
            },
    {
        match self.get_ref(key) {
            Lookup::Overlay(Some(TrieUpdateValuePtr::MemoryRef(value))) => Lookup::Overlay(
                Some(slice_to_vec(value)),
            ),
            Lookup::Overlay(_) => Lookup::Overlay(None),
            Lookup::Base => Lookup::Base,
        }
    }

    /// Sets the value of `key` in the prospective layer.
    pub fn set(&mut self, key: LogicalKey, value: Vec<u8>)
        requires
            old(self).wf(),
        ensures
            final(self).wf(),
            final(self)@ == old(self)@.set(key.raw(), key.trie_key(), value@),
    {
        let (trie_key, raw) = key.into_parts();
        self.prospective.insert(raw, TrieKeyValueUpdate { trie_key, value: Some(value) });
        assert(self@.committed == old(self)@.committed);
    }

    /// Puts a tombstone for `key` in the prospective layer. The result tells
    /// whether the removal is to be recorded with the storage proof: it is
    /// where a recorder is attached and the key is a contract's data.
    pub fn remove(&mut self, key: LogicalKey, recorder_attached: bool) -> (record_removal: bool)
        requires
            old(self).wf(),
        ensures
            final(self).wf(),
            final(self)@ == old(self)@.remove(key.raw(), key.trie_key()),
            record_removal == (recorder_attached && key.contract_data()),
    {
        let record_removal = recorder_attached && key.is_contract_data();
        let (trie_key, raw) = key.into_parts();
        self.prospective.insert(raw, TrieKeyValueUpdate { trie_key, value: None });
        assert(self@.committed == old(self)@.committed);
        record_removal
    }

    /// Discards the prospective layer.
    pub fn rollback(&mut self)
        requires
            old(self).wf(),
        ensures
            final(self).wf(),
            final(self)@ == old(self)@.rollback(),
    {
        self.prospective.clear();
        assert(self@.committed == old(self)@.committed);
    }

    /// Appends every prospective change to the history of its key, with
    /// `event` as the cause, and leaves the prospective layer empty.
    pub fn commit(&mut self, event: StateChangeCause)
        requires
            old(self).wf(),
        ensures
            final(self).wf(),
            final(self)@ == old(self)@.commit(event),
    {
        let ghost before = self@;
        while self.prospective.len() > 0
            invariant
                self.prospective.wf(),
                self.committed.wf(),
                before.history_kept(),
                // What is left to commit is as it was.
                forall|key: Seq<u8>| #[trigger]
                    self@.prospective.dom().contains(key) ==> {
                        &&& before.prospective.dom().contains(key)
                        &&& self@.prospective[key] == before.prospective[key]
                    },
                // The committed layer holds what it held and what is done.
                forall|key: Seq<u8>| #[trigger]
                    self@.committed.dom().contains(key) <==> {
                        ||| before.committed.dom().contains(key)
                        ||| taken(before.prospective, self@.prospective, key)
                    },
                forall|key: Seq<u8>| #[trigger]
                    self@.committed.dom().contains(key) ==> self@.committed[key] == if taken(
                        before.prospective,
                        self@.prospective,
                        key,
                    ) {
                        appended(before.committed, key, before.prospective[key], event)
                    } else {
                        before.committed[key]
                    },
            decreases self.prospective.keys().len(),
        {
            let ghost pending = self@.prospective;
            let ghost done = self@.committed;
            proof {
                self.prospective.lemma_place(0);
            }
            if let Some((raw, update)) = self.prospective.pop() {
                assert(pending.dom().contains(raw@));
                let TrieKeyValueUpdate { trie_key, value } = update;
                let change = RawStateChange { cause: clone_cause(&event), data: value };
                record_change(&mut self.committed, raw, trie_key, change);
                proof {
                    assert(appended(done, raw@, update@, event) == appended(
                        before.committed,
                        raw@,
                        before.prospective[raw@],
                        event,
                    ));
                }
            }
        }
        proof {
            assert(self@.prospective =~= Map::<Seq<u8>, PendingUpdate>::empty());
            assert(self@.committed =~= before.commit(event).committed);
            assert forall|key: Seq<u8>| #[trigger]
                self@.committed.dom().contains(key) implies self@.committed[key].changes.len()
                > 0 by {
                if before.committed.dom().contains(key) {
                    assert(before.committed[key].changes.len() > 0);
                }
            }
        }
    }

    /// Whether the prospective layer is empty, as `finalize` needs it.
    pub fn prospective_is_empty(&self) -> (empty: bool)
        requires
            self.wf(),
        ensures
            empty == (self@.prospective == Map::<Seq<u8>, PendingUpdate>::empty()),
    {
        self.prospective.is_empty()
    }

    /// Ends the overlay and hands on what it committed: for each key, in key
    /// order, its last value, which the base trie is to take, and its
    /// history. The prospective layer must be empty.
    pub fn finalize(self) -> (result: TrieUpdateResult)
        requires
            self.wf(),
            self@.prospective == Map::<Seq<u8>, PendingUpdate>::empty(),
        ensures
            result.reports(self@.committed),
    {
        let ghost state = self@;
        let ghost committed = self@.committed;
        let ghost sorted = self.committed.keys();
        let ghost values = self.committed.values();
        proof {
            self.committed.lemma_dom();
            assert forall|i: int| 0 <= i < sorted.len() implies committed.dom().contains(
                #[trigger] sorted[i],
            ) && committed[sorted[i]] == values[i] by {
                self.committed.lemma_place(i);
            }
        }
        let (keys, state_changes) = self.committed.into_parts();
        let mut trie_updates: Vec<(Vec<u8>, Option<Vec<u8>>)> = Vec::new();
        let mut i: usize = 0;
        while i < keys.len()
            invariant
                i <= keys.len(),
                keys.len() == state_changes.len(),
                key_views(keys@) == sorted,
                trie_updates@.len() == i,
                state.history_kept(),
                committed == state.committed,
                forall|j: int|
                    0 <= j < sorted.len() ==> committed.dom().contains(#[trigger] sorted[j])
                        && committed[sorted[j]] == state_changes@[j]@,
                forall|j: int|
                    0 <= j < i ==> (#[trigger] trie_updates@[j]).0@ == sorted[j] && bytes_view(
                        trie_updates@[j].1,
                    ) == committed[sorted[j]].current(),
            decreases keys.len() - i,
        {
            let changes = &state_changes[i].changes;
            assert(sorted[i as int] == keys@[i as int]@);
            assert(committed[sorted[i as int]].changes.len() > 0);
            let data = match &changes[changes.len() - 1].data {
                Some(value) => Some(slice_to_vec(value.as_slice())),
                None => None,
            };
            trie_updates.push((slice_to_vec(keys[i].as_slice()), data));
            i += 1;
        }
        let result = TrieUpdateResult { trie_updates, state_changes };
        proof {
            assert(result.keys() =~= sorted);
        }
        result
    }

    /// Finalizes the overlay if nothing is left uncommitted, and else refuses:
    /// the overlay comes back as it is, and nothing of the prospective layer
    /// is handed on.
    pub fn try_finalize(self) -> (result: Result<TrieUpdateResult, TrieUpdate>)
        requires
            self.wf(),
        ensures
            match result {
                Ok(finalized) => {
                    &&& self@.prospective == Map::<Seq<u8>, PendingUpdate>::empty()
                    &&& finalized.reports(self@.committed)
                },
                Err(update) => {
                    &&& self@.prospective != Map::<Seq<u8>, PendingUpdate>::empty()
                    &&& update == self
                },
            },
    {
        if self.prospective_is_empty() {
            Ok(self.finalize())
        } else {
            Err(self)
        }
    }

    /// The prospective layer.
    pub(crate) fn prospective_layer(&self) -> (layer: &SortedMap<TrieKeyValueUpdate>)
        requires
            self.wf(),
        ensures
            layer.wf(),
            layer@ == self@.prospective,
    {
        &self.prospective
    }

    /// The committed layer.
    pub(crate) fn committed_layer(&self) -> (layer: &SortedMap<RawStateChangesWithTrieKey>)
        requires
            self.wf(),
        ensures
            layer.wf(),
            layer@ == self@.committed,
    {
        &self.committed
    }
}

/// What `finalize` hands on: the changes to make in the base trie, and the
/// history of every changed key.
#[derive(Debug)]
pub struct TrieUpdateResult {
    /// For each committed key, in key order, its serialization and its last
    /// value: the batch with which the base trie is updated.
    pub trie_updates: Vec<(Vec<u8>, Option<Vec<u8>>)>,
    /// For each committed key, in the same order, all its changes.
    pub state_changes: Vec<RawStateChangesWithTrieKey>,
}

impl TrieUpdateResult {
    /// The keys of the batch.
    pub open spec fn keys(&self) -> Seq<Seq<u8>> {
        Seq::new(self.trie_updates@.len(), |i: int| self.trie_updates@[i].0@)
    }

    /// The batch: each key with its last value.
    pub open spec fn updates(&self) -> Seq<(Seq<u8>, Option<Seq<u8>>)> {
        Seq::new(
            self.trie_updates@.len(),
            |i: int| (self.trie_updates@[i].0@, bytes_view(self.trie_updates@[i].1)),
        )
    }

    /// The result hands on the keys of `committed`, each once and in
    /// ascending order, with its last value and its whole history.
    pub open spec fn reports(&self, committed: Map<Seq<u8>, CommittedEntry>) -> bool {
        &&& self.state_changes@.len() == self.trie_updates@.len()
        &&& ascending(self.keys())
        &&& forall|key: Seq<u8>| self.keys().contains(key) <==> committed.dom().contains(key)
        &&& forall|i: int|
            0 <= i < self.trie_updates@.len() ==> {
                &&& bytes_view((#[trigger] self.trie_updates@[i]).1) == committed[self.keys()[i]].current()
                &&& self.state_changes@[i]@ == committed[self.keys()[i]]
            }
    }

    /// A trie that has taken the batch holds for every key the value that a
    /// reader of the overlay had for it: a new overlay above that trie reads
    /// as the finalized one did.
    pub proof fn lemma_round_trip(
        &self,
        state: OverlayState,
        base: Map<Seq<u8>, Seq<u8>>,
        key: Seq<u8>,
    )
        requires
            state.history_kept(),
            state.prospective == Map::<Seq<u8>, PendingUpdate>::empty(),
            self.reports(state.committed),
        ensures
            OverlayState::empty().read(updated(base, self.updates()), key) == state.read(base, key),
    {
        let updates = self.updates();
        assert forall|i: int, j: int| 0 <= i < j < updates.len() implies (#[trigger] updates[i]).0
            != (#[trigger] updates[j]).0 by {
            assert(lex_lt(self.keys()[i], self.keys()[j]));
            lemma_lex_irreflexive(self.keys()[i]);
        }
        lemma_updated(base, updates, key);
        if state.committed.dom().contains(key) {
            assert(self.keys().contains(key));
            let i = choose|i: int| 0 <= i < self.keys().len() && self.keys()[i] == key;
            assert(updates[i].0 == key);
            assert(bytes_view(self.trie_updates@[i].1) == state.committed[self.keys()[i]].current());
        } else {
            assert forall|i: int| 0 <= i < updates.len() implies (#[trigger] updates[i]).0
                != key by {
                assert(self.keys().contains(self.keys()[i]));
            }
        }
    }
}

/// `key` was to be committed and is no longer left.
spec fn taken(
    all: Map<Seq<u8>, PendingUpdate>,
    left: Map<Seq<u8>, PendingUpdate>,
    key: Seq<u8>,
) -> bool {
    all.dom().contains(key) && !left.dom().contains(key)
}

/// Appends `change` to the history of the key `raw`.
fn record_change(
    committed: &mut SortedMap<RawStateChangesWithTrieKey>,
    raw: Vec<u8>,
    trie_key: TrieKey,
    change: RawStateChange,
)
    requires
        old(committed).wf(),
    ensures
        final(committed).wf(),
        final(committed)@ == old(committed)@.insert(
            raw@,
            appended(
                old(committed)@,
                raw@,
                PendingUpdate { trie_key, value: change@.data },
                change@.cause,
            ),
        ),
{
    let ghost before = *committed;
    match committed.find(raw.as_slice()) {
        Some(i) => {
            proof {
                before.lemma_place(i as int);
            }
            let entry = committed.value_at_mut(i);
            let ghost history = entry@;
            entry.changes.push(change);
            proof {
                assert(entry@.changes =~= history.changes.push(change@));
                before.lemma_value_changed(
                    committed,
                    i as int,
                    CommittedEntry {
                        trie_key: history.trie_key,
                        changes: history.changes.push(change@),
                    },
                );
            }
        },
        None => {
            let ghost first = change@;
            let mut changes = Vec::new();
            changes.push(change);
            let entry = RawStateChangesWithTrieKey { trie_key, changes };
            assert(entry@.changes =~= seq![first]);
            committed.insert(raw, entry);
        },
    }
}

} // verus!
