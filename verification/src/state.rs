//! What the overlay holds, as a pair of maps from serialized keys, what its
//! operations make of it, and the laws that hold of them.

use vstd::prelude::*;
use near_primitives::trie_key::TrieKey;
use near_primitives::types::StateChangeCause;
use crate::records::{ChangeRecord, CommittedEntry, PendingUpdate};

verus! {

/// The committed entry of `key` once `update` is appended to its history with
/// `cause`. A key without history gets one, under the trie key of the update.
pub open spec fn appended(
    committed: Map<Seq<u8>, CommittedEntry>,
    key: Seq<u8>,
    update: PendingUpdate,
    cause: StateChangeCause,
) -> CommittedEntry {
    let change = ChangeRecord { cause, data: update.value };
    if committed.dom().contains(key) {
        CommittedEntry {
            trie_key: committed[key].trie_key,
            changes: committed[key].changes.push(change),
        }
    } else {
        CommittedEntry { trie_key: update.trie_key, changes: seq![change] }
    }
}

/// What a trie that holds `base` holds after a batch of updates: each
/// update, in turn, puts a value under its key or takes the key out.
pub open spec fn updated(
    base: Map<Seq<u8>, Seq<u8>>,
    updates: Seq<(Seq<u8>, Option<Seq<u8>>)>,
) -> Map<Seq<u8>, Seq<u8>>
    decreases updates.len(),
{
    if updates.len() == 0 {
        base
    } else {
        let before = updated(base, updates.drop_last());
        match updates.last().1 {
            Some(value) => before.insert(updates.last().0, value),
            None => before.remove(updates.last().0),
        }
    }
}

/// The value of `key` in a trie that holds `base`.
pub open spec fn stored(base: Map<Seq<u8>, Seq<u8>>, key: Seq<u8>) -> Option<Seq<u8>> {
    if base.dom().contains(key) {
        Some(base[key])
    } else {
        None
    }
}

/// After a batch of updates of which no two have the same key, a key of the
/// batch has the value of its update, and any other key the value it had.
pub proof fn lemma_updated(
    base: Map<Seq<u8>, Seq<u8>>,
    updates: Seq<(Seq<u8>, Option<Seq<u8>>)>,
    key: Seq<u8>,
)
    requires
        forall|i: int, j: int|
            0 <= i < j < updates.len() ==> (#[trigger] updates[i]).0 != (#[trigger] updates[j]).0,
    ensures
        forall|i: int|
            0 <= i < updates.len() && (#[trigger] updates[i]).0 == key ==> stored(
                updated(base, updates),
                key,
            ) == updates[i].1,
        (forall|i: int| 0 <= i < updates.len() ==> (#[trigger] updates[i]).0 != key) ==> stored(
            updated(base, updates),
            key,
        ) == stored(base, key),
    decreases updates.len(),
{
    if updates.len() > 0 {
        let front = updates.drop_last();
        assert forall|i: int, j: int| 0 <= i < j < front.len() implies (#[trigger] front[i]).0
            != (#[trigger] front[j]).0 by {
            assert(front[i] == updates[i] && front[j] == updates[j]);
        }
        lemma_updated(base, front, key);
        assert forall|i: int|
            0 <= i < updates.len() && (#[trigger] updates[i]).0 == key implies stored(
            updated(base, updates),
            key,
        ) == updates[i].1 by {
            if i < updates.len() - 1 {
                assert(front[i] == updates[i]);
                assert(updates[i].0 != updates[updates.len() - 1].0);
            }
        }
        if forall|i: int| 0 <= i < updates.len() ==> (#[trigger] updates[i]).0 != key {
            assert forall|i: int| 0 <= i < front.len() implies (#[trigger] front[i]).0 != key by {
                assert(front[i] == updates[i]);
            }
            assert(updates[updates.len() - 1].0 != key);
        }
    }
}

/// What the two layers hold, as maps from serialized keys.
pub struct OverlayState {
    /// The changes that are not committed yet.
    pub prospective: Map<Seq<u8>, PendingUpdate>,
    /// The history of the committed changes of each key.
    pub committed: Map<Seq<u8>, CommittedEntry>,
}

impl OverlayState {
    /// Both layers empty.
    pub open spec fn empty() -> OverlayState {
        OverlayState { prospective: Map::empty(), committed: Map::empty() }
    }

    /// The value that the layers give `key`: `Some(Some(bytes))` for a value,
    /// `Some(None)` for a tombstone, `None` where neither layer decides and
    /// the base trie does. The prospective layer goes before the committed
    /// one, and of a key's committed changes the last one counts.
    pub open spec fn resolve(self, key: Seq<u8>) -> Option<Option<Seq<u8>>> {
        if self.prospective.dom().contains(key) {
            Some(self.prospective[key].value)
        } else if self.committed.dom().contains(key) && self.committed[key].changes.len() > 0 {
            Some(self.committed[key].current())
        } else {
            None
        }
    }

    /// Whether `key` has a value, given the keys that the base trie holds.
    pub open spec fn live(self, base: Set<Seq<u8>>, key: Seq<u8>) -> bool {
        match self.resolve(key) {
            Some(value) => value is Some,
            None => base.contains(key),
        }
    }

    /// The state after `value` is set for a key.
    pub open spec fn set(self, raw: Seq<u8>, trie_key: TrieKey, value: Seq<u8>) -> OverlayState {
        OverlayState {
            prospective: self.prospective.insert(
                raw,
                PendingUpdate { trie_key, value: Some(value) },
            ),
            committed: self.committed,
        }
    }

    /// The state after a key is removed.
    pub open spec fn remove(self, raw: Seq<u8>, trie_key: TrieKey) -> OverlayState {
        OverlayState {
            prospective: self.prospective.insert(raw, PendingUpdate { trie_key, value: None }),
            committed: self.committed,
        }
    }

    /// The state after the prospective layer is discarded.
    pub open spec fn rollback(self) -> OverlayState {
        OverlayState { prospective: Map::empty(), committed: self.committed }
    }

    /// The committed entry of `key` after a commit with `cause`.
    pub open spec fn committed_after(self, key: Seq<u8>, cause: StateChangeCause) -> CommittedEntry {
        if self.prospective.dom().contains(key) {
            appended(self.committed, key, self.prospective[key], cause)
        } else {
            self.committed[key]
        }
    }

    /// The state after a commit with `cause`: every prospective change is
    /// appended to the history of its key, and the prospective layer is empty.
    pub open spec fn commit(self, cause: StateChangeCause) -> OverlayState {
        OverlayState {
            prospective: Map::empty(),
            committed: Map::new(
                |key: Seq<u8>|
                    self.committed.dom().contains(key) || self.prospective.dom().contains(key),
                |key: Seq<u8>| self.committed_after(key, cause),
            ),
        }
    }

    /// Every committed key has at least one change.
    pub open spec fn history_kept(self) -> bool {
        forall|key: Seq<u8>| #[trigger]
            self.committed.dom().contains(key) ==> self.committed[key].changes.len() > 0
    }

    /// The value of `key` as a reader has it, above a trie that holds
    /// `base`: what the layers resolve the key to, else what the trie holds.
    pub open spec fn read(self, base: Map<Seq<u8>, Seq<u8>>, key: Seq<u8>) -> Option<Seq<u8>> {
        match self.resolve(key) {
            Some(value) => value,
            None => stored(base, key),
        }
    }

    /// The history of `key`: its committed changes, none where the committed
    /// layer does not hold it.
    pub open spec fn history(self, key: Seq<u8>) -> Seq<ChangeRecord> {
        if self.committed.dom().contains(key) {
            self.committed[key].changes
        } else {
            Seq::empty()
        }
    }

    /// A key has a value where a reader has one for it.
    pub proof fn lemma_live_is_read(self, base: Map<Seq<u8>, Seq<u8>>, key: Seq<u8>)
        ensures
            self.live(base.dom(), key) <==> self.read(base, key) is Some,
    {
    }

    /// A key resolves to the value that was set for it last, whatever the
    /// committed layer and the base trie hold for it.
    pub proof fn lemma_set_wins(self, raw: Seq<u8>, trie_key: TrieKey, value: Seq<u8>)
        ensures
            self.set(raw, trie_key, value).resolve(raw) == Some(Some(value)),
            forall|base: Set<Seq<u8>>| #[trigger] self.set(raw, trie_key, value).live(base, raw),
    {
    }

    /// A removed key resolves to a tombstone and has no value, whatever the
    /// committed layer and the base trie hold for it.
    pub proof fn lemma_remove_wins(self, raw: Seq<u8>, trie_key: TrieKey)
        ensures
            self.remove(raw, trie_key).resolve(raw) == Some(None::<Seq<u8>>),
            forall|base: Set<Seq<u8>>| !#[trigger] self.remove(raw, trie_key).live(base, raw),
    {
    }

    /// Setting or removing a key leaves every other key as it resolved
    /// before, and leaves the committed layer as it was.
    pub proof fn lemma_write_is_local(
        self,
        raw: Seq<u8>,
        trie_key: TrieKey,
        value: Seq<u8>,
        other: Seq<u8>,
    )
        requires
            other != raw,
        ensures
            self.set(raw, trie_key, value).resolve(other) == self.resolve(other),
            self.remove(raw, trie_key).resolve(other) == self.resolve(other),
            self.set(raw, trie_key, value).committed == self.committed,
            self.remove(raw, trie_key).committed == self.committed,
    {
    }

    /// A commit changes no value: every key resolves after it as before.
    pub proof fn lemma_commit_keeps_values(self, cause: StateChangeCause, key: Seq<u8>)
        requires
            self.history_kept(),
        ensures
            self.commit(cause).resolve(key) == self.resolve(key),
            self.commit(cause).history_kept(),
            self.commit(cause).prospective == Map::<Seq<u8>, PendingUpdate>::empty(),
    {
        let after = self.commit(cause);
        if self.prospective.dom().contains(key) {
            assert(after.committed.dom().contains(key));
        } else if self.committed.dom().contains(key) {
            assert(after.committed.dom().contains(key));
        }
        assert forall|k: Seq<u8>| #[trigger]
            after.committed.dom().contains(k) implies after.committed[k].changes.len() > 0 by {
            if self.committed.dom().contains(k) {
                assert(self.committed[k].changes.len() > 0);
            }
        }
    }

    /// A commit appends: a key that the prospective layer holds gets one
    /// more change at the end of its history, with the cause of the commit
    /// and the prospective value; the history of any other key stays.
    pub proof fn lemma_commit_appends(self, cause: StateChangeCause, key: Seq<u8>)
        ensures
            self.commit(cause).history(key) == if self.prospective.dom().contains(key) {
                self.history(key).push(
                    ChangeRecord { cause, data: self.prospective[key].value },
                )
            } else {
                self.history(key)
            },
    {
        let after = self.commit(cause);
        if self.prospective.dom().contains(key) {
            assert(after.committed.dom().contains(key));
            if !self.committed.dom().contains(key) {
                assert(after.history(key) =~= self.history(key).push(
                    ChangeRecord { cause, data: self.prospective[key].value },
                ));
            }
        } else if self.committed.dom().contains(key) {
            assert(after.committed.dom().contains(key));
        }
    }

    /// Two commits of the same key leave two changes at the end of its
    /// history, in the order of the commits, and the key has the value of
    /// the second.
    pub proof fn lemma_commit_twice(
        self,
        raw: Seq<u8>,
        trie_key: TrieKey,
        first: Seq<u8>,
        first_cause: StateChangeCause,
        second: Seq<u8>,
        second_cause: StateChangeCause,
    )
        ensures
            ({
                let after = self.set(raw, trie_key, first).commit(first_cause).set(
                    raw,
                    trie_key,
                    second,
                ).commit(second_cause);
                &&& after.history(raw) == self.history(raw).push(
                    ChangeRecord { cause: first_cause, data: Some(first) },
                ).push(ChangeRecord { cause: second_cause, data: Some(second) })
                &&& after.resolve(raw) == Some(Some(second))
            }),
    {
        let one = self.set(raw, trie_key, first);
        let two = one.commit(first_cause);
        let three = two.set(raw, trie_key, second);
        let four = three.commit(second_cause);
        one.lemma_commit_appends(first_cause, raw);
        three.lemma_commit_appends(second_cause, raw);
        assert(four.committed.dom().contains(raw));
    }

    /// The committed layer only grows: a commit keeps every committed key,
    /// under its trie key, and its history from before begins its history
    /// after.
    pub proof fn lemma_history_grows(self, cause: StateChangeCause, key: Seq<u8>)
        requires
            self.committed.dom().contains(key),
        ensures
            self.commit(cause).committed.dom().contains(key),
            self.commit(cause).committed[key].trie_key == self.committed[key].trie_key,
            self.committed[key].changes.is_prefix_of(self.commit(cause).committed[key].changes),
    {
    }

    /// A commit with nothing to commit changes nothing.
    pub proof fn lemma_commit_nothing(self, cause: StateChangeCause)
        requires
            self.prospective == Map::<Seq<u8>, PendingUpdate>::empty(),
        ensures
            self.commit(cause) == self,
    {
        assert(self.commit(cause).committed =~= self.committed);
    }

    /// After a rollback nothing of what was set or removed since the last
    /// commit is left: every key resolves as the committed layer has it.
    pub proof fn lemma_rollback_discards(
        self,
        raw: Seq<u8>,
        trie_key: TrieKey,
        value: Seq<u8>,
        key: Seq<u8>,
    )
        ensures
            self.set(raw, trie_key, value).rollback() == self.rollback(),
            self.remove(raw, trie_key).rollback() == self.rollback(),
            self.rollback().committed == self.committed,
            self.rollback().resolve(key) == if self.committed.dom().contains(key)
                && self.committed[key].changes.len() > 0 {
                Some(self.committed[key].current())
            } else {
                None
            },
    {
    }
}

} // verus!
