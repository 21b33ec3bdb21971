//! The guard that sets the mode of the trie's accounting cache for a while.

use vstd::prelude::*;
use near_primitives::types::TrieCacheMode;
use crate::primitives::{caching_chunk, is_caching_chunk};
use crate::update::TrieUpdate;

verus! {

/// Remembers what the switch of the accounting cache was when the guard was
/// made, to put it back. The switch itself is the caller's: it is handed to
/// the guard as the `bool` that says whether chunk caching is enabled.
#[derive(Debug)]
pub struct TrieCacheModeGuard {
    previous: bool,
}

/// The switch once a guard is made with `mode`: a mode turns chunk caching
/// on or off, no mode leaves it.
pub open spec fn switched(previous: bool, mode: Option<TrieCacheMode>) -> bool {
    match mode {
        Some(m) => is_caching_chunk(m),
        None => previous,
    }
}

impl TrieCacheModeGuard {
    /// What the switch was when the guard was made.
    pub closed spec fn previous(&self) -> bool {
        self.previous
    }

    /// Ends the guard and puts the switch back. The guard is used up, so it
    /// does this once.
    pub fn restore(self, switch: &mut bool)
        ensures
            *final(switch) == self.restored(*old(switch)),
    {
        *switch = self.previous;
    }

    /// The switch after the guard is restored, whatever it was set to
    /// while the guard stood.
    pub open spec fn restored(&self, meanwhile: bool) -> bool {
        self.previous()
    }

    /// A guard that is made when the switch is `before` puts it back to
    /// `before`, whatever mode the guard was made with and whatever became
    /// of the switch while it stood.
    pub proof fn lemma_restores(&self, before: bool, mode: Option<TrieCacheMode>, meanwhile: bool)
        requires
            self.made_at(before, mode),
        ensures
            self.restored(meanwhile) == before,
    {
    }

    /// The guard is the one that `with_trie_cache_mode` gives when the
    /// switch is `before`.
    pub open spec fn made_at(&self, before: bool, mode: Option<TrieCacheMode>) -> bool {
        self.previous() == before
    }
}

impl TrieUpdate {
    /// Sets the switch of the accounting cache as `mode` asks, and gives the
    /// guard that puts it back. With no mode the switch is left as it is.
    pub fn with_trie_cache_mode(&self, switch: &mut bool, mode: Option<TrieCacheMode>) -> (guard:
        TrieCacheModeGuard)
        ensures
            guard.made_at(*old(switch), mode),
            *final(switch) == switched(*old(switch), mode),
    {
        let previous = *switch;
        if let Some(mode) = mode {
            *switch = caching_chunk(&mode);
        }
        TrieCacheModeGuard { previous }
    }
}

} // verus!
