//! Iteration over the keys that have a value, in key order: a merge of the
//! two layers with the keys that the base trie yields.

use vstd::prelude::*;
use vstd::slice::slice_to_vec;
use crate::key_order::{ascending, compare, key_views, lemma_lex_asymmetric,
    lemma_lex_irreflexive, lemma_lex_total, lemma_lex_transitive, lemma_prefix_interval,
    lemma_prefix_is_least, lex_lt, starts_with, KeyOrder};
use crate::records::{RawStateChangesWithTrieKey, TrieKeyValueUpdate};
use crate::sorted_map::{lower_bound, SortedMap};
use crate::state::OverlayState;
use crate::update::TrieUpdate;

verus! {

/// The key at place `at` of `keys`, if there is one and it begins with
/// `prefix`: what a cursor at `at` offers to the merge.
pub open spec fn head(keys: Seq<Seq<u8>>, at: int, prefix: Seq<u8>) -> Option<Seq<u8>> {
    if 0 <= at < keys.len() && prefix.is_prefix_of(keys[at]) {
        Some(keys[at])
    } else {
        None
    }
}

/// `key`, if it begins with `prefix`.
pub open spec fn under(prefix: Seq<u8>, key: Option<Seq<u8>>) -> Option<Seq<u8>> {
    match key {
        Some(k) => if prefix.is_prefix_of(k) {
            key
        } else {
            None
        },
        None => None,
    }
}

/// The lesser of two keys, where `None` stands for no key.
pub open spec fn least(a: Option<Seq<u8>>, b: Option<Seq<u8>>) -> Option<Seq<u8>> {
    match (a, b) {
        (None, _) => b,
        (_, None) => a,
        (Some(x), Some(y)) => if lex_lt(y, x) {
            b
        } else {
            a
        },
    }
}

/// The bytes of a key, or `None`.
pub open spec fn key_view(key: Option<&[u8]>) -> Option<Seq<u8>> {
    match key {
        Some(k) => Some(k@),
        None => None,
    }
}

/// What one step of the merge asks of the caller.
#[derive(Debug, PartialEq, Eq)]
pub enum IterStep {
    /// `key` is the next key with a value. Where `advance_base` is set, the
    /// base trie's scan stands at that key and is to move on.
    Yield { key: Vec<u8>, advance_base: bool },
    /// The least key is removed in the overlay: nothing to yield. Where
    /// `advance_base` is set, the base trie's scan is to move on.
    Skip { advance_base: bool },
    /// No key under the prefix is left.
    Done,
}

/// The merge of the two layers of an overlay with a scan of the base trie,
/// under a prefix. It holds a cursor into each layer; the scan of the base
/// trie is the caller's, who shows its current key at each step.
#[derive(Debug)]
pub struct TrieUpdateIterator<'a> {
    prospective: &'a SortedMap<TrieKeyValueUpdate>,
    committed: &'a SortedMap<RawStateChangesWithTrieKey>,
    prefix: Vec<u8>,
    prospective_at: usize,
    committed_at: usize,
}

/// The lesser of two keys.
fn least_key<'b>(a: Option<&'b [u8]>, b: Option<&'b [u8]>) -> (min: Option<&'b [u8]>)
    ensures
        key_view(min) == least(key_view(a), key_view(b)),
{
    match (a, b) {
        (None, _) => b,
        (_, None) => a,
        (Some(x), Some(y)) => if compare(y, x) == KeyOrder::Before {
            b
        } else {
            a
        },
    }
}

/// Tells whether `candidate` is `key`.
fn is_key(candidate: Option<&[u8]>, key: &[u8]) -> (same: bool)
    ensures
        same == (key_view(candidate) == Some(key@)),
{
    match candidate {
        Some(k) => compare(k, key) == KeyOrder::Same,
        None => false,
    }
}

/// `key`, if it begins with `prefix`.
fn key_under<'b>(prefix: &[u8], key: Option<&'b [u8]>) -> (kept: Option<&'b [u8]>)
    ensures
        key_view(kept) == under(prefix@, key_view(key)),
{
    match key {
        Some(k) => if starts_with(k, prefix) {
            key
        } else {
            None
        },
        None => None,
    }
}

impl<'a> TrieUpdateIterator<'a> {
    /// What the overlay holds.
    pub closed spec fn state(&self) -> OverlayState {
        OverlayState { prospective: self.prospective@, committed: self.committed@ }
    }

    /// The prefix under which the keys are taken.
    pub closed spec fn prefix(&self) -> Seq<u8> {
        self.prefix@
    }

    /// The keys of the prospective layer, ascending.
    pub closed spec fn prospective_keys(&self) -> Seq<Seq<u8>> {
        self.prospective.keys()
    }

    /// The keys of the committed layer, ascending.
    pub closed spec fn committed_keys(&self) -> Seq<Seq<u8>> {
        self.committed.keys()
    }

    /// The place of the cursor in the prospective layer.
    pub closed spec fn prospective_at(&self) -> int {
        self.prospective_at as int
    }

    /// The place of the cursor in the committed layer.
    pub closed spec fn committed_at(&self) -> int {
        self.committed_at as int
    }

    /// The key that the prospective layer offers.
    pub open spec fn prospective_head(&self) -> Option<Seq<u8>> {
        head(self.prospective_keys(), self.prospective_at(), self.prefix())
    }

    /// The key that the committed layer offers.
    pub open spec fn committed_head(&self) -> Option<Seq<u8>> {
        head(self.committed_keys(), self.committed_at(), self.prefix())
    }

    /// The least of the keys that the two layers and the base trie offer.
    pub open spec fn least_head(&self, base_head: Option<Seq<u8>>) -> Option<Seq<u8>> {
        least(
            least(self.prospective_head(), self.committed_head()),
            under(self.prefix(), base_head),
        )
    }

    /// Whether the least key `min` has a value: the prospective layer decides
    /// where it offers `min`, else the committed layer where it offers
    /// `min`, else the base trie, which offers only keys that have one.
    pub open spec fn yields(&self, min: Seq<u8>) -> bool {
        if self.prospective_head() == Some(min) {
            self.state().prospective[min].value is Some
        } else if self.committed_head() == Some(min) {
            self.state().committed[min].current() is Some
        } else {
            true
        }
    }

    /// The cursors stand in their layers, at or after the first key that
    /// does not come before the prefix.
    pub closed spec fn wf(&self) -> bool {
        &&& self.prospective.wf()
        &&& self.committed.wf()
        &&& self.state().history_kept()
        &&& self.prospective_at <= self.prospective.keys().len()
        &&& self.committed_at <= self.committed.keys().len()
        &&& forall|i: int|
            self.prospective_at <= i < self.prospective.keys().len() ==> !lex_lt(
                #[trigger] self.prospective.keys()[i],
                self.prefix@,
            )
        &&& forall|i: int|
            self.committed_at <= i < self.committed.keys().len() ==> !lex_lt(
                #[trigger] self.committed.keys()[i],
                self.prefix@,
            )
    }

    /// No key has been taken yet: each cursor stands at the first key that
    /// does not come before the prefix.
    pub closed spec fn fresh(&self) -> bool {
        &&& forall|i: int|
            0 <= i < self.prospective_at ==> lex_lt(
                #[trigger] self.prospective.keys()[i],
                self.prefix@,
            )
        &&& forall|i: int|
            0 <= i < self.committed_at ==> lex_lt(
                #[trigger] self.committed.keys()[i],
                self.prefix@,
            )
    }

    /// A merge over the layers of `update`, under `key_prefix`.
    pub(crate) fn new(update: &'a TrieUpdate, key_prefix: &[u8]) -> (iter: TrieUpdateIterator<'a>)
        requires
            update.wf(),
        ensures
            iter.wf(),
            iter.fresh(),
            iter.state() == update@,
            iter.prefix() == key_prefix@,
    {
        let prospective = update.prospective_layer();
        let committed = update.committed_layer();
        proof {
            update.lemma_history_kept();
        }
        let prospective_at = prospective.seek(key_prefix);
        let committed_at = committed.seek(key_prefix);
        TrieUpdateIterator {
            prospective,
            committed,
            prefix: slice_to_vec(key_prefix),
            prospective_at,
            committed_at,
        }
    }

    /// Takes the least of the keys that the layers and the base trie offer.
    /// `base_head` is the key at which the scan of the base trie stands,
    /// `None` where it has ended; the scan is to start at the first key that
    /// does not come before the prefix. A key that does not begin with the
    /// prefix ends its source. Every cursor that offers the least key moves
    /// past it; the key is yielded if the source that decides has a value
    /// for it.
    pub fn step(&mut self, base_head: Option<&[u8]>) -> (step: IterStep)
        requires
            old(self).wf(),
        ensures
            final(self).wf(),
            final(self).state() == old(self).state(),
            final(self).prefix() == old(self).prefix(),
            final(self).prospective_keys() == old(self).prospective_keys(),
            final(self).committed_keys() == old(self).committed_keys(),
            match old(self).least_head(key_view(base_head)) {
                None => {
                    &&& step is Done
                    &&& final(self).prospective_at() == old(self).prospective_at()
                    &&& final(self).committed_at() == old(self).committed_at()
                },
                Some(min) => {
                    &&& final(self).prospective_at() == old(self).prospective_at() + if old(
                        self,
                    ).prospective_head() == Some(min) {
                        1int
                    } else {
                        0int
                    }
                    &&& final(self).committed_at() == old(self).committed_at() + if old(
                        self,
                    ).committed_head() == Some(min) {
                        1int
                    } else {
                        0int
                    }
                    &&& if old(self).yields(min) {
                        step matches IterStep::Yield { key, advance_base } && key@ == min
                            && advance_base == (under(old(self).prefix(), key_view(base_head))
                            == Some(min))
                    } else {
                        step matches IterStep::Skip { advance_base } && advance_base == (under(
                            old(self).prefix(),
                            key_view(base_head),
                        ) == Some(min))
                    }
                },
            },
    {
        let prospective = self.prospective;
        let committed = self.committed;
        let prospective_key: Option<&[u8]> = if self.prospective_at < prospective.len() {
            key_under(
                self.prefix.as_slice(),
                Some(prospective.key_at(self.prospective_at).as_slice()),
            )
        } else {
            None
        };
        let committed_key: Option<&[u8]> = if self.committed_at < committed.len() {
            key_under(self.prefix.as_slice(), Some(committed.key_at(self.committed_at).as_slice()))
        } else {
            None
        };
        let base_key = key_under(self.prefix.as_slice(), base_head);
        let min = match least_key(least_key(prospective_key, committed_key), base_key) {
            Some(min) => min,
            None => {
                return IterStep::Done;
            },
        };
        let in_prospective = is_key(prospective_key, min);
        let in_committed = is_key(committed_key, min);
        let advance_base = is_key(base_key, min);
        let has_value = if in_prospective {
            proof {
                prospective.lemma_place(self.prospective_at as int);
            }
            prospective.value_at(self.prospective_at).value.is_some()
        } else if in_committed {
            proof {
                committed.lemma_place(self.committed_at as int);
            }
            let changes = &committed.value_at(self.committed_at).changes;
            assert(self.state().committed[min@].changes.len() > 0);
            changes[changes.len() - 1].data.is_some()
        } else {
            true
        };
        if in_prospective {
            self.prospective_at += 1;
        }
        if in_committed {
            self.committed_at += 1;
        }
        if has_value {
            IterStep::Yield { key: slice_to_vec(min), advance_base }
        } else {
            IterStep::Skip { advance_base }
        }
    }
}

impl TrieUpdate {
    /// A merge over the two layers, under `key_prefix`. The caller runs the
    /// scan of the base trie beside it, from the first key on that does not
    /// come before the prefix, and shows its current key at each step.
    pub fn iter(&self, key_prefix: &[u8]) -> (iter: TrieUpdateIterator<'_>)
        requires
            self.wf(),
        ensures
            iter.wf(),
            iter.fresh(),
            iter.state() == self@,
            iter.prefix() == key_prefix@,
    {
        TrieUpdateIterator::new(self, key_prefix)
    }
}

/// The keys of `keys`, as a set.
pub open spec fn key_set(keys: Seq<Seq<u8>>) -> Set<Seq<u8>> {
    Set::new(|key: Seq<u8>| keys.contains(key))
}

/// An ascending run of keys with a cursor in it.
struct Source {
    keys: Seq<Seq<u8>>,
    at: int,
}

impl Source {
    /// The cursor stands in the run, and no key from it on comes before the
    /// prefix.
    spec fn inv(self, prefix: Seq<u8>) -> bool {
        &&& 0 <= self.at <= self.keys.len()
        &&& ascending(self.keys)
        &&& forall|i: int|
            self.at <= i < self.keys.len() ==> !lex_lt(#[trigger] self.keys[i], prefix)
    }

    /// The key that the source offers.
    spec fn head(self, prefix: Seq<u8>) -> Option<Seq<u8>> {
        head(self.keys, self.at, prefix)
    }

    /// `key` comes before the key that the source offers, if it offers one.
    spec fn below(self, prefix: Seq<u8>, key: Seq<u8>) -> bool {
        self.head(prefix) matches Some(h) ==> lex_lt(key, h)
    }

    /// The source does not offer a key that comes before `min`.
    spec fn not_before(self, prefix: Seq<u8>, min: Seq<u8>) -> bool {
        self.head(prefix) matches Some(h) ==> !lex_lt(h, min)
    }

    /// The source after the merge took `min`.
    spec fn advance(self, prefix: Seq<u8>, min: Seq<u8>) -> Source {
        if self.head(prefix) == Some(min) {
            Source { keys: self.keys, at: self.at + 1 }
        } else {
            self
        }
    }

    /// Every key under the prefix that the cursor has passed comes before
    /// `bound`.
    spec fn passed_before(self, prefix: Seq<u8>, bound: Seq<u8>) -> bool {
        forall|i: int|
            0 <= i < self.at && prefix.is_prefix_of(#[trigger] self.keys[i]) ==> lex_lt(
                self.keys[i],
                bound,
            )
    }

    /// Once a source offers a key that is not under the prefix, none of its
    /// later keys is under it.
    proof fn lemma_ended(self, prefix: Seq<u8>, i: int)
        requires
            self.inv(prefix),
            self.head(prefix) is None,
            self.at <= i < self.keys.len(),
        ensures
            !prefix.is_prefix_of(self.keys[i]),
    {
        if i > self.at && prefix.is_prefix_of(self.keys[i]) {
            lemma_lex_total(prefix, self.keys[self.at]);
            lemma_prefix_interval(prefix, self.keys[self.at], self.keys[i]);
        }
    }

    /// A key of the source under the prefix that comes before what the
    /// source offers has been passed.
    proof fn lemma_below_passed(self, prefix: Seq<u8>, key: Seq<u8>) -> (i: int)
        requires
            self.inv(prefix),
            prefix.is_prefix_of(key),
            self.keys.contains(key),
            self.below(prefix, key),
        ensures
            0 <= i < self.at,
            self.keys[i] == key,
    {
        let i = choose|i: int| 0 <= i < self.keys.len() && self.keys[i] == key;
        if i >= self.at {
            if self.head(prefix) is None {
                self.lemma_ended(prefix, i);
            } else {
                lemma_lex_irreflexive(key);
                if i > self.at {
                    lemma_lex_asymmetric(key, self.keys[self.at]);
                }
            }
        }
        i
    }

    /// Taking the least key leaves the source in order and past that key,
    /// and past every key it was past before.
    proof fn lemma_advance(self, prefix: Seq<u8>, min: Seq<u8>)
        requires
            self.inv(prefix),
            self.not_before(prefix, min),
        ensures
            self.advance(prefix, min).inv(prefix),
            self.advance(prefix, min).below(prefix, min),
            forall|key: Seq<u8>|
                self.below(prefix, key) ==> #[trigger] self.advance(prefix, min).below(prefix, key),
    {
        let next = self.advance(prefix, min);
        if self.head(prefix) == Some(min) {
            if next.head(prefix) is Some {
                assert(lex_lt(self.keys[self.at], self.keys[self.at + 1]));
            }
            assert forall|key: Seq<u8>| self.below(prefix, key) implies #[trigger] next.below(
                prefix,
                key,
            ) by {
                if next.head(prefix) is Some {
                    lemma_lex_transitive(key, min, self.keys[self.at + 1]);
                }
            }
        } else if self.head(prefix) is Some {
            lemma_lex_total(min, self.keys[self.at]);
        }
    }

    /// The least key is a key of the source only where the source offers it.
    proof fn lemma_holds_min(self, prefix: Seq<u8>, min: Seq<u8>)
        requires
            self.inv(prefix),
            prefix.is_prefix_of(min),
            self.not_before(prefix, min),
            self.passed_before(prefix, min),
        ensures
            self.keys.contains(min) <==> self.head(prefix) == Some(min),
    {
        if self.keys.contains(min) {
            let i = choose|i: int| 0 <= i < self.keys.len() && self.keys[i] == min;
            lemma_lex_irreflexive(min);
            if i >= self.at {
                if self.head(prefix) is None {
                    self.lemma_ended(prefix, i);
                } else if i > self.at {
                    assert(lex_lt(self.keys[self.at], self.keys[i]));
                }
            }
        } else if self.head(prefix) == Some(min) {
            assert(self.keys[self.at] == min);
        }
    }
}

/// The three sources of the merge.
struct Merge {
    prefix: Seq<u8>,
    prospective: Source,
    committed: Source,
    base: Source,
}

impl Merge {
    /// Each source is in order.
    spec fn inv(self) -> bool {
        &&& self.prospective.inv(self.prefix)
        &&& self.committed.inv(self.prefix)
        &&& self.base.inv(self.prefix)
    }

    /// The least of the keys that the sources offer.
    spec fn min(self) -> Option<Seq<u8>> {
        least(
            least(self.prospective.head(self.prefix), self.committed.head(self.prefix)),
            self.base.head(self.prefix),
        )
    }

    /// `key` comes before every key that a source offers: the merge is past
    /// it.
    spec fn done(self, key: Seq<u8>) -> bool {
        &&& self.prospective.below(self.prefix, key)
        &&& self.committed.below(self.prefix, key)
        &&& self.base.below(self.prefix, key)
    }

    /// The sources after the merge took `min`.
    spec fn advance(self, min: Seq<u8>) -> Merge {
        Merge {
            prefix: self.prefix,
            prospective: self.prospective.advance(self.prefix, min),
            committed: self.committed.advance(self.prefix, min),
            base: self.base.advance(self.prefix, min),
        }
    }

    /// Whether `key` has a value in `state` above these base keys.
    spec fn live(self, state: OverlayState, key: Seq<u8>) -> bool {
        state.live(key_set(self.base.keys), key)
    }

    /// The layers of `state` hold the keys of the two overlay sources.
    spec fn reads(self, state: OverlayState) -> bool {
        &&& state.history_kept()
        &&& forall|key: Seq<u8>|
            state.prospective.dom().contains(key) <==> self.prospective.keys.contains(key)
        &&& forall|key: Seq<u8>|
            state.committed.dom().contains(key) <==> self.committed.keys.contains(key)
    }

    /// What has been collected so far, `out`, is right for where the cursors
    /// stand: it ascends, it holds keys under the prefix that have a value
    /// and that the merge is past, and it holds every such key that a cursor
    /// has passed.
    spec fn collected(self, state: OverlayState, out: Seq<Seq<u8>>) -> bool {
        &&& ascending(out)
        &&& forall|j: int|
            0 <= j < out.len() ==> {
                &&& self.prefix.is_prefix_of(#[trigger] out[j])
                &&& self.live(state, out[j])
                &&& self.done(out[j])
            }
        &&& self.passed(state, out, self.prospective)
        &&& self.passed(state, out, self.committed)
        &&& self.passed(state, out, self.base)
    }

    /// Of the keys under the prefix that the cursor of `source` has passed,
    /// the merge is past each, and `out` holds those that have a value.
    spec fn passed(self, state: OverlayState, out: Seq<Seq<u8>>, source: Source) -> bool {
        forall|i: int|
            0 <= i < source.at && self.prefix.is_prefix_of(#[trigger] source.keys[i]) ==> {
                &&& self.done(source.keys[i])
                &&& self.live(state, source.keys[i]) ==> out.contains(source.keys[i])
            }
    }

    /// Whether the least key has a value, as the source that decides has it.
    spec fn yields(self, state: OverlayState, min: Seq<u8>) -> bool {
        if self.prospective.head(self.prefix) == Some(min) {
            state.prospective[min].value is Some
        } else if self.committed.head(self.prefix) == Some(min) {
            state.committed[min].current() is Some
        } else {
            true
        }
    }

    /// The least key is under the prefix, one source offers it, and none
    /// offers a key before it.
    proof fn lemma_min(self, min: Seq<u8>)
        requires
            self.inv(),
            self.min() == Some(min),
        ensures
            self.prefix.is_prefix_of(min),
            self.prospective.not_before(self.prefix, min),
            self.committed.not_before(self.prefix, min),
            self.base.not_before(self.prefix, min),
            self.prospective.head(self.prefix) == Some(min) || self.committed.head(self.prefix)
                == Some(min) || self.base.head(self.prefix) == Some(min),
            forall|key: Seq<u8>| self.done(key) ==> lex_lt(key, min),
    {
        let a = self.prospective.head(self.prefix);
        let b = self.committed.head(self.prefix);
        let c = self.base.head(self.prefix);
        let ab = least(a, b);
        lemma_least(a, b);
        lemma_least(ab, c);
        if a is Some {
            lemma_not_before_transitive(a->0, ab->0, min);
        }
        if b is Some {
            lemma_not_before_transitive(b->0, ab->0, min);
        }
    }

    /// Taking the least key keeps what was collected right, once the key is
    /// added where it has a value.
    proof fn lemma_take(self, state: OverlayState, out: Seq<Seq<u8>>, min: Seq<u8>)
        requires
            self.inv(),
            self.reads(state),
            self.collected(state, out),
            self.min() == Some(min),
        ensures
            self.advance(min).inv(),
            self.yields(state, min) == self.live(state, min),
            self.advance(min).collected(
                state,
                if self.yields(state, min) {
                    out.push(min)
                } else {
                    out
                },
            ),
    {
        let next = self.advance(min);
        let after = if self.yields(state, min) {
            out.push(min)
        } else {
            out
        };
        self.lemma_min(min);
        self.prospective.lemma_advance(self.prefix, min);
        self.committed.lemma_advance(self.prefix, min);
        self.base.lemma_advance(self.prefix, min);
        assert(self.prospective.passed_before(self.prefix, min));
        assert(self.committed.passed_before(self.prefix, min));
        assert(self.base.passed_before(self.prefix, min));
        self.prospective.lemma_holds_min(self.prefix, min);
        self.committed.lemma_holds_min(self.prefix, min);
        self.base.lemma_holds_min(self.prefix, min);
        assert(next.done(min));
        assert forall|key: Seq<u8>| self.done(key) implies next.done(key) by {}
        assert(key_set(self.base.keys).contains(min) == self.base.keys.contains(min));
        assert(self.yields(state, min) == self.live(state, min));
        assert(ascending(after)) by {
            assert forall|i: int, j: int| 0 <= i < j < after.len() implies lex_lt(
                #[trigger] after[i],
                #[trigger] after[j],
            ) by {
                if j == out.len() {
                    assert(self.done(out[i]));
                }
            }
        }
        assert forall|j: int| 0 <= j < after.len() implies {
            &&& next.prefix.is_prefix_of(#[trigger] after[j])
            &&& next.live(state, after[j])
            &&& next.done(after[j])
        } by {
            if j < out.len() {
                assert(self.done(out[j]));
            }
        }
        self.lemma_take_passed(state, out, min, self.prospective);
        self.lemma_take_passed(state, out, min, self.committed);
        self.lemma_take_passed(state, out, min, self.base);
    }

    /// Taking the least key keeps `passed` for a source.
    proof fn lemma_take_passed(
        self,
        state: OverlayState,
        out: Seq<Seq<u8>>,
        min: Seq<u8>,
        source: Source,
    )
        requires
            self.passed(state, out, source),
            self.advance(min).done(min),
            forall|key: Seq<u8>| self.done(key) ==> self.advance(min).done(key),
            self.yields(state, min) == self.live(state, min),
            source.advance(self.prefix, min).at > source.at ==> source.at < source.keys.len()
                && source.keys[source.at] == min,
            source.advance(self.prefix, min).at <= source.at + 1,
            source.advance(self.prefix, min).keys == source.keys,
        ensures
            self.advance(min).passed(
                state,
                if self.yields(state, min) {
                    out.push(min)
                } else {
                    out
                },
                source.advance(self.prefix, min),
            ),
    {
        let next = self.advance(min);
        let moved = source.advance(self.prefix, min);
        let after = if self.yields(state, min) {
            out.push(min)
        } else {
            out
        };
        assert forall|i: int|
            0 <= i < moved.at && next.prefix.is_prefix_of(#[trigger] moved.keys[i]) implies {
            &&& next.done(moved.keys[i])
            &&& next.live(state, moved.keys[i]) ==> after.contains(moved.keys[i])
        } by {
            if i < source.at {
                assert(self.done(source.keys[i]));
                if self.live(state, source.keys[i]) {
                    let j = choose|j: int| 0 <= j < out.len() && out[j] == source.keys[i];
                    assert(after[j] == source.keys[i]);
                }
            } else {
                if self.yields(state, min) {
                    assert(after[out.len() as int] == min);
                }
            }
        }
    }

    /// When no source offers a key, what was collected is every key under
    /// the prefix that has a value.
    proof fn lemma_complete(self, state: OverlayState, out: Seq<Seq<u8>>)
        requires
            self.inv(),
            self.reads(state),
            self.collected(state, out),
            self.min() is None,
        ensures
            forall|key: Seq<u8>|
                out.contains(key) <==> self.prefix.is_prefix_of(key) && self.live(state, key),
    {
        assert forall|key: Seq<u8>|
            self.prefix.is_prefix_of(key) && self.live(state, key) implies out.contains(key) by {
            assert(self.done(key));
            if self.prospective.keys.contains(key) {
                let i = self.prospective.lemma_below_passed(self.prefix, key);
            } else if self.committed.keys.contains(key) {
                let i = self.committed.lemma_below_passed(self.prefix, key);
            } else {
                assert(key_set(self.base.keys).contains(key));
                let i = self.base.lemma_below_passed(self.prefix, key);
            }
        }
    }

    /// Before any key is taken nothing is collected, and that is right.
    proof fn lemma_start(self, state: OverlayState)
        requires
            self.inv(),
            forall|i: int|
                0 <= i < self.prospective.at ==> lex_lt(
                    #[trigger] self.prospective.keys[i],
                    self.prefix,
                ),
            forall|i: int|
                0 <= i < self.committed.at ==> lex_lt(#[trigger] self.committed.keys[i], self.prefix),
            forall|i: int| 0 <= i < self.base.at ==> lex_lt(#[trigger] self.base.keys[i], self.prefix),
        ensures
            self.collected(state, Seq::empty()),
    {
        assert forall|i: int|
            0 <= i < self.prospective.at implies !self.prefix.is_prefix_of(
            #[trigger] self.prospective.keys[i],
        ) by {
            lemma_before_prefix(self.prefix, self.prospective.keys[i]);
        }
        assert forall|i: int|
            0 <= i < self.committed.at implies !self.prefix.is_prefix_of(
            #[trigger] self.committed.keys[i],
        ) by {
            lemma_before_prefix(self.prefix, self.committed.keys[i]);
        }
        assert forall|i: int| 0 <= i < self.base.at implies !self.prefix.is_prefix_of(
            #[trigger] self.base.keys[i],
        ) by {
            lemma_before_prefix(self.prefix, self.base.keys[i]);
        }
    }
}

/// The lesser of two keys is one of them, and neither comes before it.
proof fn lemma_least(a: Option<Seq<u8>>, b: Option<Seq<u8>>)
    ensures
        least(a, b) == a || least(a, b) == b,
        a is Some || b is Some ==> least(a, b) is Some,
        a matches Some(x) ==> !lex_lt(x, least(a, b)->0),
        b matches Some(y) ==> !lex_lt(y, least(a, b)->0),
{
    if a is Some {
        lemma_lex_irreflexive(a->0);
    }
    if b is Some {
        lemma_lex_irreflexive(b->0);
    }
    if a is Some && b is Some && lex_lt(b->0, a->0) {
        lemma_lex_asymmetric(b->0, a->0);
    }
}

/// If `x` does not come before `y`, nor `y` before `z`, then `x` does not
/// come before `z`.
proof fn lemma_not_before_transitive(x: Seq<u8>, y: Seq<u8>, z: Seq<u8>)
    requires
        !lex_lt(x, y),
        !lex_lt(y, z),
    ensures
        !lex_lt(x, z),
{
    lemma_lex_total(x, y);
    if lex_lt(x, z) && y != x {
        lemma_lex_transitive(y, x, z);
    }
}

/// A key that comes before the prefix is not under it.
proof fn lemma_before_prefix(prefix: Seq<u8>, key: Seq<u8>)
    requires
        lex_lt(key, prefix),
    ensures
        !prefix.is_prefix_of(key),
{
    if prefix.is_prefix_of(key) {
        lemma_prefix_is_least(prefix, key);
        lemma_lex_irreflexive(key);
        if prefix != key {
            lemma_lex_asymmetric(key, prefix);
        }
    }
}

impl TrieUpdate {
    /// The keys under `key_prefix` that have a value, in ascending order,
    /// each once. `base_keys` are the keys that the base trie holds, or
    /// those of them that a scan from the prefix on yields, in the order of
    /// the scan, which ascends.
    pub fn live_keys(&self, key_prefix: &[u8], base_keys: &Vec<Vec<u8>>) -> (keys: Vec<Vec<u8>>)
        requires
            self.wf(),
            ascending(key_views(base_keys@)),
        ensures
            ascending(key_views(keys@)),
            forall|key: Seq<u8>|
                #![trigger key_views(keys@).contains(key)]
                #![trigger self@.live(key_set(key_views(base_keys@)), key)]
                key_views(keys@).contains(key) <==> key_prefix@.is_prefix_of(key) && self@.live(
                    key_set(key_views(base_keys@)),
                    key,
                ),
    {
        let mut iter = self.iter(key_prefix);
        let mut base_at = lower_bound(base_keys, key_prefix);
        let mut keys: Vec<Vec<u8>> = Vec::new();
        let mut running = true;
        let ghost state = self@;
        let ghost base = key_views(base_keys@);
        let ghost prospective = iter.prospective_keys();
        let ghost committed = iter.committed_keys();
        proof {
            iter.prospective.lemma_dom();
            iter.committed.lemma_dom();
            let merge = Merge {
                prefix: key_prefix@,
                prospective: Source { keys: prospective, at: iter.prospective_at() },
                committed: Source { keys: committed, at: iter.committed_at() },
                base: Source { keys: base, at: base_at as int },
            };
            merge.lemma_start(state);
            assert(key_views(keys@) =~= Seq::<Seq<u8>>::empty());
        }
        while running
            invariant
                iter.wf(),
                iter.state() == state,
                iter.prefix() == key_prefix@,
                iter.prospective_keys() == prospective,
                iter.committed_keys() == committed,
                base == key_views(base_keys@),
                base_at <= base_keys.len(),
                ({
                    let merge = Merge {
                        prefix: key_prefix@,
                        prospective: Source { keys: prospective, at: iter.prospective_at() },
                        committed: Source { keys: committed, at: iter.committed_at() },
                        base: Source { keys: base, at: base_at as int },
                    };
                    &&& merge.inv()
                    &&& merge.reads(state)
                    &&& merge.collected(state, key_views(keys@))
                    &&& !running ==> merge.min() is None
                }),
            decreases
                    (prospective.len() - iter.prospective_at()) + (committed.len()
                        - iter.committed_at()) + (base.len() - base_at) + if running {
                        1int
                    } else {
                        0int
                    },
        {
            let ghost merge = Merge {
                prefix: key_prefix@,
                prospective: Source { keys: prospective, at: iter.prospective_at() },
                committed: Source { keys: committed, at: iter.committed_at() },
                base: Source { keys: base, at: base_at as int },
            };
            let ghost out = key_views(keys@);
            let base_head: Option<&[u8]> = if base_at < base_keys.len() {
                Some(base_keys[base_at].as_slice())
            } else {
                None
            };
            proof {
                if base_at < base_keys.len() {
                    assert(base[base_at as int] == base_keys@[base_at as int]@);
                }
                assert(under(key_prefix@, key_view(base_head)) == merge.base.head(key_prefix@));
                assert(iter.least_head(key_view(base_head)) == merge.min());
                if merge.min() is Some {
                    merge.lemma_take(state, out, merge.min()->0);
                }
            }
            match iter.step(base_head) {
                IterStep::Done => {
                    running = false;
                },
                IterStep::Yield { key, advance_base } => {
                    keys.push(key);
                    if advance_base {
                        base_at += 1;
                    }
                    proof {
                        assert(key_views(keys@) =~= out.push(merge.min()->0));
                    }
                },
                IterStep::Skip { advance_base } => {
                    if advance_base {
                        base_at += 1;
                    }
                    proof {
                        assert(key_views(keys@) =~= out);
                    }
                },
            }
        }
        proof {
            let merge = Merge {
                prefix: key_prefix@,
                prospective: Source { keys: prospective, at: iter.prospective_at() },
                committed: Source { keys: committed, at: iter.committed_at() },
                base: Source { keys: base, at: base_at as int },
            };
            merge.lemma_complete(state, key_views(keys@));
        }
        keys
    }
}

} // verus!
