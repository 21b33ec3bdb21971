//! A map from serialized keys to values, kept in key order.

use vstd::prelude::*;
use crate::key_order::{ascending, compare, key_views, lemma_lex_irreflexive, lemma_lex_total,
    lemma_lex_transitive, lex_lt, KeyOrder};

verus! {

/// A map whose entries stand in ascending order of their keys.
#[derive(Debug)]
pub struct SortedMap<V> {
    keys: Vec<Vec<u8>>,
    values: Vec<V>,
}

/// In an ascending sequence a key stands at one place only.
pub proof fn lemma_ascending_place(keys: Seq<Seq<u8>>, i: int, j: int)
    requires
        ascending(keys),
        0 <= i < keys.len(),
        0 <= j < keys.len(),
        keys[i] == keys[j],
    ensures
        i == j,
{
    lemma_lex_irreflexive(keys[i]);
}

/// The first place in `keys` whose key does not come before `key`.
pub fn lower_bound(keys: &Vec<Vec<u8>>, key: &[u8]) -> (at: usize)
    requires
        ascending(key_views(keys@)),
    ensures
        at <= keys.len(),
        forall|i: int| 0 <= i < at ==> lex_lt(#[trigger] key_views(keys@)[i], key@),
        forall|i: int| at <= i < keys.len() ==> !lex_lt(#[trigger] key_views(keys@)[i], key@),
{
    let ghost ks = key_views(keys@);
    let mut low: usize = 0;
    let mut high: usize = keys.len();
    while low < high
        invariant
            ks == key_views(keys@),
            ascending(ks),
            low <= high <= keys.len(),
            forall|i: int| 0 <= i < low ==> lex_lt(#[trigger] ks[i], key@),
            forall|i: int| high <= i < keys.len() ==> !lex_lt(#[trigger] ks[i], key@),
        decreases high - low,
    {
        let mid: usize = low + (high - low) / 2;
        assert(ks[mid as int] == keys@[mid as int]@);
        match compare(keys[mid].as_slice(), key) {
            KeyOrder::Before => {
                proof {
                    assert forall|i: int| 0 <= i < mid + 1 implies lex_lt(#[trigger] ks[i], key@) by {
                        if i < mid {
                            lemma_lex_transitive(ks[i], ks[mid as int], key@);
                        }
                    }
                }
                low = mid + 1;
            },
            _ => {
                proof {
                    assert forall|i: int| mid <= i < keys.len() implies !lex_lt(
                        #[trigger] ks[i],
                        key@,
                    ) by {
                        if i > mid && lex_lt(ks[i], key@) {
                            lemma_lex_transitive(ks[mid as int], ks[i], key@);
                        }
                    }
                }
                high = mid;
            },
        }
    }
    low
}

impl<V: View> SortedMap<V> {
    /// The keys, in ascending order.
    pub closed spec fn keys(&self) -> Seq<Seq<u8>> {
        key_views(self.keys@)
    }

    /// The values, each at the place of its key.
    pub closed spec fn values(&self) -> Seq<V::V> {
        Seq::new(self.values@.len(), |i: int| self.values@[i]@)
    }

    /// Every key has its value, and the keys ascend.
    pub open spec fn wf(&self) -> bool {
        &&& self.keys().len() == self.values().len()
        &&& ascending(self.keys())
    }

    /// The place of `key` among the keys.
    pub open spec fn place(&self, key: Seq<u8>) -> int {
        choose|i: int| 0 <= i < self.keys().len() && self.keys()[i] == key
    }

    /// Whether `key` is among the keys.
    pub open spec fn contains_key(&self, key: Seq<u8>) -> bool {
        exists|i: int| 0 <= i < self.keys().len() && self.keys()[i] == key
    }

    /// The key at place `i` has that place and no other, and the map gives
    /// it the value at that place.
    pub proof fn lemma_place(&self, i: int)
        requires
            self.wf(),
            0 <= i < self.keys().len(),
        ensures
            self.contains_key(self.keys()[i]),
            self.place(self.keys()[i]) == i,
            self@.dom().contains(self.keys()[i]),
            self@[self.keys()[i]] == self.values()[i],
    {
        let key = self.keys()[i];
        lemma_ascending_place(self.keys(), i, self.place(key));
    }

    /// A key that is not found where it would stand is not in the map, and
    /// every key from there on comes after it.
    pub proof fn lemma_absent(&self, key: Seq<u8>, at: int)
        requires
            self.wf(),
            0 <= at <= self.keys().len(),
            forall|i: int| 0 <= i < at ==> lex_lt(#[trigger] self.keys()[i], key),
            forall|i: int| at <= i < self.keys().len() ==> !lex_lt(#[trigger] self.keys()[i], key),
            at < self.keys().len() ==> self.keys()[at] != key,
        ensures
            !self.contains_key(key),
            !self@.dom().contains(key),
            forall|i: int| at <= i < self.keys().len() ==> lex_lt(key, #[trigger] self.keys()[i]),
    {
        assert forall|i: int| at <= i < self.keys().len() implies lex_lt(
            key,
            #[trigger] self.keys()[i],
        ) by {
            lemma_lex_total(key, self.keys()[i]);
            if self.keys()[i] == key {
                lemma_lex_irreflexive(self.keys()[at]);
                assert(i > at);
                assert(lex_lt(self.keys()[at], self.keys()[i]));
            }
        }
        assert forall|i: int| 0 <= i < self.keys().len() implies self.keys()[i] != key by {
            if i < at {
                lemma_lex_irreflexive(key);
            } else {
                lemma_lex_irreflexive(key);
            }
        }
    }

    /// A map without entries.
    pub fn new() -> (map: Self)
        ensures
            map.wf(),
            map.keys().len() == 0,
            map@ == Map::<Seq<u8>, V::V>::empty(),
    {
        let map = SortedMap { keys: Vec::new(), values: Vec::new() };
        assert(map@ =~= Map::<Seq<u8>, V::V>::empty());
        map
    }

    /// The number of entries.
    pub fn len(&self) -> (n: usize)
        requires
            self.wf(),
        ensures
            n == self.keys().len(),
    {
        self.keys.len()
    }

    /// Whether the map has no entry.
    pub fn is_empty(&self) -> (empty: bool)
        requires
            self.wf(),
        ensures
            empty == (self.keys().len() == 0),
            empty == (self@ == Map::<Seq<u8>, V::V>::empty()),
    {
        proof {
            if self.keys().len() == 0 {
                assert(self@ =~= Map::<Seq<u8>, V::V>::empty());
            } else {
                self.lemma_place(0);
            }
        }
        self.keys.len() == 0
    }

    /// The first place whose key does not come before `key`.
    pub fn seek(&self, key: &[u8]) -> (at: usize)
        requires
            self.wf(),
        ensures
            at <= self.keys().len(),
            forall|i: int| 0 <= i < at ==> lex_lt(#[trigger] self.keys()[i], key@),
            forall|i: int| at <= i < self.keys().len() ==> !lex_lt(#[trigger] self.keys()[i], key@),
    {
        lower_bound(&self.keys, key)
    }

    /// The place of `key`, if the map holds it.
    pub fn find(&self, key: &[u8]) -> (place: Option<usize>)
        requires
            self.wf(),
        ensures
            match place {
                Some(i) => i < self.keys().len() && self.keys()[i as int] == key@,
                None => !self@.dom().contains(key@),
            },
    {
        let at = lower_bound(&self.keys, key);
        if at < self.keys.len() {
            assert(self.keys()[at as int] == self.keys@[at as int]@);
            if compare(self.keys[at].as_slice(), key) == KeyOrder::Same {
                return Some(at);
            }
        }
        proof {
            self.lemma_absent(key@, at as int);
        }
        None
    }

    /// The value of `key`, if the map holds it.
    pub fn get(&self, key: &[u8]) -> (value: Option<&V>)
        requires
            self.wf(),
        ensures
            match value {
                Some(v) => self@.dom().contains(key@) && v@ == self@[key@],
                None => !self@.dom().contains(key@),
            },
    {
        match self.find(key) {
            Some(i) => {
                proof {
                    self.lemma_place(i as int);
                }
                Some(&self.values[i])
            },
            None => None,
        }
    }

    /// The key at place `i`.
    pub fn key_at(&self, i: usize) -> (key: &Vec<u8>)
        requires
            self.wf(),
            i < self.keys().len(),
        ensures
            key@ == self.keys()[i as int],
    {
        &self.keys[i]
    }

    /// The value at place `i`, which is the value of the key there.
    pub fn value_at(&self, i: usize) -> (value: &V)
        requires
            self.wf(),
            i < self.keys().len(),
        ensures
            value@ == self.values()[i as int],
            value@ == self@[self.keys()[i as int]],
    {
        proof {
            self.lemma_place(i as int);
        }
        &self.values[i]
    }

    /// Puts `value` under `key`, in place of the value that the key had.
    pub fn insert(&mut self, key: Vec<u8>, value: V)
        requires
            old(self).wf(),
        ensures
            final(self).wf(),
            final(self)@ == old(self)@.insert(key@, value@),
    {
        let at = lower_bound(&self.keys, key.as_slice());
        let ghost old_keys = self.keys();
        let ghost old_values = self.values();
        let ghost old_map = self@;
        assert(at < self.keys.len() ==> self.keys()[at as int] == self.keys@[at as int]@);
        if at < self.keys.len() && compare(self.keys[at].as_slice(), key.as_slice())
            == KeyOrder::Same {
            self.values[at] = value;
            proof {
                assert(self.keys() == old_keys);
                assert(self.values() =~= old_values.update(at as int, value@));
                assert forall|k: Seq<u8>| self@.dom().contains(k) == old_map.insert(
                    key@,
                    value@,
                ).dom().contains(k) by {
                    if k == key@ {
                        assert(self.keys()[at as int] == k);
                    }
                }
                assert forall|k: Seq<u8>| self@.dom().contains(k) implies self@[k]
                    == old_map.insert(key@, value@)[k] by {
                    let i = self.place(k);
                    if k == key@ {
                        lemma_ascending_place(old_keys, i, at as int);
                    } else {
                        assert(i != at);
                    }
                }
                assert(self@ =~= old_map.insert(key@, value@));
            }
        } else {
            proof {
                old(self).lemma_absent(key@, at as int);
            }
            self.keys.insert(at, key);
            self.values.insert(at, value);
            proof {
                assert(self.keys() =~= old_keys.insert(at as int, key@));
                assert(self.values() =~= old_values.insert(at as int, value@));
                assert forall|i: int, j: int| 0 <= i < j < self.keys().len() implies lex_lt(
                    #[trigger] self.keys()[i],
                    #[trigger] self.keys()[j],
                ) by {
                    if j < at {
                        assert(lex_lt(old_keys[i], old_keys[j]));
                    } else if j == at {
                        assert(lex_lt(old_keys[i], key@));
                    } else if i < at {
                        assert(lex_lt(old_keys[i], old_keys[j - 1]));
                    } else if i == at {
                        assert(lex_lt(key@, old_keys[j - 1]));
                    } else {
                        assert(lex_lt(old_keys[i - 1], old_keys[j - 1]));
                    }
                }
                assert forall|k: Seq<u8>| self@.dom().contains(k) == old_map.insert(
                    key@,
                    value@,
                ).dom().contains(k) by {
                    if k == key@ {
                        assert(self.keys()[at as int] == k);
                    } else if old_map.dom().contains(k) {
                        let i = old(self).place(k);
                        if i < at {
                            assert(self.keys()[i] == k);
                        } else {
                            assert(self.keys()[i + 1] == k);
                        }
                    } else if self@.dom().contains(k) {
                        let i = self.place(k);
                        if i < at {
                            assert(old_keys[i] == k);
                        } else {
                            assert(old_keys[i - 1] == k);
                        }
                    }
                }
                assert forall|k: Seq<u8>| self@.dom().contains(k) implies self@[k]
                    == old_map.insert(key@, value@)[k] by {
                    let i = self.place(k);
                    if k == key@ {
                        lemma_ascending_place(self.keys(), i, at as int);
                    } else if i < at {
                        assert(old_keys[i] == k);
                        old(self).lemma_place(i);
                    } else {
                        assert(old_keys[i - 1] == k);
                        old(self).lemma_place(i - 1);
                    }
                }
                assert(self@ =~= old_map.insert(key@, value@));
            }
        }
    }

    /// Takes every entry out.
    pub fn clear(&mut self)
        ensures
            final(self).wf(),
            final(self)@ == Map::<Seq<u8>, V::V>::empty(),
    {
        self.keys.clear();
        self.values.clear();
        assert(self@ =~= Map::<Seq<u8>, V::V>::empty());
    }

    /// Takes out the entry with the last key.
    pub fn pop(&mut self) -> (entry: Option<(Vec<u8>, V)>)
        requires
            old(self).wf(),
        ensures
            final(self).wf(),
            match entry {
                Some((key, value)) => {
                    &&& old(self)@.dom().contains(key@)
                    &&& old(self)@[key@] == value@
                    &&& final(self)@ == old(self)@.remove(key@)
                    &&& final(self).keys() == old(self).keys().drop_last()
                    &&& key@ == old(self).keys().last()
                },
                None => old(self)@ == Map::<Seq<u8>, V::V>::empty() && final(self)@ == old(self)@,
            },
    {
        let ghost old_keys = self.keys();
        let ghost old_map = self@;
        let key = self.keys.pop();
        let value = self.values.pop();
        match (key, value) {
            (Some(key), Some(value)) => {
                proof {
                    let n = old_keys.len() - 1;
                    old(self).lemma_place(n);
                    assert(self.keys() =~= old_keys.drop_last());
                    assert(self.values() =~= old(self).values().drop_last());
                    assert forall|k: Seq<u8>| self@.dom().contains(k) == old_map.remove(
                        key@,
                    ).dom().contains(k) by {
                        if self@.dom().contains(k) {
                            let i = self.place(k);
                            assert(old_keys[i] == k);
                            if k == key@ {
                                lemma_ascending_place(old_keys, i, n);
                            }
                        } else if old_map.dom().contains(k) && k != key@ {
                            let i = old(self).place(k);
                            assert(self.keys()[i] == k);
                        }
                    }
                    assert forall|k: Seq<u8>| self@.dom().contains(k) implies self@[k]
                        == old_map.remove(key@)[k] by {
                        let i = self.place(k);
                        assert(old_keys[i] == k);
                        old(self).lemma_place(i);
                    }
                    assert(self@ =~= old_map.remove(key@));
                }
                Some((key, value))
            },
            _ => {
                proof {
                    assert(old_map =~= Map::<Seq<u8>, V::V>::empty());
                    assert(self.keys() =~= old_keys);
                    assert(self.values() =~= old(self).values());
                }
                None
            },
        }
    }

    /// The value at place `i`, to change it where it stands.
    pub fn value_at_mut(&mut self, i: usize) -> (value: &mut V)
        requires
            old(self).wf(),
            i < old(self).keys().len(),
        ensures
            value@ == old(self).values()[i as int],
            final(self).wf(),
            final(self).keys() == old(self).keys(),
            final(self).values() == old(self).values().update(i as int, final(value)@),
    {
        &mut self.values[i]
    }

    /// A map that differs from `self` in the value at place `i` only is
    /// `self` with that value put under the key at `i`.
    pub proof fn lemma_value_changed(&self, after: &Self, i: int, value: V::V)
        requires
            self.wf(),
            0 <= i < self.keys().len(),
            after.keys() == self.keys(),
            after.values() == self.values().update(i, value),
        ensures
            after.wf(),
            after@ == self@.insert(self.keys()[i], value),
    {
        let key = self.keys()[i];
        assert forall|k: Seq<u8>| after@.dom().contains(k) == self@.insert(
            key,
            value,
        ).dom().contains(k) by {
            if k == key {
                assert(after.keys()[i] == k);
            }
        }
        assert forall|k: Seq<u8>| after@.dom().contains(k) implies after@[k] == self@.insert(
            key,
            value,
        )[k] by {
            let j = after.place(k);
            if k == key {
                lemma_ascending_place(self.keys(), j, i);
            } else {
                self.lemma_place(j);
            }
        }
        assert(after@ =~= self@.insert(key, value));
    }

    /// The map holds the keys of `keys()` and no others.
    pub proof fn lemma_dom(&self)
        ensures
            forall|key: Seq<u8>| self@.dom().contains(key) <==> self.keys().contains(key),
    {
    }

    /// Takes the map apart into its keys, in ascending order, and the value
    /// of each.
    pub fn into_parts(self) -> (parts: (Vec<Vec<u8>>, Vec<V>))
        requires
            self.wf(),
        ensures
            key_views(parts.0@) == self.keys(),
            parts.1@.len() == self.values().len(),
            forall|i: int| 0 <= i < parts.1@.len() ==> (#[trigger] parts.1@[i])@ == self.values()[i],
    {
        (self.keys, self.values)
    }
}

impl<V: View> View for SortedMap<V> {
    type V = Map<Seq<u8>, V::V>;

    open spec fn view(&self) -> Map<Seq<u8>, V::V> {
        Map::new(|key: Seq<u8>| self.contains_key(key), |key: Seq<u8>| self.values()[self.place(key)])
    }
}

} // verus!
