use std::collections::BTreeMap;

use near_primitives::hash::CryptoHash;
use near_primitives::trie_key::TrieKey;
use near_primitives::types::StateChangeCause;
use trie_update::key::LogicalKey;
use trie_update::update::{Lookup, TrieUpdate};

/// The overlay as two plain maps, to hold the library against.
struct Model {
    prospective: BTreeMap<Vec<u8>, Option<Vec<u8>>>,
    committed: BTreeMap<Vec<u8>, Vec<(u8, Option<Vec<u8>>)>>,
}

impl Model {
    fn resolve(&self, key: &[u8]) -> Option<Option<Vec<u8>>> {
        if let Some(value) = self.prospective.get(key) {
            return Some(value.clone());
        }
        self.committed.get(key).map(|changes| changes.last().unwrap().1.clone())
    }

    fn commit(&mut self, cause: u8) {
        for (key, value) in std::mem::take(&mut self.prospective) {
            self.committed.entry(key).or_default().push((cause, value));
        }
    }
}

fn trie_key(name: &[u8]) -> TrieKey {
    TrieKey::ContractData { account_id: "alice".parse().unwrap(), key: name.to_vec() }
}

fn logical(name: &[u8]) -> LogicalKey {
    LogicalKey::new(trie_key(name)).unwrap()
}

fn cause(byte: u8) -> StateChangeCause {
    StateChangeCause::ReceiptProcessing { receipt_hash: CryptoHash([byte; 32]) }
}

fn next(seed: &mut u64) -> u64 {
    *seed = seed.wrapping_mul(6364136223846793005).wrapping_add(1442695040888963407);
    *seed >> 33
}

fn name(seed: &mut u64) -> Vec<u8> {
    let length = next(seed) % 3;
    (0..length).map(|_| b'a' + (next(seed) % 3) as u8).collect()
}

fn compare_with_model(update: &TrieUpdate, model: &Model, base: &BTreeMap<Vec<u8>, Vec<u8>>) {
    let mut names: Vec<Vec<u8>> = vec![vec![]];
    for a in b"abc" {
        names.push(vec![*a]);
        for b in b"abc" {
            names.push(vec![*a, *b]);
        }
    }
    for name in &names {
        let raw = trie_key(name).to_vec();
        let expected = match model.resolve(&raw) {
            Some(value) => Lookup::Overlay(value),
            None => Lookup::Base,
        };
        assert_eq!(update.get_from_updates(&logical(name)), expected);
        let contained = match model.resolve(&raw) {
            Some(value) => Lookup::Overlay(value.is_some()),
            None => Lookup::Base,
        };
        assert_eq!(update.contains_key(&logical(name)), contained);
    }
    let base_keys: Vec<Vec<u8>> = base.keys().cloned().collect();
    for prefix in &names {
        let prefix = trie_key(prefix).to_vec();
        let mut expected: Vec<Vec<u8>> = Vec::new();
        for name in &names {
            let raw = trie_key(name).to_vec();
            let live = match model.resolve(&raw) {
                Some(value) => value.is_some(),
                None => base.contains_key(&raw),
            };
            if live && raw.starts_with(&prefix) {
                expected.push(raw);
            }
        }
        expected.sort();
        assert_eq!(update.live_keys(&prefix, &base_keys), expected);
    }
}

#[test]
fn overlay_agrees_with_two_plain_maps() {
    let mut seed: u64 = 7;
    for round in 0..20 {
        let mut base: BTreeMap<Vec<u8>, Vec<u8>> = BTreeMap::new();
        for _ in 0..(round % 5) {
            base.insert(trie_key(&name(&mut seed)).to_vec(), b"base".to_vec());
        }
        let mut update = TrieUpdate::new();
        let mut model = Model { prospective: BTreeMap::new(), committed: BTreeMap::new() };
        for step in 0..60u8 {
            let key = name(&mut seed);
            match next(&mut seed) % 8 {
                0 | 1 | 2 => {
                    let value = vec![step, round as u8];
                    update.set(logical(&key), value.clone());
                    model.prospective.insert(trie_key(&key).to_vec(), Some(value));
                }
                3 | 4 => {
                    assert!(update.remove(logical(&key), true));
                    model.prospective.insert(trie_key(&key).to_vec(), None);
                }
                5 | 6 => {
                    update.commit(cause(step));
                    model.commit(step);
                }
                _ => {
                    update.rollback();
                    model.prospective.clear();
                }
            }
            assert_eq!(update.prospective_is_empty(), model.prospective.is_empty());
            if step % 7 == 0 {
                compare_with_model(&update, &model, &base);
            }
        }
        compare_with_model(&update, &model, &base);
        update.rollback();
        model.prospective.clear();
        let result = update.finalize();
        let expected_updates: Vec<(Vec<u8>, Option<Vec<u8>>)> = model
            .committed
            .iter()
            .map(|(key, changes)| (key.clone(), changes.last().unwrap().1.clone()))
            .collect();
        assert_eq!(result.trie_updates, expected_updates);
        assert_eq!(result.state_changes.len(), model.committed.len());
        for (entry, (key, changes)) in result.state_changes.iter().zip(model.committed.iter()) {
            assert_eq!(&entry.trie_key.to_vec(), key);
            assert_eq!(entry.changes.len(), changes.len());
            for (change, (step, value)) in entry.changes.iter().zip(changes.iter()) {
                assert_eq!(change.cause, cause(*step));
                assert_eq!(&change.data, value);
            }
        }
        // The trie that takes the batch reads as the overlay did.
        let mut after = base.clone();
        for (key, value) in &result.trie_updates {
            match value {
                Some(value) => {
                    after.insert(key.clone(), value.clone());
                }
                None => {
                    after.remove(key);
                }
            }
        }
        let fresh = TrieUpdate::new();
        for a in b"abc" {
            for b in b"abc" {
                let key = logical(&[*a, *b]);
                let before = match model.resolve(key.as_bytes()) {
                    Some(value) => value,
                    None => base.get(key.as_bytes()).cloned(),
                };
                assert_eq!(fresh.get_from_updates(&key), Lookup::Base);
                assert_eq!(after.get(key.as_bytes()).cloned(), before);
            }
        }
    }
}
