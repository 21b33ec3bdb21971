use near_primitives::hash::CryptoHash;
use near_primitives::trie_key::TrieKey;
use near_primitives::types::StateChangeCause;
use trie_update::key::LogicalKey;
use trie_update::update::{Lookup, TrieUpdate};
use trie_update::value::TrieUpdateValuePtr;

fn data_key(key: &[u8]) -> TrieKey {
    TrieKey::ContractData { account_id: "alice".parse().unwrap(), key: key.to_vec() }
}

fn logical(key: &[u8]) -> LogicalKey {
    LogicalKey::new(data_key(key)).unwrap()
}

fn account(name: &str) -> LogicalKey {
    LogicalKey::new(TrieKey::Account { account_id: name.parse().unwrap() }).unwrap()
}

fn transaction(byte: u8) -> StateChangeCause {
    StateChangeCause::TransactionProcessing { tx_hash: CryptoHash([byte; 32]) }
}

fn receipt(byte: u8) -> StateChangeCause {
    StateChangeCause::ReceiptProcessing { receipt_hash: CryptoHash([byte; 32]) }
}

#[test]
fn fresh_overlay_asks_the_base_trie() {
    let update = TrieUpdate::new();
    assert_eq!(update.get_ref(&logical(b"dog")), Lookup::Base);
    assert_eq!(update.contains_key(&logical(b"dog")), Lookup::Base);
    assert_eq!(update.get_from_updates(&logical(b"dog")), Lookup::Base);
    assert!(update.prospective_is_empty());
    let result = update.finalize();
    assert!(result.trie_updates.is_empty());
    assert!(result.state_changes.is_empty());
}

#[test]
fn set_is_read_before_commit() {
    let mut update = TrieUpdate::new();
    update.set(logical(b"dog"), b"puppy".to_vec());
    assert_eq!(
        update.get_ref(&logical(b"dog")),
        Lookup::Overlay(Some(TrieUpdateValuePtr::MemoryRef(b"puppy")))
    );
    assert_eq!(update.contains_key(&logical(b"dog")), Lookup::Overlay(true));
    assert_eq!(update.get_from_updates(&logical(b"dog")), Lookup::Overlay(Some(b"puppy".to_vec())));
    assert_eq!(update.get_ref(&logical(b"cat")), Lookup::Base);
    assert!(!update.prospective_is_empty());
}

#[test]
fn set_goes_before_the_committed_value() {
    let mut update = TrieUpdate::new();
    update.set(logical(b"dog"), b"puppy".to_vec());
    update.commit(transaction(1));
    update.set(logical(b"dog"), b"hound".to_vec());
    assert_eq!(update.get_from_updates(&logical(b"dog")), Lookup::Overlay(Some(b"hound".to_vec())));
    update.set(logical(b"dog"), b"".to_vec());
    assert_eq!(update.get_from_updates(&logical(b"dog")), Lookup::Overlay(Some(vec![])));
    assert_eq!(update.contains_key(&logical(b"dog")), Lookup::Overlay(true));
}

#[test]
fn remove_leaves_a_tombstone() {
    let mut update = TrieUpdate::new();
    update.set(logical(b"dog"), b"puppy".to_vec());
    update.commit(transaction(1));
    assert_eq!(update.contains_key(&logical(b"dog")), Lookup::Overlay(true));
    update.remove(logical(b"dog"), false);
    assert_eq!(update.contains_key(&logical(b"dog")), Lookup::Overlay(false));
    assert_eq!(update.get_ref(&logical(b"dog")), Lookup::Overlay(None));
    assert_eq!(update.get_from_updates(&logical(b"dog")), Lookup::Overlay(None));
    update.commit(transaction(2));
    assert_eq!(update.contains_key(&logical(b"dog")), Lookup::Overlay(false));
    assert_eq!(update.get_ref(&logical(b"dog")), Lookup::Overlay(None));
}

#[test]
fn remove_of_an_unknown_key_leaves_a_tombstone() {
    let mut update = TrieUpdate::new();
    update.remove(logical(b"dog"), false);
    assert_eq!(update.contains_key(&logical(b"dog")), Lookup::Overlay(false));
    assert_eq!(update.get_ref(&logical(b"dog")), Lookup::Overlay(None));
    assert_eq!(update.contains_key(&logical(b"dog2")), Lookup::Base);
}

#[test]
fn remove_records_contract_data_where_a_recorder_is_attached() {
    let mut update = TrieUpdate::new();
    assert!(update.remove(logical(b"dog"), true));
    assert!(!update.remove(logical(b"dog"), false));
    assert!(!update.remove(account("alice"), true));
    assert!(!update.remove(account("alice"), false));
    assert_eq!(update.contains_key(&account("alice")), Lookup::Overlay(false));
}

#[test]
fn commit_appends_to_the_history() {
    let mut update = TrieUpdate::new();
    update.set(logical(b"dog"), b"v1".to_vec());
    update.commit(transaction(1));
    update.set(logical(b"dog"), b"v2".to_vec());
    update.commit(receipt(2));
    assert_eq!(update.get_from_updates(&logical(b"dog")), Lookup::Overlay(Some(b"v2".to_vec())));
    let result = update.finalize();
    assert_eq!(result.trie_updates, vec![(logical(b"dog").as_bytes().to_vec(), Some(b"v2".to_vec()))]);
    assert_eq!(result.state_changes.len(), 1);
    let entry = &result.state_changes[0];
    assert_eq!(entry.trie_key, data_key(b"dog"));
    assert_eq!(entry.changes.len(), 2);
    assert_eq!(entry.changes[0].cause, transaction(1));
    assert_eq!(entry.changes[0].data, Some(b"v1".to_vec()));
    assert_eq!(entry.changes[1].cause, receipt(2));
    assert_eq!(entry.changes[1].data, Some(b"v2".to_vec()));
}

#[test]
fn commit_keeps_only_the_last_prospective_value() {
    let mut update = TrieUpdate::new();
    update.set(logical(b"dog"), b"v1".to_vec());
    update.set(logical(b"dog"), b"v2".to_vec());
    update.remove(logical(b"dog"), false);
    update.set(logical(b"dog"), b"v3".to_vec());
    update.commit(transaction(1));
    let result = update.finalize();
    assert_eq!(result.state_changes[0].changes.len(), 1);
    assert_eq!(result.state_changes[0].changes[0].data, Some(b"v3".to_vec()));
}

#[test]
fn commit_of_nothing_changes_nothing() {
    let mut update = TrieUpdate::new();
    update.commit(transaction(1));
    assert!(update.prospective_is_empty());
    assert_eq!(update.get_ref(&logical(b"dog")), Lookup::Base);
    update.set(logical(b"dog"), b"puppy".to_vec());
    update.commit(transaction(2));
    update.commit(transaction(3));
    update.commit(transaction(4));
    let result = update.finalize();
    assert_eq!(result.state_changes.len(), 1);
    assert_eq!(result.state_changes[0].changes.len(), 1);
    assert_eq!(result.state_changes[0].changes[0].cause, transaction(2));
}

#[test]
fn commit_keeps_the_history_of_a_removed_key() {
    let mut update = TrieUpdate::new();
    update.set(logical(b"dog"), b"puppy".to_vec());
    update.commit(transaction(1));
    update.remove(logical(b"dog"), false);
    update.commit(transaction(2));
    update.set(logical(b"dog"), b"again".to_vec());
    update.commit(transaction(3));
    let result = update.finalize();
    let changes = &result.state_changes[0].changes;
    assert_eq!(changes.len(), 3);
    assert_eq!(changes[0].data, Some(b"puppy".to_vec()));
    assert_eq!(changes[1].data, None);
    assert_eq!(changes[2].data, Some(b"again".to_vec()));
    assert_eq!(changes[1].cause, transaction(2));
    assert_eq!(result.trie_updates[0].1, Some(b"again".to_vec()));
}

#[test]
fn rollback_discards_what_is_not_committed() {
    let mut update = TrieUpdate::new();
    update.set(logical(b"dog"), b"puppy".to_vec());
    update.rollback();
    assert_eq!(update.contains_key(&logical(b"dog")), Lookup::Base);
    assert!(update.prospective_is_empty());

    update.set(logical(b"dog"), b"puppy".to_vec());
    update.commit(transaction(1));
    update.set(logical(b"dog"), b"hound".to_vec());
    update.remove(logical(b"cat"), false);
    update.set(logical(b"cow"), b"calf".to_vec());
    update.rollback();
    assert_eq!(update.get_from_updates(&logical(b"dog")), Lookup::Overlay(Some(b"puppy".to_vec())));
    assert_eq!(update.contains_key(&logical(b"cat")), Lookup::Base);
    assert_eq!(update.contains_key(&logical(b"cow")), Lookup::Base);
    let result = update.finalize();
    assert_eq!(result.state_changes.len(), 1);
    assert_eq!(result.state_changes[0].changes.len(), 1);
}

#[test]
fn rollback_after_remove_shows_the_committed_value() {
    let mut update = TrieUpdate::new();
    update.set(logical(b"dog"), b"puppy".to_vec());
    update.commit(transaction(1));
    update.remove(logical(b"dog"), false);
    assert_eq!(update.contains_key(&logical(b"dog")), Lookup::Overlay(false));
    update.rollback();
    assert_eq!(update.contains_key(&logical(b"dog")), Lookup::Overlay(true));
}

#[test]
fn finalize_reports_in_key_order() {
    let mut update = TrieUpdate::new();
    update.set(logical(b"xxx"), b"3".to_vec());
    update.set(logical(b"dog2"), b"2".to_vec());
    update.commit(transaction(1));
    update.set(account("bob"), b"account".to_vec());
    update.set(logical(b"dog"), b"1".to_vec());
    update.remove(logical(b"dog2"), false);
    update.commit(transaction(2));
    let result = update.finalize();
    assert_eq!(
        result.trie_updates,
        vec![
            (b"\x00bob".to_vec(), Some(b"account".to_vec())),
            (b"\x09alice,dog".to_vec(), Some(b"1".to_vec())),
            (b"\x09alice,dog2".to_vec(), None),
            (b"\x09alice,xxx".to_vec(), Some(b"3".to_vec())),
        ]
    );
    let keys: Vec<TrieKey> = result.state_changes.iter().map(|e| e.trie_key.clone()).collect();
    assert_eq!(
        keys,
        vec![
            TrieKey::Account { account_id: "bob".parse().unwrap() },
            data_key(b"dog"),
            data_key(b"dog2"),
            data_key(b"xxx"),
        ]
    );
    let lengths: Vec<usize> = result.state_changes.iter().map(|e| e.changes.len()).collect();
    assert_eq!(lengths, vec![1, 1, 2, 1]);
    assert_eq!(result.state_changes[2].changes[0].cause, transaction(1));
    assert_eq!(result.state_changes[2].changes[1].cause, transaction(2));
}

#[test]
fn committed_entry_keeps_its_first_trie_key() {
    let mut update = TrieUpdate::new();
    update.set(logical(b"dog"), b"1".to_vec());
    update.commit(StateChangeCause::InitialState);
    update.set(logical(b"dog"), b"2".to_vec());
    update.commit(StateChangeCause::Migration);
    let result = update.finalize();
    assert_eq!(result.state_changes[0].trie_key, data_key(b"dog"));
    assert_eq!(result.state_changes[0].changes[0].cause, StateChangeCause::InitialState);
    assert_eq!(result.state_changes[0].changes[1].cause, StateChangeCause::Migration);
}

#[test]
fn many_keys_commit_and_resolve() {
    let mut update = TrieUpdate::new();
    for round in 0..3u8 {
        for i in 0..50u8 {
            let key = [i.wrapping_mul(37), round];
            update.set(logical(&key), vec![i, round]);
        }
        for i in 0..50u8 {
            if i % 3 == 0 {
                update.remove(logical(&[i.wrapping_mul(37), round]), false);
            }
        }
        update.commit(transaction(round));
    }
    for round in 0..3u8 {
        for i in 0..50u8 {
            let expected = if i % 3 == 0 { None } else { Some(vec![i, round]) };
            assert_eq!(
                update.get_from_updates(&logical(&[i.wrapping_mul(37), round])),
                Lookup::Overlay(expected)
            );
        }
    }
    let result = update.finalize();
    assert_eq!(result.trie_updates.len(), 150);
    assert_eq!(result.state_changes.len(), 150);
    for pair in result.trie_updates.windows(2) {
        assert!(pair[0].0 < pair[1].0);
    }
    for (update, entry) in result.trie_updates.iter().zip(result.state_changes.iter()) {
        assert_eq!(update.0, entry.trie_key.to_vec());
        assert_eq!(update.1, entry.changes.last().unwrap().data);
    }
}

#[test]
fn finalize_is_refused_with_uncommitted_changes() {
    let mut update = TrieUpdate::new();
    update.set(logical(b"dog"), b"puppy".to_vec());
    update.commit(transaction(1));
    update.set(logical(b"cat"), b"kitten".to_vec());
    assert!(!update.prospective_is_empty());
    let mut update = match update.try_finalize() {
        Ok(_) => panic!("the change of \"cat\" is not committed"),
        Err(update) => update,
    };
    assert_eq!(update.get_from_updates(&logical(b"cat")), Lookup::Overlay(Some(b"kitten".to_vec())));
    assert_eq!(update.get_from_updates(&logical(b"dog")), Lookup::Overlay(Some(b"puppy".to_vec())));
    update.rollback();
    let result = match update.try_finalize() {
        Ok(result) => result,
        Err(_) => panic!("nothing is left uncommitted"),
    };
    assert_eq!(result.trie_updates, vec![(b"\x09alice,dog".to_vec(), Some(b"puppy".to_vec()))]);
    assert_eq!(result.state_changes.len(), 1);
}

#[test]
fn removal_is_refused_like_any_uncommitted_change() {
    let mut update = TrieUpdate::new();
    update.remove(logical(b"dog"), false);
    assert!(update.try_finalize().is_err());
    let update = TrieUpdate::new();
    assert!(update.try_finalize().is_ok());
}
