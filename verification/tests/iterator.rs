use near_primitives::hash::CryptoHash;
use near_primitives::trie_key::TrieKey;
use near_primitives::types::StateChangeCause;
use trie_update::iterator::IterStep;
use trie_update::key::LogicalKey;
use trie_update::update::TrieUpdate;

fn data_key(key: &[u8]) -> Vec<u8> {
    TrieKey::ContractData { account_id: "alice".parse().unwrap(), key: key.to_vec() }.to_vec()
}

fn logical(key: &[u8]) -> LogicalKey {
    LogicalKey::new(TrieKey::ContractData {
        account_id: "alice".parse().unwrap(),
        key: key.to_vec(),
    })
    .unwrap()
}

fn transaction() -> StateChangeCause {
    StateChangeCause::TransactionProcessing { tx_hash: CryptoHash::default() }
}

fn keys(names: &[&[u8]]) -> Vec<Vec<u8>> {
    names.iter().map(|name| data_key(name)).collect()
}

/// Runs the merge as a caller with a scan of its own does.
fn run(update: &TrieUpdate, prefix: &[u8], base: &[Vec<u8>]) -> Vec<Vec<u8>> {
    let mut scan = base.iter().filter(|key| key.as_slice() >= prefix).peekable();
    let mut iter = update.iter(prefix);
    let mut found = Vec::new();
    loop {
        let head = scan.peek().map(|key| key.as_slice());
        match iter.step(head) {
            IterStep::Yield { key, advance_base } => {
                found.push(key);
                if advance_base {
                    scan.next();
                }
            }
            IterStep::Skip { advance_base } => {
                if advance_base {
                    scan.next();
                }
            }
            IterStep::Done => return found,
        }
    }
}

#[test]
fn iterates_committed_and_prospective_keys() {
    let mut update = TrieUpdate::new();
    update.set(logical(b"dog"), b"puppy".to_vec());
    update.commit(transaction());
    update.set(logical(b"dog2"), b"puppy".to_vec());
    update.set(logical(b"xxx"), b"puppy".to_vec());
    let prefix = data_key(b"dog");
    assert_eq!(update.live_keys(&prefix, &vec![]), keys(&[b"dog", b"dog2"]));
    update.remove(logical(b"dog"), false);
    assert_eq!(update.live_keys(&prefix, &vec![]), keys(&[b"dog2"]));
    update.rollback();
    assert_eq!(update.live_keys(&prefix, &vec![]), keys(&[b"dog"]));
}

#[test]
fn iterates_the_base_trie_alone() {
    let update = TrieUpdate::new();
    let base = keys(&[b"aaa", b"dog", b"dog2", b"dot", b"xxx"]);
    assert_eq!(update.live_keys(&data_key(b"dog"), &base), keys(&[b"dog", b"dog2"]));
    assert_eq!(update.live_keys(&data_key(b"do"), &base), keys(&[b"dog", b"dog2", b"dot"]));
    assert_eq!(update.live_keys(&data_key(b""), &base), base);
    assert_eq!(update.live_keys(b"", &base), base);
    assert_eq!(update.live_keys(&data_key(b"cat"), &base), keys(&[]));
    assert_eq!(update.live_keys(&data_key(b"dog22"), &base), keys(&[]));
    assert_eq!(update.live_keys(&data_key(b"zzz"), &base), keys(&[]));
}

#[test]
fn overlay_goes_before_the_base_trie() {
    let mut update = TrieUpdate::new();
    let base = keys(&[b"dog", b"dog2", b"dog4"]);
    update.remove(logical(b"dog2"), false);
    update.commit(transaction());
    update.set(logical(b"dog3"), b"puppy".to_vec());
    update.set(logical(b"dog"), b"hound".to_vec());
    assert_eq!(update.live_keys(&data_key(b"dog"), &base), keys(&[b"dog", b"dog3", b"dog4"]));
    update.set(logical(b"dog2"), b"back".to_vec());
    update.remove(logical(b"dog4"), false);
    assert_eq!(update.live_keys(&data_key(b"dog"), &base), keys(&[b"dog", b"dog2", b"dog3"]));
    update.rollback();
    assert_eq!(update.live_keys(&data_key(b"dog"), &base), keys(&[b"dog", b"dog4"]));
}

#[test]
fn prospective_goes_before_committed() {
    let mut update = TrieUpdate::new();
    update.set(logical(b"dog"), b"puppy".to_vec());
    update.set(logical(b"dog2"), b"puppy".to_vec());
    update.commit(transaction());
    update.remove(logical(b"dog"), false);
    assert_eq!(update.live_keys(&data_key(b"dog"), &vec![]), keys(&[b"dog2"]));
    update.commit(transaction());
    assert_eq!(update.live_keys(&data_key(b"dog"), &vec![]), keys(&[b"dog2"]));
    update.set(logical(b"dog"), b"again".to_vec());
    assert_eq!(update.live_keys(&data_key(b"dog"), &vec![]), keys(&[b"dog", b"dog2"]));
}

#[test]
fn every_key_is_yielded_once() {
    let mut update = TrieUpdate::new();
    let base = keys(&[b"dog", b"dog2"]);
    update.set(logical(b"dog"), b"1".to_vec());
    update.set(logical(b"dog2"), b"1".to_vec());
    update.commit(transaction());
    update.set(logical(b"dog"), b"2".to_vec());
    update.set(logical(b"dog2"), b"2".to_vec());
    assert_eq!(update.live_keys(&data_key(b"dog"), &base), keys(&[b"dog", b"dog2"]));
}

#[test]
fn nothing_is_left_when_all_is_removed() {
    let mut update = TrieUpdate::new();
    let base = keys(&[b"dog", b"dog2"]);
    update.remove(logical(b"dog"), false);
    update.commit(transaction());
    update.remove(logical(b"dog2"), false);
    assert_eq!(update.live_keys(&data_key(b"dog"), &base), keys(&[]));
    assert_eq!(update.live_keys(&data_key(b""), &base), keys(&[]));
}

#[test]
fn steps_tell_when_the_scan_moves() {
    let mut update = TrieUpdate::new();
    update.set(logical(b"dog"), b"puppy".to_vec());
    update.remove(logical(b"dog2"), false);
    update.commit(transaction());
    update.set(logical(b"dog3"), b"puppy".to_vec());
    let prefix = data_key(b"dog");
    let dog = data_key(b"dog");
    let dog1 = data_key(b"dog1");
    let dog2 = data_key(b"dog2");
    let dot = data_key(b"dot");
    let mut iter = update.iter(&prefix);
    // The overlay and the scan both stand at "dog".
    assert_eq!(iter.step(Some(&dog)), IterStep::Yield { key: dog.clone(), advance_base: true });
    // The scan is ahead of the overlay.
    assert_eq!(iter.step(Some(&dog1)), IterStep::Yield { key: dog1.clone(), advance_base: true });
    // The overlay removes the key at which the scan stands.
    assert_eq!(iter.step(Some(&dog2)), IterStep::Skip { advance_base: true });
    // The scan has left the prefix; the overlay has one key more.
    assert_eq!(
        iter.step(Some(&dot)),
        IterStep::Yield { key: data_key(b"dog3"), advance_base: false }
    );
    assert_eq!(iter.step(Some(&dot)), IterStep::Done);
    assert_eq!(iter.step(None), IterStep::Done);
}

#[test]
fn steps_over_an_empty_overlay() {
    let update = TrieUpdate::new();
    let mut iter = update.iter(b"dog");
    assert_eq!(iter.step(None), IterStep::Done);
    let mut iter = update.iter(b"dog");
    assert_eq!(
        iter.step(Some(b"dog")),
        IterStep::Yield { key: b"dog".to_vec(), advance_base: true }
    );
    assert_eq!(iter.step(Some(b"cat")), IterStep::Done);
}

#[test]
fn stepping_agrees_with_live_keys() {
    let mut update = TrieUpdate::new();
    let names: Vec<Vec<u8>> = (0..40u8).map(|i| vec![b'k', i / 8, i % 8]).collect();
    let base: Vec<Vec<u8>> =
        names.iter().filter(|name| name[2] % 2 == 0).map(|name| data_key(name)).collect();
    for name in &names {
        match name[2] % 4 {
            0 => update.set(logical(name), b"set".to_vec()),
            1 => {
                update.remove(logical(name), false);
            }
            _ => {}
        }
    }
    update.commit(transaction());
    for name in &names {
        match name[2] {
            0 | 2 => {
                update.remove(logical(name), false);
            }
            1 | 3 => update.set(logical(name), b"set".to_vec()),
            _ => {}
        }
    }
    for prefix in [data_key(b""), data_key(b"k"), data_key(&[b'k', 2]), data_key(&[b'k', 4, 6])] {
        let expected: Vec<Vec<u8>> = names
            .iter()
            .filter(|name| match name[2] {
                0 | 2 => false,
                1 | 3 | 4 => true,
                5 => false,
                _ => name[2] % 2 == 0,
            })
            .map(|name| data_key(name))
            .filter(|key| key.starts_with(&prefix))
            .collect();
        assert_eq!(update.live_keys(&prefix, &base), expected);
        assert_eq!(run(&update, &prefix, &base), expected);
    }
}
