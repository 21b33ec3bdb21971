use trie_update::key_order::{compare, is_ascending, starts_with, KeyOrder};
use trie_update::sorted_map::lower_bound;

#[test]
fn compare_orders_bytewise() {
    assert_eq!(compare(b"dog", b"dog2"), KeyOrder::Before);
    assert_eq!(compare(b"dog2", b"dog"), KeyOrder::After);
    assert_eq!(compare(b"dog", b"dog"), KeyOrder::Same);
    assert_eq!(compare(b"aaa", b"dog"), KeyOrder::Before);
    assert_eq!(compare(b"xxx", b"dog2"), KeyOrder::After);
}

#[test]
fn compare_takes_bytes_as_unsigned() {
    assert_eq!(compare(&[0x7f], &[0x80]), KeyOrder::Before);
    assert_eq!(compare(&[0xff], &[0x00, 0xff]), KeyOrder::After);
}

#[test]
fn compare_with_the_empty_key() {
    assert_eq!(compare(b"", b""), KeyOrder::Same);
    assert_eq!(compare(b"", &[0]), KeyOrder::Before);
    assert_eq!(compare(&[0], b""), KeyOrder::After);
}

#[test]
fn compare_agrees_with_the_order_of_slices() {
    let keys: [&[u8]; 7] = [b"", b"a", b"aa", b"ab", b"b", &[0xff], &[0xff, 0]];
    for a in keys {
        for b in keys {
            let expected = if a < b {
                KeyOrder::Before
            } else if a == b {
                KeyOrder::Same
            } else {
                KeyOrder::After
            };
            assert_eq!(compare(a, b), expected);
        }
    }
}

#[test]
fn starts_with_finds_prefixes() {
    assert!(starts_with(b"dog2", b"dog"));
    assert!(starts_with(b"dog", b"dog"));
    assert!(starts_with(b"dog", b""));
    assert!(starts_with(b"", b""));
    assert!(!starts_with(b"do", b"dog"));
    assert!(!starts_with(b"dig", b"dog"));
    assert!(!starts_with(b"", b"d"));
}

#[test]
fn is_ascending_wants_strict_order() {
    assert!(is_ascending(&vec![]));
    assert!(is_ascending(&vec![b"dog".to_vec()]));
    assert!(is_ascending(&vec![b"aaa".to_vec(), b"dog".to_vec(), b"dog2".to_vec()]));
    assert!(!is_ascending(&vec![b"dog".to_vec(), b"dog".to_vec()]));
    assert!(!is_ascending(&vec![b"dog2".to_vec(), b"dog".to_vec()]));
    assert!(!is_ascending(&vec![b"a".to_vec(), b"c".to_vec(), b"b".to_vec()]));
}

#[test]
fn lower_bound_is_the_first_key_not_before() {
    let keys = vec![b"aaa".to_vec(), b"dog".to_vec(), b"dog2".to_vec(), b"xxx".to_vec()];
    assert_eq!(lower_bound(&keys, b""), 0);
    assert_eq!(lower_bound(&keys, b"aaa"), 0);
    assert_eq!(lower_bound(&keys, b"b"), 1);
    assert_eq!(lower_bound(&keys, b"dog"), 1);
    assert_eq!(lower_bound(&keys, b"dog1"), 2);
    assert_eq!(lower_bound(&keys, b"dog2"), 2);
    assert_eq!(lower_bound(&keys, b"dog3"), 3);
    assert_eq!(lower_bound(&keys, b"zzz"), 4);
    assert_eq!(lower_bound(&vec![], b"dog"), 0);
}
