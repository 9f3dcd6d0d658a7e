use cchamt::optimal_contiguous_cctrie::ContiguousTrie;
use cchamt::optimal_contiguous_cctrie::KEYS;
use cchamt::optimal_contiguous_cctrie::KEY_LEN;

#[test]
fn optimal_contiguous_cctrie_test_new_contiguous_trie() {
    let _trie = ContiguousTrie::<usize>::new();
}

#[test]
fn optimal_contiguous_cctrie_test_insert_contiguous_trie() {
    let mut trie = ContiguousTrie::<usize>::new();
    for i in 0..10 {
        trie.insert(1, &i);
    }
}

#[test]
fn optimal_contiguous_cctrie_test_get_contiguous_trie() {
    let mut trie = ContiguousTrie::<&str>::new();
    trie.insert("abc", &0);
    trie.insert("cde", &1);

    let a = trie.get(&0);
    let ab = trie.get(&1);
    assert_eq!(a.unwrap(), "abc");
    assert_ne!(ab.unwrap(), "abc");
}

#[test]
fn optimal_trie_has_a_slot_for_every_key() {
    assert_eq!(KEYS, 2usize.pow(KEY_LEN));
    let mut trie = ContiguousTrie::<usize>::new();
    assert!(!trie.contain(&0));
    assert!(!trie.contain(&(KEYS - 1)));
    assert_eq!(trie.get(&(KEYS - 1)), None);
    trie.insert(3, &(KEYS - 1));
    assert!(trie.contain(&(KEYS - 1)));
    assert_eq!(trie.get(&(KEYS - 1)), Some(3));
    trie.insert(4, &(KEYS - 1));
    assert_eq!(trie.get(&(KEYS - 1)), Some(4));
    assert!(!trie.contain(&0));
}
