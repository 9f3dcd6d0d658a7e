use cchamt::cctrie_contiguous::compute_index;
use cchamt::cctrie_contiguous::get_depth;
use cchamt::ContiguousTrie;

#[test]
fn cctrie_contiguous_test_new_contiguous_trie() {
    let _trie = ContiguousTrie::<usize>::new();
}

#[test]
fn cctrie_contiguous_test_insert_contiguous_trie() {
    let mut trie = ContiguousTrie::<usize>::new();
    trie.insert(1, &"0000000000000000".to_owned().into_bytes());
    trie.insert(10, &"0000000000000001".to_owned().into_bytes());
    trie.insert(100, &"0000000000000010".to_owned().into_bytes());
    trie.insert(100, &"0000000000000011".to_owned().into_bytes());
    trie.insert(1000, &"0000000000000100".to_owned().into_bytes());
    trie.insert(344, &"0000100000000011".to_owned().into_bytes());
    trie.insert(33, &"0000100000100011".to_owned().into_bytes());

    assert_eq!(trie.get(&"0000000000000000".to_owned().into_bytes()).unwrap(), 1);
    assert_eq!(trie.get(&"0000000000000001".to_owned().into_bytes()).unwrap(), 10);
    assert_eq!(trie.get(&"0000000000000010".to_owned().into_bytes()).unwrap(), 100);
    assert_eq!(trie.get(&"0000000000000011".to_owned().into_bytes()).unwrap(), 100);
    assert_eq!(trie.get(&"0000000000000100".to_owned().into_bytes()).unwrap(), 1000);
    assert_eq!(trie.get(&"0000100000000011".to_owned().into_bytes()).unwrap(), 344);
    assert_eq!(trie.get(&"0000100000100011".to_owned().into_bytes()).unwrap(), 33);
}

#[test]
fn cctrie_contiguous_test_get_contiguous_trie() {
    let mut trie = ContiguousTrie::<&str>::new();
    trie.insert("abc", &"0000000000000000".to_owned().into_bytes());
    trie.insert("cde", &"0000000000000001".to_owned().into_bytes());

    let a = trie.get(&"0000000000000000".to_owned().into_bytes());
    let ab = trie.get(&"0000000000000001".to_owned().into_bytes());
    assert_eq!(a.unwrap(), "abc");
    assert_ne!(ab.unwrap(), "abc");
}

#[test]
fn cctrie_contiguous_test_large_consecutive_insert() {
    let mut trie = ContiguousTrie::<usize>::new();

    for i in 0..65536 {
        let str = format!("{:#018b}", i);
        let arr = str.to_owned().into_bytes();
        trie.insert(i, &arr[2..]);
    }

    for i in 0..65536 {
        let str = format!("{:#018b}", i);
        let arr = str.to_owned().into_bytes();
        assert_eq!(trie.get(&arr[2..]).unwrap(), i);
    }
}

#[test]
fn cctrie_contiguous_test_very_large_consecutive_insert() {
    let mut trie = ContiguousTrie::<usize>::new();

    for i in 0..1000000 {
        let str = format!("{:#022b}", i);
        let arr = str.to_owned().into_bytes();
        trie.insert(i, &arr[2..]);
    }

    for i in 0..1000000 {
        let str = format!("{:#022b}", i);
        let arr = str.to_owned().into_bytes();
        assert_eq!(trie.get(&arr[2..]).unwrap(), i);
    }
}

#[test]
fn the_first_digit_of_a_group_counts_most() {
    assert_eq!(compute_index(b"0000"), 0);
    assert_eq!(compute_index(b"0001"), 1);
    assert_eq!(compute_index(b"1000"), 8);
    assert_eq!(compute_index(b"1111"), 15);
    assert_eq!(compute_index(b"11110000"), 15);
    assert_eq!(compute_index(b"10"), 2);
    assert_eq!(compute_index(b""), 0);
}

#[test]
fn depth_is_the_level_of_the_block() {
    assert_eq!(get_depth(0), 0);
    assert_eq!(get_depth(19), 0);
    assert_eq!(get_depth(20), 1);
    assert_eq!(get_depth(419), 1);
    assert_eq!(get_depth(420), 2);
    assert_eq!(get_depth(8419), 2);
    assert_eq!(get_depth(8420), 3);
    assert_eq!(get_depth(168420), 4);
    assert_eq!(get_depth(usize::MAX), 14);
}

#[test]
fn a_key_walks_to_the_child_block_of_each_node() {
    let mut trie = ContiguousTrie::<usize>::new();
    let key = b"0000000000000001";
    assert!(trie.admits(key));
    assert_eq!(trie.key2index(key), 168440);
    assert_eq!(trie.get(key), None);
    trie.insert(5, key);
    assert_eq!(trie.key2index(key), 168440);
    assert_eq!(trie.get(key), Some(5));
    assert_eq!(trie.get(b"0000000000000010"), None);
    assert!(!trie.admits(b"0000"));
    assert!(!trie.admits(b"000000000000000/"));
}
