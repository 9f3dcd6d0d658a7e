use cchamt::contiguous_cctrie::can_read;
use cchamt::contiguous_cctrie::get_depth;
use cchamt::contiguous_cctrie::read_group;
use cchamt::contiguous_cctrie::ContiguousTrie;

#[test]
fn contiguous_cctrie_test_new_contiguous_trie() {
    let _trie = ContiguousTrie::<usize>::new(24, 4);
}

#[test]
fn contiguous_cctrie_test_large_consecutive_insert() {
    let mut trie = ContiguousTrie::<usize>::new(24, 4);

    for i in 0..65536 {
        let str = format!("{:#026b}", i);
        let arr = str.to_owned().into_bytes();
        trie.insert(i, &arr[2..]);
    }

    for i in 0..65536 {
        let str = format!("{:#026b}", i);
        let arr = str.to_owned().into_bytes();
        assert_eq!(trie.get(&arr[2..]).unwrap(), i);
    }
}

#[test]
fn contiguous_cctrie_test_very_large_consecutive_insert() {
    let mut trie = ContiguousTrie::<usize>::new(24, 4);

    for i in 0..1000000 {
        let str = format!("{:#026b}", i);
        let arr = str.to_owned().into_bytes();
        trie.insert(i, &arr[2..]);
    }

    for i in 0..1000000 {
        let str = format!("{:#026b}", i);
        let arr = str.to_owned().into_bytes();
        assert_eq!(trie.get(&arr[2..]).unwrap(), i);
    }
}

#[test]
fn a_small_trie_keeps_what_was_inserted() {
    let mut trie = ContiguousTrie::<u8>::new(8, 4);
    assert!(trie.admits(b"00000000"));
    assert!(!trie.contain(b"00000000"));
    assert_eq!(trie.key2index(b"00000000"), 8);
    assert_eq!(trie.key2index(b"00010010"), 18);
    trie.insert(1, b"00000000");
    trie.insert(2, b"00010010");
    assert!(trie.contain(b"00000000"));
    assert!(trie.contain(b"00010010"));
    assert!(!trie.contain(b"00010011"));
    assert_eq!(trie.get(b"00000000"), Some(1));
    assert_eq!(trie.get(b"00010010"), Some(2));
    assert_eq!(trie.get(b"00010011"), None);
    assert_eq!(trie.key2index(b"00010010"), 18);
}

#[test]
fn a_group_is_read_with_its_first_digit_counting_most() {
    assert_eq!(read_group(b"101", 8), 5);
    assert_eq!(read_group(b"10100000", 3), 5);
    assert_eq!(read_group(b"2", 1), 2);
    assert!(can_read(b"0101", 4));
    assert!(can_read(b"", 4));
    assert!(!can_read(b"01 1", 4));
    assert!(can_read(b"0101 ", 4));
    let long = [b'1'; 65];
    assert!(!can_read(&long, 65));
    assert!(can_read(&long, 64) == (usize::BITS >= 64));
}

#[test]
fn depth_counts_the_levels_before_an_index() {
    assert_eq!(get_depth(2, 0), 0);
    assert_eq!(get_depth(2, 1), 0);
    assert_eq!(get_depth(2, 2), 1);
    assert_eq!(get_depth(2, 5), 1);
    assert_eq!(get_depth(2, 6), 2);
    assert_eq!(get_depth(1, 5), 5);
    assert_eq!(get_depth(24, 8308824), 5);
    assert_eq!(get_depth(24, 8308823), 4);
}
