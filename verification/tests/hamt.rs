use cchamt::IndexStatus;
use cchamt::Trie;

#[test]
fn test_new_trie() {
    let _trie = Trie::<()>::new();
}

#[test]
fn test_add_value() {
    let mut base = Trie::new();

    base.add_value((), &"1111111111111111".to_owned().into_bytes());
    base.add_value((), &"1111101011111111".to_owned().into_bytes());
    base.add_value((), &"1111111111111011".to_owned().into_bytes());
    base.add_value((), &"1111111111111110".to_owned().into_bytes());
    base.add_value((), &"1111111111111101".to_owned().into_bytes());
    base.add_value((), &"1111111111111110".to_owned().into_bytes());
}

#[test]
fn test_index_base() {
}

#[test]
fn new_trie_has_no_value_and_no_depth() {
    let trie = Trie::<u32>::new();
    assert_eq!(trie.data, None);
    assert_eq!(trie.depth(), 0);
    assert_eq!(trie.index_base(b""), IndexStatus::StartingMatch);
    assert_eq!(trie.index_base(b"0"), IndexStatus::NoMatch);
}

#[test]
fn add_value_returns_one_for_whole_groups() {
    let mut trie = Trie::<u32>::new();
    assert_eq!(trie.add_value(7, b""), 1);
    assert_eq!(trie.data, Some(7));
    assert_eq!(trie.depth(), 0);
    assert_eq!(trie.add_value(8, b"1010"), 1);
    assert_eq!(trie.depth(), 1);
    assert_eq!(trie.add_value(9, b"10100110"), 1);
    assert_eq!(trie.depth(), 2);
}

#[test]
fn add_value_returns_9999_for_a_short_last_group() {
    let mut trie = Trie::<u32>::new();
    assert_eq!(trie.add_value(1, b"101"), 9999);
    assert_eq!(trie.depth(), 9999);
    assert_eq!(trie.add_value(1, b"10101"), 9999);
    assert_eq!(trie.depth(), 19998);
    assert_eq!(trie.data, None);
}

#[test]
fn get_sub_trie_finds_what_add_value_stored() {
    let mut trie = Trie::<u32>::new();
    trie.add_value(1, b"1111111111111111");
    trie.add_value(2, b"1111111111111101");
    let found = trie.get_sub_trie(b"1111111111111101");
    assert_eq!(found.map(|t| t.data), Some(Some(2)));
    let found = trie.get_sub_trie(b"1111111111111111");
    assert_eq!(found.map(|t| t.data), Some(Some(1)));
    assert!(trie.get_sub_trie(b"0000").is_none());
    assert_eq!(trie.get_sub_trie(b"1111").map(|t| t.data), Some(None));
    assert_eq!(trie.get_sub_trie(b"11").map(|t| t.depth()), Some(2));
}

#[test]
fn the_first_digit_of_a_group_counts_least() {
    let mut trie = Trie::<u32>::new();
    trie.add_value(5, b"1000");
    assert_eq!(trie.index_base(b"1"), IndexStatus::FullMatch);
    assert_eq!(trie.index_base(b"8"), IndexStatus::NoMatch);
    let mut other = Trie::<u32>::new();
    other.add_value(5, b"0001");
    assert_eq!(other.index_base(b"8"), IndexStatus::FullMatch);
    assert_eq!(other.index_base(b"80"), IndexStatus::NoMatch);
}
