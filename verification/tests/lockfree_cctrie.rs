use cchamt::lockfree_cctrie::hash;
use cchamt::lockfree_cctrie::makeanode;
use cchamt::node::slot_index;
use cchamt::lockfree_cctrie::TrieKey;
use cchamt::LockfreeTrie;
use std::collections::hash_map::DefaultHasher;
use std::hash::Hash;
use std::hash::Hasher;

#[test]
fn test_lockfree_new_lockfree_trie() {
    let _trie = LockfreeTrie::<u64, usize>::new();
}

#[test]
fn test_lockfree_2_power_16_insert() {
    let mut trie = LockfreeTrie::<u64, u64>::new();

    for i in 0..65536 {
        trie.insert(i, i + 1);
    }

    for i in 0..65536 {
        if let Some(j) = trie.lookup(&i) {
            assert_eq!(*j, (i + 1) as u64);
        } else {
            assert!(false, "not found");
        }
    }
}

#[test]
fn test_lockfree_million_consecutive_insert() {
    let mut trie = LockfreeTrie::<u64, u64>::new();

    for i in 0..1000000 {
        trie.insert(i, i + 1);
    }

    for i in 0..1000000 {
        if let Some(j) = trie.lookup(&i) {
            assert_eq!(*j, (i + 1) as u64);
        } else {
            assert!(false, "not found");
        }
    }
}

#[test]
fn a_new_trie_finds_nothing() {
    let trie = LockfreeTrie::<u64, u64>::new();
    assert_eq!(trie.lookup(&0), None);
    assert_eq!(trie.lookup(&1), None);
    assert_eq!(trie.lookup(&u64::MAX), None);
}

#[test]
fn lookup_finds_what_insert_stored() {
    let mut trie = LockfreeTrie::<u64, &str>::new();
    assert!(trie.insert(17, "seventeen"));
    assert_eq!(trie.lookup(&17), Some(&"seventeen"));
    assert!(trie.insert(u64::MAX, "most"));
    assert_eq!(trie.lookup(&u64::MAX), Some(&"most"));
    assert_eq!(trie.lookup(&17), Some(&"seventeen"));
}

#[test]
fn the_second_insert_of_a_key_replaces_the_first() {
    let mut trie = LockfreeTrie::<u64, u64>::new();
    assert!(trie.insert(5, 50));
    assert!(trie.insert(6, 60));
    assert!(trie.insert(5, 51));
    assert_eq!(trie.lookup(&5), Some(&51));
    assert_eq!(trie.lookup(&6), Some(&60));
    assert!(trie.insert(5, 52));
    assert_eq!(trie.lookup(&5), Some(&52));
}

#[test]
fn lookup_finds_nothing_for_a_key_never_inserted() {
    let mut trie = LockfreeTrie::<u64, u64>::new();
    for i in 0..1000 {
        assert!(trie.insert(2 * i, i));
    }
    for i in 0..1000 {
        assert_eq!(trie.lookup(&(2 * i + 1)), None);
        assert_eq!(trie.lookup(&(2 * i)), Some(&i));
    }
}

fn keys_with_digest_bits(mask: u64, bits: u64, distinct_at: u8, count: usize) -> Vec<u64> {
    let mut keys: Vec<u64> = Vec::new();
    let mut seen: Vec<usize> = Vec::new();
    let mut k: u64 = 0;
    while keys.len() < count {
        let h = hash(k);
        let next = slot_index(h, distinct_at, 16);
        if h & mask == bits && !seen.contains(&next) {
            seen.push(next);
            keys.push(k);
        }
        k += 1;
    }
    keys
}

#[test]
fn keys_that_share_a_root_slot_survive_the_expansion() {
    let keys = keys_with_digest_bits(0xf, 0x3, 4, 5);
    assert_eq!(keys.len(), 5);
    let mut trie = LockfreeTrie::<u64, u64>::new();
    for (n, k) in keys.iter().enumerate() {
        assert_eq!(slot_index(hash(*k), 0, 16), 3);
        assert!(trie.insert(*k, *k + 1));
        for earlier in keys.iter().take(n + 1) {
            assert_eq!(trie.lookup(earlier), Some(&(*earlier + 1)));
        }
    }
}

#[test]
fn keys_that_share_two_levels_survive_two_expansions() {
    let keys = keys_with_digest_bits(0xff, 0x5a, 8, 9);
    let mut trie = LockfreeTrie::<u64, u64>::new();
    for k in keys.iter() {
        assert!(trie.insert(*k, !*k));
    }
    for k in keys.iter() {
        assert_eq!(trie.lookup(k), Some(&!*k));
    }
    assert_eq!(trie.lookup(&u64::MAX), None);
}

#[test]
fn the_digest_is_what_the_default_hasher_makes_of_the_bytes() {
    for k in [0u64, 1, 2, 0xdead_beef, u64::MAX] {
        let mut hasher = DefaultHasher::new();
        hasher.write(&k.to_le_bytes());
        assert_eq!(hash(k), hasher.finish());
        assert_eq!(k.digest(), hash(k));
    }
    let mut hasher = DefaultHasher::new();
    7u64.to_le().hash(&mut hasher);
    assert_eq!(hash(7u64), hasher.finish());
    assert_ne!(hash(1u64), 1);
    assert_ne!(hash(1u64), hash(2u64));
}

#[test]
fn a_slot_is_named_by_the_bits_from_the_level_on() {
    assert_eq!(slot_index(0xabcd, 0, 16), 0xd);
    assert_eq!(slot_index(0xabcd, 4, 16), 0xc);
    assert_eq!(slot_index(0xabcd, 0, 4), 1);
    assert_eq!(slot_index(0xabcd, 4, 4), 0);
    assert_eq!(slot_index(0xf000_0000_0000_0000, 60, 16), 15);
    assert_eq!(slot_index(0xf000_0000_0000_0000, 60, 4), 3);
}

#[test]
fn a_new_branch_has_empty_slots() {
    assert_eq!(makeanode(4), vec![None, None, None, None]);
    assert_eq!(makeanode(16).len(), 16);
    assert!(makeanode(16).iter().all(|slot| slot.is_none()));
    assert_eq!(makeanode(0).len(), 0);
}

#[test]
fn same_tells_keys_apart() {
    assert!(3u64.same(&3));
    assert!(!3u64.same(&4));
}

#[derive(Clone, Copy, PartialEq, Eq, Hash, Debug)]
struct Plain(u64);

impl TrieKey for Plain {
    fn digest_spec(&self) -> u64 {
        self.0 >> 4
    }

    fn digest(&self) -> u64 {
        self.0 >> 4
    }

    fn same(&self, other: &Self) -> bool {
        self.0 == other.0
    }
}

#[test]
fn a_key_with_the_digest_of_another_is_not_stored() {
    let mut trie = LockfreeTrie::<Plain, u32>::new();
    assert!(trie.insert(Plain(0x70), 1));
    assert!(!trie.try_insert(Plain(0x71), 2));
    assert_eq!(trie.lookup(&Plain(0x70)), Some(&1));
    assert_eq!(trie.lookup(&Plain(0x71)), None);
    assert!(trie.try_insert(Plain(0x70), 3));
    assert_eq!(trie.lookup(&Plain(0x70)), Some(&3));
    assert!(trie.insert(Plain(0x80), 4));
    assert!(!trie.try_insert(Plain(0x8f), 5));
    assert_eq!(trie.lookup(&Plain(0x80)), Some(&4));
    assert_eq!(trie.lookup(&Plain(0x8f)), None);
}

#[test]
fn digests_that_differ_in_the_last_bits_only_are_told_apart() {
    let mut trie = LockfreeTrie::<Plain, u64>::new();
    let low = Plain(0x0123_4567_89ab_cde0);
    let keys = [
        low,
        Plain(low.0 ^ (1 << 63)),
        Plain(low.0 ^ (1 << 62)),
        Plain(low.0 ^ (3 << 62)),
        Plain(low.0 ^ (1 << 61)),
        Plain(low.0 ^ (1 << 60)),
        Plain(low.0 ^ (1 << 59)),
        Plain(low.0 ^ (1 << 33)),
        Plain(low.0 ^ (1 << 6)),
        Plain(low.0 ^ (1 << 4)),
    ];
    for (n, k) in keys.iter().enumerate() {
        assert!(trie.insert(*k, k.0));
        for earlier in keys.iter().take(n + 1) {
            assert_eq!(trie.lookup(earlier), Some(&earlier.0));
        }
    }
    assert_eq!(trie.lookup(&Plain(low.0 ^ (1 << 58))), None);
    assert!(!trie.try_insert(Plain(low.0 ^ 1), 0));
}

#[test]
fn keys_that_fill_the_slots_of_one_branch_after_another_stay() {
    let mut trie = LockfreeTrie::<Plain, u64>::new();
    let mut keys: Vec<Plain> = Vec::new();
    for a in 0..16u64 {
        for b in 0..16u64 {
            for c in 0..4u64 {
                keys.push(Plain((a << 4) | (b << 8) | (c << 62)));
            }
        }
    }
    for k in keys.iter() {
        assert!(trie.insert(*k, !k.0));
    }
    for k in keys.iter() {
        assert_eq!(trie.lookup(k), Some(&!k.0));
    }
    assert_eq!(trie.lookup(&Plain(1 << 12)), None);
}

#[test]
fn keys_of_other_widths_are_digested_by_their_bytes() {
    let mut hasher = DefaultHasher::new();
    hasher.write(&9u32.to_le_bytes());
    assert_eq!(hash(9u32), hasher.finish());
    assert_eq!(hash(9usize), hash(9u64));
    assert_ne!(hash(9u32), hash(9u64));
    let mut trie = LockfreeTrie::<u32, char>::new();
    assert!(trie.insert(1, 'a'));
    assert!(trie.insert(2, 'b'));
    assert_eq!(trie.lookup(&1), Some(&'a'));
    assert_eq!(trie.lookup(&3), None);
    let mut wide = LockfreeTrie::<usize, usize>::new();
    for i in 0..100 {
        assert!(wide.insert(i, i * i));
    }
    assert_eq!(wide.lookup(&7), Some(&49));
}

#[test]
fn writers_that_take_turns_leave_every_entry() {
    let mut trie = LockfreeTrie::<u64, u64>::new();
    for i in 0..10000u64 {
        for writer in 0..8u64 {
            let key = writer * 10000 + i;
            assert!(trie.insert(key, key + 1));
        }
    }
    for key in 0..80000u64 {
        assert_eq!(trie.lookup(&key), Some(&(key + 1)));
    }
    assert_eq!(trie.lookup(&80000), None);
}
