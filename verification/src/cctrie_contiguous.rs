//! The contiguous trie for keys of 20 binary digits, read in groups of 4.

use vstd::prelude::*;
use crate::contiguous_cctrie::binary;
use crate::contiguous_cctrie::group_of;
use crate::contiguous_cctrie::two_to;
use crate::contiguous_cctrie::group_value;
use crate::contiguous_cctrie::level_end;
use crate::contiguous_cctrie::readable;

verus! {

/// What a value stored in a trie must be.
pub trait TrieData: Clone + Copy + Eq + PartialEq {

}

impl<T> TrieData for T where T: Clone + Copy + Eq + PartialEq {

}

/// The number of digits of a key, which is also the number of children of a node.
pub const KEY_LEN: usize = 20;

/// The number of digits that lead from a node to its child.
pub const KEY_GROUP: usize = 4;

/// A node of the trie.
pub type SubTrie<T> = crate::contiguous_cctrie::SubTrie<T>;

/// The depth of the node at `index`: the level whose block of the array holds
/// `index`.
pub fn get_depth(index: usize) -> (depth: usize)
    ensures
        level_end(KEY_LEN as nat, depth - 1) <= index < level_end(KEY_LEN as nat, depth as int),
{
    crate::contiguous_cctrie::get_depth(KEY_LEN, index)
}

/// The index that the first group of `key` writes: the number that its first
/// four digits write, or all its digits where it has fewer.
pub fn compute_index(key: &[u8]) -> (id: usize)
    requires
        readable(key@, KEY_GROUP as nat),
    ensures
        id == group_value(group_of(key@, KEY_GROUP as nat)),
{
    crate::contiguous_cctrie::read_group(key, KEY_GROUP)
}

/// A map from keys of binary digits to values.
pub struct ContiguousTrie<T: TrieData> {
    trie: crate::contiguous_cctrie::ContiguousTrie<T>,
}

impl<T: TrieData> View for ContiguousTrie<T> {
    type V = Map<int, T>;

    /// The places of the array that keep a value, each with its value.
    closed spec fn view(&self) -> Map<int, T> {
        self.trie@
    }
}

impl<T: TrieData> ContiguousTrie<T> {
    /// The array is well formed, and keys are read as `KEY_LEN` digits in
    /// groups of `KEY_GROUP`.
    pub closed spec fn wf(&self) -> bool {
        &&& self.trie.wf()
        &&& self.trie.spec_key_length() == KEY_LEN
        &&& self.trie.spec_key_group() == KEY_GROUP
    }

    /// Whether `key` can be looked up: its walk through the array can be made.
    pub closed spec fn accepts(&self, key: Seq<u8>) -> bool {
        self.trie.accepts(key)
    }

    /// The place of the array where the walk of `key` ends.
    pub closed spec fn index_of(&self, key: Seq<u8>) -> int {
        self.trie.index_of(key)
    }

    /// Whether `key` is a key that the trie files: 16 to 20 of the digits
    /// `b'0'` and `b'1'`.
    pub open spec fn files(&self, key: Seq<u8>) -> bool {
        binary(key) && 16 <= key.len() <= 20
    }

    /// Whether the trie files its keys in order: every key that it files can
    /// be looked up and has a place within the reach of the machine, and two
    /// such keys of one length have two places.
    pub open spec fn orderly(&self) -> bool {
        &&& forall|key: Seq<u8>| self.files(key) ==> #[trigger] self.accepts(key)
        &&& forall|key: Seq<u8>| self.files(key) ==> 0 <= #[trigger] self.index_of(key) < usize::MAX
        &&& forall|k1: Seq<u8>, k2: Seq<u8>|
            self.files(k1) && self.files(k2) && k1.len() == k2.len() && #[trigger] self.index_of(k1)
                == #[trigger] self.index_of(k2) ==> k1 == k2
    }

    /// A trie with every node that has children, and no value. It files its
    /// keys in order.
    pub fn new() -> (trie: Self)
        ensures
            trie.wf(),
            trie@ == Map::<int, T>::empty(),
            trie.orderly(),
    {
        proof {
            reveal_with_fuel(level_end, 6);
            assert(level_end(20, 4) == 3368420);
            reveal_with_fuel(two_to, 5);
            assert(two_to(4) == 16);
        }
        let trie = ContiguousTrie {
            trie: crate::contiguous_cctrie::ContiguousTrie::new(KEY_LEN, KEY_GROUP),
        };
        proof {
            assert(trie.trie.levels() == 4);
            assert(trie.trie.orderly());
            assert forall|key: Seq<u8>| trie.files(key) implies #[trigger] trie.accepts(key) by {
                assert(trie.trie.files(key));
            }
            assert forall|key: Seq<u8>| trie.files(key) implies 0 <= #[trigger] trie.index_of(key)
                < usize::MAX by {
                assert(trie.trie.files(key));
            }
            assert forall|k1: Seq<u8>, k2: Seq<u8>|
                trie.files(k1) && trie.files(k2) && k1.len() == k2.len() && #[trigger] trie.index_of(k1)
                    == #[trigger] trie.index_of(k2) implies k1 == k2 by {
                assert(trie.trie.files(k1) && trie.trie.files(k2));
                assert(trie.trie.index_of(k1) == trie.trie.index_of(k2));
            }
        }
        trie
    }

    /// Whether `key` can be looked up: its walk through the array can be made.
    pub fn admits(&self, key: &[u8]) -> (b: bool)
        requires
            self.wf(),
        ensures
            b == self.accepts(key@),
    {
        self.trie.admits(key)
    }

    /// The place of the array where the walk of `key` ends.
    pub fn key2index(&self, key: &[u8]) -> (index: usize)
        requires
            self.wf(),
            self.accepts(key@),
        ensures
            index == self.index_of(key@),
    {
        self.trie.key2index(key)
    }

    /// Stores `value` for `key`. The place where the walk of `key` ends must
    /// be free.
    pub fn insert(&mut self, value: T, key: &[u8])
        requires
            old(self).wf(),
            old(self).accepts(key@),
            old(self).index_of(key@) < usize::MAX,
            !old(self)@.contains_key(old(self).index_of(key@)),
        ensures
            final(self).wf(),
            final(self)@ == old(self)@.insert(old(self).index_of(key@), value),
            forall|k: Seq<u8>| #[trigger] final(self).index_of(k) == old(self).index_of(k),
            forall|k: Seq<u8>| #[trigger] final(self).accepts(k) == old(self).accepts(k),
            old(self).orderly() ==> final(self).orderly(),
    {
        self.trie.insert(value, key);
        proof {
            if old(self).orderly() {
                assert forall|k: Seq<u8>| final(self).files(k) implies #[trigger] final(self).accepts(
                    k,
                ) by {
                    assert(old(self).files(k));
                    assert(final(self).accepts(k) == old(self).accepts(k));
                }
                assert forall|k: Seq<u8>|
                    final(self).files(k) implies 0 <= #[trigger] final(self).index_of(k)
                    < usize::MAX by {
                    assert(old(self).files(k));
                    assert(final(self).index_of(k) == old(self).index_of(k));
                }
                assert forall|k1: Seq<u8>, k2: Seq<u8>|
                    final(self).files(k1) && final(self).files(k2) && k1.len() == k2.len()
                        && #[trigger] final(self).index_of(k1) == #[trigger] final(self).index_of(
                        k2,
                    ) implies k1 == k2 by {
                    assert(old(self).files(k1) && old(self).files(k2));
                    assert(final(self).index_of(k1) == old(self).index_of(k1));
                    assert(final(self).index_of(k2) == old(self).index_of(k2));
                }
            }
        }
    }

    /// The value of `key`, if it has one.
    pub fn get(&self, key: &[u8]) -> (value: Option<T>)
        requires
            self.wf(),
            self.accepts(key@),
        ensures
            value == if self@.contains_key(self.index_of(key@)) {
                Some(self@[self.index_of(key@)])
            } else {
                None
            },
    {
        self.trie.get(key)
    }
}

} // verus!
