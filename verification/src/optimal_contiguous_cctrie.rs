//! A trie flattened to one array: the key is the index.

use vstd::prelude::*;

verus! {

/// What a value stored in a trie must be.
pub trait TrieData: Clone + Copy + Eq + PartialEq {

}

impl<T> TrieData for T where T: Clone + Copy + Eq + PartialEq {

}

/// The number of bits of a key.
pub const KEY_LEN: u32 = 18;

/// The number of keys: two to the power of `KEY_LEN`.
pub const KEYS: usize = 262144;

/// A map from the keys below `KEYS` to values, one slot for each key.
pub struct ContiguousTrie<T: TrieData> {
    memory: Vec<Option<T>>,
}

impl<T: TrieData> View for ContiguousTrie<T> {
    type V = Map<usize, T>;

    /// The keys that hold a value, each with its value.
    closed spec fn view(&self) -> Map<usize, T> {
        Map::new(
            |k: usize| k < self.memory@.len() && self.memory@[k as int] is Some,
            |k: usize| self.memory@[k as int]->0,
        )
    }
}

impl<T: TrieData> ContiguousTrie<T> {
    /// There is one slot for each key.
    pub closed spec fn wf(&self) -> bool {
        self.memory@.len() == KEYS
    }

    /// A trie that holds no key.
    pub fn new() -> (trie: Self)
        ensures
            trie.wf(),
            trie@ == Map::<usize, T>::empty(),
    {
        let capacity: usize = KEYS;
        let mut memory: Vec<Option<T>> = Vec::with_capacity(capacity);
        let mut i: usize = 0;
        while i < capacity
            invariant
                i <= capacity,
                memory@.len() == i,
                forall|j: int| 0 <= j < i ==> memory@[j] is None,
            decreases capacity - i,
        {
            memory.push(None);
            i += 1;
        }
        let trie = ContiguousTrie { memory };
        proof {
            assert(trie@ =~= Map::<usize, T>::empty());
        }
        trie
    }

    /// Stores `value` for `key`, in place of the value that `key` had if it had one.
    pub fn insert(&mut self, value: T, key: &usize)
        requires
            old(self).wf(),
            *key < KEYS,
        ensures
            final(self).wf(),
            final(self)@ == old(self)@.insert(*key, value),
    {
        self.memory[*key] = Some(value);
        proof {
            assert(self@ =~= old(self)@.insert(*key, value));
        }
    }

    /// Whether `key` has a value.
    pub fn contain(&self, key: &usize) -> (b: bool)
        requires
            self.wf(),
            *key < KEYS,
        ensures
            b == self@.contains_key(*key),
    {
        match self.memory[*key] {
            Some(_) => true,
            None => false,
        }
    }

    /// The value of `key`, if it has one.
    pub fn get(&self, key: &usize) -> (value: Option<T>)
        requires
            self.wf(),
            *key < KEYS,
        ensures
            value == if self@.contains_key(*key) {
                Some(self@[*key])
            } else {
                None
            },
    {
        self.memory[*key]
    }
}

} // verus!
