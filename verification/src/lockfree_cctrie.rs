//! A hash trie whose slots change only by compare-and-swap.

use vstd::prelude::*;
use std::collections::hash_map::DefaultHasher;
use std::hash::Hash;
use std::hash::Hasher;
use vstd::bytes::spec_u32_to_le_bytes;
use vstd::bytes::spec_u64_to_le_bytes;
use vstd::bytes::u32_to_le_bytes;
use vstd::bytes::u64_to_le_bytes;
use vstd::std_specs::hash::DefaultHasherAdditionalSpecFns;
use crate::allocator::Allocator;
use crate::frame::lemma_clean_is_free;
use crate::frame::lemma_weaken_tree;
use crate::node::Node;
use crate::node::NodeRef;
use crate::node::branch_len;
use crate::node::load_slot;
use crate::node::slot_index;
use crate::protocol::Outcome;
use crate::shape::Mode;
use crate::shape::clash;
use crate::shape::clash_with;
use crate::shape::extend;
use crate::shape::lookup;
use crate::shape::low_bits;
use crate::shape::slot_ok;
use crate::shape::tree;

verus! {

/// What a value stored in a trie must be.
pub trait TrieData: Clone + Copy + Eq + PartialEq {

}

impl<T> TrieData for T where T: Clone + Copy + Eq + PartialEq {

}

/// What a key of the trie must be: a value that can be copied, compared and
/// digested to 64 bits, the same digest for the same key every time.
pub trait TrieKey: Clone + Copy + Eq + PartialEq + Hash {
    /// The 64-bit digest that places the key in the trie.
    spec fn digest_spec(&self) -> u64;

    /// Computes the digest.
    fn digest(&self) -> (h: u64)
        ensures
            h == self.digest_spec(),
    ;

    /// Whether two keys are the same key.
    fn same(&self, other: &Self) -> (b: bool)
        ensures
            b == (*self == *other),
    ;
}

impl TrieKey for u64 {
    /// What the default hasher makes of the eight bytes of the key, the lowest
    /// byte first.
    open spec fn digest_spec(&self) -> u64 {
        DefaultHasher::spec_finish(seq![spec_u64_to_le_bytes(*self)])
    }

    fn digest(&self) -> (h: u64) {
        let mut hasher = DefaultHasher::new();
        let bytes = u64_to_le_bytes(*self);
        Hasher::write(&mut hasher, bytes.as_slice());
        assert(hasher@ =~= seq![spec_u64_to_le_bytes(*self)]);
        Hasher::finish(&hasher)
    }

    fn same(&self, other: &Self) -> (b: bool) {
        *self == *other
    }
}

impl TrieKey for u32 {
    /// What the default hasher makes of the four bytes of the key, the lowest
    /// byte first.
    open spec fn digest_spec(&self) -> u64 {
        DefaultHasher::spec_finish(seq![spec_u32_to_le_bytes(*self)])
    }

    fn digest(&self) -> (h: u64) {
        let mut hasher = DefaultHasher::new();
        let bytes = u32_to_le_bytes(*self);
        Hasher::write(&mut hasher, bytes.as_slice());
        assert(hasher@ =~= seq![spec_u32_to_le_bytes(*self)]);
        Hasher::finish(&hasher)
    }

    fn same(&self, other: &Self) -> (b: bool) {
        *self == *other
    }
}

impl TrieKey for usize {
    /// The digest of the key as a number of 64 bits.
    open spec fn digest_spec(&self) -> u64 {
        (*self as u64).digest_spec()
    }

    fn digest(&self) -> (h: u64) {
        (*self as u64).digest()
    }

    fn same(&self, other: &Self) -> (b: bool) {
        *self == *other
    }
}

/// The digest of a key: the 64 bits that place it in the trie.
pub fn hash<K: TrieKey>(obj: K) -> (h: u64)
    ensures
        h == obj.digest_spec(),
{
    obj.digest()
}

/// A branch's slots, all empty. A branch has 4 or 16 slots.
pub fn makeanode(len: usize) -> (a: Vec<NodeRef>)
    ensures
        a@.len() == len,
        forall|i: int| 0 <= i < len ==> a@[i] is None,
{
    let mut a: Vec<NodeRef> = Vec::with_capacity(len);
    let mut i: usize = 0;
    while i < len
        invariant
            i <= len,
            a@.len() == i,
            forall|j: int| 0 <= j < i ==> a@[j] is None,
        decreases len - i,
    {
        a.push(None);
        i += 1;
    }
    a
}

/// A map from keys to values, kept as a trie over the digests of the keys.
///
/// The root is a branch of 16 slots that is never replaced. A branch at level
/// `lev` files a key under the bits of its digest from `lev` on; a child of a
/// branch stands four levels further on.
pub struct LockfreeTrie<K: TrieKey, V: TrieData> {
    root: usize,
    mem: Allocator<Node<K, V>>,
}

/// The number of slots reserved for the nodes of a new trie.
pub const INITIAL_NODES: usize = 65536;

impl<K: TrieKey, V: TrieData> View for LockfreeTrie<K, V> {
    type V = Map<K, V>;

    /// The keys that a lookup finds, each with the value it finds.
    closed spec fn view(&self) -> Map<K, V> {
        Map::new(
            |k: K| lookup(self.mem@, self.root as int, 0, k) is Some,
            |k: K| lookup(self.mem@, self.root as int, 0, k)->0,
        )
    }
}

impl<K: TrieKey, V: TrieData> LockfreeTrie<K, V> {
    /// The root is a branch of 16 slots, and what hangs from it is a trie in
    /// which nothing is frozen.
    pub closed spec fn wf(&self) -> bool {
        &&& tree(self.mem@, self.root as int, 0, 0, Mode::Clean)
        &&& self.mem@[self.root as int]->Branch_0@.len() == 16
    }

    /// An empty trie.
    pub fn new() -> (trie: Self)
        ensures
            trie.wf(),
            trie@ == Map::<K, V>::empty(),
    {
        let mut mem = Allocator::new(INITIAL_NODES);
        let root = mem.allocate(Node::Branch(makeanode(16)));
        let trie = LockfreeTrie { root, mem };
        proof {
            assert(low_bits(0, 0) == 0) by (bit_vector);
            assert(tree(trie.mem@, trie.root as int, 0, 0, Mode::Clean));
            assert(trie@ =~= Map::<K, V>::empty());
        }
        trie
    }

    /// Follows the digest `h` of `key` down from the branch `cur` at level `lev`:
    /// through a branch, through the wrapper of a frozen branch and through the
    /// narrow branch of an expansion marker, to a leaf or to nothing.
    pub(crate) fn _lookup<'a>(
        mem: &'a Allocator<Node<K, V>>,
        key: &K,
        h: u64,
        lev: u8,
        cur: usize,
        Ghost(pfx): Ghost<u64>,
    ) -> (r: Option<&'a V>)
        requires
            tree(mem@, cur as int, lev as nat, pfx, Mode::Mixed),
            h == key.digest_spec(),
        ensures
            match r {
                Some(v) => lookup(mem@, cur as int, lev as nat, *key) == Some(*v),
                None => lookup(mem@, cur as int, lev as nat, *key) is None,
            },
        decreases 64 - lev,
    {
        let len = branch_len(mem, cur);
        let pos = slot_index(h, lev, len);
        let old = load_slot(mem, cur, pos);
        proof {
            assert(slot_ok(mem@, mem@[cur as int]->Branch_0@[pos as int], lev as nat, pfx, len as nat, pos as int, Mode::Mixed));
        }
        match old {
            None => None,
            Some(i) => match mem.get(i) {
                Node::FrozenEmptyMarker => None,
                Node::Branch(_) => Self::_lookup(
                    mem,
                    key,
                    h,
                    lev + 4,
                    i,
                    Ghost(extend(pfx, lev as nat, pos as int)),
                ),
                Node::Leaf { key: k, value, .. } => {
                    if k.same(key) {
                        Some(value)
                    } else {
                        None
                    }
                },
                Node::Frozen { inner } => match inner {
                    Some(j) => Self::_lookup(
                        mem,
                        key,
                        h,
                        lev + 4,
                        *j,
                        Ghost(extend(pfx, lev as nat, pos as int)),
                    ),
                    None => None,
                },
                Node::ExpansionInProgress { narrow, .. } => match narrow {
                    Some(j) => Self::_lookup(
                        mem,
                        key,
                        h,
                        lev + 4,
                        *j,
                        Ghost(extend(pfx, lev as nat, pos as int)),
                    ),
                    None => None,
                },
                _ => None,
            },
        }
    }

    /// The value stored for `key`, if there is one.
    pub fn lookup(&self, key: &K) -> (r: Option<&V>)
        requires
            self.wf(),
        ensures
            match r {
                Some(v) => found(self@, *key) == Some(*v),
                None => found(self@, *key) is None,
            },
    {
        proof {
            lemma_weaken_tree(self.mem@, self.root as int, 0, 0, Mode::Clean);
        }
        Self::_lookup(&self.mem, key, hash(*key), 0, self.root, Ghost(0))
    }
}

/// Whether the map `m` holds a key other than `key` with the digest of `key`.
/// Such a key blocks the insertion of `key`: the trie tells keys apart by
/// their digests.
pub open spec fn clashes<K: TrieKey, V>(m: Map<K, V>, key: K) -> bool {
    exists|other: K| #[trigger]
        m.contains_key(other) && other != key && other.digest_spec() == key.digest_spec()
}

/// What a trie that holds `m` holds after the insertion of `key` with `val`.
pub open spec fn after_insert<K, V>(m: Map<K, V>, key: K, val: V) -> Map<K, V> {
    m.insert(key, val)
}

/// What a lookup of `key` finds in a trie that holds `m`.
pub open spec fn found<K, V>(m: Map<K, V>, key: K) -> Option<V> {
    if m.contains_key(key) {
        Some(m[key])
    } else {
        None
    }
}

impl<K: TrieKey, V: TrieData> LockfreeTrie<K, V> {
    /// One attempt to put `val` for `key` into the trie, from the root.
    fn attempt(&mut self, key: K, val: V) -> (out: Outcome)
        requires
            old(self).wf(),
        ensures
            final(self).wf(),
            !(out is Retry),
            out is Done <==> !clashes(old(self)@, key),
            out is Done ==> final(self)@ == after_insert(old(self)@, key, val),
            out is Blocked ==> final(self)@ == old(self)@,
    {
        let h = hash(key);
        proof {
            assert(low_bits(h, 0) == 0) by (bit_vector);
        }
        let ghost n0 = self.mem@;
        let ghost before = self@;
        let out = Self::_insert(
            &mut self.mem,
            key,
            val,
            h,
            0,
            self.root,
            None,
            Ghost(0),
            Ghost(Mode::Clean),
        );
        proof {
            let r = self.root as int;
            lemma_clean_is_free(n0, r, 0, 0, h);
            assert(clashes(before, key) == clash(n0, r, 0, key)) by {
                if clashes(before, key) {
                    let other = choose|other: K| #[trigger]
                        before.contains_key(other) && other != key && other.digest_spec()
                            == key.digest_spec();
                    assert(clash_with(n0, r, 0, key, other));
                }
                if clash(n0, r, 0, key) {
                    let other = choose|other: K| #[trigger] clash_with(n0, r, 0, key, other);
                    assert(before.contains_key(other));
                }
            }
            if out is Done {
                assert(self@ =~= before.insert(key, val));
            } else {
                assert(self@ =~= before);
            }
        }
        out
    }

    /// Stores `val` for `key`, in place of the value that `key` had if it had
    /// one, and returns `true`.
    ///
    /// No other key with the 64-bit digest of `key` may be in the trie: the
    /// trie tells keys apart by their digests. A key that is in the trie can
    /// always be inserted again.
    pub fn insert(&mut self, key: K, val: V) -> (ok: bool)
        requires
            old(self).wf(),
            !clashes(old(self)@, key),
        ensures
            final(self).wf(),
            ok,
            final(self)@ == after_insert(old(self)@, key, val),
        decreases 0nat,
    {
        match self.attempt(key, val) {
            Outcome::Done => true,
            _ => self.insert(key, val),
        }
    }

    /// Stores `val` for `key` as `insert` does where no other key with the
    /// digest of `key` is in the trie, and returns `true`. Where there is such
    /// a key, returns `false` and changes nothing that a lookup finds.
    pub fn try_insert(&mut self, key: K, val: V) -> (ok: bool)
        requires
            old(self).wf(),
        ensures
            final(self).wf(),
            ok == !clashes(old(self)@, key),
            final(self)@ == if ok {
                after_insert(old(self)@, key, val)
            } else {
                old(self)@
            },
    {
        match self.attempt(key, val) {
            Outcome::Done => true,
            _ => false,
        }
    }
}

/// Round trip: a lookup of a key finds the value that the last insertion of
/// the key stored.
pub proof fn law_round_trip<K, V>(m: Map<K, V>, key: K, val: V)
    ensures
        found(after_insert(m, key, val), key) == Some(val),
{
}

/// Overwrite: after two insertions of a key, a lookup finds the second value,
/// and the trie holds what it would hold after the second insertion alone. A
/// key that could be inserted once can be inserted again.
pub proof fn law_overwrite<K: TrieKey, V>(m: Map<K, V>, key: K, first: V, second: V)
    ensures
        found(after_insert(after_insert(m, key, first), key, second), key) == Some(second),
        after_insert(after_insert(m, key, first), key, second) == after_insert(m, key, second),
        !clashes(m, key) ==> !clashes(after_insert(m, key, first), key),
{
    let m1 = m.insert(key, first);
    if clashes(m1, key) {
        let other = choose|other: K| #[trigger]
            m1.contains_key(other) && other != key && other.digest_spec() == key.digest_spec();
        assert(m.contains_key(other));
    }
    assert(m1.insert(key, second) =~= m.insert(key, second));
}

/// A key that is in the trie can be inserted again: no other key of the trie
/// has its digest.
pub proof fn law_present_is_admitted<K: TrieKey, V: TrieData>(trie: LockfreeTrie<K, V>, key: K)
    requires
        trie.wf(),
        trie@.contains_key(key),
    ensures
        !clashes(trie@, key),
{
    if clashes(trie@, key) {
        let other = choose|other: K| #[trigger]
            trie@.contains_key(other) && other != key && other.digest_spec() == key.digest_spec();
        assert(lookup(trie.mem@, trie.root as int, 0, other) is Some);
        assert(lookup(trie.mem@, trie.root as int, 0, key) is Some);
    }
}

/// What a trie that holds `m` holds after the insertions of `entries`, from
/// the first to the last.
pub open spec fn after_all<K, V>(m: Map<K, V>, entries: Seq<(K, V)>) -> Map<K, V>
    decreases entries.len(),
{
    if entries.len() == 0 {
        m
    } else {
        after_insert(after_all(m, entries.drop_last()), entries.last().0, entries.last().1)
    }
}

/// Whether no two different keys among those of `m` and those of `entries`
/// have one digest.
pub open spec fn digests_apart<K: TrieKey, V>(m: Map<K, V>, entries: Seq<(K, V)>) -> bool {
    &&& forall|a: K, b: K|
        #![trigger m.contains_key(a), m.contains_key(b)]
        m.contains_key(a) && m.contains_key(b) && a != b ==> a.digest_spec() != b.digest_spec()
    &&& forall|a: K, j: int|
        #![trigger m.contains_key(a), entries[j]]
        m.contains_key(a) && 0 <= j < entries.len() && a != entries[j].0 ==> a.digest_spec()
            != entries[j].0.digest_spec()
    &&& forall|i: int, j: int|
        #![trigger entries[i], entries[j]]
        0 <= i < entries.len() && 0 <= j < entries.len() && entries[i].0 != entries[j].0
            ==> entries[i].0.digest_spec() != entries[j].0.digest_spec()
}

/// The keys of a trie after many insertions are the keys that it had and the
/// keys that were inserted.
pub proof fn law_keys_after_all<K, V>(m: Map<K, V>, entries: Seq<(K, V)>, key: K)
    ensures
        after_all(m, entries).contains_key(key) <==> m.contains_key(key) || exists|j: int|
            0 <= j < entries.len() && (#[trigger] entries[j]).0 == key,
    decreases entries.len(),
{
    if entries.len() > 0 {
        let front = entries.drop_last();
        law_keys_after_all(m, front, key);
        if exists|j: int| 0 <= j < front.len() && (#[trigger] front[j]).0 == key {
            let j = choose|j: int| 0 <= j < front.len() && (#[trigger] front[j]).0 == key;
            assert(entries[j].0 == key);
        }
        if exists|j: int| 0 <= j < entries.len() && (#[trigger] entries[j]).0 == key {
            let j = choose|j: int| 0 <= j < entries.len() && (#[trigger] entries[j]).0 == key;
            if j < front.len() {
                assert(front[j].0 == key);
            } else {
                assert(entries.last().0 == key);
            }
        }
    }
}

/// Many insertions: where no two different keys have one digest, each of the
/// insertions of `entries` is admitted; afterwards a lookup of the key of the
/// entry `i` finds the value of that entry, unless a later entry has the same
/// key.
pub proof fn law_many_inserts<K: TrieKey, V>(m: Map<K, V>, entries: Seq<(K, V)>, i: int)
    requires
        digests_apart(m, entries),
        0 <= i < entries.len(),
    ensures
        !clashes(after_all(m, entries.take(i)), entries[i].0),
        (forall|l: int| i < l < entries.len() ==> (#[trigger] entries[l]).0 != entries[i].0) ==> found(
            after_all(m, entries),
            entries[i].0,
        ) == Some(entries[i].1),
    decreases entries.len(),
{
    let key = entries[i].0;
    let before = after_all(m, entries.take(i));
    if clashes(before, key) {
        let other = choose|other: K| #[trigger]
            before.contains_key(other) && other != key && other.digest_spec() == key.digest_spec();
        law_keys_after_all(m, entries.take(i), other);
        if m.contains_key(other) {
            assert(other != entries[i].0);
        } else {
            let j = choose|j: int| 0 <= j < entries.take(i).len() && (#[trigger] entries.take(i)[j]).0 == other;
            assert(entries[j].0 == other);
            assert(entries[j].0 != entries[i].0);
        }
    }
    let front = entries.drop_last();
    if i < entries.len() - 1 {
        assert(front[i] == entries[i]);
        assert(front.take(i) =~= entries.take(i));
        assert forall|a: K, j: int|
            #![trigger m.contains_key(a), front[j]]
            m.contains_key(a) && 0 <= j < front.len() && a != front[j].0 implies a.digest_spec()
            != front[j].0.digest_spec() by {
            assert(front[j] == entries[j]);
        }
        assert forall|a: int, b: int|
            #![trigger front[a], front[b]]
            0 <= a < front.len() && 0 <= b < front.len() && front[a].0 != front[b].0
            implies front[a].0.digest_spec() != front[b].0.digest_spec() by {
            assert(front[a] == entries[a]);
            assert(front[b] == entries[b]);
        }
        law_many_inserts(m, front, i);
        if forall|l: int| i < l < entries.len() ==> (#[trigger] entries[l]).0 != entries[i].0 {
            assert forall|l: int| i < l < front.len() implies (#[trigger] front[l]).0 != front[i].0 by {
                assert(front[l] == entries[l]);
            }
            assert(entries.last() == entries[entries.len() - 1]);
        }
    }
}

/// No false positives: a lookup finds nothing for a key that was never
/// inserted. A new trie holds no key, and the insertion of one key adds no
/// other.
pub proof fn law_no_false_positives<K: TrieKey, V>(m: Map<K, V>, key: K, other: K, val: V)
    requires
        found(m, key) is None,
        other != key,
    ensures
        found(Map::<K, V>::empty(), key) is None,
        found(after_insert(m, other, val), key) is None,
{
}

/// A new trie is empty: a lookup of any key finds nothing.
pub proof fn law_new_is_empty<K: TrieKey, V>(key: K)
    ensures
        found(Map::<K, V>::empty(), key) is None,
{
}

} // verus!
