//! The nodes of the hash trie, and the single steps that read and write them.

use vstd::prelude::*;
use crate::allocator::Allocator;
use crate::shape::slot_of;

verus! {

/// A reference to a node of the arena, or none.
pub type NodeRef = Option<usize>;

/// A node of the trie. Each lives in a slot of its own in the arena.
pub enum Node<K, V> {
    /// One key with its value. `transaction` refers to a `NoTransaction` node
    /// until the leaf is superseded or frozen.
    Leaf { hash: u64, key: K, value: V, transaction: NodeRef },
    /// 4 or 16 slots, each empty or a reference to a child.
    Branch(Vec<NodeRef>),
    /// What a leaf's `transaction` refers to while nothing rewrites the leaf.
    NoTransaction,
    /// What a leaf's `transaction` refers to once the leaf is frozen.
    FrozenLeafMarker,
    /// What an empty slot refers to once it is frozen.
    FrozenEmptyMarker,
    /// Wraps a branch whose subtree is frozen.
    Frozen { inner: NodeRef },
    /// Stands in `parent`'s slot `parent_slot` for the 4-slot branch `narrow`
    /// while the 16-slot branch `wide` is built to replace it.
    ExpansionInProgress {
        parent: NodeRef,
        parent_slot: u8,
        narrow: NodeRef,
        hash: u64,
        level: u8,
        wide: NodeRef,
    },
}

/// The kind of a node: which of the variants of `Node` it is.
pub enum Kind {
    /// A key with its value.
    Leaf,
    /// 4 or 16 slots.
    Branch,
    /// The mark of a leaf that nothing rewrites.
    NoTransaction,
    /// The mark of a frozen leaf.
    FrozenLeafMarker,
    /// The mark of a frozen empty slot.
    FrozenEmptyMarker,
    /// The wrapper of a frozen branch.
    Frozen,
    /// The marker of an expansion.
    ExpansionInProgress,
}

/// The kind of `node`.
pub open spec fn kind_spec<K, V>(node: Node<K, V>) -> Kind {
    match node {
        Node::Leaf { .. } => Kind::Leaf,
        Node::Branch(_) => Kind::Branch,
        Node::NoTransaction => Kind::NoTransaction,
        Node::FrozenLeafMarker => Kind::FrozenLeafMarker,
        Node::FrozenEmptyMarker => Kind::FrozenEmptyMarker,
        Node::Frozen { .. } => Kind::Frozen,
        Node::ExpansionInProgress { .. } => Kind::ExpansionInProgress,
    }
}

/// The kind of the node `i`.
pub fn kind_of<K, V>(mem: &Allocator<Node<K, V>>, i: usize) -> (kind: Kind)
    requires
        i < mem@.len(),
    ensures
        kind == kind_spec(mem@[i as int]),
{
    match mem.get(i) {
        Node::Leaf { .. } => Kind::Leaf,
        Node::Branch(_) => Kind::Branch,
        Node::NoTransaction => Kind::NoTransaction,
        Node::FrozenLeafMarker => Kind::FrozenLeafMarker,
        Node::FrozenEmptyMarker => Kind::FrozenEmptyMarker,
        Node::Frozen { .. } => Kind::Frozen,
        Node::ExpansionInProgress { .. } => Kind::ExpansionInProgress,
    }
}

/// The hash, key and value of the leaf `leaf`.
pub fn read_leaf<K: Copy, V: Copy>(mem: &Allocator<Node<K, V>>, leaf: usize) -> (entry: (u64, K, V))
    requires
        leaf < mem@.len(),
        mem@[leaf as int] is Leaf,
    ensures
        entry.0 == mem@[leaf as int]->Leaf_hash,
        entry.1 == mem@[leaf as int]->key,
        entry.2 == mem@[leaf as int]->value,
{
    match mem.get(leaf) {
        Node::Leaf { hash, key, value, .. } => (*hash, *key, *value),
        _ => vstd::pervasive::unreached(),
    }
}

/// The branch that the wrapper `f` wraps.
pub fn read_frozen<K, V>(mem: &Allocator<Node<K, V>>, f: usize) -> (inner: NodeRef)
    requires
        f < mem@.len(),
        mem@[f as int] is Frozen,
    ensures
        inner == mem@[f as int]->inner,
{
    match mem.get(f) {
        Node::Frozen { inner } => *inner,
        _ => None,
    }
}

/// The parent, the parent's slot, the narrow branch, the level and the wide
/// branch of the expansion marker `en`.
pub fn read_expansion<K, V>(mem: &Allocator<Node<K, V>>, en: usize) -> (e: (
    NodeRef,
    u8,
    NodeRef,
    u8,
    NodeRef,
))
    requires
        en < mem@.len(),
        mem@[en as int] is ExpansionInProgress,
    ensures
        e.0 == mem@[en as int]->parent,
        e.1 == mem@[en as int]->parent_slot,
        e.2 == mem@[en as int]->narrow,
        e.3 == mem@[en as int]->level,
        e.4 == mem@[en as int]->wide,
{
    match mem.get(en) {
        Node::ExpansionInProgress { parent, parent_slot, narrow, level, wide, .. } => (
            *parent,
            *parent_slot,
            *narrow,
            *level,
            *wide,
        ),
        _ => (None, 0, None, 0, None),
    }
}

/// Whether two references are the same reference.
pub fn same_ref(a: NodeRef, b: NodeRef) -> (r: bool)
    ensures
        r == (a == b),
{
    match (a, b) {
        (None, None) => true,
        (Some(x), Some(y)) => x == y,
        _ => false,
    }
}

/// The slot that a branch of `len` slots at level `lev` gives to the hash `h`:
/// the bits of `h` from `lev` on, as many as index `len` slots.
pub fn slot_index(h: u64, lev: u8, len: usize) -> (p: usize)
    requires
        lev <= 60,
        len == 4 || len == 16,
    ensures
        p == slot_of(h, lev as nat, len as nat),
        p < len,
{
    let m: u64 = (len - 1) as u64;
    let x: u64 = (h >> lev) & m;
    assert(x < 16 && (m == 3 ==> x < 4)) by (bit_vector)
        requires
            x == (h >> lev) & m,
            m == 3 || m == 15,
    ;
    assert((h >> lev) == (h >> (lev as u64))) by (bit_vector)
        requires
            lev <= 60,
    ;
    x as usize
}

/// The number of slots of the branch `b`.
pub fn branch_len<K, V>(mem: &Allocator<Node<K, V>>, b: usize) -> (len: usize)
    requires
        b < mem@.len(),
        mem@[b as int] is Branch,
    ensures
        len == mem@[b as int]->Branch_0@.len(),
{
    match mem.get(b) {
        Node::Branch(slots) => slots.len(),
        _ => 0,
    }
}

/// Reads the slot `s` of the branch `b`.
pub fn load_slot<K, V>(mem: &Allocator<Node<K, V>>, b: usize, s: usize) -> (r: NodeRef)
    requires
        b < mem@.len(),
        mem@[b as int] is Branch,
        s < mem@[b as int]->Branch_0@.len(),
    ensures
        r == mem@[b as int]->Branch_0@[s as int],
{
    match mem.get(b) {
        Node::Branch(slots) => slots[s],
        _ => None,
    }
}

/// Writes `new` into the slot `s` of the branch `b` if the slot holds `current`,
/// and leaves it as it is if not. Returns what the slot held.
pub fn compare_and_swap_slot<K, V>(
    mem: &mut Allocator<Node<K, V>>,
    b: usize,
    s: usize,
    current: NodeRef,
    new: NodeRef,
) -> (found: NodeRef)
    requires
        b < old(mem)@.len(),
        old(mem)@[b as int] is Branch,
        s < old(mem)@[b as int]->Branch_0@.len(),
    ensures
        found == old(mem)@[b as int]->Branch_0@[s as int],
        final(mem)@.len() == old(mem)@.len(),
        forall|i: int| 0 <= i < old(mem)@.len() && i != b ==> final(mem)@[i] == old(mem)@[i],
        final(mem)@[b as int] is Branch,
        final(mem)@[b as int]->Branch_0@ == if found == current {
            old(mem)@[b as int]->Branch_0@.update(s as int, new)
        } else {
            old(mem)@[b as int]->Branch_0@
        },
{
    let found = load_slot(mem, b, s);
    if same_ref(found, current) {
        let node = mem.get_mut(b);
        match node {
            Node::Branch(slots) => {
                slots[s] = new;
            },
            _ => {},
        }
    }
    found
}

/// Reads the transaction reference of the leaf `leaf`.
pub fn load_transaction<K, V>(mem: &Allocator<Node<K, V>>, leaf: usize) -> (r: NodeRef)
    requires
        leaf < mem@.len(),
        mem@[leaf as int] is Leaf,
    ensures
        r == mem@[leaf as int]->transaction,
{
    match mem.get(leaf) {
        Node::Leaf { transaction, .. } => *transaction,
        _ => None,
    }
}

/// Writes `new` into the transaction reference of the leaf `leaf` if it holds
/// `current`, and leaves it as it is if not. Returns what it held.
pub fn compare_and_swap_transaction<K, V>(
    mem: &mut Allocator<Node<K, V>>,
    leaf: usize,
    current: NodeRef,
    new: NodeRef,
) -> (found: NodeRef)
    requires
        leaf < old(mem)@.len(),
        old(mem)@[leaf as int] is Leaf,
    ensures
        found == old(mem)@[leaf as int]->transaction,
        final(mem)@.len() == old(mem)@.len(),
        forall|i: int| 0 <= i < old(mem)@.len() && i != leaf ==> final(mem)@[i] == old(mem)@[i],
        final(mem)@[leaf as int] is Leaf,
        final(mem)@[leaf as int]->Leaf_hash == old(mem)@[leaf as int]->Leaf_hash,
        final(mem)@[leaf as int]->key == old(mem)@[leaf as int]->key,
        final(mem)@[leaf as int]->value == old(mem)@[leaf as int]->value,
        final(mem)@[leaf as int]->transaction == if found == current {
            new
        } else {
            found
        },
{
    let found = load_transaction(mem, leaf);
    if same_ref(found, current) {
        let node = mem.get_mut(leaf);
        match node {
            Node::Leaf { transaction, .. } => {
                *transaction = new;
            },
            _ => {},
        }
    }
    found
}

/// Writes `new` into the `wide` reference of the expansion marker `en` if it
/// holds `current`, and leaves it as it is if not. Returns what it held.
pub fn compare_and_swap_wide<K, V>(
    mem: &mut Allocator<Node<K, V>>,
    en: usize,
    current: NodeRef,
    new: NodeRef,
) -> (found: NodeRef)
    requires
        en < old(mem)@.len(),
        old(mem)@[en as int] is ExpansionInProgress,
    ensures
        found == old(mem)@[en as int]->wide,
        final(mem)@.len() == old(mem)@.len(),
        forall|i: int| 0 <= i < old(mem)@.len() && i != en ==> final(mem)@[i] == old(mem)@[i],
        final(mem)@[en as int] is ExpansionInProgress,
        final(mem)@[en as int]->parent == old(mem)@[en as int]->parent,
        final(mem)@[en as int]->parent_slot == old(mem)@[en as int]->parent_slot,
        final(mem)@[en as int]->narrow == old(mem)@[en as int]->narrow,
        final(mem)@[en as int]->level == old(mem)@[en as int]->level,
        final(mem)@[en as int]->wide == if found == current {
            new
        } else {
            found
        },
{
    let found = match mem.get(en) {
        Node::ExpansionInProgress { wide, .. } => *wide,
        _ => None,
    };
    if same_ref(found, current) {
        let node = mem.get_mut(en);
        match node {
            Node::ExpansionInProgress { wide, .. } => {
                *wide = new;
            },
            _ => {},
        }
    }
    found
}

} // verus!
