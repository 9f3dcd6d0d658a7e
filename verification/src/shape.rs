//! What it means for the nodes of an arena to form a trie, and what a trie holds.

use vstd::prelude::*;
use crate::lockfree_cctrie::TrieKey;
use crate::node::Node;
use crate::node::NodeRef;

verus! {

/// How far the slots of a subtree may have been frozen.
pub enum Mode {
    /// Nothing is frozen: slots are empty or hold live leaves and branches.
    Clean,
    /// Any slot may be frozen or not, and may hold the marker of an expansion
    /// that is not complete.
    Mixed,
    /// Every slot is frozen.
    Frozen,
}

/// The slot that a branch of `w` slots at level `lev` gives to the hash `h`.
pub open spec fn slot_of(h: u64, lev: nat, w: nat) -> int {
    ((h >> (lev as u64)) & ((w - 1) as u64)) as int
}

/// The `lev` lowest bits of `h`: they decide the path from the root to level `lev`.
pub open spec fn low_bits(h: u64, lev: nat) -> u64 {
    if lev >= 64 {
        h
    } else {
        h & (((1u64 << (lev as u64)) - 1) as u64)
    }
}

/// The path `pfx` to a 16-slot branch at level `lev`, extended by its slot `s`.
pub open spec fn extend(pfx: u64, lev: nat, s: int) -> u64 {
    pfx | ((s as u64) << (lev as u64))
}

/// Whether `x` is a node of the subtree that the slot content `r` refers to.
pub open spec fn slot_reach<K, V>(nodes: Seq<Node<K, V>>, r: NodeRef, lev: nat, x: int) -> bool
    decreases 64 - lev, 0nat,
{
    match r {
        None => false,
        Some(i) => x == i || (0 <= i < nodes.len() && match nodes[i as int] {
            Node::Leaf { transaction, .. } => transaction == Some(x as usize) && 0 <= x <= usize::MAX,
            Node::Branch(_) => lev + 4 <= 60 && reach(nodes, i as int, lev + 4, x),
            Node::Frozen { inner } => lev + 4 <= 60 && inner is Some && reach(
                nodes,
                inner->0 as int,
                lev + 4,
                x,
            ),
            Node::ExpansionInProgress { narrow, .. } => lev + 4 <= 60 && narrow is Some && reach(
                nodes,
                narrow->0 as int,
                lev + 4,
                x,
            ),
            _ => false,
        }),
    }
}

/// Whether `x` is a node of the subtree of the branch `b`, which stands at level `lev`.
pub open spec fn reach<K, V>(nodes: Seq<Node<K, V>>, b: int, lev: nat, x: int) -> bool
    decreases 64 - lev, 1nat,
{
    x == b || (lev <= 60 && 0 <= b < nodes.len() && nodes[b] is Branch && exists|s: int|
        0 <= s < nodes[b]->Branch_0@.len() && slot_reach(
            nodes,
            #[trigger] nodes[b]->Branch_0@[s],
            lev,
            x,
        ))
}

/// Whether the slot content `r` of the branch `b`, where it refers to an
/// expansion marker, refers to one that names `b` as its parent.
pub open spec fn marker_ok<K, V>(nodes: Seq<Node<K, V>>, b: int, r: NodeRef) -> bool {
    r is Some && r->0 < nodes.len() && nodes[r->0 as int] is ExpansionInProgress ==> nodes[r->0 as int]->parent
        is Some && nodes[r->0 as int]->parent->0 == b
}

/// Whether what the slot `s` of a branch refers to is well formed.
/// The branch has `w` slots, stands at level `lev` and is reached by the hashes
/// whose `lev` lowest bits are `pfx`.
pub open spec fn slot_ok<K: TrieKey, V>(
    nodes: Seq<Node<K, V>>,
    r: NodeRef,
    lev: nat,
    pfx: u64,
    w: nat,
    s: int,
    mode: Mode,
) -> bool
    decreases 64 - lev, 0nat,
{
    match r {
        None => !(mode is Frozen),
        Some(i) => i < nodes.len() && match nodes[i as int] {
            Node::Leaf { hash, key, value, transaction } => {
                &&& hash == key.digest_spec()
                &&& low_bits(hash, lev) == pfx
                &&& slot_of(hash, lev, w) == s
                &&& transaction is Some
                &&& transaction->0 < nodes.len()
                &&& match nodes[transaction->0 as int] {
                    Node::NoTransaction => !(mode is Frozen),
                    Node::FrozenLeafMarker => !(mode is Clean),
                    _ => false,
                }
            },
            Node::FrozenEmptyMarker => !(mode is Clean),
            Node::Branch(_) => {
                &&& !(mode is Frozen)
                &&& w == 16
                &&& lev + 4 <= 60
                &&& tree(nodes, i as int, lev + 4, extend(pfx, lev, s), mode)
            },
            Node::Frozen { inner } => {
                &&& !(mode is Clean)
                &&& w == 16
                &&& lev + 4 <= 60
                &&& inner is Some
                &&& tree(nodes, inner->0 as int, lev + 4, extend(pfx, lev, s), mode)
                &&& !reach(nodes, inner->0 as int, lev + 4, i as int)
            },
            Node::ExpansionInProgress { parent_slot, narrow, level, wide, .. } => {
                &&& mode is Mixed
                &&& w == 16
                &&& lev + 4 <= 60
                &&& parent_slot == s
                &&& level == lev + 4
                &&& wide is None
                &&& narrow is Some
                &&& tree(nodes, narrow->0 as int, lev + 4, extend(pfx, lev, s), mode)
                &&& !reach(nodes, narrow->0 as int, lev + 4, i as int)
            },
            _ => false,
        },
    }
}

/// Whether `b` is a branch at level `lev` whose subtree is a trie: every
/// reference leads to a node of the right kind, no node is referred to twice,
/// every leaf sits where its hash puts it, and only a branch of 16 slots has
/// branches below it. `pfx` holds the `lev` lowest bits of every hash in the
/// subtree.
pub open spec fn tree<K: TrieKey, V>(
    nodes: Seq<Node<K, V>>,
    b: int,
    lev: nat,
    pfx: u64,
    mode: Mode,
) -> bool
    decreases 64 - lev, 1nat,
{
    &&& 0 <= b < nodes.len()
    &&& lev <= 60
    &&& lev % 4 == 0
    &&& low_bits(pfx, lev) == pfx
    &&& nodes[b] is Branch
    &&& (nodes[b]->Branch_0@.len() == 4 || nodes[b]->Branch_0@.len() == 16)
    &&& forall|s: int|
        0 <= s < nodes[b]->Branch_0@.len() ==> slot_ok(
            nodes,
            #[trigger] nodes[b]->Branch_0@[s],
            lev,
            pfx,
            nodes[b]->Branch_0@.len(),
            s,
            mode,
        )
    &&& forall|s: int|
        0 <= s < nodes[b]->Branch_0@.len() ==> marker_ok(nodes, b, #[trigger] nodes[b]->Branch_0@[s])
    &&& forall|s: int|
        0 <= s < nodes[b]->Branch_0@.len() ==> !#[trigger] slot_reach(
            nodes,
            nodes[b]->Branch_0@[s],
            lev,
            b,
        )
    &&& forall|s1: int, s2: int, x: int|
        0 <= s1 < nodes[b]->Branch_0@.len() && 0 <= s2 < nodes[b]->Branch_0@.len() && s1 != s2
            && #[trigger] slot_reach(nodes, nodes[b]->Branch_0@[s1], lev, x) ==> !#[trigger] slot_reach(
            nodes,
            nodes[b]->Branch_0@[s2],
            lev,
            x,
        )
}

/// The leaf at the end of the path that the hash `h` takes through what the slot
/// content `r` refers to, if the path ends at a leaf.
pub open spec fn slot_entry<K, V>(nodes: Seq<Node<K, V>>, r: NodeRef, lev: nat, h: u64) -> Option<
    int,
>
    decreases 64 - lev, 0nat,
{
    match r {
        None => None,
        Some(i) => if i < nodes.len() {
            match nodes[i as int] {
                Node::Leaf { .. } => Some(i as int),
                Node::Branch(_) => if lev + 4 <= 60 {
                    entry(nodes, i as int, lev + 4, h)
                } else {
                    None
                },
                Node::Frozen { inner } => if lev + 4 <= 60 && inner is Some {
                    entry(nodes, inner->0 as int, lev + 4, h)
                } else {
                    None
                },
                Node::ExpansionInProgress { narrow, .. } => if lev + 4 <= 60 && narrow is Some {
                    entry(nodes, narrow->0 as int, lev + 4, h)
                } else {
                    None
                },
                _ => None,
            }
        } else {
            None
        },
    }
}

/// The leaf at the end of the path that the hash `h` takes from the branch `b`
/// at level `lev`, if the path ends at a leaf.
pub open spec fn entry<K, V>(nodes: Seq<Node<K, V>>, b: int, lev: nat, h: u64) -> Option<int>
    decreases 64 - lev, 1nat,
{
    if lev <= 60 && 0 <= b < nodes.len() && nodes[b] is Branch {
        let slots = nodes[b]->Branch_0@;
        let s = slot_of(h, lev, slots.len());
        if 0 <= s < slots.len() {
            slot_entry(nodes, slots[s], lev, h)
        } else {
            None
        }
    } else {
        None
    }
}

/// The value that the subtree of `b` holds for `key`, if it holds one.
pub open spec fn lookup<K: TrieKey, V>(nodes: Seq<Node<K, V>>, b: int, lev: nat, key: K) -> Option<
    V,
> {
    match entry(nodes, b, lev, key.digest_spec()) {
        Some(i) => match nodes[i] {
            Node::Leaf { key: k, value, .. } => if k == key {
                Some(value)
            } else {
                None
            },
            _ => None,
        },
        None => None,
    }
}

/// The value that the subtree behind the slot content `r` holds for `key`.
pub open spec fn slot_lookup<K: TrieKey, V>(
    nodes: Seq<Node<K, V>>,
    r: NodeRef,
    lev: nat,
    key: K,
) -> Option<V> {
    match slot_entry(nodes, r, lev, key.digest_spec()) {
        Some(i) => match nodes[i] {
            Node::Leaf { key: k, value, .. } => if k == key {
                Some(value)
            } else {
                None
            },
            _ => None,
        },
        None => None,
    }
}

/// Whether the subtree of `b` holds the key `other`, which is not `key` and has
/// the digest of `key`.
pub open spec fn clash_with<K: TrieKey, V>(
    nodes: Seq<Node<K, V>>,
    b: int,
    lev: nat,
    key: K,
    other: K,
) -> bool {
    other != key && other.digest_spec() == key.digest_spec() && lookup(nodes, b, lev, other) is Some
}

/// Whether the subtree of `b` holds a key other than `key` with the digest of `key`.
pub open spec fn clash<K: TrieKey, V>(nodes: Seq<Node<K, V>>, b: int, lev: nat, key: K) -> bool {
    exists|other: K| #[trigger] clash_with(nodes, b, lev, key, other)
}

/// Every node of `n0` outside the subtree of `b` is in `n2` as it was.
pub open spec fn kept_outside<K, V>(
    n0: Seq<Node<K, V>>,
    n2: Seq<Node<K, V>>,
    b: int,
    lev: nat,
) -> bool {
    &&& n0.len() <= n2.len()
    &&& forall|x: int| 0 <= x < n0.len() && !reach(n0, b, lev, x) ==> #[trigger] n2[x] == n0[x]
}

/// Every node of the subtree of `b2` in `n2` is new or was a node of the
/// subtree of `b0` in `n0`.
pub open spec fn grown_from<K, V>(
    n0: Seq<Node<K, V>>,
    n2: Seq<Node<K, V>>,
    b0: int,
    b2: int,
    lev: nat,
) -> bool {
    forall|x: int| #[trigger] reach(n2, b2, lev, x) ==> x >= n0.len() || reach(n0, b0, lev, x)
}

/// The subtree of `b2` in `n2` holds what the subtree of `b0` holds in `n0`.
pub open spec fn same_content<K: TrieKey, V>(
    n0: Seq<Node<K, V>>,
    n2: Seq<Node<K, V>>,
    b0: int,
    b2: int,
    lev: nat,
) -> bool {
    forall|k: K| #[trigger] lookup(n2, b2, lev, k) == lookup(n0, b0, lev, k)
}

/// The subtree of `b2` in `n2` holds what the subtree of `b0` holds in `n0`,
/// but `val` for `key`.
pub open spec fn content_with<K: TrieKey, V>(
    n0: Seq<Node<K, V>>,
    n2: Seq<Node<K, V>>,
    b0: int,
    b2: int,
    lev: nat,
    key: K,
    val: V,
) -> bool {
    forall|k: K| #[trigger]
        lookup(n2, b2, lev, k) == if k == key {
            Some(val)
        } else {
            lookup(n0, b0, lev, k)
        }
}

/// Whether the branch `cur` at level `lev` stands where an insertion of the
/// hash `h` may work on it: in the slot that its parent `prev`, a branch of 16
/// slots, gives to `h`; or, without a parent, as a branch of 16 slots itself.
pub open spec fn attached<K, V>(
    nodes: Seq<Node<K, V>>,
    prev: Option<usize>,
    cur: usize,
    lev: nat,
    h: u64,
) -> bool {
    match prev {
        Some(p) => {
            &&& lev >= 4
            &&& p < nodes.len()
            &&& p != cur
            &&& nodes[p as int] is Branch
            &&& nodes[p as int]->Branch_0@.len() == 16
            &&& nodes[p as int]->Branch_0@[slot_of(h, (lev - 4) as nat, 16)] == Some(cur)
            &&& !reach(nodes, cur as int, lev, p as int)
        },
        None => nodes[cur as int]->Branch_0@.len() == 16,
    }
}

/// The branch that stands where `cur` stood: what the parent's slot holds, or
/// `cur` itself where there is no parent.
pub open spec fn root_after<K, V>(
    nodes: Seq<Node<K, V>>,
    prev: Option<usize>,
    cur: usize,
    lev: nat,
    h: u64,
) -> int {
    match prev {
        Some(p) => nodes[p as int]->Branch_0@[slot_of(h, (lev - 4) as nat, 16)]->0 as int,
        None => cur as int,
    }
}

/// The `narrow` branch of an expansion marker: what it refers to.
pub open spec fn narrow_of<K, V>(node: Node<K, V>) -> int {
    node->narrow->0 as int
}

/// Whether the expansion that the marker `en` stands for can be completed,
/// for the first time or again: the marker names a branch as its parent and a
/// trie at the marker's level, reached by `pfx`, as its narrow branch, and
/// neither the parent nor the marker is a node of the narrow subtree.
pub open spec fn expandable<K: TrieKey, V>(nodes: Seq<Node<K, V>>, en: usize, pfx: u64) -> bool {
    &&& en < nodes.len()
    &&& nodes[en as int] is ExpansionInProgress
    &&& nodes[en as int]->parent is Some
    &&& nodes[en as int]->narrow is Some
    &&& ({
        let p = nodes[en as int]->parent->0 as int;
        let ps = nodes[en as int]->parent_slot as int;
        let nr = narrow_of(nodes[en as int]);
        let lv = nodes[en as int]->level as nat;
        &&& p < nodes.len()
        &&& p != en
        &&& nodes[p] is Branch
        &&& ps < nodes[p]->Branch_0@.len()
        &&& tree(nodes, nr, lv, pfx, Mode::Mixed)
        &&& !reach(nodes, nr, lv, p)
        &&& !reach(nodes, nr, lv, en as int)
    })
}

/// Whether `en` is the marker of an expansion that has not been completed: it
/// stands in its parent's slot and has no wide branch yet.
pub open spec fn expanding<K: TrieKey, V>(nodes: Seq<Node<K, V>>, en: usize, pfx: u64) -> bool {
    &&& expandable(nodes, en, pfx)
    &&& nodes[en as int]->wide is None
    &&& nodes[nodes[en as int]->parent->0 as int]->Branch_0@[nodes[en as int]->parent_slot as int]
        == Some(en)
}

/// The node that stands in the way of an insertion of the hash `h` into what
/// the slot content `r` refers to, if one does.
pub open spec fn slot_obstacle<K, V>(nodes: Seq<Node<K, V>>, r: NodeRef, lev: nat, h: u64) -> Option<
    int,
>
    decreases 64 - lev, 0nat,
{
    match r {
        None => None,
        Some(i) => if i < nodes.len() {
            match nodes[i as int] {
                Node::Leaf { transaction, .. } => if transaction is Some && transaction->0
                    < nodes.len() && nodes[transaction->0 as int] is FrozenLeafMarker {
                    Some(i as int)
                } else {
                    None
                },
                Node::FrozenEmptyMarker => Some(i as int),
                Node::Frozen { .. } => Some(i as int),
                Node::ExpansionInProgress { .. } => Some(i as int),
                Node::Branch(_) => if lev + 4 <= 60 {
                    obstacle(nodes, i as int, lev + 4, h)
                } else {
                    None
                },
                _ => None,
            }
        } else {
            None
        },
    }
}

/// The node that stands in the way of an insertion of the hash `h` into the
/// subtree of the branch `b`, if one does: the first node on the path of `h`
/// that is a frozen leaf, the marker of a frozen empty slot, the wrapper of a
/// frozen branch or the marker of an expansion.
pub open spec fn obstacle<K, V>(nodes: Seq<Node<K, V>>, b: int, lev: nat, h: u64) -> Option<int>
    decreases 64 - lev, 1nat,
{
    if lev <= 60 && 0 <= b < nodes.len() && nodes[b] is Branch {
        let slots = nodes[b]->Branch_0@;
        let s = slot_of(h, lev, slots.len());
        if 0 <= s < slots.len() {
            slot_obstacle(nodes, slots[s], lev, h)
        } else {
            None
        }
    } else {
        None
    }
}

/// Whether the node `after` is what the node `before` may have become: a
/// branch keeps its number of slots, and a slot of it that referred to a node
/// refers to a node; a leaf keeps its hash, its key and its value; the marker
/// of an expansion keeps its wide branch once it has one; every node keeps its
/// kind.
pub open spec fn stays<K, V>(before: Node<K, V>, after: Node<K, V>) -> bool {
    match before {
        Node::Branch(slots) => {
            &&& after is Branch
            &&& after->Branch_0@.len() == slots@.len()
            &&& forall|s: int|
                0 <= s < slots@.len() && (#[trigger] slots@[s]) is Some ==> after->Branch_0@[s] is Some
        },
        Node::Leaf { hash, key, value, .. } => {
            &&& after is Leaf
            &&& after->Leaf_hash == hash
            &&& after->key == key
            &&& after->value == value
        },
        Node::NoTransaction => after is NoTransaction,
        Node::FrozenLeafMarker => after is FrozenLeafMarker,
        Node::FrozenEmptyMarker => after is FrozenEmptyMarker,
        Node::Frozen { inner } => after is Frozen && after->inner == inner,
        Node::ExpansionInProgress { parent, parent_slot, narrow, level, wide, .. } => {
            &&& after is ExpansionInProgress
            &&& after->parent == parent
            &&& after->parent_slot == parent_slot
            &&& after->narrow == narrow
            &&& after->level == level
            &&& wide is Some ==> after->wide == wide
        },
    }
}

/// Whether every node of `n0` is in `n2` what it may have become: no node is
/// taken away, no branch grows or shrinks, and no slot that referred to a node
/// is empty.
pub open spec fn settled<K, V>(n0: Seq<Node<K, V>>, n2: Seq<Node<K, V>>) -> bool {
    &&& n0.len() <= n2.len()
    &&& forall|x: int| 0 <= x < n0.len() ==> stays(n0[x], #[trigger] n2[x])
}

} // verus!
