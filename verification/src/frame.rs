//! How a trie in the arena fares when nodes outside it, or one of its slots, change.

use vstd::prelude::*;
use crate::bits::lemma_extend_split;
use crate::lockfree_cctrie::TrieKey;
use crate::node::Node;
use crate::node::NodeRef;
use crate::shape::Mode;
use crate::shape::entry;
use crate::shape::extend;
use crate::bits::lemma_slot_in_range;
use crate::shape::low_bits;
use crate::shape::obstacle;
use crate::shape::settled;
use crate::shape::slot_of;
use crate::shape::stays;
use crate::shape::marker_ok;
use crate::shape::reach;
use crate::shape::slot_entry;
use crate::shape::slot_ok;
use crate::shape::slot_reach;
use crate::shape::tree;

verus! {

/// The nodes of a well-formed slot lie in the arena.
pub proof fn lemma_slot_reach_bound<K: TrieKey, V>(
    nodes: Seq<Node<K, V>>,
    r: NodeRef,
    lev: nat,
    pfx: u64,
    w: nat,
    s: int,
    mode: Mode,
    x: int,
)
    requires
        slot_ok(nodes, r, lev, pfx, w, s, mode),
        slot_reach(nodes, r, lev, x),
    ensures
        0 <= x < nodes.len(),
    decreases 64 - lev, 0nat,
{
    let i = r->0 as int;
    if x != i {
        match nodes[i] {
            Node::Branch(_) => {
                lemma_reach_bound(nodes, i, lev + 4, extend(pfx, lev, s), mode, x);
            },
            Node::Frozen { inner } => {
                lemma_reach_bound(nodes, inner->0 as int, lev + 4, extend(pfx, lev, s), mode, x);
            },
            Node::ExpansionInProgress { narrow, .. } => {
                lemma_reach_bound(nodes, narrow->0 as int, lev + 4, extend(pfx, lev, s), mode, x);
            },
            _ => {},
        }
    }
}

/// The nodes of a trie lie in the arena.
pub proof fn lemma_reach_bound<K: TrieKey, V>(
    nodes: Seq<Node<K, V>>,
    b: int,
    lev: nat,
    pfx: u64,
    mode: Mode,
    x: int,
)
    requires
        tree(nodes, b, lev, pfx, mode),
        reach(nodes, b, lev, x),
    ensures
        0 <= x < nodes.len(),
    decreases 64 - lev, 1nat,
{
    if x != b {
        let slots = nodes[b]->Branch_0@;
        let s = choose|s: int| 0 <= s < slots.len() && slot_reach(nodes, #[trigger] slots[s], lev, x);
        assert(slot_ok(nodes, slots[s], lev, pfx, slots.len(), s, mode));
        lemma_slot_reach_bound(nodes, slots[s], lev, pfx, slots.len(), s, mode, x);
    }
}

/// A well-formed slot stays as it is when no node of it changes.
pub proof fn lemma_frame_slot<K: TrieKey, V>(
    n1: Seq<Node<K, V>>,
    n2: Seq<Node<K, V>>,
    r: NodeRef,
    lev: nat,
    pfx: u64,
    w: nat,
    s: int,
    mode: Mode,
)
    requires
        slot_ok(n1, r, lev, pfx, w, s, mode),
        n1.len() <= n2.len(),
        forall|x: int| #[trigger] slot_reach(n1, r, lev, x) ==> n2[x] == n1[x],
    ensures
        slot_ok(n2, r, lev, pfx, w, s, mode),
        forall|x: int| #[trigger] slot_reach(n2, r, lev, x) == slot_reach(n1, r, lev, x),
        forall|h: u64| #[trigger] slot_entry(n2, r, lev, h) == slot_entry(n1, r, lev, h),
    decreases 64 - lev, 0nat,
{
    if r is Some {
        let i = r->0 as int;
        assert(slot_reach(n1, r, lev, i));
        match n1[i] {
            Node::Leaf { transaction, .. } => {
                assert(slot_reach(n1, r, lev, transaction->0 as int));
            },
            Node::Branch(_) => {
                let p = extend(pfx, lev, s);
                assert forall|x: int| #[trigger] reach(n1, i, lev + 4, x) implies n2[x] == n1[x] by {
                    assert(slot_reach(n1, r, lev, x));
                }
                lemma_frame_tree(n1, n2, i, lev + 4, p, mode);
                assert forall|x: int| #[trigger]
                    slot_reach(n2, r, lev, x) == slot_reach(n1, r, lev, x) by {
                    assert(reach(n2, i, lev + 4, x) == reach(n1, i, lev + 4, x));
                }
                assert forall|h: u64| #[trigger]
                    slot_entry(n2, r, lev, h) == slot_entry(n1, r, lev, h) by {
                    assert(entry(n2, i, lev + 4, h) == entry(n1, i, lev + 4, h));
                }
            },
            Node::Frozen { inner } => {
                let p = extend(pfx, lev, s);
                let j = inner->0 as int;
                assert forall|x: int| #[trigger] reach(n1, j, lev + 4, x) implies n2[x] == n1[x] by {
                    assert(slot_reach(n1, r, lev, x));
                }
                lemma_frame_tree(n1, n2, j, lev + 4, p, mode);
                assert(reach(n2, j, lev + 4, i) == reach(n1, j, lev + 4, i));
                assert forall|x: int| #[trigger]
                    slot_reach(n2, r, lev, x) == slot_reach(n1, r, lev, x) by {
                    assert(reach(n2, j, lev + 4, x) == reach(n1, j, lev + 4, x));
                }
                assert forall|h: u64| #[trigger]
                    slot_entry(n2, r, lev, h) == slot_entry(n1, r, lev, h) by {
                    assert(entry(n2, j, lev + 4, h) == entry(n1, j, lev + 4, h));
                }
            },
            Node::ExpansionInProgress { narrow, .. } => {
                let p = extend(pfx, lev, s);
                let j = narrow->0 as int;
                assert forall|x: int| #[trigger] reach(n1, j, lev + 4, x) implies n2[x] == n1[x] by {
                    assert(slot_reach(n1, r, lev, x));
                }
                lemma_frame_tree(n1, n2, j, lev + 4, p, mode);
                assert(reach(n2, j, lev + 4, i) == reach(n1, j, lev + 4, i));
                assert forall|x: int| #[trigger]
                    slot_reach(n2, r, lev, x) == slot_reach(n1, r, lev, x) by {
                    assert(reach(n2, j, lev + 4, x) == reach(n1, j, lev + 4, x));
                }
                assert forall|h: u64| #[trigger]
                    slot_entry(n2, r, lev, h) == slot_entry(n1, r, lev, h) by {
                    assert(entry(n2, j, lev + 4, h) == entry(n1, j, lev + 4, h));
                }
            },
            _ => {},
        }
    }
}

/// A trie stays as it is when no node of it changes.
pub proof fn lemma_frame_tree<K: TrieKey, V>(
    n1: Seq<Node<K, V>>,
    n2: Seq<Node<K, V>>,
    b: int,
    lev: nat,
    pfx: u64,
    mode: Mode,
)
    requires
        tree(n1, b, lev, pfx, mode),
        n1.len() <= n2.len(),
        forall|x: int| #[trigger] reach(n1, b, lev, x) ==> n2[x] == n1[x],
    ensures
        tree(n2, b, lev, pfx, mode),
        forall|x: int| #[trigger] reach(n2, b, lev, x) == reach(n1, b, lev, x),
        forall|h: u64| #[trigger] entry(n2, b, lev, h) == entry(n1, b, lev, h),
    decreases 64 - lev, 1nat,
{
    assert(reach(n1, b, lev, b));
    let slots = n1[b]->Branch_0@;
    let w = slots.len();
    assert forall|s: int| 0 <= s < w implies {
        &&& slot_ok(n2, #[trigger] slots[s], lev, pfx, w, s, mode)
        &&& forall|x: int| #[trigger] slot_reach(n2, slots[s], lev, x) == slot_reach(n1, slots[s], lev, x)
        &&& forall|h: u64| #[trigger] slot_entry(n2, slots[s], lev, h) == slot_entry(n1, slots[s], lev, h)
    } by {
        assert(slot_ok(n1, slots[s], lev, pfx, w, s, mode));
        assert forall|x: int| #[trigger] slot_reach(n1, slots[s], lev, x) implies n2[x] == n1[x] by {
            assert(reach(n1, b, lev, x));
        }
        lemma_frame_slot(n1, n2, slots[s], lev, pfx, w, s, mode);
    }
    assert forall|s: int| 0 <= s < w implies marker_ok(n2, b, #[trigger] n2[b]->Branch_0@[s]) by {
        assert(slot_ok(n1, slots[s], lev, pfx, w, s, mode));
        assert(marker_ok(n1, b, slots[s]));
        if slots[s] is Some {
            assert(slot_reach(n1, slots[s], lev, slots[s]->0 as int));
            assert(reach(n1, b, lev, slots[s]->0 as int));
        }
    }
    assert forall|x: int| #[trigger] reach(n2, b, lev, x) == reach(n1, b, lev, x) by {
        if reach(n1, b, lev, x) && x != b {
            let s = choose|s: int| 0 <= s < w && slot_reach(n1, #[trigger] slots[s], lev, x);
            assert(slot_ok(n2, slots[s], lev, pfx, w, s, mode));
            assert(slot_reach(n2, slots[s], lev, x));
        }
        if reach(n2, b, lev, x) && x != b {
            let s = choose|s: int| 0 <= s < w && slot_reach(n2, #[trigger] n2[b]->Branch_0@[s], lev, x);
            assert(slot_ok(n2, slots[s], lev, pfx, w, s, mode));
            assert(slot_reach(n1, slots[s], lev, x));
        }
    }
    assert forall|h: u64| #[trigger] entry(n2, b, lev, h) == entry(n1, b, lev, h) by {
        let s = slot_of(h, lev, w);
        if 0 <= s < w {
            assert(slot_ok(n2, slots[s], lev, pfx, w, s, mode));
            assert(slot_entry(n2, slots[s], lev, h) == slot_entry(n1, slots[s], lev, h));
        }
    }
    assert forall|s: int| 0 <= s < w implies !#[trigger] slot_reach(n2, slots[s], lev, b) by {
        assert(slot_ok(n2, slots[s], lev, pfx, w, s, mode));
        assert(!slot_reach(n1, slots[s], lev, b));
    }
    assert forall|s1: int, s2: int, x: int|
        0 <= s1 < w && 0 <= s2 < w && s1 != s2 && #[trigger] slot_reach(
            n2,
            slots[s1],
            lev,
            x,
        ) implies !#[trigger] slot_reach(n2, slots[s2], lev, x) by {
        assert(slot_ok(n2, slots[s1], lev, pfx, w, s1, mode));
        assert(slot_ok(n2, slots[s2], lev, pfx, w, s2, mode));
        assert(slot_reach(n1, slots[s1], lev, x));
        assert(!slot_reach(n1, slots[s2], lev, x));
    }
}

/// What is well formed in `Clean` or `Frozen` mode is well formed in `Mixed` mode.
pub proof fn lemma_weaken_slot<K: TrieKey, V>(
    nodes: Seq<Node<K, V>>,
    r: NodeRef,
    lev: nat,
    pfx: u64,
    w: nat,
    s: int,
    mode: Mode,
)
    requires
        slot_ok(nodes, r, lev, pfx, w, s, mode),
    ensures
        slot_ok(nodes, r, lev, pfx, w, s, Mode::Mixed),
    decreases 64 - lev, 0nat,
{
    if r is Some {
        let i = r->0 as int;
        match nodes[i] {
            Node::Branch(_) => {
                lemma_weaken_tree(nodes, i, lev + 4, extend(pfx, lev, s), mode);
            },
            Node::Frozen { inner } => {
                lemma_weaken_tree(nodes, inner->0 as int, lev + 4, extend(pfx, lev, s), mode);
            },
            Node::ExpansionInProgress { narrow, .. } => {
                lemma_weaken_tree(nodes, narrow->0 as int, lev + 4, extend(pfx, lev, s), mode);
            },
            _ => {},
        }
    }
}

/// A trie in `Clean` or `Frozen` mode is a trie in `Mixed` mode.
pub proof fn lemma_weaken_tree<K: TrieKey, V>(
    nodes: Seq<Node<K, V>>,
    b: int,
    lev: nat,
    pfx: u64,
    mode: Mode,
)
    requires
        tree(nodes, b, lev, pfx, mode),
    ensures
        tree(nodes, b, lev, pfx, Mode::Mixed),
    decreases 64 - lev, 1nat,
{
    let slots = nodes[b]->Branch_0@;
    let w = slots.len();
    assert forall|s: int| 0 <= s < w implies slot_ok(
        nodes,
        #[trigger] slots[s],
        lev,
        pfx,
        w,
        s,
        Mode::Mixed,
    ) by {
        assert(slot_ok(nodes, slots[s], lev, pfx, w, s, mode));
        lemma_weaken_slot(nodes, slots[s], lev, pfx, w, s, mode);
    }
}

/// The leaf at the end of a path is a leaf of the subtree, and its hash follows
/// the path to the subtree.
pub proof fn lemma_slot_entry_leaf<K: TrieKey, V>(
    nodes: Seq<Node<K, V>>,
    r: NodeRef,
    lev: nat,
    pfx: u64,
    w: nat,
    s: int,
    mode: Mode,
    h: u64,
)
    requires
        slot_ok(nodes, r, lev, pfx, w, s, mode),
        lev <= 60,
        lev % 4 == 0,
        low_bits(pfx, lev) == pfx,
        w == 4 || w == 16,
        0 <= s < w,
        slot_entry(nodes, r, lev, h) is Some,
    ensures
        ({
            let i = slot_entry(nodes, r, lev, h)->0;
            &&& 0 <= i < nodes.len()
            &&& nodes[i] is Leaf
            &&& nodes[i]->Leaf_hash == nodes[i]->key.digest_spec()
            &&& low_bits(nodes[i]->Leaf_hash, lev) == pfx
            &&& slot_of(nodes[i]->Leaf_hash, lev, w) == s
            &&& slot_reach(nodes, r, lev, i)
        }),
    decreases 64 - lev, 0nat,
{
    let i = r->0 as int;
    let p = extend(pfx, lev, s);
    match nodes[i] {
        Node::Branch(_) => {
            lemma_entry_leaf(nodes, i, lev + 4, p, mode, h);
            let l = entry(nodes, i, lev + 4, h)->0;
            lemma_extend_split(nodes[l]->Leaf_hash, pfx, lev, s);
        },
        Node::Frozen { inner } => {
            lemma_entry_leaf(nodes, inner->0 as int, lev + 4, p, mode, h);
            let l = entry(nodes, inner->0 as int, lev + 4, h)->0;
            lemma_extend_split(nodes[l]->Leaf_hash, pfx, lev, s);
        },
        Node::ExpansionInProgress { narrow, .. } => {
            lemma_entry_leaf(nodes, narrow->0 as int, lev + 4, p, mode, h);
            let l = entry(nodes, narrow->0 as int, lev + 4, h)->0;
            lemma_extend_split(nodes[l]->Leaf_hash, pfx, lev, s);
        },
        _ => {},
    }
}

/// The leaf at the end of a path is a leaf of the trie, and its hash follows
/// the path to the trie.
pub proof fn lemma_entry_leaf<K: TrieKey, V>(
    nodes: Seq<Node<K, V>>,
    b: int,
    lev: nat,
    pfx: u64,
    mode: Mode,
    h: u64,
)
    requires
        tree(nodes, b, lev, pfx, mode),
        entry(nodes, b, lev, h) is Some,
    ensures
        ({
            let i = entry(nodes, b, lev, h)->0;
            &&& 0 <= i < nodes.len()
            &&& nodes[i] is Leaf
            &&& nodes[i]->Leaf_hash == nodes[i]->key.digest_spec()
            &&& low_bits(nodes[i]->Leaf_hash, lev) == pfx
            &&& reach(nodes, b, lev, i)
        }),
    decreases 64 - lev, 1nat,
{
    let slots = nodes[b]->Branch_0@;
    let w = slots.len();
    let s = slot_of(h, lev, w);
    assert(slot_ok(nodes, slots[s], lev, pfx, w, s, mode));
    lemma_slot_entry_leaf(nodes, slots[s], lev, pfx, w, s, mode, h);
    assert(slot_reach(nodes, slots[s], lev, entry(nodes, b, lev, h)->0));
}

/// Where nothing is frozen, nothing stands in the way of an insertion.
pub proof fn lemma_clean_is_free<K: TrieKey, V>(
    nodes: Seq<Node<K, V>>,
    b: int,
    lev: nat,
    pfx: u64,
    h: u64,
)
    requires
        tree(nodes, b, lev, pfx, Mode::Clean),
    ensures
        obstacle(nodes, b, lev, h) is None,
    decreases 64 - lev,
{
    let slots = nodes[b]->Branch_0@;
    let w = slots.len();
    lemma_slot_in_range(h, lev, w);
    let s = slot_of(h, lev, w);
    assert(slot_ok(nodes, slots[s], lev, pfx, w, s, Mode::Clean));
    if slots[s] is Some && nodes[slots[s]->0 as int] is Branch {
        lemma_clean_is_free(nodes, slots[s]->0 as int, lev + 4, extend(pfx, lev, s), h);
    }
}

/// What has become of a node in two steps has become of it.
pub proof fn lemma_settled_twice<K, V>(n0: Seq<Node<K, V>>, n1: Seq<Node<K, V>>, n2: Seq<Node<K, V>>)
    requires
        settled(n0, n1),
        settled(n1, n2),
    ensures
        settled(n0, n2),
{
    assert forall|x: int| 0 <= x < n0.len() implies stays(n0[x], #[trigger] n2[x]) by {
        assert(stays(n0[x], n1[x]));
        assert(stays(n1[x], n2[x]));
    }
}

} // verus!
