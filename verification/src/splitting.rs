//! The new branch that takes two leaves whose hashes met in one slot.

use vstd::prelude::*;
use crate::bits::lemma_slot_in_range;
use crate::frame::lemma_entry_leaf;
use crate::frame::lemma_frame_tree;
use crate::frame::lemma_reach_bound;
use crate::lockfree_cctrie::TrieKey;
use crate::node::Node;
use crate::node::NodeRef;
use crate::shape::Mode;
use crate::shape::entry;
use crate::shape::extend;
use crate::shape::lookup;
use crate::shape::low_bits;
use crate::shape::reach;
use crate::shape::slot_entry;
use crate::shape::slot_of;
use crate::shape::slot_ok;
use crate::shape::slot_reach;
use crate::shape::tree;

verus! {

/// Whether `node` is a leaf that can be put into a slot below the hashes that
/// follow `pfx` to level `lev`: its hash is the digest of its key and follows
/// `pfx`, and its transaction refers to a `NoTransaction` node.
pub open spec fn fresh_leaf<K: TrieKey, V>(
    nodes: Seq<Node<K, V>>,
    node: Node<K, V>,
    lev: nat,
    pfx: u64,
) -> bool {
    &&& node is Leaf
    &&& node->Leaf_hash == node->key.digest_spec()
    &&& low_bits(node->Leaf_hash, lev) == pfx
    &&& node->transaction is Some
    &&& node->transaction->0 < nodes.len()
    &&& nodes[node->transaction->0 as int] is NoTransaction
}

/// Whether the leaves `prior` and `sn` can stand together below the hashes
/// that follow `pfx` to level `lev`: each has a transaction marker of its own.
pub open spec fn placed_below<K: TrieKey, V>(
    nodes: Seq<Node<K, V>>,
    prior: Node<K, V>,
    sn: Node<K, V>,
    lev: nat,
    pfx: u64,
) -> bool {
    &&& low_bits(pfx, lev) == pfx
    &&& fresh_leaf(nodes, prior, lev, pfx)
    &&& fresh_leaf(nodes, sn, lev, pfx)
    &&& prior->transaction != sn->transaction
}

/// Whether `node` is a leaf whose hash is the digest of its key.
pub open spec fn keyed_leaf<K: TrieKey, V>(node: Node<K, V>) -> bool {
    node is Leaf && node->Leaf_hash == node->key.digest_spec()
}

/// Whether every node of `nodes` from `start` on is a leaf, or a branch whose
/// slots refer to nodes from `start` on that stand before the branch.
pub open spec fn built_up<K, V>(nodes: Seq<Node<K, V>>, start: int) -> bool {
    forall|x: int|
        start <= x < nodes.len() ==> match #[trigger] nodes[x] {
            Node::Leaf { .. } => true,
            Node::Branch(slots) => forall|s: int|
                0 <= s < slots@.len() && (#[trigger] slots@[s]) is Some ==> start <= slots@[s]->0 < x,
            _ => false,
        }
}

/// A path from a branch that was built up ends where it ended, whatever is
/// added to the arena, and ends before the branch.
pub proof fn lemma_built_entry<K, V>(
    m: Seq<Node<K, V>>,
    m2: Seq<Node<K, V>>,
    start: int,
    b: int,
    lev: nat,
    h: u64,
)
    requires
        built_up(m, start),
        0 <= start <= b < m.len(),
        m.len() <= m2.len(),
        forall|x: int| start <= x < m.len() ==> m2[x] == m[x],
    ensures
        entry(m2, b, lev, h) == entry(m, b, lev, h),
        entry(m, b, lev, h) is Some ==> start <= entry(m, b, lev, h)->0 < b,
    decreases 64 - lev,
{
    assert(m2[b] == m[b]);
    if lev <= 60 && m[b] is Branch {
        let slots = m[b]->Branch_0@;
        let s = slot_of(h, lev, slots.len());
        if 0 <= s < slots.len() {
            match slots[s] {
                Some(i) => {
                    assert(start <= i < b);
                    assert(m2[i as int] == m[i as int]);
                    if m[i as int] is Branch && lev + 4 <= 60 {
                        lemma_built_entry(m, m2, start, i as int, lev + 4, h);
                    }
                },
                None => {},
            }
        }
    }
}

/// A new branch that holds two leaves in two slots holds the two keys and no
/// other.
pub proof fn lemma_pair_content<K: TrieKey, V>(
    n0: Seq<Node<K, V>>,
    prior: Node<K, V>,
    sn: Node<K, V>,
    lev: nat,
    slots: Seq<NodeRef>,
    p_old: int,
    p_sn: int,
)
    requires
        lev <= 60,
        keyed_leaf(prior),
        keyed_leaf(sn),
        slots.len() == 4 || slots.len() == 16,
        p_old == slot_of(prior->Leaf_hash, lev, slots.len()),
        p_sn == slot_of(sn->Leaf_hash, lev, slots.len()),
        0 <= p_old < slots.len(),
        0 <= p_sn < slots.len(),
        p_old != p_sn,
        slots[p_old] == Some(n0.len() as usize),
        slots[p_sn] == Some((n0.len() + 1) as usize),
        n0.len() + 2 <= usize::MAX,
        forall|s: int| 0 <= s < slots.len() && s != p_old && s != p_sn ==> slots[s] is None,
    ensures
        forall|v: Vec<NodeRef>|
            v@ == slots ==> {
                let n2 = #[trigger] n0.push(prior).push(sn).push(Node::Branch(v));
                let b = (n0.len() + 2) as int;
                &&& built_up(n2, n0.len() as int)
                &&& forall|k: K| #[trigger]
                    lookup(n2, b, lev, k) == if k == prior->key {
                        Some(prior->value)
                    } else if k == sn->key {
                        Some(sn->value)
                    } else {
                        None
                    }
            },
{
    assert forall|v: Vec<NodeRef>| v@ == slots implies {
        let n2 = #[trigger] n0.push(prior).push(sn).push(Node::Branch(v));
        let b = (n0.len() + 2) as int;
        &&& built_up(n2, n0.len() as int)
        &&& forall|k: K| #[trigger]
            lookup(n2, b, lev, k) == if k == prior->key {
                Some(prior->value)
            } else if k == sn->key {
                Some(sn->value)
            } else {
                None
            }
    } by {
        let n2 = n0.push(prior).push(sn).push(Node::Branch(v));
        let b = (n0.len() + 2) as int;
        let w = slots.len();
        assert(n2[b]->Branch_0@ == slots);
        assert(n2[n0.len() as int] == prior);
        assert(n2[n0.len() as int + 1] == sn);
        assert forall|s: int| 0 <= s < w && (#[trigger] slots[s]) is Some implies n0.len() <= slots[s]->0
            < b by {
            assert(s == p_old || s == p_sn);
        }
        assert(built_up(n2, n0.len() as int));
        assert forall|k: K| #[trigger]
            lookup(n2, b, lev, k) == if k == prior->key {
                Some(prior->value)
            } else if k == sn->key {
                Some(sn->value)
            } else {
                None
            } by {
            lemma_slot_in_range(k.digest_spec(), lev, w);
            let s = slot_of(k.digest_spec(), lev, w);
            assert(entry(n2, b, lev, k.digest_spec()) == slot_entry(n2, slots[s], lev, k.digest_spec()));
        }
    }
}

/// A new 16-slot branch whose one used slot holds a branch that was built up
/// holds what that branch holds.
pub proof fn lemma_nest_content<K: TrieKey, V>(
    n0: Seq<Node<K, V>>,
    n1: Seq<Node<K, V>>,
    inner: Vec<NodeRef>,
    v: Vec<NodeRef>,
    lev: nat,
    p: int,
    k_old: K,
    k_sn: K,
    v_old: V,
    v_sn: V,
)
    requires
        lev + 4 <= 60,
        n0.len() <= n1.len(),
        n1.len() + 1 <= usize::MAX,
        p == slot_of(k_old.digest_spec(), lev, 16),
        p == slot_of(k_sn.digest_spec(), lev, 16),
        0 <= p < 16,
        v@.len() == 16,
        v@[p] == Some(n1.len() as usize),
        forall|s: int| 0 <= s < 16 && s != p ==> v@[s] is None,
        built_up(n1.push(Node::Branch(inner)), n0.len() as int),
        forall|k: K| #[trigger]
            lookup(n1.push(Node::Branch(inner)), n1.len() as int, lev + 4, k) == if k == k_old {
                Some(v_old)
            } else if k == k_sn {
                Some(v_sn)
            } else {
                None
            },
    ensures
        ({
            let n2 = n1.push(Node::Branch(inner)).push(Node::Branch(v));
            let b = (n1.len() + 1) as int;
            &&& built_up(n2, n0.len() as int)
            &&& forall|k: K| #[trigger]
                lookup(n2, b, lev, k) == if k == k_old {
                    Some(v_old)
                } else if k == k_sn {
                    Some(v_sn)
                } else {
                    None
                }
        }),
{
    let m1 = n1.push(Node::Branch(inner));
    let n2 = m1.push(Node::Branch(v));
    let c = n1.len() as int;
    let b = (n1.len() + 1) as int;
    let start = n0.len() as int;
    assert(n2[b]->Branch_0@ == v@);
    assert forall|x: int| start <= x < n2.len() implies match #[trigger] n2[x] {
        Node::Leaf { .. } => true,
        Node::Branch(slots) => forall|s: int|
            0 <= s < slots@.len() && (#[trigger] slots@[s]) is Some ==> start <= slots@[s]->0 < x,
        _ => false,
    } by {
        if x < b {
            assert(n2[x] == m1[x]);
        } else {
            assert forall|s: int| 0 <= s < v@.len() && (#[trigger] v@[s]) is Some implies start
                <= v@[s]->0 < x by {
                assert(s == p);
            }
        }
    }
    assert forall|k: K| #[trigger]
        lookup(n2, b, lev, k) == if k == k_old {
            Some(v_old)
        } else if k == k_sn {
            Some(v_sn)
        } else {
            None
        } by {
        let h = k.digest_spec();
        lemma_slot_in_range(h, lev, 16);
        let s = slot_of(h, lev, 16);
        assert(entry(n2, b, lev, h) == slot_entry(n2, v@[s], lev, h));
        lemma_built_entry(m1, n2, start, c, lev + 4, h);
        if s == p {
            assert(n2[c] == m1[c]);
            if entry(m1, c, lev + 4, h) is Some {
                let l = entry(m1, c, lev + 4, h)->0;
                assert(n2[l] == m1[l]);
            }
            assert(lookup(n2, b, lev, k) == lookup(m1, c, lev + 4, k));
        } else {
            assert(lookup(m1, c, lev + 4, k) == lookup(m1, c, lev + 4, k));
        }
    }
}

/// A new branch that holds two leaves in two slots is a trie.
pub proof fn lemma_pair<K: TrieKey, V>(
    n0: Seq<Node<K, V>>,
    prior: Node<K, V>,
    sn: Node<K, V>,
    lev: nat,
    pfx: u64,
    slots: Seq<NodeRef>,
    p_old: int,
    p_sn: int,
)
    requires
        lev <= 60,
        lev % 4 == 0,
        low_bits(pfx, lev) == pfx,
        fresh_leaf(n0, prior, lev, pfx),
        fresh_leaf(n0, sn, lev, pfx),
        prior->transaction != sn->transaction,
        slots.len() == 4 || slots.len() == 16,
        p_old == slot_of(prior->Leaf_hash, lev, slots.len()),
        p_sn == slot_of(sn->Leaf_hash, lev, slots.len()),
        0 <= p_old < slots.len(),
        0 <= p_sn < slots.len(),
        p_old != p_sn,
        slots[p_old] == Some(n0.len() as usize),
        slots[p_sn] == Some((n0.len() + 1) as usize),
        n0.len() + 2 <= usize::MAX,
        forall|s: int| 0 <= s < slots.len() && s != p_old && s != p_sn ==> slots[s] is None,
    ensures
        forall|v: Vec<NodeRef>|
            v@ == slots ==> {
                let n2 = #[trigger] n0.push(prior).push(sn).push(Node::Branch(v));
                let b = (n0.len() + 2) as int;
                &&& tree(n2, b, lev, pfx, Mode::Clean)
                &&& forall|x: int| #[trigger]
                    reach(n2, b, lev, x) ==> x >= n0.len() || x == prior->transaction->0
                        || x == sn->transaction->0
            },
{
    assert forall|v: Vec<NodeRef>| v@ == slots implies {
        let n2 = #[trigger] n0.push(prior).push(sn).push(Node::Branch(v));
        let b = (n0.len() + 2) as int;
        &&& tree(n2, b, lev, pfx, Mode::Clean)
        &&& forall|x: int| #[trigger]
            reach(n2, b, lev, x) ==> x >= n0.len() || x == prior->transaction->0 || x == sn->transaction->0
    } by {
        let n2 = n0.push(prior).push(sn).push(Node::Branch(v));
        let b = (n0.len() + 2) as int;
        let w = slots.len();
        assert(n2[b]->Branch_0@ == slots);
        assert(n2[n0.len() as int] == prior);
        assert(n2[n0.len() as int + 1] == sn);
        assert forall|s: int| 0 <= s < w implies slot_ok(
            n2,
            #[trigger] n2[b]->Branch_0@[s],
            lev,
            pfx,
            w,
            s,
            Mode::Clean,
        ) by {
            if s == p_old {
                assert(n2[prior->transaction->0 as int] == n0[prior->transaction->0 as int]);
            } else if s == p_sn {
                assert(n2[sn->transaction->0 as int] == n0[sn->transaction->0 as int]);
            }
        }
        assert(tree(n2, b, lev, pfx, Mode::Clean));
        assert forall|x: int| #[trigger] reach(n2, b, lev, x) implies x >= n0.len() || x == prior->transaction->0 || x == sn->transaction->0 by {
            if x != b {
                let s = choose|s: int| 0 <= s < w && slot_reach(n2, #[trigger] n2[b]->Branch_0@[s], lev, x);
                assert(s == p_old || s == p_sn);
            }
        }
    }
}

/// A new 16-slot branch whose one used slot holds a trie is a trie.
pub proof fn lemma_nest<K: TrieKey, V>(
    n0: Seq<Node<K, V>>,
    n1: Seq<Node<K, V>>,
    inner: Vec<NodeRef>,
    v: Vec<NodeRef>,
    lev: nat,
    pfx: u64,
    p: int,
    h_old: u64,
    h_sn: u64,
    t_old: NodeRef,
    t_sn: NodeRef,
)
    requires
        lev + 4 <= 60,
        lev % 4 == 0,
        low_bits(pfx, lev) == pfx,
        n0.len() <= n1.len(),
        n1.len() + 1 <= usize::MAX,
        p == slot_of(h_old, lev, 16),
        p == slot_of(h_sn, lev, 16),
        0 <= p < 16,
        t_old is Some,
        t_sn is Some,
        t_old->0 < n0.len(),
        t_sn->0 < n0.len(),
        v@.len() == 16,
        v@[p] == Some(n1.len() as usize),
        forall|s: int| 0 <= s < 16 && s != p ==> v@[s] is None,
        tree(n1.push(Node::Branch(inner)), n1.len() as int, lev + 4, extend(pfx, lev, p), Mode::Clean),
        forall|x: int| #[trigger]
            reach(n1.push(Node::Branch(inner)), n1.len() as int, lev + 4, x) ==> x >= n0.len() || x == t_old->0 || x == t_sn->0,
    ensures
        ({
            let n2 = n1.push(Node::Branch(inner)).push(Node::Branch(v));
            let b = (n1.len() + 1) as int;
            &&& tree(n2, b, lev, pfx, Mode::Clean)
            &&& forall|x: int| #[trigger]
                reach(n2, b, lev, x) ==> x >= n0.len() || x == t_old->0 || x == t_sn->0
        }),
{
    let m1 = n1.push(Node::Branch(inner));
    let n2 = m1.push(Node::Branch(v));
    let c = n1.len() as int;
    let b = (n1.len() + 1) as int;
    let q = extend(pfx, lev, p);
    assert forall|x: int| #[trigger] reach(m1, c, lev + 4, x) implies n2[x] == m1[x] by {
        lemma_reach_bound(m1, c, lev + 4, q, Mode::Clean, x);
    }
    lemma_frame_tree(m1, n2, c, lev + 4, q, Mode::Clean);
    assert(n2[b]->Branch_0@ == v@);
    assert forall|s: int| 0 <= s < 16 implies slot_ok(
        n2,
        #[trigger] n2[b]->Branch_0@[s],
        lev,
        pfx,
        16,
        s,
        Mode::Clean,
    ) by {}
    assert(!slot_reach(n2, v@[p], lev, b)) by {
        assert(reach(n2, c, lev + 4, b) == reach(m1, c, lev + 4, b));
        if reach(m1, c, lev + 4, b) {
            lemma_reach_bound(m1, c, lev + 4, q, Mode::Clean, b);
        }
    }
    assert(tree(n2, b, lev, pfx, Mode::Clean));
    assert forall|x: int| #[trigger] reach(n2, b, lev, x) implies x >= n0.len() || x == t_old->0 || x == t_sn->0 by {
        if x != b {
            let s = choose|s: int| 0 <= s < 16 && slot_reach(n2, #[trigger] n2[b]->Branch_0@[s], lev, x);
            assert(s == p);
            assert(reach(n2, c, lev + 4, x) == reach(m1, c, lev + 4, x));
        }
    }
}

} // verus!
