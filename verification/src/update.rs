//! How a trie changes when one slot of its top branch is given new content.

use vstd::prelude::*;
use crate::bits::lemma_slot_in_range;
use crate::frame::lemma_frame_slot;
use crate::frame::lemma_slot_entry_leaf;
use crate::frame::lemma_slot_reach_bound;
use crate::lockfree_cctrie::TrieKey;
use crate::node::Node;
use crate::node::NodeRef;
use crate::shape::Mode;
use crate::shape::entry;
use crate::shape::lookup;
use crate::shape::marker_ok;
use crate::shape::reach;
use crate::shape::slot_entry;
use crate::shape::slot_lookup;
use crate::shape::slot_of;
use crate::shape::slot_ok;
use crate::shape::slot_reach;
use crate::shape::tree;

verus! {

/// The arena `n2` differs from `n0` in this way: the slot `s0` of the branch `b`
/// holds `r`, the nodes of what that slot held before may have changed, and new
/// nodes may have come; every other node is as it was.
pub open spec fn slot_replaced<K, V>(
    n0: Seq<Node<K, V>>,
    n2: Seq<Node<K, V>>,
    b: int,
    lev: nat,
    s0: int,
    r: NodeRef,
) -> bool {
    &&& n0.len() <= n2.len()
    &&& 0 <= b < n0.len()
    &&& n0[b] is Branch
    &&& n2[b] is Branch
    &&& 0 <= s0 < n0[b]->Branch_0@.len()
    &&& n2[b]->Branch_0@ == n0[b]->Branch_0@.update(s0, r)
    &&& forall|x: int|
        0 <= x < n0.len() && x != b && !slot_reach(n0, n0[b]->Branch_0@[s0], lev, x) ==> #[trigger] n2[x]
            == n0[x]
    &&& forall|x: int| #[trigger]
        slot_reach(n2, r, lev, x) ==> x != b && (x >= n0.len() || slot_reach(
            n0,
            n0[b]->Branch_0@[s0],
            lev,
            x,
        ))
}

/// A slot beside the replaced one is as it was.
pub proof fn lemma_sibling_kept<K: TrieKey, V>(
    n0: Seq<Node<K, V>>,
    n2: Seq<Node<K, V>>,
    b: int,
    lev: nat,
    pfx: u64,
    mode: Mode,
    s0: int,
    r: NodeRef,
    s: int,
    m: Mode,
)
    requires
        tree(n0, b, lev, pfx, mode),
        slot_replaced(n0, n2, b, lev, s0, r),
        0 <= s < n0[b]->Branch_0@.len(),
        s != s0,
        slot_ok(n0, n0[b]->Branch_0@[s], lev, pfx, n0[b]->Branch_0@.len(), s, m),
    ensures
        n2[b]->Branch_0@[s] == n0[b]->Branch_0@[s],
        marker_ok(n2, b, n0[b]->Branch_0@[s]),
        slot_ok(n2, n0[b]->Branch_0@[s], lev, pfx, n0[b]->Branch_0@.len(), s, m),
        forall|x: int| #[trigger]
            slot_reach(n2, n0[b]->Branch_0@[s], lev, x) == slot_reach(n0, n0[b]->Branch_0@[s], lev, x),
        forall|h: u64| #[trigger]
            slot_entry(n2, n0[b]->Branch_0@[s], lev, h) == slot_entry(n0, n0[b]->Branch_0@[s], lev, h),
{
    let slots = n0[b]->Branch_0@;
    let w = slots.len();
    assert forall|x: int| #[trigger] slot_reach(n0, slots[s], lev, x) implies n2[x] == n0[x] by {
        lemma_slot_reach_bound(n0, slots[s], lev, pfx, w, s, m, x);
        assert(!slot_reach(n0, slots[s0], lev, x));
        if x == b {
            assert(!slot_reach(n0, slots[s], lev, b));
        }
    }
    lemma_frame_slot(n0, n2, slots[s], lev, pfx, w, s, m);
    assert(marker_ok(n0, b, slots[s]));
    if slots[s] is Some {
        assert(slot_reach(n0, slots[s], lev, slots[s]->0 as int));
    }
}

/// A trie whose top branch gets well-formed content in one slot is a trie, and
/// a path that does not take that slot ends where it ended.
pub proof fn lemma_install<K: TrieKey, V>(
    n0: Seq<Node<K, V>>,
    n2: Seq<Node<K, V>>,
    b: int,
    lev: nat,
    pfx: u64,
    mode: Mode,
    s0: int,
    r: NodeRef,
)
    requires
        tree(n0, b, lev, pfx, mode),
        slot_replaced(n0, n2, b, lev, s0, r),
        slot_ok(n2, r, lev, pfx, n0[b]->Branch_0@.len(), s0, mode),
        marker_ok(n2, b, r),
    ensures
        tree(n2, b, lev, pfx, mode),
        forall|x: int| #[trigger] reach(n2, b, lev, x) ==> x >= n0.len() || reach(n0, b, lev, x),
        forall|h: u64| #[trigger]
            entry(n2, b, lev, h) == if slot_of(h, lev, n0[b]->Branch_0@.len()) == s0 {
                slot_entry(n2, r, lev, h)
            } else {
                entry(n0, b, lev, h)
            },
        forall|k: K| #[trigger]
            lookup(n2, b, lev, k) == if slot_of(k.digest_spec(), lev, n0[b]->Branch_0@.len()) == s0 {
                slot_lookup(n2, r, lev, k)
            } else {
                lookup(n0, b, lev, k)
            },
{
    let slots = n0[b]->Branch_0@;
    let slots2 = n2[b]->Branch_0@;
    let w = slots.len();
    assert forall|s: int| 0 <= s < w && s != s0 implies {
        &&& slots2[s] == slots[s]
        &&& marker_ok(n2, b, slots2[s])
        &&& slot_ok(n2, #[trigger] slots2[s], lev, pfx, w, s, mode)
        &&& forall|x: int| #[trigger] slot_reach(n2, slots[s], lev, x) == slot_reach(n0, slots[s], lev, x)
        &&& forall|h: u64| #[trigger] slot_entry(n2, slots[s], lev, h) == slot_entry(n0, slots[s], lev, h)
    } by {
        assert(slot_ok(n0, slots[s], lev, pfx, w, s, mode));
        lemma_sibling_kept(n0, n2, b, lev, pfx, mode, s0, r, s, mode);
    }
    assert(slots2[s0] == r);
    assert forall|s: int| 0 <= s < w implies slot_ok(n2, #[trigger] slots2[s], lev, pfx, w, s, mode) by {
        if s != s0 {
            assert(slots2[s] == slots[s]);
        }
    }
    assert forall|s: int| 0 <= s < w implies marker_ok(n2, b, #[trigger] slots2[s]) by {
        if s != s0 {
            assert(slots2[s] == slots[s]);
        }
    }
    assert forall|s: int| 0 <= s < w implies !#[trigger] slot_reach(n2, slots2[s], lev, b) by {
        if s != s0 {
            assert(slots2[s] == slots[s]);
            assert(slot_reach(n2, slots[s], lev, b) == slot_reach(n0, slots[s], lev, b));
        }
    }
    assert forall|s1: int, s2: int, x: int|
        0 <= s1 < w && 0 <= s2 < w && s1 != s2 && #[trigger] slot_reach(
            n2,
            slots2[s1],
            lev,
            x,
        ) implies !#[trigger] slot_reach(n2, slots2[s2], lev, x) by {
        if s1 != s0 && s2 != s0 {
            assert(slots2[s1] == slots[s1]);
            assert(slots2[s2] == slots[s2]);
            assert(slot_reach(n2, slots[s1], lev, x) == slot_reach(n0, slots[s1], lev, x));
            assert(slot_reach(n2, slots[s2], lev, x) == slot_reach(n0, slots[s2], lev, x));
        } else if s1 == s0 {
            assert(slots2[s2] == slots[s2]);
            assert(slot_reach(n2, slots[s2], lev, x) == slot_reach(n0, slots[s2], lev, x));
            if slot_reach(n0, slots[s2], lev, x) {
                assert(slot_ok(n0, slots[s2], lev, pfx, w, s2, mode));
                lemma_slot_reach_bound(n0, slots[s2], lev, pfx, w, s2, mode, x);
                assert(slot_reach(n0, slots[s0], lev, x));
            }
        } else {
            assert(slots2[s1] == slots[s1]);
            assert(slot_reach(n2, slots[s1], lev, x) == slot_reach(n0, slots[s1], lev, x));
            if slot_reach(n2, slots2[s2], lev, x) {
                assert(slot_ok(n0, slots[s1], lev, pfx, w, s1, mode));
                lemma_slot_reach_bound(n0, slots[s1], lev, pfx, w, s1, mode, x);
                assert(slot_reach(n0, slots[s0], lev, x));
            }
        }
    }
    assert(tree(n2, b, lev, pfx, mode));
    assert forall|x: int| #[trigger] reach(n2, b, lev, x) implies x >= n0.len() || reach(
        n0,
        b,
        lev,
        x,
    ) by {
        if x != b {
            let s = choose|s: int| 0 <= s < w && slot_reach(n2, #[trigger] slots2[s], lev, x);
            if s == s0 {
                if x < n0.len() {
                    assert(slot_reach(n0, slots[s0], lev, x));
                }
            } else {
                assert(slots2[s] == slots[s]);
                assert(slot_reach(n2, slots[s], lev, x) == slot_reach(n0, slots[s], lev, x));
            }
        }
    }
    assert forall|h: u64| #[trigger]
        entry(n2, b, lev, h) == if slot_of(h, lev, w) == s0 {
            slot_entry(n2, r, lev, h)
        } else {
            entry(n0, b, lev, h)
        } by {
        let s = slot_of(h, lev, w);
        if 0 <= s < w && s != s0 {
            assert(slots2[s] == slots[s]);
            assert(slot_entry(n2, slots[s], lev, h) == slot_entry(n0, slots[s], lev, h));
        }
    }
    assert forall|k: K| #[trigger]
        lookup(n2, b, lev, k) == if slot_of(k.digest_spec(), lev, w) == s0 {
            slot_lookup(n2, r, lev, k)
        } else {
            lookup(n0, b, lev, k)
        } by {
        let h = k.digest_spec();
        lemma_slot_in_range(h, lev, w);
        let s = slot_of(h, lev, w);
        assert(entry(n2, b, lev, h) == if s == s0 {
            slot_entry(n2, r, lev, h)
        } else {
            entry(n0, b, lev, h)
        });
        if s != s0 && entry(n0, b, lev, h) is Some {
            let i = entry(n0, b, lev, h)->0;
            assert(slot_ok(n0, slots[s], lev, pfx, w, s, mode));
            lemma_slot_entry_leaf(n0, slots[s], lev, pfx, w, s, mode, h);
            assert(!slot_reach(n0, slots[s0], lev, i));
            assert(!slot_reach(n0, slots[s], lev, b));
            assert(n2[i] == n0[i]);
        }
    }
}

} // verus!
