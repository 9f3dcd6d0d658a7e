//! How the slots of a branch are frozen one by one.

use vstd::prelude::*;
use crate::bits::lemma_slot_in_range;
use crate::frame::lemma_entry_leaf;
use crate::frame::lemma_frame_tree;
use crate::frame::lemma_reach_bound;
use crate::frame::lemma_weaken_slot;
use crate::lockfree_cctrie::TrieKey;
use crate::node::Node;
use crate::node::NodeRef;
use crate::shape::Mode;
use crate::shape::entry;
use crate::shape::extend;
use crate::shape::grown_from;
use crate::shape::kept_outside;
use crate::expanding::expansion_fresh;
use crate::frame::lemma_weaken_tree;
use crate::shape::expanding;
use crate::shape::lookup;
use crate::shape::marker_ok;
use crate::shape::narrow_of;
use crate::shape::reach;
use crate::frame::lemma_settled_twice;
use crate::shape::same_content;
use crate::shape::settled;
use crate::shape::stays;
use crate::shape::slot_lookup;
use crate::shape::slot_ok;
use crate::shape::slot_reach;
use crate::shape::tree;
use crate::update::lemma_install;
use crate::update::lemma_sibling_kept;
use crate::update::slot_replaced;

verus! {

/// What freezing the subtree of `b` leaves behind: the subtree is frozen and
/// holds what it held, a slot of `b` that was empty refers to the marker of a
/// frozen empty slot, and outside the subtree the arena is as it was. A
/// subtree that was frozen is left as it was, and no node is allocated.
pub open spec fn freeze_post<K: TrieKey, V>(
    n0: Seq<Node<K, V>>,
    n2: Seq<Node<K, V>>,
    b: int,
    lev: nat,
    pfx: u64,
) -> bool {
    &&& kept_outside(n0, n2, b, lev)
    &&& tree(n2, b, lev, pfx, Mode::Frozen)
    &&& n2[b]->Branch_0@.len() == n0[b]->Branch_0@.len()
    &&& grown_from(n0, n2, b, b, lev)
    &&& same_content(n0, n2, b, b, lev)
    &&& settled(n0, n2)
    &&& forall|s: int|
        0 <= s < n0[b]->Branch_0@.len() && (#[trigger] n0[b]->Branch_0@[s]) is None ==> marks_empty(
            n2,
            n2[b]->Branch_0@[s],
        )
    &&& forall|s: int|
        0 <= s < n0[b]->Branch_0@.len() ==> frozen_from(
            n0,
            n2,
            #[trigger] n0[b]->Branch_0@[s],
            n2[b]->Branch_0@[s],
        )
    &&& tree(n0, b, lev, pfx, Mode::Frozen) ==> n2 == n0
}

/// Whether the slot content `r` refers to the wrapper of the branch `c`.
pub open spec fn wraps<K, V>(nodes: Seq<Node<K, V>>, r: NodeRef, c: usize) -> bool {
    r is Some && r->0 < nodes.len() && nodes[r->0 as int] is Frozen && nodes[r->0 as int]->inner
        == Some(c)
}

/// Whether `r2` is what freezing makes of a slot that held `r0`: an empty slot
/// refers to the marker of a frozen empty slot; a slot that held a branch
/// refers to the wrapper of that branch; a slot that held a leaf, a marker or
/// a wrapper holds what it held; a slot that held the marker of an expansion
/// refers to the wrapper of the wide branch of that expansion.
pub open spec fn frozen_from<K, V>(
    n0: Seq<Node<K, V>>,
    n2: Seq<Node<K, V>>,
    r0: NodeRef,
    r2: NodeRef,
) -> bool {
    match r0 {
        None => marks_empty(n2, r2),
        Some(c) => if c < n0.len() {
            match n0[c as int] {
                Node::Branch(_) => wraps(n2, r2, c),
                Node::ExpansionInProgress { .. } => widened(n2, c) && wraps(n2, r2, n2[c as int]->wide->0),
                _ => r2 == r0,
            }
        } else {
            true
        },
    }
}

/// Whether `c` is the marker of an expansion that has its wide branch.
pub open spec fn widened<K, V>(nodes: Seq<Node<K, V>>, c: usize) -> bool {
    &&& c < nodes.len()
    &&& nodes[c as int] is ExpansionInProgress
    &&& nodes[c as int]->wide is Some
    &&& nodes[c as int]->wide->0 < nodes.len()
}

/// Whether `rk` is what a slot that held `r0` may hold before it is frozen:
/// what it held; where it held a branch, the wrapper of that branch; where it
/// held the marker of an expansion, the wide branch of that expansion or its
/// wrapper.
pub open spec fn pending_from<K, V>(
    n0: Seq<Node<K, V>>,
    nk: Seq<Node<K, V>>,
    r0: NodeRef,
    rk: NodeRef,
) -> bool {
    ||| rk == r0
    ||| r0 is Some && r0->0 < n0.len() && n0[r0->0 as int] is Branch && wraps(nk, rk, r0->0)
    ||| {
        &&& r0 is Some
        &&& r0->0 < n0.len()
        &&& n0[r0->0 as int] is ExpansionInProgress
        &&& widened(nk, r0->0)
        &&& {
            ||| rk == nk[r0->0 as int]->wide && nk[nk[r0->0 as int]->wide->0 as int] is Branch
            ||| wraps(nk, rk, nk[r0->0 as int]->wide->0)
        }
    }
}

/// Whether the slot content `r` refers to the marker of a frozen empty slot.
pub open spec fn marks_empty<K, V>(nodes: Seq<Node<K, V>>, r: NodeRef) -> bool {
    r is Some && r->0 < nodes.len() && nodes[r->0 as int] is FrozenEmptyMarker
}

/// What holds while the branch `b` is frozen, before its slot `i` is visited:
/// the slots before `i` are frozen, the subtree is a trie and holds what it
/// held in `n0`, and outside it the arena is as it was in `n0`.
pub open spec fn freeze_inv<K: TrieKey, V>(
    n0: Seq<Node<K, V>>,
    nk: Seq<Node<K, V>>,
    b: int,
    lev: nat,
    pfx: u64,
    i: int,
) -> bool {
    &&& tree(n0, b, lev, pfx, Mode::Mixed)
    &&& tree(nk, b, lev, pfx, Mode::Mixed)
    &&& nk[b]->Branch_0@.len() == n0[b]->Branch_0@.len()
    &&& 0 <= i <= nk[b]->Branch_0@.len()
    &&& forall|s: int|
        0 <= s < i ==> slot_ok(
            nk,
            #[trigger] nk[b]->Branch_0@[s],
            lev,
            pfx,
            nk[b]->Branch_0@.len(),
            s,
            Mode::Frozen,
        )
    &&& kept_outside(n0, nk, b, lev)
    &&& grown_from(n0, nk, b, b, lev)
    &&& same_content(n0, nk, b, b, lev)
    &&& settled(n0, nk)
    &&& forall|s: int|
        0 <= s < nk[b]->Branch_0@.len() ==> if s < i {
            frozen_from(n0, nk, #[trigger] n0[b]->Branch_0@[s], nk[b]->Branch_0@[s])
        } else {
            pending_from(n0, nk, n0[b]->Branch_0@[s], nk[b]->Branch_0@[s])
        }
    &&& tree(n0, b, lev, pfx, Mode::Frozen) ==> nk == n0
}

/// How many steps a slot is from being frozen or ready to be frozen: 2 where
/// its content refers to an expansion marker, 1 where it refers to a branch, 0
/// where to anything else.
pub open spec fn rawness<K, V>(nodes: Seq<Node<K, V>>, r: NodeRef) -> nat {
    if r is Some && r->0 < nodes.len() && nodes[r->0 as int] is ExpansionInProgress {
        2
    } else if r is Some && r->0 < nodes.len() && nodes[r->0 as int] is Branch {
        1
    } else {
        0
    }
}

/// Once every slot is frozen, so is the branch.
pub proof fn lemma_freeze_done<K: TrieKey, V>(
    n0: Seq<Node<K, V>>,
    nk: Seq<Node<K, V>>,
    b: int,
    lev: nat,
    pfx: u64,
)
    requires
        freeze_inv(n0, nk, b, lev, pfx, nk[b]->Branch_0@.len() as int),
    ensures
        freeze_post(n0, nk, b, lev, pfx),
{
    assert forall|s: int|
        0 <= s < n0[b]->Branch_0@.len() && (#[trigger] n0[b]->Branch_0@[s]) is None implies marks_empty(
        nk,
        nk[b]->Branch_0@[s],
    ) by {
        assert(frozen_from(n0, nk, n0[b]->Branch_0@[s], nk[b]->Branch_0@[s]));
    }
}

/// One step on the slot `i`: the slot, or what it refers to, has changed, and
/// holds what it held. With `done`, the slot is frozen now.
pub proof fn lemma_frozen_step<K: TrieKey, V>(
    n0: Seq<Node<K, V>>,
    nk: Seq<Node<K, V>>,
    nn: Seq<Node<K, V>>,
    b: int,
    lev: nat,
    pfx: u64,
    i: int,
    r: NodeRef,
    done: bool,
)
    requires
        freeze_inv(n0, nk, b, lev, pfx, i),
        i < nk[b]->Branch_0@.len(),
        slot_replaced(nk, nn, b, lev, i, r),
        slot_ok(nn, r, lev, pfx, nk[b]->Branch_0@.len(), i, Mode::Mixed),
        marker_ok(nn, b, r),
        done ==> slot_ok(nn, r, lev, pfx, nk[b]->Branch_0@.len(), i, Mode::Frozen),
        forall|k: K| #[trigger]
            slot_lookup(nn, r, lev, k) == slot_lookup(nk, nk[b]->Branch_0@[i], lev, k),
        settled(nk, nn),
        done ==> frozen_from(n0, nn, n0[b]->Branch_0@[i], r),
        !done ==> pending_from(n0, nn, n0[b]->Branch_0@[i], r),
        slot_ok(nk, nk[b]->Branch_0@[i], lev, pfx, nk[b]->Branch_0@.len(), i, Mode::Frozen) ==> nn
            == nk,
    ensures
        freeze_inv(
            n0,
            nn,
            b,
            lev,
            pfx,
            if done {
                i + 1
            } else {
                i
            },
        ),
{
    let slots = nk[b]->Branch_0@;
    let w = slots.len();
    lemma_install(nk, nn, b, lev, pfx, Mode::Mixed, i, r);
    assert forall|s: int| 0 <= s < i implies slot_ok(
        nn,
        #[trigger] nn[b]->Branch_0@[s],
        lev,
        pfx,
        w,
        s,
        Mode::Frozen,
    ) by {
        assert(slot_ok(nk, slots[s], lev, pfx, w, s, Mode::Frozen));
        lemma_sibling_kept(nk, nn, b, lev, pfx, Mode::Mixed, i, r, s, Mode::Frozen);
    }
    assert(reach(n0, b, lev, b));
    assert forall|x: int| 0 <= x < n0.len() && !reach(n0, b, lev, x) implies #[trigger] nn[x]
        == n0[x] by {
        if slot_reach(nk, slots[i], lev, x) {
            assert(reach(nk, b, lev, x));
        }
    }
    assert forall|x: int| #[trigger] reach(nn, b, lev, x) implies x >= n0.len() || reach(
        n0,
        b,
        lev,
        x,
    ) by {
        if x < nk.len() {
            assert(reach(nk, b, lev, x));
        }
    }
    assert forall|k: K| #[trigger] lookup(nn, b, lev, k) == lookup(n0, b, lev, k) by {
        lemma_slot_in_range(k.digest_spec(), lev, w);
        assert(lookup(nk, b, lev, k) == lookup(n0, b, lev, k));
    }
    let next = if done {
        i + 1
    } else {
        i
    };
    lemma_settled_twice(n0, nk, nn);
    assert forall|s: int| 0 <= s < w implies if s < next {
        frozen_from(n0, nn, #[trigger] n0[b]->Branch_0@[s], nn[b]->Branch_0@[s])
    } else {
        pending_from(n0, nn, n0[b]->Branch_0@[s], nn[b]->Branch_0@[s])
    } by {
        if s != i {
            assert(slot_ok(nk, slots[s], lev, pfx, w, s, Mode::Mixed));
            lemma_sibling_kept(nk, nn, b, lev, pfx, Mode::Mixed, i, r, s, Mode::Mixed);
            if slots[s] is Some {
                let m = slots[s]->0 as int;
                assert(slot_reach(nk, slots[s], lev, m));
                assert(!slot_reach(nk, slots[i], lev, m));
                assert(!slot_reach(nk, slots[s], lev, b));
                assert(nn[m] == nk[m]);
            }
            if s < i {
                assert(frozen_from(n0, nk, n0[b]->Branch_0@[s], nk[b]->Branch_0@[s]));
            } else {
                assert(pending_from(n0, nk, n0[b]->Branch_0@[s], nk[b]->Branch_0@[s]));
            }
        }
    }
    if tree(n0, b, lev, pfx, Mode::Frozen) {
        assert(slot_ok(n0, n0[b]->Branch_0@[i], lev, pfx, w, i, Mode::Frozen));
    }
}

/// The empty slot `i` has taken the new marker `m`.
pub proof fn lemma_freeze_empty<K: TrieKey, V>(
    n0: Seq<Node<K, V>>,
    nk: Seq<Node<K, V>>,
    nn: Seq<Node<K, V>>,
    b: int,
    lev: nat,
    pfx: u64,
    i: int,
    m: usize,
)
    requires
        freeze_inv(n0, nk, b, lev, pfx, i),
        i < nk[b]->Branch_0@.len(),
        nk[b]->Branch_0@[i] is None,
        m == nk.len(),
        nn.len() == nk.len() + 1,
        nn[m as int] is FrozenEmptyMarker,
        forall|x: int| 0 <= x < nk.len() && x != b ==> nn[x] == nk[x],
        nn[b] is Branch,
        nn[b]->Branch_0@ == nk[b]->Branch_0@.update(i, Some(m)),
    ensures
        freeze_inv(n0, nn, b, lev, pfx, i + 1),
{
    assert(pending_from(n0, nk, n0[b]->Branch_0@[i], nk[b]->Branch_0@[i]));
    assert(stays(nk[b], nn[b]));
    assert(settled(nk, nn));
    lemma_frozen_step(n0, nk, nn, b, lev, pfx, i, Some(m), true);
}

/// The transaction of the leaf `c` in the slot `i` has taken the new marker `f`.
pub proof fn lemma_freeze_leaf<K: TrieKey, V>(
    n0: Seq<Node<K, V>>,
    nk: Seq<Node<K, V>>,
    nn: Seq<Node<K, V>>,
    b: int,
    lev: nat,
    pfx: u64,
    i: int,
    c: usize,
    f: usize,
)
    requires
        freeze_inv(n0, nk, b, lev, pfx, i),
        i < nk[b]->Branch_0@.len(),
        nk[b]->Branch_0@[i] == Some(c),
        c < nk.len(),
        nk[c as int] is Leaf,
        nk[c as int]->transaction is Some,
        nk[c as int]->transaction->0 < nk.len(),
        nk[nk[c as int]->transaction->0 as int] is NoTransaction,
        f == nk.len(),
        nn.len() == nk.len() + 1,
        nn[f as int] is FrozenLeafMarker,
        forall|x: int| 0 <= x < nk.len() && x != c ==> nn[x] == nk[x],
        nn[c as int] is Leaf,
        nn[c as int]->Leaf_hash == nk[c as int]->Leaf_hash,
        nn[c as int]->key == nk[c as int]->key,
        nn[c as int]->value == nk[c as int]->value,
        nn[c as int]->transaction == Some(f),
    ensures
        freeze_inv(n0, nn, b, lev, pfx, i + 1),
{
    let slots = nk[b]->Branch_0@;
    let w = slots.len();
    let r = Some(c);
    assert(slot_ok(nk, slots[i], lev, pfx, w, i, Mode::Mixed));
    assert(slot_reach(nk, slots[i], lev, c as int));
    assert(!slot_reach(nk, slots[i], lev, b));
    assert(nn[b]->Branch_0@ =~= slots.update(i, r));
    assert(pending_from(n0, nk, n0[b]->Branch_0@[i], slots[i]));
    if c < n0.len() {
        assert(stays(n0[c as int], nk[c as int]));
    }
    assert(stays(nk[c as int], nn[c as int]));
    assert(settled(nk, nn));
    lemma_frozen_step(n0, nk, nn, b, lev, pfx, i, r, true);
}

/// The slot `i` is frozen already.
pub proof fn lemma_freeze_kept<K: TrieKey, V>(
    n0: Seq<Node<K, V>>,
    nk: Seq<Node<K, V>>,
    b: int,
    lev: nat,
    pfx: u64,
    i: int,
)
    requires
        freeze_inv(n0, nk, b, lev, pfx, i),
        i < nk[b]->Branch_0@.len(),
        slot_ok(nk, nk[b]->Branch_0@[i], lev, pfx, nk[b]->Branch_0@.len(), i, Mode::Frozen),
    ensures
        freeze_inv(n0, nk, b, lev, pfx, i + 1),
{
    let r0 = n0[b]->Branch_0@[i];
    let rk = nk[b]->Branch_0@[i];
    assert(pending_from(n0, nk, r0, rk));
    if rk is Some && r0 is Some && r0->0 < n0.len() {
        assert(stays(n0[r0->0 as int], nk[r0->0 as int]));
    }
    assert(frozen_from(n0, nk, r0, rk));
    assert forall|s: int| 0 <= s < nk[b]->Branch_0@.len() implies if s < i + 1 {
        frozen_from(n0, nk, #[trigger] n0[b]->Branch_0@[s], nk[b]->Branch_0@[s])
    } else {
        pending_from(n0, nk, n0[b]->Branch_0@[s], nk[b]->Branch_0@[s])
    } by {
        if s < i {
            assert(frozen_from(n0, nk, n0[b]->Branch_0@[s], nk[b]->Branch_0@[s]));
        } else if s > i {
            assert(pending_from(n0, nk, n0[b]->Branch_0@[s], nk[b]->Branch_0@[s]));
        }
    }
}

/// The slot `i`, which held the branch `c`, has taken the new wrapper `f` of `c`.
pub proof fn lemma_freeze_wrap<K: TrieKey, V>(
    n0: Seq<Node<K, V>>,
    nk: Seq<Node<K, V>>,
    nn: Seq<Node<K, V>>,
    b: int,
    lev: nat,
    pfx: u64,
    i: int,
    c: usize,
    f: usize,
)
    requires
        freeze_inv(n0, nk, b, lev, pfx, i),
        i < nk[b]->Branch_0@.len(),
        nk[b]->Branch_0@[i] == Some(c),
        c < nk.len(),
        nk[c as int] is Branch,
        f == nk.len(),
        nn.len() == nk.len() + 1,
        nn[f as int] is Frozen,
        nn[f as int]->inner == Some(c),
        forall|x: int| 0 <= x < nk.len() && x != b ==> nn[x] == nk[x],
        nn[b] is Branch,
        nn[b]->Branch_0@ == nk[b]->Branch_0@.update(i, Some(f)),
    ensures
        freeze_inv(n0, nn, b, lev, pfx, i),
        rawness(nn, nn[b]->Branch_0@[i]) < rawness(nk, nk[b]->Branch_0@[i]),
{
    let slots = nk[b]->Branch_0@;
    let w = slots.len();
    let r = Some(f);
    let q = extend(pfx, lev, i);
    assert(slot_ok(nk, slots[i], lev, pfx, w, i, Mode::Mixed));
    assert(!slot_reach(nk, slots[i], lev, b));
    assert forall|x: int| #[trigger] reach(nk, c as int, lev + 4, x) implies nn[x] == nk[x] by {
        lemma_reach_bound(nk, c as int, lev + 4, q, Mode::Mixed, x);
        assert(slot_reach(nk, slots[i], lev, x));
    }
    lemma_frame_tree(nk, nn, c as int, lev + 4, q, Mode::Mixed);
    assert(reach(nn, c as int, lev + 4, f as int) == reach(nk, c as int, lev + 4, f as int));
    if reach(nk, c as int, lev + 4, f as int) {
        lemma_reach_bound(nk, c as int, lev + 4, q, Mode::Mixed, f as int);
    }
    assert forall|x: int| #[trigger]
        slot_reach(nn, r, lev, x) implies x != b && (x >= nk.len() || slot_reach(
        nk,
        slots[i],
        lev,
        x,
    )) by {
        if x != f {
            assert(reach(nn, c as int, lev + 4, x) == reach(nk, c as int, lev + 4, x));
        }
    }
    assert forall|k: K| #[trigger] slot_lookup(nn, r, lev, k) == slot_lookup(nk, slots[i], lev, k) by {
        let hk = k.digest_spec();
        assert(entry(nn, c as int, lev + 4, hk) == entry(nk, c as int, lev + 4, hk));
        if entry(nk, c as int, lev + 4, hk) is Some {
            lemma_entry_leaf(nk, c as int, lev + 4, q, Mode::Mixed, hk);
            let l = entry(nk, c as int, lev + 4, hk)->0;
            assert(reach(nk, c as int, lev + 4, l));
        }
    }
    assert(pending_from(n0, nk, n0[b]->Branch_0@[i], slots[i]));
    if c < n0.len() {
        assert(stays(n0[c as int], nk[c as int]));
    }
    assert(stays(nk[b], nn[b]));
    assert(settled(nk, nn));
    lemma_frozen_step(n0, nk, nn, b, lev, pfx, i, r, false);
}

/// The branch `j`, wrapped by what the slot `i` holds, has been frozen.
pub proof fn lemma_freeze_inner<K: TrieKey, V>(
    n0: Seq<Node<K, V>>,
    nk: Seq<Node<K, V>>,
    nn: Seq<Node<K, V>>,
    b: int,
    lev: nat,
    pfx: u64,
    i: int,
    c: usize,
    j: usize,
)
    requires
        freeze_inv(n0, nk, b, lev, pfx, i),
        i < nk[b]->Branch_0@.len(),
        nk[b]->Branch_0@[i] == Some(c),
        c < nk.len(),
        nk[c as int] is Frozen,
        nk[c as int]->inner == Some(j),
        freeze_post(nk, nn, j as int, lev + 4, extend(pfx, lev, i)),
    ensures
        freeze_inv(n0, nn, b, lev, pfx, i + 1),
{
    let slots = nk[b]->Branch_0@;
    let w = slots.len();
    let r = Some(c);
    let q = extend(pfx, lev, i);
    assert(slot_ok(nk, slots[i], lev, pfx, w, i, Mode::Mixed));
    assert(!slot_reach(nk, slots[i], lev, b));
    assert(slot_reach(nk, slots[i], lev, c as int));
    assert(!reach(nk, j as int, lev + 4, b));
    assert(nn[b] == nk[b]);
    assert(nn[c as int] == nk[c as int]);
    assert(nn[b]->Branch_0@ =~= slots.update(i, r));
    assert forall|x: int|
        0 <= x < nk.len() && x != b && !slot_reach(nk, slots[i], lev, x) implies #[trigger] nn[x]
        == nk[x] by {
        assert(!reach(nk, j as int, lev + 4, x));
    }
    assert forall|x: int| #[trigger]
        slot_reach(nn, r, lev, x) implies x != b && (x >= nk.len() || slot_reach(
        nk,
        slots[i],
        lev,
        x,
    )) by {
        if x != c {
            assert(reach(nn, j as int, lev + 4, x));
            if x < nk.len() {
                assert(reach(nk, j as int, lev + 4, x));
            }
        }
    }
    assert(!reach(nn, j as int, lev + 4, c as int)) by {
        if reach(nn, j as int, lev + 4, c as int) {
            assert(reach(nk, j as int, lev + 4, c as int));
        }
    }
    assert(slot_ok(nn, r, lev, pfx, w, i, Mode::Frozen));
    lemma_weaken_slot(nn, r, lev, pfx, w, i, Mode::Frozen);
    assert forall|k: K| #[trigger] slot_lookup(nn, r, lev, k) == slot_lookup(nk, slots[i], lev, k) by {
        assert(lookup(nn, j as int, lev + 4, k) == lookup(nk, j as int, lev + 4, k));
    }
    assert(pending_from(n0, nk, n0[b]->Branch_0@[i], slots[i]));
    if c < n0.len() {
        assert(stays(n0[c as int], nk[c as int]));
    }
    lemma_frozen_step(n0, nk, nn, b, lev, pfx, i, r, true);
}

/// The expansion whose marker `c` the slot `i` holds can be completed.
pub proof fn lemma_freeze_help<K: TrieKey, V>(
    n0: Seq<Node<K, V>>,
    nk: Seq<Node<K, V>>,
    b: int,
    lev: nat,
    pfx: u64,
    i: int,
    c: usize,
)
    requires
        freeze_inv(n0, nk, b, lev, pfx, i),
        i < nk[b]->Branch_0@.len(),
        nk[b]->Branch_0@[i] == Some(c),
        c < nk.len(),
        nk[c as int] is ExpansionInProgress,
    ensures
        expanding(nk, c, extend(pfx, lev, i)),
        nk[c as int]->level == lev + 4,
{
    let slots = nk[b]->Branch_0@;
    let w = slots.len();
    assert(slot_ok(nk, slots[i], lev, pfx, w, i, Mode::Mixed));
    assert(marker_ok(nk, b, slots[i]));
    assert(!slot_reach(nk, slots[i], lev, b));
    assert(slot_reach(nk, slots[i], lev, c as int));
}

/// The expansion whose marker `c` the slot `i` held is complete: the slot
/// holds the wide branch.
pub proof fn lemma_freeze_helped<K: TrieKey, V>(
    n0: Seq<Node<K, V>>,
    nk: Seq<Node<K, V>>,
    nn: Seq<Node<K, V>>,
    b: int,
    lev: nat,
    pfx: u64,
    i: int,
    c: usize,
)
    requires
        freeze_inv(n0, nk, b, lev, pfx, i),
        i < nk[b]->Branch_0@.len(),
        nk[b]->Branch_0@[i] == Some(c),
        c < nk.len(),
        nk[c as int] is ExpansionInProgress,
        expansion_fresh(nk, nn, c, extend(pfx, lev, i)),
        settled(nk, nn),
    ensures
        freeze_inv(n0, nn, b, lev, pfx, i),
        rawness(nn, nn[b]->Branch_0@[i]) < rawness(nk, nk[b]->Branch_0@[i]),
{
    let slots = nk[b]->Branch_0@;
    let w = slots.len();
    let q = extend(pfx, lev, i);
    let nr = narrow_of(nk[c as int]);
    let wide = nn[c as int]->wide->0;
    let r = Some(wide);
    lemma_freeze_help(n0, nk, b, lev, pfx, i, c);
    assert(slot_ok(nk, slots[i], lev, pfx, w, i, Mode::Mixed));
    assert(!slot_reach(nk, slots[i], lev, b));
    assert(slot_reach(nk, slots[i], lev, c as int));
    assert forall|x: int|
        0 <= x < nk.len() && x != b && !slot_reach(nk, slots[i], lev, x) implies #[trigger] nn[x]
        == nk[x] by {
        assert(!reach(nk, nr, lev + 4, x));
    }
    assert forall|x: int| #[trigger]
        slot_reach(nn, r, lev, x) implies x != b && (x >= nk.len() || slot_reach(
        nk,
        slots[i],
        lev,
        x,
    )) by {
        assert(reach(nn, wide as int, lev + 4, x));
    }
    lemma_weaken_tree(nn, wide as int, lev + 4, q, Mode::Clean);
    assert forall|k: K| #[trigger] slot_lookup(nn, r, lev, k) == slot_lookup(nk, slots[i], lev, k) by {
        assert(lookup(nn, wide as int, lev + 4, k) == lookup(nk, nr, lev + 4, k));
    }
    assert(pending_from(n0, nk, n0[b]->Branch_0@[i], slots[i]));
    if c < n0.len() {
        assert(stays(n0[c as int], nk[c as int]));
    }
    lemma_frozen_step(n0, nk, nn, b, lev, pfx, i, r, false);
}

} // verus!
