//! What an insertion leaves behind, case by case.

use vstd::prelude::*;
use crate::bits::lemma_slot_in_range;
use crate::expanding::expansion_fresh;
use crate::frame::lemma_entry_leaf;
use crate::frame::lemma_frame_tree;
use crate::frame::lemma_reach_bound;
use crate::frame::lemma_weaken_tree;
use crate::lockfree_cctrie::TrieKey;
use crate::node::Node;
use crate::node::NodeRef;
use crate::protocol::Outcome;
use crate::shape::Mode;
use crate::shape::attached;
use crate::shape::clash;
use crate::shape::clash_with;
use crate::shape::content_with;
use crate::shape::entry;
use crate::shape::expanding;
use crate::shape::extend;
use crate::shape::grown_from;
use crate::shape::lookup;
use crate::shape::marker_ok;
use crate::frame::lemma_clean_is_free;
use crate::shape::narrow_of;
use crate::shape::obstacle;
use crate::shape::low_bits;
use crate::shape::reach;
use crate::shape::root_after;
use crate::shape::same_content;
use crate::shape::slot_lookup;
use crate::shape::slot_of;
use crate::shape::slot_ok;
use crate::shape::slot_reach;
use crate::shape::tree;
use crate::update::lemma_install;
use crate::update::slot_replaced;

verus! {

/// 1 for a branch of 4 slots, 0 for any other node.
pub open spec fn narrowness<K, V>(node: Node<K, V>) -> nat {
    if node is Branch && node->Branch_0@.len() == 4 {
        1
    } else {
        0
    }
}

/// Whether the slot `s0` of the branch `cur` has taken a new leaf for `key`
/// with `val`, whose transaction refers to a `NoTransaction` node.
pub open spec fn took_leaf<K, V>(
    n0: Seq<Node<K, V>>,
    n2: Seq<Node<K, V>>,
    cur: int,
    s0: int,
    h: u64,
    key: K,
    val: V,
) -> bool {
    let r = n2[cur]->Branch_0@[s0];
    &&& n2[cur] is Branch
    &&& n2[cur]->Branch_0@ == n0[cur]->Branch_0@.update(s0, r)
    &&& r is Some
    &&& n0.len() <= r->0 < n2.len()
    &&& n2[r->0 as int] is Leaf
    &&& n2[r->0 as int]->Leaf_hash == h
    &&& n2[r->0 as int]->key == key
    &&& n2[r->0 as int]->value == val
    &&& n2[r->0 as int]->transaction is Some
    &&& n2[r->0 as int]->transaction->0 < n2.len()
    &&& n2[n2[r->0 as int]->transaction->0 as int] is NoTransaction
}

/// Whether the slot `s0` of the branch `cur` has taken a new branch.
pub open spec fn took_branch<K, V>(n0: Seq<Node<K, V>>, n2: Seq<Node<K, V>>, cur: int, s0: int) -> bool {
    let r = n2[cur]->Branch_0@[s0];
    &&& n2[cur] is Branch
    &&& n2[cur]->Branch_0@ == n0[cur]->Branch_0@.update(s0, r)
    &&& r is Some
    &&& n0.len() <= r->0 < n2.len()
    &&& n2[r->0 as int] is Branch
}

/// Every node of `n0` but `a` and `b` is in `n2` as it was.
pub open spec fn kept_but<K, V>(n0: Seq<Node<K, V>>, n2: Seq<Node<K, V>>, a: int, b: int) -> bool {
    forall|x: int| 0 <= x < n0.len() && x != a && x != b ==> #[trigger] n2[x] == n0[x]
}

/// What an insertion does where the slot that `cur` gives to `h` is where it
/// ends: an empty slot takes a new leaf, and nothing else changes; a leaf with
/// the same key is superseded by a new leaf, to which its transaction and the
/// slot refer; a leaf with another key and the same digest is left with the
/// whole arena as it was; a leaf with another key and another digest gives its
/// place in a branch of 16 slots to a new branch, to which its transaction and
/// the slot refer.
pub open spec fn direct_post<K, V>(
    n0: Seq<Node<K, V>>,
    n2: Seq<Node<K, V>>,
    cur: int,
    lev: nat,
    h: u64,
    key: K,
    val: V,
) -> bool {
    let slots = n0[cur]->Branch_0@;
    let s0 = slot_of(h, lev, slots.len());
    match slots[s0] {
        None => took_leaf(n0, n2, cur, s0, h, key, val) && kept_but(n0, n2, cur, cur),
        Some(i) => if n0[i as int] is Leaf && n0[i as int]->transaction is Some && n0[n0[i as int]->transaction->0 as int]
            is NoTransaction {
            if n0[i as int]->key == key {
                &&& took_leaf(n0, n2, cur, s0, h, key, val)
                &&& n2[i as int]->transaction == n2[cur]->Branch_0@[s0]
                &&& kept_but(n0, n2, cur, i as int)
            } else if n0[i as int]->Leaf_hash == h {
                n2 == n0
            } else if slots.len() == 16 {
                &&& took_branch(n0, n2, cur, s0)
                &&& n2[i as int]->transaction == n2[cur]->Branch_0@[s0]
                &&& kept_but(n0, n2, cur, i as int)
            } else {
                true
            }
        } else {
            true
        },
    }
}

/// What an insertion of `key` with `val` into the subtree of `cur` leaves behind.
///
/// The branch that now stands where `cur` stood is a trie as before; it is
/// `cur`, or a new branch in the parent's slot. Outside the subtree and that
/// slot the arena is as it was.
/// - `Done`: no other key with the digest of `key` was in the subtree, and the
///   subtree holds `val` for `key` and, for every other key, what it held.
/// - `Blocked`: another key with the digest of `key` is in the subtree, which
///   holds what it held.
/// - `Retry`: exactly where a frozen leaf, the marker of a frozen empty slot,
///   the wrapper of a frozen branch or the marker of an expansion stands on the
///   path of `h`. The subtree holds what it held; where what stands in the way
///   is frozen, the arena is as it was.
pub open spec fn insert_post<K: TrieKey, V>(
    n0: Seq<Node<K, V>>,
    n2: Seq<Node<K, V>>,
    cur: usize,
    prev: Option<usize>,
    lev: nat,
    pfx: u64,
    mode: Mode,
    h: u64,
    key: K,
    val: V,
    out: Outcome,
) -> bool {
    let c2 = root_after(n2, prev, cur, lev, h);
    &&& n0.len() <= n2.len()
    &&& forall|x: int|
        0 <= x < n0.len() && !reach(n0, cur as int, lev, x) && !(prev is Some && prev->0 == x)
            ==> #[trigger] n2[x] == n0[x]
    &&& prev is Some ==> n2[prev->0 as int] is Branch && n2[prev->0 as int]->Branch_0@
        == n0[prev->0 as int]->Branch_0@.update(slot_of(h, (lev - 4) as nat, 16), Some(c2 as usize))
    &&& c2 == cur || (n0.len() <= c2 <= usize::MAX && prev is Some)
    &&& tree(n2, c2, lev, pfx, mode)
    &&& prev is None ==> n2[cur as int]->Branch_0@.len() == 16
    &&& grown_from(n0, n2, cur as int, c2, lev)
    &&& out is Done ==> !clash(n0, cur as int, lev, key) && content_with(
        n0,
        n2,
        cur as int,
        c2,
        lev,
        key,
        val,
    )
    &&& out is Blocked ==> clash(n0, cur as int, lev, key) && same_content(
        n0,
        n2,
        cur as int,
        c2,
        lev,
    )
    &&& out is Retry <==> obstacle(n0, cur as int, lev, h) is Some
    &&& out is Retry ==> same_content(n0, n2, cur as int, c2, lev)
    &&& obstacle(n0, cur as int, lev, h) is Some && !(n0[obstacle(n0, cur as int, lev, h)->0]
        is ExpansionInProgress) ==> n2 == n0
}

/// Where only the subtree of `b` changed, its parent is as it was and holds `b`.
pub proof fn lemma_kept<K: TrieKey, V>(
    n0: Seq<Node<K, V>>,
    n2: Seq<Node<K, V>>,
    b: usize,
    lev: nat,
    pfx: u64,
    mode: Mode,
    s0: int,
    r: NodeRef,
    prev: Option<usize>,
    h: u64,
)
    requires
        tree(n0, b as int, lev, pfx, mode),
        attached(n0, prev, b, lev, h),
        slot_replaced(n0, n2, b as int, lev, s0, r),
    ensures
        root_after(n2, prev, b, lev, h) == b,
        forall|x: int|
            0 <= x < n0.len() && !reach(n0, b as int, lev, x) && !(prev is Some && prev->0 == x)
                ==> #[trigger] n2[x] == n0[x],
        prev is Some ==> n2[prev->0 as int] is Branch && n2[prev->0 as int]->Branch_0@
            == n0[prev->0 as int]->Branch_0@.update(slot_of(h, (lev - 4) as nat, 16), Some(b)),
        prev is None ==> n2[b as int]->Branch_0@.len() == 16,
{
    assert forall|x: int|
        0 <= x < n0.len() && !reach(n0, b as int, lev, x) implies !slot_reach(
        n0,
        n0[b as int]->Branch_0@[s0],
        lev,
        x,
    ) by {
        if slot_reach(n0, n0[b as int]->Branch_0@[s0], lev, x) {
            assert(reach(n0, b as int, lev, x));
        }
    }
    if prev is Some {
        let p = prev->0 as int;
        lemma_slot_in_range(h, (lev - 4) as nat, 16);
        assert(n2[p] == n0[p]);
        assert(n2[p]->Branch_0@ =~= n0[p]->Branch_0@.update(slot_of(h, (lev - 4) as nat, 16), Some(b)));
    }
}

/// What holds once the slot `s0` of the branch `b` has taken the new leaf `sn`
/// for `key` in place of nothing or of a leaf with the same key.
pub proof fn lemma_stored<K: TrieKey, V>(
    n0: Seq<Node<K, V>>,
    n2: Seq<Node<K, V>>,
    b: usize,
    lev: nat,
    pfx: u64,
    mode: Mode,
    s0: int,
    sn: usize,
    prev: Option<usize>,
    h: u64,
    key: K,
    val: V,
)
    requires
        tree(n0, b as int, lev, pfx, mode),
        !(mode is Frozen),
        attached(n0, prev, b, lev, h),
        slot_replaced(n0, n2, b as int, lev, s0, Some(sn)),
        h == key.digest_spec(),
        low_bits(h, lev) == pfx,
        s0 == slot_of(h, lev, n0[b as int]->Branch_0@.len()),
        sn >= n0.len(),
        sn < n2.len(),
        n2[sn as int] is Leaf,
        n2[sn as int]->Leaf_hash == h,
        n2[sn as int]->key == key,
        n2[sn as int]->value == val,
        n2[sn as int]->transaction is Some,
        n0.len() <= n2[sn as int]->transaction->0 < n2.len(),
        n2[n2[sn as int]->transaction->0 as int] is NoTransaction,
        n0[b as int]->Branch_0@[s0] is Some ==> {
            let i = n0[b as int]->Branch_0@[s0]->0 as int;
            n0[i] is Leaf && n0[i]->key == key && n0[n0[i]->transaction->0 as int] is NoTransaction
        },
    ensures
        insert_post(n0, n2, b, prev, lev, pfx, mode, h, key, val, Outcome::Done),
{
    let w = n0[b as int]->Branch_0@.len();
    let r = Some(sn);
    assert(slot_ok(n2, r, lev, pfx, w, s0, mode));
    assert(slot_ok(n0, n0[b as int]->Branch_0@[s0], lev, pfx, w, s0, mode));
    lemma_install(n0, n2, b as int, lev, pfx, mode, s0, r);
    assert forall|k: K| #[trigger]
        lookup(n2, b as int, lev, k) == if k == key {
            Some(val)
        } else {
            lookup(n0, b as int, lev, k)
        } by {
        lemma_slot_in_range(k.digest_spec(), lev, w);
    }
    assert forall|other: K| !#[trigger] clash_with(n0, b as int, lev, key, other) by {
        lemma_slot_in_range(other.digest_spec(), lev, w);
    }
    lemma_kept(n0, n2, b, lev, pfx, mode, s0, Some(sn), prev, h);
}

/// An insertion into the child in the slot of the hash is an insertion into
/// the branch.
pub proof fn lemma_descended<K: TrieKey, V>(
    n0: Seq<Node<K, V>>,
    n2: Seq<Node<K, V>>,
    cur: usize,
    prev: Option<usize>,
    lev: nat,
    pfx: u64,
    mode: Mode,
    h: u64,
    key: K,
    val: V,
    out: Outcome,
    i: usize,
)
    requires
        tree(n0, cur as int, lev, pfx, mode),
        !(mode is Frozen),
        attached(n0, prev, cur, lev, h),
        h == key.digest_spec(),
        low_bits(h, lev) == pfx,
        n0[cur as int]->Branch_0@[slot_of(h, lev, n0[cur as int]->Branch_0@.len())] == Some(i),
        i < n0.len(),
        n0[i as int] is Branch,
        insert_post(
            n0,
            n2,
            i,
            Some(cur),
            lev + 4,
            extend(pfx, lev, slot_of(h, lev, n0[cur as int]->Branch_0@.len())),
            mode,
            h,
            key,
            val,
            out,
        ),
    ensures
        insert_post(n0, n2, cur, prev, lev, pfx, mode, h, key, val, out),
{
    let b = cur as int;
    let w = n0[b]->Branch_0@.len();
    lemma_slot_in_range(h, lev, w);
    let pos = slot_of(h, lev, w);
    let q = extend(pfx, lev, pos);
    assert(slot_ok(n0, n0[b]->Branch_0@[pos], lev, pfx, w, pos, mode));
    assert(w == 16);
    assert(obstacle(n0, b, lev, h) == obstacle(n0, i as int, lev + 4, h));
    let c2 = root_after(n2, Some(cur), i, lev + 4, h);
    assert(c2 == n2[b]->Branch_0@[pos]->0);
    let r = Some(c2 as usize);
    assert(!slot_reach(n0, n0[b]->Branch_0@[pos], lev, b));
    assert forall|x: int| #[trigger]
        slot_reach(n2, r, lev, x) implies x != b && (x >= n0.len() || slot_reach(
        n0,
        n0[b]->Branch_0@[pos],
        lev,
        x,
    )) by {
        assert(reach(n2, c2, lev + 4, x));
        if x < n0.len() {
            assert(reach(n0, i as int, lev + 4, x));
        }
    }
    assert forall|x: int|
        0 <= x < n0.len() && x != b && !slot_reach(n0, n0[b]->Branch_0@[pos], lev, x) implies #[trigger] n2[x]
        == n0[x] by {
        assert(!reach(n0, i as int, lev + 4, x));
    }
    assert(slot_replaced(n0, n2, b, lev, pos, r));
    assert(slot_ok(n2, r, lev, pfx, w, pos, mode));
    lemma_install(n0, n2, b, lev, pfx, mode, pos, r);
    lemma_kept(n0, n2, cur, lev, pfx, mode, pos, r, prev, h);
    assert forall|other: K| #[trigger]
        clash_with(n0, b, lev, key, other) == clash_with(n0, i as int, lev + 4, key, other) by {}
    assert(clash(n0, b, lev, key) == clash(n0, i as int, lev + 4, key)) by {
        if clash(n0, b, lev, key) {
            let other = choose|other: K| #[trigger] clash_with(n0, b, lev, key, other);
            assert(clash_with(n0, i as int, lev + 4, key, other));
        }
        if clash(n0, i as int, lev + 4, key) {
            let other = choose|other: K| #[trigger] clash_with(n0, i as int, lev + 4, key, other);
            assert(clash_with(n0, b, lev, key, other));
        }
    }
    assert forall|k: K| #[trigger]
        lookup(n2, b, lev, k) == if slot_of(k.digest_spec(), lev, w) == pos {
            lookup(n2, c2, lev + 4, k)
        } else {
            lookup(n0, b, lev, k)
        } by {}
    assert forall|k: K|
        slot_of(k.digest_spec(), lev, w) == pos implies #[trigger] lookup(n0, b, lev, k) == lookup(
        n0,
        i as int,
        lev + 4,
        k,
    ) by {}
    if out is Done {
        assert forall|k: K| #[trigger]
            lookup(n2, b, lev, k) == if k == key {
                Some(val)
            } else {
                lookup(n0, b, lev, k)
            } by {
            lemma_slot_in_range(k.digest_spec(), lev, w);
            assert(lookup(n2, c2, lev + 4, k) == if k == key {
                Some(val)
            } else {
                lookup(n0, i as int, lev + 4, k)
            });
        }
    }
    if out is Blocked || out is Retry {
        assert forall|k: K| #[trigger] lookup(n2, b, lev, k) == lookup(n0, b, lev, k) by {
            lemma_slot_in_range(k.digest_spec(), lev, w);
            assert(lookup(n2, c2, lev + 4, k) == lookup(n0, i as int, lev + 4, k));
        }
    }
}

/// A leaf with another key and the digest of `key` blocks the insertion, and
/// nothing changes.
pub proof fn lemma_blocked<K: TrieKey, V>(
    n0: Seq<Node<K, V>>,
    cur: usize,
    prev: Option<usize>,
    lev: nat,
    pfx: u64,
    mode: Mode,
    h: u64,
    key: K,
    val: V,
    i: usize,
)
    requires
        tree(n0, cur as int, lev, pfx, mode),
        attached(n0, prev, cur, lev, h),
        h == key.digest_spec(),
        n0[cur as int]->Branch_0@[slot_of(h, lev, n0[cur as int]->Branch_0@.len())] == Some(i),
        i < n0.len(),
        n0[i as int] is Leaf,
        n0[i as int]->Leaf_hash == h,
        n0[i as int]->key != key,
        n0[n0[i as int]->transaction->0 as int] is NoTransaction,
    ensures
        insert_post(n0, n0, cur, prev, lev, pfx, mode, h, key, val, Outcome::Blocked),
{
    let b = cur as int;
    let w = n0[b]->Branch_0@.len();
    lemma_slot_in_range(h, lev, w);
    let pos = slot_of(h, lev, w);
    assert(slot_ok(n0, n0[b]->Branch_0@[pos], lev, pfx, w, pos, mode));
    if prev is Some {
        let p = prev->0 as int;
        lemma_slot_in_range(h, (lev - 4) as nat, 16);
        assert(n0[p]->Branch_0@ =~= n0[p]->Branch_0@.update(slot_of(h, (lev - 4) as nat, 16), Some(cur)));
    }
    assert(clash_with(n0, b, lev, key, n0[i as int]->key));
}

/// What holds once the slot `s0` of the branch `cur` has taken the new branch
/// `an`, which holds the key of the leaf that was there and `key`.
pub proof fn lemma_split<K: TrieKey, V>(
    n0: Seq<Node<K, V>>,
    nc: Seq<Node<K, V>>,
    n2: Seq<Node<K, V>>,
    cur: usize,
    prev: Option<usize>,
    lev: nat,
    pfx: u64,
    mode: Mode,
    s0: int,
    h: u64,
    key: K,
    val: V,
    i: usize,
    an: usize,
)
    requires
        tree(n0, cur as int, lev, pfx, mode),
        mode is Clean || mode is Mixed,
        attached(n0, prev, cur, lev, h),
        h == key.digest_spec(),
        low_bits(h, lev) == pfx,
        n0[cur as int]->Branch_0@.len() == 16,
        s0 == slot_of(h, lev, 16),
        n0[cur as int]->Branch_0@[s0] == Some(i),
        i < n0.len(),
        n0[i as int] is Leaf,
        n0[i as int]->Leaf_hash != h,
        n0[n0[i as int]->transaction->0 as int] is NoTransaction,
        lev + 4 <= 60,
        n0.len() <= an,
        an + 1 == nc.len(),
        forall|x: int| 0 <= x < n0.len() ==> nc[x] == n0[x],
        tree(nc, an as int, lev + 4, extend(pfx, lev, s0), Mode::Clean),
        forall|x: int| #[trigger] reach(nc, an as int, lev + 4, x) ==> x >= n0.len(),
        forall|k: K| #[trigger]
            lookup(nc, an as int, lev + 4, k) == if k == n0[i as int]->key {
                Some(n0[i as int]->value)
            } else if k == key {
                Some(val)
            } else {
                None
            },
        n2.len() == nc.len(),
        forall|x: int| 0 <= x < nc.len() && x != i && x != cur ==> n2[x] == nc[x],
        n2[cur as int] is Branch,
        n2[cur as int]->Branch_0@ == n0[cur as int]->Branch_0@.update(s0, Some(an)),
    ensures
        insert_post(n0, n2, cur, prev, lev, pfx, mode, h, key, val, Outcome::Done),
{
    let b = cur as int;
    let w = n0[b]->Branch_0@.len();
    lemma_slot_in_range(h, lev, w);
    let q = extend(pfx, lev, s0);
    let r = Some(an);
    assert(slot_ok(n0, n0[b]->Branch_0@[s0], lev, pfx, w, s0, mode));
    assert(!slot_reach(n0, n0[b]->Branch_0@[s0], lev, b));
    assert(slot_reach(n0, n0[b]->Branch_0@[s0], lev, i as int));
    assert forall|x: int| #[trigger] reach(nc, an as int, lev + 4, x) implies n2[x] == nc[x] by {
        lemma_reach_bound(nc, an as int, lev + 4, q, Mode::Clean, x);
    }
    lemma_frame_tree(nc, n2, an as int, lev + 4, q, Mode::Clean);
    assert forall|x: int| #[trigger]
        slot_reach(n2, r, lev, x) implies x != b && (x >= n0.len() || slot_reach(
        n0,
        n0[b]->Branch_0@[s0],
        lev,
        x,
    )) by {
        assert(reach(n2, an as int, lev + 4, x) == reach(nc, an as int, lev + 4, x));
    }
    assert(slot_replaced(n0, n2, b, lev, s0, r));
    lemma_weaken_tree(n2, an as int, lev + 4, q, Mode::Clean);
    assert(slot_ok(n2, r, lev, pfx, w, s0, mode));
    lemma_install(n0, n2, b, lev, pfx, mode, s0, r);
    lemma_kept(n0, n2, cur, lev, pfx, mode, s0, r, prev, h);
    assert forall|k: K| #[trigger]
        lookup(n2, b, lev, k) == if k == key {
            Some(val)
        } else {
            lookup(n0, b, lev, k)
        } by {
        let hk = k.digest_spec();
        lemma_slot_in_range(hk, lev, w);
        if slot_of(hk, lev, w) == s0 {
            assert(entry(n2, an as int, lev + 4, hk) == entry(nc, an as int, lev + 4, hk));
            if entry(nc, an as int, lev + 4, hk) is Some {
                lemma_entry_leaf(nc, an as int, lev + 4, q, Mode::Clean, hk);
                let l = entry(nc, an as int, lev + 4, hk)->0;
                assert(reach(nc, an as int, lev + 4, l));
                assert(n2[l] == nc[l]);
            }
            assert(slot_lookup(n2, r, lev, k) == lookup(nc, an as int, lev + 4, k));
        }
    }
    assert forall|other: K| !#[trigger] clash_with(n0, b, lev, key, other) by {
        lemma_slot_in_range(other.digest_spec(), lev, w);
    }
}

/// The arena `n1` is `n0` with the new expansion marker `en`, which stands in
/// the slot of `p` for the branch `cur`.
pub open spec fn marked<K, V>(
    n0: Seq<Node<K, V>>,
    n1: Seq<Node<K, V>>,
    cur: usize,
    p: usize,
    en: usize,
    lev: nat,
    h: u64,
) -> bool {
    &&& en == n0.len()
    &&& n1.len() == n0.len() + 1
    &&& lev <= 60
    &&& n1[en as int] is ExpansionInProgress
    &&& n1[en as int]->parent == Some(p)
    &&& n1[en as int]->parent_slot == slot_of(h, (lev - 4) as nat, 16)
    &&& n1[en as int]->narrow == Some(cur)
    &&& n1[en as int]->level == lev
    &&& n1[en as int]->wide is None
    &&& forall|x: int| 0 <= x < n0.len() && x != p ==> n1[x] == n0[x]
    &&& n1[p as int] is Branch
    &&& n1[p as int]->Branch_0@ == n0[p as int]->Branch_0@.update(
        slot_of(h, (lev - 4) as nat, 16),
        Some(en),
    )
}

/// Once the marker `en` stands in the parent's slot for the branch `cur`, the
/// expansion of `cur` can be completed.
pub proof fn lemma_marked<K: TrieKey, V>(
    n0: Seq<Node<K, V>>,
    n1: Seq<Node<K, V>>,
    cur: usize,
    p: usize,
    en: usize,
    lev: nat,
    pfx: u64,
    mode: Mode,
    h: u64,
)
    requires
        tree(n0, cur as int, lev, pfx, mode),
        attached(n0, Some(p), cur, lev, h),
        marked(n0, n1, cur, p, en, lev, h),
    ensures
        expanding(n1, en, pfx),
        forall|x: int| #[trigger] reach(n1, cur as int, lev, x) == reach(n0, cur as int, lev, x),
        same_content(n0, n1, cur as int, cur as int, lev),
{
    let b = cur as int;
    lemma_slot_in_range(h, (lev - 4) as nat, 16);
    assert forall|x: int| #[trigger] reach(n0, b, lev, x) implies n1[x] == n0[x] by {
        lemma_reach_bound(n0, b, lev, pfx, mode, x);
    }
    lemma_frame_tree(n0, n1, b, lev, pfx, mode);
    lemma_weaken_tree(n1, b, lev, pfx, mode);
    assert(reach(n1, b, lev, p as int) == reach(n0, b, lev, p as int));
    assert(reach(n1, b, lev, en as int) == reach(n0, b, lev, en as int));
    if reach(n0, b, lev, en as int) {
        lemma_reach_bound(n0, b, lev, pfx, mode, en as int);
    }
    assert forall|k: K| #[trigger] lookup(n1, b, lev, k) == lookup(n0, b, lev, k) by {
        let hk = k.digest_spec();
        assert(entry(n1, b, lev, hk) == entry(n0, b, lev, hk));
        if entry(n0, b, lev, hk) is Some {
            lemma_entry_leaf(n0, b, lev, pfx, mode, hk);
        }
    }
}

/// Once the expansion of `cur` is complete, the insertion can go on in the
/// wide branch.
pub proof fn lemma_expanded<K: TrieKey, V>(
    n0: Seq<Node<K, V>>,
    n1: Seq<Node<K, V>>,
    n2: Seq<Node<K, V>>,
    cur: usize,
    p: usize,
    en: usize,
    lev: nat,
    pfx: u64,
    mode: Mode,
    h: u64,
)
    requires
        tree(n0, cur as int, lev, pfx, mode),
        mode is Clean || mode is Mixed,
        attached(n0, Some(p), cur, lev, h),
        marked(n0, n1, cur, p, en, lev, h),
        expansion_fresh(n1, n2, en, pfx),
    ensures
        ({
            let w = n2[en as int]->wide->0;
            &&& tree(n2, w as int, lev, pfx, mode)
            &&& attached(n2, Some(p), w, lev, h)
            &&& narrowness(n2[w as int]) == 0
        }),
{
    let w = n2[en as int]->wide->0;
    lemma_slot_in_range(h, (lev - 4) as nat, 16);
    lemma_weaken_tree(n2, w as int, lev, pfx, Mode::Clean);
    assert(!reach(n2, w as int, lev, p as int));
}

/// The insertion into the wide branch is the insertion into the branch that
/// was expanded.
pub proof fn lemma_reinserted<K: TrieKey, V>(
    n0: Seq<Node<K, V>>,
    n1: Seq<Node<K, V>>,
    n2: Seq<Node<K, V>>,
    n3: Seq<Node<K, V>>,
    cur: usize,
    p: usize,
    en: usize,
    lev: nat,
    pfx: u64,
    mode: Mode,
    h: u64,
    key: K,
    val: V,
    out: Outcome,
)
    requires
        tree(n0, cur as int, lev, pfx, mode),
        attached(n0, Some(p), cur, lev, h),
        marked(n0, n1, cur, p, en, lev, h),
        expansion_fresh(n1, n2, en, pfx),
        insert_post(n2, n3, n2[en as int]->wide->0, Some(p), lev, pfx, mode, h, key, val, out),
        obstacle(n0, cur as int, lev, h) is None,
    ensures
        insert_post(n0, n3, cur, Some(p), lev, pfx, mode, h, key, val, out),
{
    let b = cur as int;
    let w = n2[en as int]->wide->0;
    let ps = slot_of(h, (lev - 4) as nat, 16);
    lemma_slot_in_range(h, (lev - 4) as nat, 16);
    lemma_marked(n0, n1, cur, p, en, lev, pfx, mode, h);
    lemma_clean_is_free(n2, w as int, lev, pfx, h);
    let c2 = root_after(n3, Some(p), cur, lev, h);
    assert(c2 == root_after(n3, Some(p), w, lev, h));
    assert(n3[p as int]->Branch_0@ =~= n0[p as int]->Branch_0@.update(ps, Some(c2 as usize)));
    assert forall|x: int|
        0 <= x < n0.len() && !reach(n0, b, lev, x) && x != p implies #[trigger] n3[x] == n0[x] by {
        assert(n1[x] == n0[x]);
        assert(reach(n1, b, lev, x) == reach(n0, b, lev, x));
        assert(n2[x] == n1[x]);
        assert(!reach(n2, w as int, lev, x));
        assert(n3[x] == n2[x]);
    }
    assert forall|x: int| #[trigger] reach(n3, c2, lev, x) implies x >= n0.len() || reach(
        n0,
        b,
        lev,
        x,
    ) by {
        if x < n2.len() {
            assert(reach(n2, w as int, lev, x));
        }
    }
    assert forall|k: K| #[trigger] lookup(n2, w as int, lev, k) == lookup(n0, b, lev, k) by {
        assert(lookup(n2, w as int, lev, k) == lookup(n1, b, lev, k));
        assert(lookup(n1, b, lev, k) == lookup(n0, b, lev, k));
    }
    assert forall|other: K| #[trigger]
        clash_with(n2, w as int, lev, key, other) == clash_with(n0, b, lev, key, other) by {
        assert(lookup(n2, w as int, lev, other) == lookup(n0, b, lev, other));
    }
    assert(clash(n2, w as int, lev, key) == clash(n0, b, lev, key)) by {
        if clash(n0, b, lev, key) {
            let other = choose|other: K| #[trigger] clash_with(n0, b, lev, key, other);
            assert(clash_with(n2, w as int, lev, key, other));
        }
        if clash(n2, w as int, lev, key) {
            let other = choose|other: K| #[trigger] clash_with(n2, w as int, lev, key, other);
            assert(clash_with(n0, b, lev, key, other));
        }
    }
    if out is Done {
        assert forall|k: K| #[trigger]
            lookup(n3, c2, lev, k) == if k == key {
                Some(val)
            } else {
                lookup(n0, b, lev, k)
            } by {
            assert(lookup(n2, w as int, lev, k) == lookup(n0, b, lev, k));
        }
    }
    if out is Blocked || out is Retry {
        assert forall|k: K| #[trigger] lookup(n3, c2, lev, k) == lookup(n0, b, lev, k) by {
            assert(lookup(n2, w as int, lev, k) == lookup(n0, b, lev, k));
        }
    }
}

/// Where something frozen is in the way, the insertion has to be made again,
/// and nothing changes.
pub proof fn lemma_unchanged<K: TrieKey, V>(
    n0: Seq<Node<K, V>>,
    cur: usize,
    prev: Option<usize>,
    lev: nat,
    pfx: u64,
    mode: Mode,
    h: u64,
    key: K,
    val: V,
)
    requires
        tree(n0, cur as int, lev, pfx, mode),
        attached(n0, prev, cur, lev, h),
        obstacle(n0, cur as int, lev, h) is Some,
    ensures
        insert_post(n0, n0, cur, prev, lev, pfx, mode, h, key, val, Outcome::Retry),
{
    if prev is Some {
        let p = prev->0 as int;
        lemma_slot_in_range(h, (lev - 4) as nat, 16);
        assert(n0[p]->Branch_0@ =~= n0[p]->Branch_0@.update(slot_of(h, (lev - 4) as nat, 16), Some(cur)));
    }
}

/// The expansion whose marker `c` the slot of the hash holds can be completed.
pub proof fn lemma_help<K: TrieKey, V>(
    n0: Seq<Node<K, V>>,
    cur: usize,
    lev: nat,
    pfx: u64,
    mode: Mode,
    h: u64,
    c: usize,
)
    requires
        tree(n0, cur as int, lev, pfx, mode),
        n0[cur as int]->Branch_0@[slot_of(h, lev, n0[cur as int]->Branch_0@.len())] == Some(c),
        c < n0.len(),
        n0[c as int] is ExpansionInProgress,
    ensures
        mode is Mixed,
        expanding(n0, c, extend(pfx, lev, slot_of(h, lev, n0[cur as int]->Branch_0@.len()))),
{
    let b = cur as int;
    let w = n0[b]->Branch_0@.len();
    lemma_slot_in_range(h, lev, w);
    let pos = slot_of(h, lev, w);
    assert(slot_ok(n0, n0[b]->Branch_0@[pos], lev, pfx, w, pos, mode));
    assert(marker_ok(n0, b, n0[b]->Branch_0@[pos]));
    assert(!slot_reach(n0, n0[b]->Branch_0@[pos], lev, b));
    assert(slot_reach(n0, n0[b]->Branch_0@[pos], lev, c as int));
}

/// Once the expansion in the way is complete, the insertion has to be made
/// again; the subtree holds what it held.
pub proof fn lemma_helped<K: TrieKey, V>(
    n0: Seq<Node<K, V>>,
    n2: Seq<Node<K, V>>,
    cur: usize,
    prev: Option<usize>,
    lev: nat,
    pfx: u64,
    mode: Mode,
    h: u64,
    key: K,
    val: V,
    c: usize,
)
    requires
        tree(n0, cur as int, lev, pfx, mode),
        attached(n0, prev, cur, lev, h),
        n0[cur as int]->Branch_0@[slot_of(h, lev, n0[cur as int]->Branch_0@.len())] == Some(c),
        c < n0.len(),
        n0[c as int] is ExpansionInProgress,
        expansion_fresh(
            n0,
            n2,
            c,
            extend(pfx, lev, slot_of(h, lev, n0[cur as int]->Branch_0@.len())),
        ),
    ensures
        insert_post(n0, n2, cur, prev, lev, pfx, mode, h, key, val, Outcome::Retry),
{
    let b = cur as int;
    let w = n0[b]->Branch_0@.len();
    lemma_slot_in_range(h, lev, w);
    let pos = slot_of(h, lev, w);
    let q = extend(pfx, lev, pos);
    let slots = n0[b]->Branch_0@;
    let nr = narrow_of(n0[c as int]);
    let wide = n2[c as int]->wide->0;
    let r = Some(wide);
    lemma_help(n0, cur, lev, pfx, mode, h, c);
    assert(obstacle(n0, b, lev, h) == Some(c as int));
    assert(slot_ok(n0, slots[pos], lev, pfx, w, pos, mode));
    assert(!slot_reach(n0, slots[pos], lev, b));
    assert(slot_reach(n0, slots[pos], lev, c as int));
    assert forall|x: int|
        0 <= x < n0.len() && x != b && !slot_reach(n0, slots[pos], lev, x) implies #[trigger] n2[x]
        == n0[x] by {
        assert(!reach(n0, nr, lev + 4, x));
    }
    assert forall|x: int| #[trigger]
        slot_reach(n2, r, lev, x) implies x != b && (x >= n0.len() || slot_reach(
        n0,
        slots[pos],
        lev,
        x,
    )) by {
        assert(reach(n2, wide as int, lev + 4, x));
    }
    lemma_weaken_tree(n2, wide as int, lev + 4, q, Mode::Clean);
    lemma_install(n0, n2, b, lev, pfx, mode, pos, r);
    lemma_kept(n0, n2, cur, lev, pfx, mode, pos, r, prev, h);
    assert forall|k: K| #[trigger] lookup(n2, b, lev, k) == lookup(n0, b, lev, k) by {
        lemma_slot_in_range(k.digest_spec(), lev, w);
        assert(lookup(n2, wide as int, lev + 4, k) == lookup(n0, nr, lev + 4, k));
    }
}

} // verus!
