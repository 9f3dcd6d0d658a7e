//! How the leaves of a frozen subtree are copied, slot by slot, into a wide branch.

use vstd::prelude::*;
use crate::bits::lemma_extend_low;
use crate::bits::lemma_extend_split;
use crate::bits::lemma_low_bits_nested;
use crate::bits::lemma_slot_in_range;
use crate::frame::lemma_clean_is_free;
use crate::frame::lemma_entry_leaf;
use crate::frame::lemma_frame_tree;
use crate::frame::lemma_reach_bound;
use crate::inserting::insert_post;
use crate::lockfree_cctrie::TrieKey;
use crate::node::Node;
use crate::protocol::Outcome;
use crate::shape::Mode;
use crate::shape::attached;
use crate::shape::clash;
use crate::shape::clash_with;
use crate::shape::entry;
use crate::shape::extend;
use crate::shape::grown_from;
use crate::shape::kept_outside;
use crate::shape::lookup;
use crate::shape::low_bits;
use crate::shape::reach;
use crate::shape::slot_of;
use crate::shape::slot_ok;
use crate::shape::slot_reach;
use crate::shape::tree;

verus! {

/// No node belongs to both subtrees.
pub open spec fn apart<K, V>(nodes: Seq<Node<K, V>>, src: int, slev: nat, wide: int, lev: nat) -> bool {
    forall|x: int| #[trigger] reach(nodes, src, slev, x) ==> !reach(nodes, wide, lev, x)
}

/// No key of the subtree of `src` has the digest of another key of the subtree
/// of `wide`.
pub open spec fn compatible<K: TrieKey, V>(
    nodes: Seq<Node<K, V>>,
    src: int,
    slev: nat,
    wide: int,
    lev: nat,
) -> bool {
    forall|k1: K, k2: K|
        (#[trigger] lookup(nodes, src, slev, k1)) is Some && (#[trigger] lookup(nodes, wide, lev, k2)) is Some
            && k1.digest_spec() == k2.digest_spec() ==> k1 == k2
}

/// What may be copied: the frozen subtree of `src` at level `slev`, into the
/// subtree of the 16-slot branch `wide` at level `lev`, through which the
/// hashes of `src` pass.
pub open spec fn copy_pre<K: TrieKey, V>(
    n0: Seq<Node<K, V>>,
    src: int,
    slev: nat,
    spfx: u64,
    wide: int,
    lev: nat,
    pfx: u64,
) -> bool {
    &&& tree(n0, src, slev, spfx, Mode::Frozen)
    &&& tree(n0, wide, lev, pfx, Mode::Clean)
    &&& n0[wide]->Branch_0@.len() == 16
    &&& lev <= slev
    &&& low_bits(spfx, lev) == pfx
    &&& apart(n0, src, slev, wide, lev)
    &&& compatible(n0, src, slev, wide, lev)
}

/// What `wide` holds for `k` once the subtree of `src` has been copied into it.
pub open spec fn merged<K: TrieKey, V>(
    n0: Seq<Node<K, V>>,
    src: int,
    slev: nat,
    wide: int,
    lev: nat,
    k: K,
) -> Option<V> {
    if lookup(n0, src, slev, k) is Some {
        lookup(n0, src, slev, k)
    } else {
        lookup(n0, wide, lev, k)
    }
}

/// What copying leaves behind: `wide` holds what it held and what `src` holds,
/// and outside the subtree of `wide` the arena is as it was.
pub open spec fn copy_post<K: TrieKey, V>(
    n0: Seq<Node<K, V>>,
    n2: Seq<Node<K, V>>,
    src: int,
    slev: nat,
    wide: int,
    lev: nat,
    pfx: u64,
) -> bool {
    &&& kept_outside(n0, n2, wide, lev)
    &&& tree(n2, wide, lev, pfx, Mode::Clean)
    &&& n2[wide]->Branch_0@.len() == 16
    &&& grown_from(n0, n2, wide, wide, lev)
    &&& forall|k: K| #[trigger] lookup(n2, wide, lev, k) == merged(n0, src, slev, wide, lev, k)
}

/// What `wide` holds for `k` once the slots of `src` before the slot `i` have
/// been copied into it.
pub open spec fn partial<K: TrieKey, V>(
    n0: Seq<Node<K, V>>,
    src: int,
    slev: nat,
    wide: int,
    lev: nat,
    k: K,
    i: int,
) -> Option<V> {
    if slot_of(k.digest_spec(), slev, n0[src]->Branch_0@.len()) < i {
        merged(n0, src, slev, wide, lev, k)
    } else {
        lookup(n0, wide, lev, k)
    }
}

/// What holds while the subtree of `src` is copied into `wide`, before the
/// slot `i` of `src` is visited.
pub open spec fn copy_inv<K: TrieKey, V>(
    n0: Seq<Node<K, V>>,
    nk: Seq<Node<K, V>>,
    src: int,
    slev: nat,
    spfx: u64,
    wide: int,
    lev: nat,
    pfx: u64,
    i: int,
) -> bool {
    &&& copy_pre(n0, src, slev, spfx, wide, lev, pfx)
    &&& kept_outside(n0, nk, wide, lev)
    &&& tree(nk, wide, lev, pfx, Mode::Clean)
    &&& nk[wide]->Branch_0@.len() == 16
    &&& grown_from(n0, nk, wide, wide, lev)
    &&& 0 <= i <= n0[src]->Branch_0@.len()
    &&& forall|k: K| #[trigger] lookup(nk, wide, lev, k) == partial(n0, src, slev, wide, lev, k, i)
}

/// Before the first slot nothing has been copied.
pub proof fn lemma_copy_start<K: TrieKey, V>(
    n0: Seq<Node<K, V>>,
    src: int,
    slev: nat,
    spfx: u64,
    wide: int,
    lev: nat,
    pfx: u64,
)
    requires
        copy_pre(n0, src, slev, spfx, wide, lev, pfx),
    ensures
        copy_inv(n0, n0, src, slev, spfx, wide, lev, pfx, 0),
{
    assert forall|k: K| #[trigger]
        lookup(n0, wide, lev, k) == partial(n0, src, slev, wide, lev, k, 0) by {
        lemma_slot_in_range(k.digest_spec(), slev, n0[src]->Branch_0@.len());
    }
}

/// After the last slot everything has been copied.
pub proof fn lemma_copy_done<K: TrieKey, V>(
    n0: Seq<Node<K, V>>,
    nk: Seq<Node<K, V>>,
    src: int,
    slev: nat,
    spfx: u64,
    wide: int,
    lev: nat,
    pfx: u64,
)
    requires
        copy_inv(n0, nk, src, slev, spfx, wide, lev, pfx, n0[src]->Branch_0@.len() as int),
    ensures
        copy_post(n0, nk, src, slev, wide, lev, pfx),
{
    assert forall|k: K| #[trigger]
        lookup(nk, wide, lev, k) == merged(n0, src, slev, wide, lev, k) by {
        lemma_slot_in_range(k.digest_spec(), slev, n0[src]->Branch_0@.len());
        assert(lookup(nk, wide, lev, k) == partial(
            n0,
            src,
            slev,
            wide,
            lev,
            k,
            n0[src]->Branch_0@.len() as int,
        ));
    }
}

/// While `wide` is filled, the subtree of `src` stays as it is.
pub proof fn lemma_copy_source<K: TrieKey, V>(
    n0: Seq<Node<K, V>>,
    nk: Seq<Node<K, V>>,
    src: int,
    slev: nat,
    spfx: u64,
    wide: int,
    lev: nat,
    pfx: u64,
    i: int,
)
    requires
        copy_inv(n0, nk, src, slev, spfx, wide, lev, pfx, i),
    ensures
        tree(nk, src, slev, spfx, Mode::Frozen),
        nk[src] == n0[src],
        forall|x: int| #[trigger] reach(n0, src, slev, x) ==> 0 <= x < n0.len() && nk[x] == n0[x],
        forall|x: int| #[trigger] reach(nk, src, slev, x) == reach(n0, src, slev, x),
        forall|k: K| #[trigger] lookup(nk, src, slev, k) == lookup(n0, src, slev, k),
        apart(nk, src, slev, wide, lev),
{
    assert forall|x: int| #[trigger] reach(n0, src, slev, x) implies 0 <= x < n0.len() && nk[x]
        == n0[x] by {
        lemma_reach_bound(n0, src, slev, spfx, Mode::Frozen, x);
        assert(!reach(n0, wide, lev, x));
    }
    lemma_frame_tree(n0, nk, src, slev, spfx, Mode::Frozen);
    assert(reach(n0, src, slev, src));
    assert forall|k: K| #[trigger] lookup(nk, src, slev, k) == lookup(n0, src, slev, k) by {
        let hk = k.digest_spec();
        assert(entry(nk, src, slev, hk) == entry(n0, src, slev, hk));
        if entry(n0, src, slev, hk) is Some {
            lemma_entry_leaf(n0, src, slev, spfx, Mode::Frozen, hk);
        }
    }
    assert forall|x: int| #[trigger] reach(nk, src, slev, x) implies !reach(nk, wide, lev, x) by {
        assert(reach(nk, src, slev, x) == reach(n0, src, slev, x));
        assert(reach(n0, src, slev, x));
    }
}

/// The slot `i` of `src` holds nothing to copy.
pub proof fn lemma_copy_skip<K: TrieKey, V>(
    n0: Seq<Node<K, V>>,
    nk: Seq<Node<K, V>>,
    src: int,
    slev: nat,
    spfx: u64,
    wide: int,
    lev: nat,
    pfx: u64,
    i: int,
)
    requires
        copy_inv(n0, nk, src, slev, spfx, wide, lev, pfx, i),
        i < n0[src]->Branch_0@.len(),
        n0[src]->Branch_0@[i] is Some ==> n0[src]->Branch_0@[i]->0 < n0.len() && n0[n0[src]->Branch_0@[i]->0 as int] is FrozenEmptyMarker,
    ensures
        copy_inv(n0, nk, src, slev, spfx, wide, lev, pfx, i + 1),
{
    assert forall|k: K| #[trigger]
        lookup(nk, wide, lev, k) == partial(n0, src, slev, wide, lev, k, i + 1) by {
        assert(lookup(nk, wide, lev, k) == partial(n0, src, slev, wide, lev, k, i));
    }
}

/// The leaf `c` in the slot `i` of `src` can be inserted into `wide`, and no
/// key in `wide` blocks it.
pub proof fn lemma_copy_leaf_pre<K: TrieKey, V>(
    n0: Seq<Node<K, V>>,
    nk: Seq<Node<K, V>>,
    src: int,
    slev: nat,
    spfx: u64,
    wide: int,
    lev: nat,
    pfx: u64,
    i: int,
    c: usize,
)
    requires
        copy_inv(n0, nk, src, slev, spfx, wide, lev, pfx, i),
        i < n0[src]->Branch_0@.len(),
        n0[src]->Branch_0@[i] == Some(c),
        c < n0.len(),
        n0[c as int] is Leaf,
        0 <= wide <= usize::MAX,
    ensures
        n0[c as int]->Leaf_hash == n0[c as int]->key.digest_spec(),
        low_bits(n0[c as int]->Leaf_hash, lev) == pfx,
        attached(nk, None, wide as usize, lev, n0[c as int]->Leaf_hash),
        !clash(nk, wide, lev, n0[c as int]->key),
        lookup(n0, src, slev, n0[c as int]->key) == Some(n0[c as int]->value),
        slot_of(n0[c as int]->Leaf_hash, slev, n0[src]->Branch_0@.len()) == i,
{
    let slots = n0[src]->Branch_0@;
    let w = slots.len();
    let hc = n0[c as int]->Leaf_hash;
    let kc = n0[c as int]->key;
    assert(slot_ok(n0, slots[i], slev, spfx, w, i, Mode::Frozen));
    lemma_low_bits_nested(hc, lev, slev);
    assert(lookup(n0, src, slev, kc) == Some(n0[c as int]->value));
    assert forall|other: K| !#[trigger] clash_with(nk, wide, lev, kc, other) by {
        if clash_with(nk, wide, lev, kc, other) {
            assert(lookup(nk, wide, lev, other) == partial(n0, src, slev, wide, lev, other, i));
            assert(lookup(n0, wide, lev, other) is Some);
            assert(lookup(n0, src, slev, kc) is Some);
        }
    }
}

/// The leaf `c` in the slot `i` of `src` has been inserted into `wide`.
pub proof fn lemma_copied_leaf<K: TrieKey, V>(
    n0: Seq<Node<K, V>>,
    nk: Seq<Node<K, V>>,
    nn: Seq<Node<K, V>>,
    src: int,
    slev: nat,
    spfx: u64,
    wide: int,
    lev: nat,
    pfx: u64,
    i: int,
    c: usize,
    out: Outcome,
)
    requires
        copy_inv(n0, nk, src, slev, spfx, wide, lev, pfx, i),
        i < n0[src]->Branch_0@.len(),
        n0[src]->Branch_0@[i] == Some(c),
        c < n0.len(),
        n0[c as int] is Leaf,
        0 <= wide <= usize::MAX,
        insert_post(
            nk,
            nn,
            wide as usize,
            None,
            lev,
            pfx,
            Mode::Clean,
            n0[c as int]->Leaf_hash,
            n0[c as int]->key,
            n0[c as int]->value,
            out,
        ),
    ensures
        copy_inv(n0, nn, src, slev, spfx, wide, lev, pfx, i + 1),
{
    let slots = n0[src]->Branch_0@;
    let w = slots.len();
    let hc = n0[c as int]->Leaf_hash;
    let kc = n0[c as int]->key;
    let vc = n0[c as int]->value;
    lemma_copy_leaf_pre(n0, nk, src, slev, spfx, wide, lev, pfx, i, c);
    lemma_clean_is_free(nk, wide, lev, pfx, hc);
    assert(out is Done);
    assert(slot_ok(n0, slots[i], slev, spfx, w, i, Mode::Frozen));
    assert forall|x: int| 0 <= x < n0.len() && !reach(n0, wide, lev, x) implies #[trigger] nn[x]
        == n0[x] by {
        assert(!reach(nk, wide, lev, x));
        assert(nn[x] == nk[x]);
    }
    assert forall|x: int| #[trigger] reach(nn, wide, lev, x) implies x >= n0.len() || reach(
        n0,
        wide,
        lev,
        x,
    ) by {
        if x < nk.len() {
            assert(reach(nk, wide, lev, x));
        }
    }
    assert forall|k: K| #[trigger]
        lookup(nn, wide, lev, k) == partial(n0, src, slev, wide, lev, k, i + 1) by {
        assert(lookup(nk, wide, lev, k) == partial(n0, src, slev, wide, lev, k, i));
        lemma_slot_in_range(k.digest_spec(), slev, w);
        if k != kc && slot_of(k.digest_spec(), slev, w) == i {
            assert(lookup(n0, src, slev, k) is None);
        }
    }
}

/// The branch `j`, wrapped by what the slot `i` of `src` holds, can be copied
/// into `wide`.
pub proof fn lemma_copy_down<K: TrieKey, V>(
    n0: Seq<Node<K, V>>,
    nk: Seq<Node<K, V>>,
    src: int,
    slev: nat,
    spfx: u64,
    wide: int,
    lev: nat,
    pfx: u64,
    i: int,
    c: usize,
    j: usize,
)
    requires
        copy_inv(n0, nk, src, slev, spfx, wide, lev, pfx, i),
        i < n0[src]->Branch_0@.len(),
        n0[src]->Branch_0@[i] == Some(c),
        c < n0.len(),
        n0[c as int] is Frozen,
        n0[c as int]->inner == Some(j),
    ensures
        copy_pre(nk, j as int, slev + 4, extend(spfx, slev, i), wide, lev, pfx),
        forall|k: K| #[trigger] lookup(nk, j as int, slev + 4, k) == lookup(n0, j as int, slev + 4, k),
        forall|k: K|
            (#[trigger] lookup(n0, j as int, slev + 4, k)) is Some ==> slot_of(
                k.digest_spec(),
                slev,
                n0[src]->Branch_0@.len(),
            ) == i,
        forall|k: K|
            slot_of(k.digest_spec(), slev, n0[src]->Branch_0@.len()) == i ==> #[trigger] lookup(
                n0,
                src,
                slev,
                k,
            ) == lookup(n0, j as int, slev + 4, k),
{
    let slots = n0[src]->Branch_0@;
    let w = slots.len();
    let q = extend(spfx, slev, i);
    let jj = j as int;
    lemma_copy_source(n0, nk, src, slev, spfx, wide, lev, pfx, i);
    assert(slot_ok(n0, slots[i], slev, spfx, w, i, Mode::Frozen));
    assert(slot_ok(nk, nk[src]->Branch_0@[i], slev, spfx, w, i, Mode::Frozen));
    lemma_extend_low(spfx, slev, i, lev);
    assert(slot_reach(n0, slots[i], slev, c as int));
    assert(reach(n0, src, slev, c as int));
    assert(nk[c as int] == n0[c as int]);
    assert forall|x: int| #[trigger] reach(nk, jj, slev + 4, x) implies !reach(nk, wide, lev, x) by {
        assert(slot_reach(nk, nk[src]->Branch_0@[i], slev, x));
        assert(reach(nk, src, slev, x));
    }
    assert forall|x: int| #[trigger] reach(n0, jj, slev + 4, x) implies nk[x] == n0[x] by {
        assert(slot_reach(n0, slots[i], slev, x));
        assert(reach(n0, src, slev, x));
    }
    lemma_frame_tree(n0, nk, jj, slev + 4, q, Mode::Frozen);
    assert forall|k: K| #[trigger] lookup(nk, jj, slev + 4, k) == lookup(n0, jj, slev + 4, k) by {
        let hk = k.digest_spec();
        assert(entry(nk, jj, slev + 4, hk) == entry(n0, jj, slev + 4, hk));
        if entry(n0, jj, slev + 4, hk) is Some {
            lemma_entry_leaf(n0, jj, slev + 4, q, Mode::Frozen, hk);
            let l = entry(n0, jj, slev + 4, hk)->0;
            assert(reach(n0, jj, slev + 4, l));
        }
    }
    assert forall|k: K| (#[trigger] lookup(n0, jj, slev + 4, k)) is Some implies slot_of(
        k.digest_spec(),
        slev,
        w,
    ) == i by {
        let hk = k.digest_spec();
        lemma_entry_leaf(n0, jj, slev + 4, q, Mode::Frozen, hk);
        lemma_extend_split(hk, spfx, slev, i);
    }
    assert forall|k: K| slot_of(k.digest_spec(), slev, w) == i implies #[trigger] lookup(
        n0,
        src,
        slev,
        k,
    ) == lookup(n0, jj, slev + 4, k) by {}
    assert forall|k1: K, k2: K|
        (#[trigger] lookup(nk, jj, slev + 4, k1)) is Some && (#[trigger] lookup(nk, wide, lev, k2)) is Some
            && k1.digest_spec() == k2.digest_spec() implies k1 == k2 by {
        assert(lookup(n0, jj, slev + 4, k1) is Some);
        assert(lookup(n0, src, slev, k1) is Some);
        assert(lookup(nk, wide, lev, k2) == partial(n0, src, slev, wide, lev, k2, i));
        assert(lookup(n0, wide, lev, k2) is Some);
    }
}

/// The branch `j`, wrapped by what the slot `i` of `src` holds, has been copied
/// into `wide`.
pub proof fn lemma_copied_branch<K: TrieKey, V>(
    n0: Seq<Node<K, V>>,
    nk: Seq<Node<K, V>>,
    nn: Seq<Node<K, V>>,
    src: int,
    slev: nat,
    spfx: u64,
    wide: int,
    lev: nat,
    pfx: u64,
    i: int,
    c: usize,
    j: usize,
)
    requires
        copy_inv(n0, nk, src, slev, spfx, wide, lev, pfx, i),
        i < n0[src]->Branch_0@.len(),
        n0[src]->Branch_0@[i] == Some(c),
        c < n0.len(),
        n0[c as int] is Frozen,
        n0[c as int]->inner == Some(j),
        copy_post(nk, nn, j as int, slev + 4, wide, lev, pfx),
    ensures
        copy_inv(n0, nn, src, slev, spfx, wide, lev, pfx, i + 1),
{
    let slots = n0[src]->Branch_0@;
    let w = slots.len();
    let jj = j as int;
    lemma_copy_down(n0, nk, src, slev, spfx, wide, lev, pfx, i, c, j);
    assert forall|x: int| 0 <= x < n0.len() && !reach(n0, wide, lev, x) implies #[trigger] nn[x]
        == n0[x] by {
        assert(!reach(nk, wide, lev, x));
        assert(nn[x] == nk[x]);
    }
    assert forall|x: int| #[trigger] reach(nn, wide, lev, x) implies x >= n0.len() || reach(
        n0,
        wide,
        lev,
        x,
    ) by {
        if x < nk.len() {
            assert(reach(nk, wide, lev, x));
        }
    }
    assert forall|k: K| #[trigger]
        lookup(nn, wide, lev, k) == partial(n0, src, slev, wide, lev, k, i + 1) by {
        assert(lookup(nk, wide, lev, k) == partial(n0, src, slev, wide, lev, k, i));
        assert(lookup(nn, wide, lev, k) == merged(nk, jj, slev + 4, wide, lev, k));
        assert(lookup(nk, jj, slev + 4, k) == lookup(n0, jj, slev + 4, k));
        lemma_slot_in_range(k.digest_spec(), slev, w);
        if slot_of(k.digest_spec(), slev, w) == i {
            assert(lookup(n0, src, slev, k) == lookup(n0, jj, slev + 4, k));
        } else {
            assert(lookup(n0, jj, slev + 4, k) is None);
        }
    }
}

} // verus!
