//! What the expansion of a narrow branch leaves behind.

use vstd::prelude::*;
use crate::bits::lemma_slot_in_range;
use crate::copying::copy_post;
use crate::copying::copy_pre;
use crate::copying::merged;
use crate::frame::lemma_entry_leaf;
use crate::frame::lemma_frame_tree;
use crate::frame::lemma_reach_bound;
use crate::freezing::freeze_post;
use crate::lockfree_cctrie::TrieKey;
use crate::node::Node;
use crate::shape::Mode;
use crate::shape::entry;
use crate::shape::expandable;
use crate::shape::expanding;
use crate::shape::grown_from;
use crate::shape::lookup;
use crate::shape::narrow_of;
use crate::shape::reach;
use crate::shape::same_content;
use crate::shape::slot_ok;
use crate::shape::slot_reach;
use crate::shape::tree;

verus! {

/// What completing the expansion `en` leaves behind, whether it is completed
/// for the first time or again: the narrow branch is frozen; the marker has a
/// wide branch, the one it had if it had one; the parent's slot holds that wide
/// branch if it held the marker, and what it held if not. Outside the narrow
/// subtree, the parent and the marker the arena is as it was.
pub open spec fn expansion_done<K: TrieKey, V>(
    n0: Seq<Node<K, V>>,
    n2: Seq<Node<K, V>>,
    en: usize,
    pfx: u64,
) -> bool {
    let p = n0[en as int]->parent->0 as int;
    let ps = n0[en as int]->parent_slot as int;
    let nr = narrow_of(n0[en as int]);
    let lv = n0[en as int]->level as nat;
    &&& n0.len() <= n2.len()
    &&& forall|x: int|
        0 <= x < n0.len() && !reach(n0, nr, lv, x) && x != p && x != en ==> #[trigger] n2[x] == n0[x]
    &&& tree(n2, nr, lv, pfx, Mode::Frozen)
    &&& grown_from(n0, n2, nr, nr, lv)
    &&& same_content(n0, n2, nr, nr, lv)
    &&& n2[en as int] is ExpansionInProgress
    &&& n2[en as int]->parent == n0[en as int]->parent
    &&& n2[en as int]->parent_slot == n0[en as int]->parent_slot
    &&& n2[en as int]->narrow == n0[en as int]->narrow
    &&& n2[en as int]->level == n0[en as int]->level
    &&& n2[en as int]->wide is Some
    &&& n0[en as int]->wide is Some ==> n2[en as int]->wide == n0[en as int]->wide
    &&& n2[p] is Branch
    &&& n2[p]->Branch_0@ == if n0[p]->Branch_0@[ps] == Some(en) {
        n0[p]->Branch_0@.update(ps, n2[en as int]->wide)
    } else {
        n0[p]->Branch_0@
    }
}

/// What the first completion of the expansion `en` leaves behind besides: the
/// wide branch is a new branch of 16 slots, a trie in which nothing is frozen
/// and which holds what the narrow branch held, and it stands in the parent's
/// slot.
pub open spec fn expansion_fresh<K: TrieKey, V>(
    n0: Seq<Node<K, V>>,
    n2: Seq<Node<K, V>>,
    en: usize,
    pfx: u64,
) -> bool {
    let p = n0[en as int]->parent->0 as int;
    let ps = n0[en as int]->parent_slot as int;
    let nr = narrow_of(n0[en as int]);
    let lv = n0[en as int]->level as nat;
    &&& n0.len() <= n2.len()
    &&& forall|x: int|
        0 <= x < n0.len() && !reach(n0, nr, lv, x) && x != p && x != en ==> #[trigger] n2[x] == n0[x]
    &&& n2[en as int] is ExpansionInProgress
    &&& n2[en as int]->wide is Some
    &&& ({
        let w = n2[en as int]->wide->0 as int;
        &&& n0.len() <= w < n2.len()
        &&& n2[p] is Branch
        &&& n2[p]->Branch_0@ == n0[p]->Branch_0@.update(ps, Some(w as usize))
        &&& tree(n2, w, lv, pfx, Mode::Clean)
        &&& n2[w]->Branch_0@.len() == 16
        &&& forall|x: int| #[trigger] reach(n2, w, lv, x) ==> x >= n0.len()
        &&& same_content(n0, n2, nr, w, lv)
    })
}

/// What completing the expansion `en` leaves behind.
pub open spec fn expansion_post<K: TrieKey, V>(
    n0: Seq<Node<K, V>>,
    n2: Seq<Node<K, V>>,
    en: usize,
    pfx: u64,
) -> bool {
    &&& expansion_done(n0, n2, en, pfx)
    &&& expanding(n0, en, pfx) ==> expansion_fresh(n0, n2, en, pfx)
}

/// The arena `n2` is `n1` with a new branch of 16 empty slots.
pub open spec fn wide_made<K, V>(n1: Seq<Node<K, V>>, n2: Seq<Node<K, V>>) -> bool {
    &&& n2.len() == n1.len() + 1
    &&& forall|x: int| 0 <= x < n1.len() ==> n2[x] == n1[x]
    &&& n2[n1.len() as int] is Branch
    &&& n2[n1.len() as int]->Branch_0@.len() == 16
    &&& forall|s: int| 0 <= s < 16 ==> n2[n1.len() as int]->Branch_0@[s] is None
}

/// The frozen narrow branch can be copied into the new wide branch.
pub proof fn lemma_wide_made<K: TrieKey, V>(
    n0: Seq<Node<K, V>>,
    n1: Seq<Node<K, V>>,
    n2: Seq<Node<K, V>>,
    en: usize,
    pfx: u64,
)
    requires
        expandable(n0, en, pfx),
        freeze_post(n0, n1, narrow_of(n0[en as int]), n0[en as int]->level as nat, pfx),
        wide_made(n1, n2),
    ensures
        copy_pre(
            n2,
            narrow_of(n0[en as int]),
            n0[en as int]->level as nat,
            pfx,
            n1.len() as int,
            n0[en as int]->level as nat,
            pfx,
        ),
        n2[en as int] == n0[en as int],
        n2[n0[en as int]->parent->0 as int] == n0[n0[en as int]->parent->0 as int],
{
    let nr = narrow_of(n0[en as int]);
    let lv = n0[en as int]->level as nat;
    let wide = n1.len() as int;
    assert forall|x: int| #[trigger] reach(n1, nr, lv, x) implies n2[x] == n1[x] by {
        lemma_reach_bound(n1, nr, lv, pfx, Mode::Frozen, x);
    }
    lemma_frame_tree(n1, n2, nr, lv, pfx, Mode::Frozen);
    assert forall|s: int| 0 <= s < 16 implies slot_ok(
        n2,
        #[trigger] n2[wide]->Branch_0@[s],
        lv,
        pfx,
        16,
        s,
        Mode::Clean,
    ) by {}
    assert(tree(n2, wide, lv, pfx, Mode::Clean));
    assert forall|x: int| #[trigger] reach(n2, nr, lv, x) implies !reach(n2, wide, lv, x) by {
        assert(reach(n2, nr, lv, x) == reach(n1, nr, lv, x));
        lemma_reach_bound(n1, nr, lv, pfx, Mode::Frozen, x);
    }
    assert forall|k: K| (#[trigger] lookup(n2, wide, lv, k)) is None by {
        lemma_slot_in_range(k.digest_spec(), lv, 16);
    }
}

/// Once the wide branch holds what the narrow one held and stands in the
/// parent's slot, the expansion is complete.
pub proof fn lemma_wide_linked<K: TrieKey, V>(
    n0: Seq<Node<K, V>>,
    n1: Seq<Node<K, V>>,
    n2: Seq<Node<K, V>>,
    n3: Seq<Node<K, V>>,
    n4: Seq<Node<K, V>>,
    en: usize,
    pfx: u64,
)
    requires
        expanding(n0, en, pfx),
        freeze_post(n0, n1, narrow_of(n0[en as int]), n0[en as int]->level as nat, pfx),
        wide_made(n1, n2),
        copy_post(
            n2,
            n3,
            narrow_of(n0[en as int]),
            n0[en as int]->level as nat,
            n1.len() as int,
            n0[en as int]->level as nat,
            pfx,
        ),
        n1.len() <= usize::MAX,
        n4.len() == n3.len(),
        forall|x: int|
            0 <= x < n3.len() && x != en && x != n0[en as int]->parent->0 ==> n4[x] == n3[x],
        n4[en as int] is ExpansionInProgress,
        n4[en as int]->wide == Some(n1.len() as usize),
        n4[n0[en as int]->parent->0 as int] is Branch,
        n4[n0[en as int]->parent->0 as int]->Branch_0@ == n0[n0[en as int]->parent->0 as int]->Branch_0@.update(
            n0[en as int]->parent_slot as int,
            Some(n1.len() as usize),
        ),
    ensures
        expansion_fresh(n0, n4, en, pfx),
{
    let nr = narrow_of(n0[en as int]);
    let lv = n0[en as int]->level as nat;
    let p = n0[en as int]->parent->0 as int;
    let wide = n1.len() as int;
    lemma_wide_made(n0, n1, n2, en, pfx);
    assert forall|x: int| #[trigger] reach(n3, wide, lv, x) implies x >= n1.len() && n4[x] == n3[x] by {
        lemma_reach_bound(n3, wide, lv, pfx, Mode::Clean, x);
        if x < n2.len() {
            assert(reach(n2, wide, lv, x));
            lemma_slot_in_range(0, lv, 16);
            if x != wide {
                let s = choose|s: int|
                    0 <= s < n2[wide]->Branch_0@.len() && slot_reach(
                        n2,
                        #[trigger] n2[wide]->Branch_0@[s],
                        lv,
                        x,
                    );
            }
        }
    }
    lemma_frame_tree(n3, n4, wide, lv, pfx, Mode::Clean);
    assert forall|x: int| #[trigger] reach(n4, wide, lv, x) implies x >= n0.len() by {
        assert(reach(n4, wide, lv, x) == reach(n3, wide, lv, x));
    }
    assert forall|x: int|
        0 <= x < n0.len() && !reach(n0, nr, lv, x) && x != p && x != en implies #[trigger] n4[x]
        == n0[x] by {
        assert(n1[x] == n0[x]);
        assert(n2[x] == n1[x]);
        if reach(n2, wide, lv, x) {
            if x != wide {
                let s = choose|s: int|
                    0 <= s < n2[wide]->Branch_0@.len() && slot_reach(
                        n2,
                        #[trigger] n2[wide]->Branch_0@[s],
                        lv,
                        x,
                    );
            }
        }
        assert(n3[x] == n2[x]);
    }
    assert forall|k: K| #[trigger] lookup(n4, wide, lv, k) == lookup(n0, nr, lv, k) by {
        let hk = k.digest_spec();
        assert(entry(n4, wide, lv, hk) == entry(n3, wide, lv, hk));
        if entry(n3, wide, lv, hk) is Some {
            lemma_entry_leaf(n3, wide, lv, pfx, Mode::Clean, hk);
        }
        assert(lookup(n4, wide, lv, k) == lookup(n3, wide, lv, k));
        assert(lookup(n3, wide, lv, k) == merged(n2, nr, lv, wide, lv, k));
        lemma_slot_in_range(hk, lv, 16);
        assert(lookup(n2, wide, lv, k) is None);
        assert(entry(n2, nr, lv, hk) == entry(n1, nr, lv, hk)) by {
            assert forall|x: int| #[trigger] reach(n1, nr, lv, x) implies n2[x] == n1[x] by {
                lemma_reach_bound(n1, nr, lv, pfx, Mode::Frozen, x);
            }
            lemma_frame_tree(n1, n2, nr, lv, pfx, Mode::Frozen);
        }
        if entry(n1, nr, lv, hk) is Some {
            lemma_entry_leaf(n1, nr, lv, pfx, Mode::Frozen, hk);
        }
        assert(lookup(n2, nr, lv, k) == lookup(n1, nr, lv, k));
        assert(lookup(n1, nr, lv, k) == lookup(n0, nr, lv, k));
    }
}

/// Once the narrow branch is frozen and copied, and the marker and the parent's
/// slot have taken the wide branch where they were to take it, the expansion is
/// complete.
pub proof fn lemma_wide_done<K: TrieKey, V>(
    n0: Seq<Node<K, V>>,
    n1: Seq<Node<K, V>>,
    n2: Seq<Node<K, V>>,
    n3: Seq<Node<K, V>>,
    n4: Seq<Node<K, V>>,
    en: usize,
    pfx: u64,
)
    requires
        expandable(n0, en, pfx),
        freeze_post(n0, n1, narrow_of(n0[en as int]), n0[en as int]->level as nat, pfx),
        wide_made(n1, n2),
        copy_post(
            n2,
            n3,
            narrow_of(n0[en as int]),
            n0[en as int]->level as nat,
            n1.len() as int,
            n0[en as int]->level as nat,
            pfx,
        ),
        n1.len() <= usize::MAX,
        n4.len() == n3.len(),
        forall|x: int|
            0 <= x < n3.len() && x != en && x != n0[en as int]->parent->0 ==> n4[x] == n3[x],
        n4[en as int] is ExpansionInProgress,
        n4[en as int]->parent == n0[en as int]->parent,
        n4[en as int]->parent_slot == n0[en as int]->parent_slot,
        n4[en as int]->narrow == n0[en as int]->narrow,
        n4[en as int]->level == n0[en as int]->level,
        n4[en as int]->wide == if n0[en as int]->wide is None {
            Some(n1.len() as usize)
        } else {
            n0[en as int]->wide
        },
        n4[n0[en as int]->parent->0 as int] is Branch,
        n4[n0[en as int]->parent->0 as int]->Branch_0@ == if n0[n0[en as int]->parent->0 as int]->Branch_0@[n0[en as int]->parent_slot as int]
            == Some(en) {
            n0[n0[en as int]->parent->0 as int]->Branch_0@.update(
                n0[en as int]->parent_slot as int,
                n4[en as int]->wide,
            )
        } else {
            n0[n0[en as int]->parent->0 as int]->Branch_0@
        },
    ensures
        expansion_done(n0, n4, en, pfx),
{
    let nr = narrow_of(n0[en as int]);
    let lv = n0[en as int]->level as nat;
    let p = n0[en as int]->parent->0 as int;
    let wide = n1.len() as int;
    lemma_wide_made(n0, n1, n2, en, pfx);
    assert forall|x: int| 0 <= x < n2.len() && x != wide implies !reach(n2, wide, lv, x) by {
        if reach(n2, wide, lv, x) {
            let s = choose|s: int|
                0 <= s < n2[wide]->Branch_0@.len() && slot_reach(
                    n2,
                    #[trigger] n2[wide]->Branch_0@[s],
                    lv,
                    x,
                );
        }
    }
    assert forall|x: int| #[trigger] reach(n1, nr, lv, x) implies n4[x] == n1[x] by {
        lemma_reach_bound(n1, nr, lv, pfx, Mode::Frozen, x);
        if x < n0.len() {
            assert(reach(n0, nr, lv, x));
        }
        assert(n2[x] == n1[x]);
        assert(n3[x] == n2[x]);
    }
    lemma_frame_tree(n1, n4, nr, lv, pfx, Mode::Frozen);
    assert forall|x: int|
        0 <= x < n0.len() && !reach(n0, nr, lv, x) && x != p && x != en implies #[trigger] n4[x]
        == n0[x] by {
        assert(n1[x] == n0[x]);
        assert(n2[x] == n1[x]);
        assert(n3[x] == n2[x]);
    }
    assert forall|x: int| #[trigger] reach(n4, nr, lv, x) implies x >= n0.len() || reach(
        n0,
        nr,
        lv,
        x,
    ) by {
        assert(reach(n4, nr, lv, x) == reach(n1, nr, lv, x));
    }
    assert forall|k: K| #[trigger] lookup(n4, nr, lv, k) == lookup(n0, nr, lv, k) by {
        let hk = k.digest_spec();
        assert(entry(n4, nr, lv, hk) == entry(n1, nr, lv, hk));
        if entry(n1, nr, lv, hk) is Some {
            lemma_entry_leaf(n1, nr, lv, pfx, Mode::Frozen, hk);
        }
        assert(lookup(n1, nr, lv, k) == lookup(n0, nr, lv, k));
    }
}

} // verus!
