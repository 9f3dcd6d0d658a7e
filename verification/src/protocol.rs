//! The steps by which the trie changes: insertion, freezing and expansion.

use vstd::prelude::*;
use crate::allocator::Allocator;
use crate::frame::lemma_settled_twice;
use crate::bits::lemma_differ_above;
use crate::bits::lemma_differ_next;
use crate::bits::lemma_extend_canonical;
use crate::bits::lemma_extend_split;
use crate::copying::copy_inv;
use crate::copying::copy_post;
use crate::copying::copy_pre;
use crate::copying::lemma_copied_branch;
use crate::copying::lemma_copied_leaf;
use crate::copying::lemma_copy_done;
use crate::copying::lemma_copy_down;
use crate::copying::lemma_copy_leaf_pre;
use crate::copying::lemma_copy_skip;
use crate::copying::lemma_copy_source;
use crate::copying::lemma_copy_start;
use crate::expanding::expansion_post;
use crate::expanding::lemma_wide_done;
use crate::expanding::lemma_wide_linked;
use crate::expanding::lemma_wide_made;
use crate::freezing::freeze_inv;
use crate::freezing::freeze_post;
use crate::freezing::lemma_freeze_done;
use crate::freezing::lemma_freeze_empty;
use crate::freezing::lemma_freeze_help;
use crate::freezing::lemma_freeze_helped;
use crate::freezing::lemma_freeze_inner;
use crate::freezing::lemma_freeze_kept;
use crate::freezing::lemma_freeze_leaf;
use crate::freezing::lemma_freeze_wrap;
use crate::freezing::rawness;
use crate::inserting::direct_post;
use crate::inserting::insert_post;
use crate::inserting::lemma_blocked;
use crate::inserting::lemma_descended;
use crate::inserting::lemma_expanded;
use crate::inserting::lemma_help;
use crate::inserting::lemma_helped;
use crate::inserting::lemma_unchanged;
use crate::inserting::lemma_marked;
use crate::inserting::lemma_reinserted;
use crate::inserting::lemma_split;
use crate::inserting::lemma_stored;
use crate::inserting::narrowness;
use crate::lockfree_cctrie::LockfreeTrie;
use crate::lockfree_cctrie::TrieData;
use crate::lockfree_cctrie::TrieKey;
use crate::lockfree_cctrie::makeanode;
use crate::node::Kind;
use crate::node::Node;
use crate::node::NodeRef;
use crate::node::branch_len;
use crate::node::compare_and_swap_slot;
use crate::node::compare_and_swap_transaction;
use crate::node::compare_and_swap_wide;
use crate::node::kind_of;
use crate::node::load_slot;
use crate::node::load_transaction;
use crate::node::read_expansion;
use crate::node::read_frozen;
use crate::node::read_leaf;
use crate::node::same_ref;
use crate::node::slot_index;
use crate::shape::Mode;
use crate::shape::attached;
use crate::shape::expandable;
use crate::shape::expanding;
use crate::shape::extend;
use crate::shape::lookup;
use crate::shape::low_bits;
use crate::shape::obstacle;
use crate::shape::reach;
use crate::shape::settled;
use crate::shape::slot_ok;
use crate::shape::slot_reach;
use crate::shape::tree;
use crate::splitting::built_up;
use crate::splitting::keyed_leaf;
use crate::splitting::lemma_nest;
use crate::splitting::lemma_nest_content;
use crate::splitting::lemma_pair;
use crate::splitting::lemma_pair_content;
use crate::splitting::placed_below;

verus! {

/// How an attempt to insert ended.
pub enum Outcome {
    /// The key is in the trie with the new value.
    Done,
    /// A frozen slot or the marker of an expansion was in the way: the attempt
    /// has to be made again from the root.
    Retry,
    /// Another key with the same digest is in the trie: the trie holds what it held.
    Blocked,
}

impl<K: TrieKey, V: TrieData> LockfreeTrie<K, V> {
    /// The slots of a new branch at level `lev` that holds the two leaves `prior`
    /// and `sn`, whose hashes differ at or above `lev`: a lookup in the branch
    /// finds the two keys and no other. Where both hashes follow `pfx` below
    /// `lev`, and the two leaves have a transaction marker each, the branch is
    /// a trie for the hashes that follow `pfx`.
    ///
    /// The branch has 4 slots where two bits at `lev` tell the hashes apart and
    /// 16 slots where not. Where the four bits at `lev` are the same in both,
    /// the one slot they name holds a branch made in the same way at the next
    /// level.
    pub(crate) fn _create_anode(
        mem: &mut Allocator<Node<K, V>>,
        prior: Node<K, V>,
        sn: Node<K, V>,
        lev: u8,
        Ghost(pfx): Ghost<u64>,
    ) -> (v: Vec<NodeRef>)
        requires
            lev <= 60,
            lev % 4 == 0,
            keyed_leaf(prior),
            keyed_leaf(sn),
            (prior->Leaf_hash >> (lev as u64)) != (sn->Leaf_hash >> (lev as u64)),
        ensures
            old(mem)@.len() <= final(mem)@.len(),
            forall|x: int| 0 <= x < old(mem)@.len() ==> final(mem)@[x] == old(mem)@[x],
            v@.len() == 4 || v@.len() == 16,
            built_up(final(mem)@.push(Node::Branch(v)), old(mem)@.len() as int),
            forall|k: K| #[trigger]
                lookup(final(mem)@.push(Node::Branch(v)), final(mem)@.len() as int, lev as nat, k)
                    == if k == prior->key {
                    Some(prior->value)
                } else if k == sn->key {
                    Some(sn->value)
                } else {
                    None
                },
            placed_below(old(mem)@, prior, sn, lev as nat, pfx) ==> tree(
                final(mem)@.push(Node::Branch(v)),
                final(mem)@.len() as int,
                lev as nat,
                pfx,
                Mode::Clean,
            ),
            placed_below(old(mem)@, prior, sn, lev as nat, pfx) ==> forall|x: int| #[trigger]
                reach(final(mem)@.push(Node::Branch(v)), final(mem)@.len() as int, lev as nat, x)
                    ==> x >= old(mem)@.len() || x == prior->transaction->0 || x == sn->transaction->0,
        decreases 64 - lev,
    {
        let ghost n0 = mem@;
        let ghost placed = placed_below(n0, prior, sn, lev as nat, pfx);
        let (h_old, h_sn) = match (&prior, &sn) {
            (Node::Leaf { hash: a, .. }, Node::Leaf { hash: b, .. }) => (*a, *b),
            _ => (0, 0),
        };
        let old_pos4 = slot_index(h_old, lev, 4);
        let sn_pos4 = slot_index(h_sn, lev, 4);
        let old_pos = slot_index(h_old, lev, 16);
        let sn_pos = slot_index(h_sn, lev, 16);
        if old_pos4 != sn_pos4 {
            let mut v = makeanode(4);
            let i_old = mem.allocate_or_grow(prior);
            let i_sn = mem.allocate_or_grow(sn);
            v[old_pos4] = Some(i_old);
            v[sn_pos4] = Some(i_sn);
            proof {
                lemma_pair_content(n0, prior, sn, lev as nat, v@, old_pos4 as int, sn_pos4 as int);
                if placed {
                    lemma_pair(n0, prior, sn, lev as nat, pfx, v@, old_pos4 as int, sn_pos4 as int);
                }
                assert(mem@ == n0.push(prior).push(sn));
            }
            v
        } else if old_pos != sn_pos {
            let mut v = makeanode(16);
            let i_old = mem.allocate_or_grow(prior);
            let i_sn = mem.allocate_or_grow(sn);
            v[old_pos] = Some(i_old);
            v[sn_pos] = Some(i_sn);
            proof {
                lemma_pair_content(n0, prior, sn, lev as nat, v@, old_pos as int, sn_pos as int);
                if placed {
                    lemma_pair(n0, prior, sn, lev as nat, pfx, v@, old_pos as int, sn_pos as int);
                }
                assert(mem@ == n0.push(prior).push(sn));
            }
            v
        } else {
            let ghost p = extend(pfx, lev as nat, old_pos as int);
            proof {
                lemma_differ_next(h_old, h_sn, lev as nat);
                if placed {
                    lemma_extend_canonical(pfx, lev as nat, old_pos as int);
                    lemma_extend_split(h_old, pfx, lev as nat, old_pos as int);
                    lemma_extend_split(h_sn, pfx, lev as nat, old_pos as int);
                }
            }
            let ghost k_old = prior->key;
            let ghost k_sn = sn->key;
            let ghost v_old = prior->value;
            let ghost v_sn = sn->value;
            let ghost t_old = prior->transaction;
            let ghost t_sn = sn->transaction;
            let inner = Self::_create_anode(mem, prior, sn, lev + 4, Ghost(p));
            let ghost n1 = mem@;
            let i = mem.allocate_or_grow(Node::Branch(inner));
            let mut v = makeanode(16);
            v[old_pos] = Some(i);
            proof {
                lemma_nest_content(n0, n1, inner, v, lev as nat, old_pos as int, k_old, k_sn, v_old, v_sn);
                if placed {
                    lemma_nest(n0, n1, inner, v, lev as nat, pfx, old_pos as int, h_old, h_sn, t_old, t_sn);
                }
            }
            v
        }
    }
}

impl<K: TrieKey, V: TrieData> LockfreeTrie<K, V> {
    /// Puts `key` with `val` into the subtree of the branch `cur`, which stands
    /// at level `lev` in the slot that `prev` gives to the digest `h` of `key`.
    ///
    /// An empty slot takes a new leaf. A leaf with the same key is superseded
    /// by a new leaf. A leaf with another key and the same digest blocks the
    /// insertion. A leaf with another key and another digest makes room: where
    /// `cur` has 4 slots, `cur` is expanded to 16 slots in its parent's slot,
    /// and the insertion goes on in the wide branch; where `cur` has 16 slots,
    /// the leaf moves into a new branch together with the new leaf. A frozen
    /// slot in the way sends the insertion back to be made again, and nothing
    /// is written; so does the marker of an expansion, once that expansion has
    /// been completed.
    #[verifier::rlimit(20)]
    pub(crate) fn _insert(
        mem: &mut Allocator<Node<K, V>>,
        key: K,
        val: V,
        h: u64,
        lev: u8,
        cur: usize,
        prev: Option<usize>,
        Ghost(pfx): Ghost<u64>,
        Ghost(mode): Ghost<Mode>,
    ) -> (out: Outcome)
        requires
            h == key.digest_spec(),
            low_bits(h, lev as nat) == pfx,
            mode is Clean || mode is Mixed,
            tree(old(mem)@, cur as int, lev as nat, pfx, mode),
            attached(old(mem)@, prev, cur, lev as nat, h),
        ensures
            insert_post(old(mem)@, final(mem)@, cur, prev, lev as nat, pfx, mode, h, key, val, out),
            direct_post(old(mem)@, final(mem)@, cur as int, lev as nat, h, key, val),
            settled(old(mem)@, final(mem)@),
        decreases 64 - lev, narrowness(old(mem)@[cur as int]), 0nat, 0nat,
    {
        let ghost n0 = mem@;
        let len = branch_len(mem, cur);
        let pos = slot_index(h, lev, len);
        let old = load_slot(mem, cur, pos);
        proof {
            assert(slot_ok(n0, n0[cur as int]->Branch_0@[pos as int], lev as nat, pfx, len as nat, pos as int, mode));
        }
        match old {
            None => {
                let t = mem.allocate_or_grow(Node::NoTransaction);
                let sn = mem.allocate_or_grow(
                    Node::Leaf { hash: h, key, value: val, transaction: Some(t) },
                );
                if same_ref(compare_and_swap_slot(mem, cur, pos, old, Some(sn)), old) {
                    proof {
                        lemma_stored(n0, mem@, cur, lev as nat, pfx, mode, pos as int, sn, prev, h, key, val);
                    }
                    Outcome::Done
                } else {
                    Self::_insert(mem, key, val, h, lev, cur, prev, Ghost(pfx), Ghost(mode))
                }
            },
            Some(i) => match kind_of(mem, i) {
                Kind::Branch => {
                    let ghost q = extend(pfx, lev as nat, pos as int);
                    proof {
                        lemma_extend_split(h, pfx, lev as nat, pos as int);
                        assert(slot_reach(n0, old, lev as nat, i as int));
                        assert(!slot_reach(n0, n0[cur as int]->Branch_0@[pos as int], lev as nat, cur as int));
                    }
                    let out = Self::_insert(
                        mem,
                        key,
                        val,
                        h,
                        lev + 4,
                        i,
                        Some(cur),
                        Ghost(q),
                        Ghost(mode),
                    );
                    proof {
                        lemma_descended(n0, mem@, cur, prev, lev as nat, pfx, mode, h, key, val, out, i);
                    }
                    out
                },
                Kind::Leaf => {
                    let (h0, k0, v0) = read_leaf(mem, i);
                    let txn = load_transaction(mem, i);
                    match txn {
                        Some(t) => match kind_of(mem, t) {
                            Kind::NoTransaction => {
                                if k0.same(&key) {
                                    let t1 = mem.allocate_or_grow(Node::NoTransaction);
                                    let sn = mem.allocate_or_grow(
                                        Node::Leaf { hash: h, key, value: val, transaction: Some(t1) },
                                    );
                                    if same_ref(
                                        compare_and_swap_transaction(mem, i, txn, Some(sn)),
                                        txn,
                                    ) {
                                        compare_and_swap_slot(mem, cur, pos, old, Some(sn));
                                        proof {
                                            lemma_stored(
                                                n0,
                                                mem@,
                                                cur,
                                                lev as nat,
                                                pfx,
                                                mode,
                                                pos as int,
                                                sn,
                                                prev,
                                                h,
                                                key,
                                                val,
                                            );
                                        }
                                        Outcome::Done
                                    } else {
                                        Self::_insert(mem, key, val, h, lev, cur, prev, Ghost(pfx), Ghost(mode))
                                    }
                                } else if h0 == h {
                                    proof {
                                        lemma_blocked(n0, cur, prev, lev as nat, pfx, mode, h, key, val, i);
                                    }
                                    Outcome::Blocked
                                } else if len == 4 {
                                    match prev {
                                        Some(p) => {
                                            let plen = branch_len(mem, p);
                                            let ppos = slot_index(h, lev - 4, plen);
                                            let en = mem.allocate_or_grow(
                                                Node::ExpansionInProgress {
                                                    parent: prev,
                                                    parent_slot: ppos as u8,
                                                    narrow: Some(cur),
                                                    hash: h,
                                                    level: lev,
                                                    wide: None,
                                                },
                                            );
                                            if same_ref(
                                                compare_and_swap_slot(
                                                    mem,
                                                    p,
                                                    ppos,
                                                    Some(cur),
                                                    Some(en),
                                                ),
                                                Some(cur),
                                            ) {
                                                let ghost n1 = mem@;
                                                proof {
                                                    lemma_marked(n0, n1, cur, p, en, lev as nat, pfx, mode, h);
                                                }
                                                Self::_complete_expansion(mem, en, Ghost(pfx));
                                                let ghost n2 = mem@;
                                                proof {
                                                    lemma_settled_twice(n0, n1, n2);
                                                }
                                                let e = read_expansion(mem, en);
                                                match e.4 {
                                                    Some(w) => {
                                                        proof {
                                                            assert(obstacle(n0, cur as int, lev as nat, h) is None);
                                                            lemma_expanded(n0, n1, n2, cur, p, en, lev as nat, pfx, mode, h);
                                                        }
                                                        let out = Self::_insert(
                                                            mem,
                                                            key,
                                                            val,
                                                            h,
                                                            lev,
                                                            w,
                                                            prev,
                                                            Ghost(pfx),
                                                            Ghost(mode),
                                                        );
                                                        proof {
                                                            lemma_settled_twice(n0, n2, mem@);
                                                            lemma_reinserted(
                                                                n0,
                                                                n1,
                                                                n2,
                                                                mem@,
                                                                cur,
                                                                p,
                                                                en,
                                                                lev as nat,
                                                                pfx,
                                                                mode,
                                                                h,
                                                                key,
                                                                val,
                                                                out,
                                                            );
                                                        }
                                                        out
                                                    },
                                                    None => Outcome::Retry,
                                                }
                                            } else {
                                                Self::_insert(mem, key, val, h, lev, cur, prev, Ghost(pfx), Ghost(mode))
                                            }
                                        },
                                        None => Outcome::Retry,
                                    }
                                } else {
                                    let ghost q = extend(pfx, lev as nat, pos as int);
                                    proof {
                                        lemma_extend_split(h, pfx, lev as nat, pos as int);
                                        lemma_extend_split(h0, pfx, lev as nat, pos as int);
                                        lemma_differ_above(h0, h, (lev + 4) as nat);
                                        lemma_extend_canonical(pfx, lev as nat, pos as int);
                                    }
                                    let t0 = mem.allocate_or_grow(Node::NoTransaction);
                                    let t1 = mem.allocate_or_grow(Node::NoTransaction);
                                    let ghost na = mem@;
                                    let v = Self::_create_anode(
                                        mem,
                                        Node::Leaf { hash: h0, key: k0, value: v0, transaction: Some(t0) },
                                        Node::Leaf { hash: h, key, value: val, transaction: Some(t1) },
                                        lev + 4,
                                        Ghost(q),
                                    );
                                    let ghost nb = mem@;
                                    let an = mem.allocate_or_grow(Node::Branch(v));
                                    let ghost nc = mem@;
                                    proof {
                                        assert(nc == nb.push(Node::Branch(v)));
                                        assert forall|x: int| #[trigger]
                                            reach(nc, an as int, (lev + 4) as nat, x) implies x
                                            >= n0.len() by {}
                                    }
                                    if same_ref(
                                        compare_and_swap_transaction(mem, i, txn, Some(an)),
                                        txn,
                                    ) {
                                        compare_and_swap_slot(mem, cur, pos, old, Some(an));
                                        proof {
                                            lemma_split(
                                                n0,
                                                nc,
                                                mem@,
                                                cur,
                                                prev,
                                                lev as nat,
                                                pfx,
                                                mode,
                                                pos as int,
                                                h,
                                                key,
                                                val,
                                                i,
                                                an,
                                            );
                                        }
                                        Outcome::Done
                                    } else {
                                        Self::_insert(mem, key, val, h, lev, cur, prev, Ghost(pfx), Ghost(mode))
                                    }
                                }
                            },
                            Kind::FrozenLeafMarker => {
                                proof {
                                    assert(obstacle(n0, cur as int, lev as nat, h) == Some(i as int));
                                    lemma_unchanged(n0, cur, prev, lev as nat, pfx, mode, h, key, val);
                                }
                                Outcome::Retry
                            },
                            _ => {
                                compare_and_swap_slot(mem, cur, pos, old, txn);
                                Self::_insert(mem, key, val, h, lev, cur, prev, Ghost(pfx), Ghost(mode))
                            },
                        },
                        None => Outcome::Retry,
                    }
                },
                Kind::ExpansionInProgress => {
                    proof {
                        lemma_help(n0, cur, lev as nat, pfx, mode, h, i);
                    }
                    Self::_complete_expansion(mem, i, Ghost(extend(pfx, lev as nat, pos as int)));
                    proof {
                        lemma_helped(n0, mem@, cur, prev, lev as nat, pfx, mode, h, key, val, i);
                    }
                    Outcome::Retry
                },
                _ => {
                    proof {
                        assert(obstacle(n0, cur as int, lev as nat, h) == Some(i as int));
                        lemma_unchanged(n0, cur, prev, lev as nat, pfx, mode, h, key, val);
                    }
                    Outcome::Retry
                },
            },
        }
    }

    /// Brings the expansion that the marker `en` stands for to its end: freezes
    /// the narrow branch, builds a branch of 16 slots that holds what the
    /// narrow one holds, gives it to the marker as its wide branch, and puts
    /// the marker's wide branch into the parent's slot in place of the marker.
    /// Where the marker has a wide branch already, that one stays and the new
    /// one is left aside.
    pub(crate) fn _complete_expansion(mem: &mut Allocator<Node<K, V>>, en: usize, Ghost(pfx): Ghost<u64>)
        requires
            expandable(old(mem)@, en, pfx),
        ensures
            expansion_post(old(mem)@, final(mem)@, en, pfx),
            settled(old(mem)@, final(mem)@),
        decreases 64 - old(mem)@[en as int]->level, 0nat, 3nat, 0nat,
    {
        let ghost n0 = mem@;
        let e = read_expansion(mem, en);
        match (e.0, e.2) {
            (Some(p), Some(nr)) => {
                let level = e.3;
                Self::_freeze(mem, nr, Ghost(level as nat), Ghost(pfx));
                let ghost n1 = mem@;
                let widenode = mem.allocate_or_grow(Node::Branch(makeanode(16)));
                let ghost n2 = mem@;
                proof {
                    lemma_wide_made(n0, n1, n2, en, pfx);
                }
                Self::_copy(
                    mem,
                    nr,
                    widenode,
                    level,
                    Ghost(level as nat),
                    Ghost(pfx),
                    Ghost(pfx),
                );
                let ghost n3 = mem@;
                let mut w = widenode;
                match compare_and_swap_wide(mem, en, None, Some(widenode)) {
                    Some(other) => {
                        w = other;
                    },
                    None => {},
                }
                compare_and_swap_slot(mem, p, e.1 as usize, Some(en), Some(w));
                proof {
                    lemma_wide_done(n0, n1, n2, n3, mem@, en, pfx);
                    if expanding(n0, en, pfx) {
                        lemma_wide_linked(n0, n1, n2, n3, mem@, en, pfx);
                    }
                }
            },
            _ => {},
        }
    }

    /// Freezes the subtree of the branch `b`: an empty slot takes a
    /// `FrozenEmptyMarker`, the transaction of a leaf a `FrozenLeafMarker`, and
    /// a branch is wrapped in a `Frozen` node and frozen in turn.
    pub(crate) fn _freeze(
        mem: &mut Allocator<Node<K, V>>,
        b: usize,
        Ghost(lev): Ghost<nat>,
        Ghost(pfx): Ghost<u64>,
    )
        requires
            tree(old(mem)@, b as int, lev, pfx, Mode::Mixed),
        ensures
            freeze_post(old(mem)@, final(mem)@, b as int, lev, pfx),
            settled(old(mem)@, final(mem)@),
        decreases 64 - lev, 0nat, 2nat, 0nat,
    {
        let ghost n0 = mem@;
        let len = branch_len(mem, b);
        let mut i: usize = 0;
        proof {
            assert forall|k: K| #[trigger]
                lookup(n0, b as int, lev, k) == lookup(n0, b as int, lev, k) by {}
        }
        while i < len
            invariant
                len == mem@[b as int]->Branch_0@.len(),
                freeze_inv(n0, mem@, b as int, lev, pfx, i as int),
                settled(n0, mem@),
            decreases
                    len - i,
                    if i < len {
                        rawness(mem@, mem@[b as int]->Branch_0@[i as int])
                    } else {
                        0
                    },
        {
            let ghost nk = mem@;
            let r = load_slot(mem, b, i);
            proof {
                assert(slot_ok(nk, nk[b as int]->Branch_0@[i as int], lev, pfx, len as nat, i as int, Mode::Mixed));
            }
            match r {
                None => {
                    let m = mem.allocate_or_grow(Node::FrozenEmptyMarker);
                    if same_ref(compare_and_swap_slot(mem, b, i, r, Some(m)), r) {
                        proof {
                            lemma_freeze_empty(n0, nk, mem@, b as int, lev, pfx, i as int, m);
                        }
                        i += 1;
                    }
                },
                Some(c) => match kind_of(mem, c) {
                    Kind::Leaf => {
                        let txn = load_transaction(mem, c);
                        match txn {
                            Some(t) => match kind_of(mem, t) {
                                Kind::NoTransaction => {
                                    let f = mem.allocate_or_grow(Node::FrozenLeafMarker);
                                    if same_ref(
                                        compare_and_swap_transaction(mem, c, txn, Some(f)),
                                        txn,
                                    ) {
                                        proof {
                                            lemma_freeze_leaf(n0, nk, mem@, b as int, lev, pfx, i as int, c, f);
                                        }
                                        i += 1;
                                    }
                                },
                                Kind::FrozenLeafMarker => {
                                    proof {
                                        lemma_freeze_kept(n0, nk, b as int, lev, pfx, i as int);
                                    }
                                    i += 1;
                                },
                                _ => {
                                    compare_and_swap_slot(mem, b, i, r, txn);
                                },
                            },
                            None => {},
                        }
                    },
                    Kind::Branch => {
                        let f = mem.allocate_or_grow(Node::Frozen { inner: r });
                        compare_and_swap_slot(mem, b, i, r, Some(f));
                        proof {
                            lemma_freeze_wrap(n0, nk, mem@, b as int, lev, pfx, i as int, c, f);
                        }
                    },
                    Kind::Frozen => {
                        match read_frozen(mem, c) {
                            Some(j) => {
                                Self::_freeze(
                                    mem,
                                    j,
                                    Ghost(lev + 4),
                                    Ghost(extend(pfx, lev, i as int)),
                                );
                                proof {
                                    lemma_freeze_inner(n0, nk, mem@, b as int, lev, pfx, i as int, c, j);
                                }
                                i += 1;
                            },
                            None => {},
                        }
                    },
                    Kind::ExpansionInProgress => {
                        proof {
                            lemma_freeze_help(n0, nk, b as int, lev, pfx, i as int, c);
                        }
                        Self::_complete_expansion(mem, c, Ghost(extend(pfx, lev, i as int)));
                        proof {
                            lemma_freeze_helped(n0, nk, mem@, b as int, lev, pfx, i as int, c);
                        }
                    },
                    _ => {
                        proof {
                            lemma_freeze_kept(n0, nk, b as int, lev, pfx, i as int);
                        }
                        i += 1;
                    },
                },
            }
        }
        proof {
            lemma_freeze_done(n0, mem@, b as int, lev, pfx);
        }
    }

    /// Inserts every leaf of the frozen subtree of `src` into the subtree of
    /// the branch `wide`, which stands at level `lev`.
    pub(crate) fn _copy(
        mem: &mut Allocator<Node<K, V>>,
        src: usize,
        wide: usize,
        lev: u8,
        Ghost(slev): Ghost<nat>,
        Ghost(spfx): Ghost<u64>,
        Ghost(pfx): Ghost<u64>,
    )
        requires
            copy_pre(old(mem)@, src as int, slev, spfx, wide as int, lev as nat, pfx),
        ensures
            copy_post(old(mem)@, final(mem)@, src as int, slev, wide as int, lev as nat, pfx),
            settled(old(mem)@, final(mem)@),
        decreases 64 - lev, 0nat, 2nat, 64 - slev,
    {
        let ghost n0 = mem@;
        let len = branch_len(mem, src);
        let mut i: usize = 0;
        proof {
            lemma_copy_start(n0, src as int, slev, spfx, wide as int, lev as nat, pfx);
        }
        while i < len
            invariant
                len == n0[src as int]->Branch_0@.len(),
                slev <= 60,
                copy_inv(n0, mem@, src as int, slev, spfx, wide as int, lev as nat, pfx, i as int),
                settled(n0, mem@),
            decreases len - i,
        {
            let ghost nk = mem@;
            proof {
                lemma_copy_source(n0, nk, src as int, slev, spfx, wide as int, lev as nat, pfx, i as int);
                assert(slot_ok(n0, n0[src as int]->Branch_0@[i as int], slev, spfx, len as nat, i as int, Mode::Frozen));
                assert(reach(n0, src as int, slev, src as int));
            }
            match load_slot(mem, src, i) {
                Some(c) => {
                    proof {
                        assert(slot_reach(n0, n0[src as int]->Branch_0@[i as int], slev, c as int));
                        assert(reach(n0, src as int, slev, c as int));
                    }
                    match kind_of(mem, c) {
                        Kind::Frozen => match read_frozen(mem, c) {
                            Some(j) => {
                                proof {
                                    lemma_copy_down(
                                        n0,
                                        nk,
                                        src as int,
                                        slev,
                                        spfx,
                                        wide as int,
                                        lev as nat,
                                        pfx,
                                        i as int,
                                        c,
                                        j,
                                    );
                                }
                                Self::_copy(
                                    mem,
                                    j,
                                    wide,
                                    lev,
                                    Ghost(slev + 4),
                                    Ghost(extend(spfx, slev, i as int)),
                                    Ghost(pfx),
                                );
                                proof {
                                    lemma_copied_branch(
                                        n0,
                                        nk,
                                        mem@,
                                        src as int,
                                        slev,
                                        spfx,
                                        wide as int,
                                        lev as nat,
                                        pfx,
                                        i as int,
                                        c,
                                        j,
                                    );
                                }
                            },
                            None => {},
                        },
                        Kind::Leaf => {
                            let (h, k, v) = read_leaf(mem, c);
                            proof {
                                lemma_copy_leaf_pre(
                                    n0,
                                    nk,
                                    src as int,
                                    slev,
                                    spfx,
                                    wide as int,
                                    lev as nat,
                                    pfx,
                                    i as int,
                                    c,
                                );
                            }
                            let out = Self::_insert(
                                mem,
                                k,
                                v,
                                h,
                                lev,
                                wide,
                                None,
                                Ghost(pfx),
                                Ghost(Mode::Clean),
                            );
                            proof {
                                lemma_copied_leaf(
                                    n0,
                                    nk,
                                    mem@,
                                    src as int,
                                    slev,
                                    spfx,
                                    wide as int,
                                    lev as nat,
                                    pfx,
                                    i as int,
                                    c,
                                    out,
                                );
                            }
                        },
                        _ => {
                            proof {
                                lemma_copy_skip(
                                    n0,
                                    nk,
                                    src as int,
                                    slev,
                                    spfx,
                                    wide as int,
                                    lev as nat,
                                    pfx,
                                    i as int,
                                );
                            }
                        },
                    }
                },
                None => {},
            }
            i += 1;
        }
        proof {
            lemma_copy_done(n0, mem@, src as int, slev, spfx, wide as int, lev as nat, pfx);
        }
    }
}

} // verus!
