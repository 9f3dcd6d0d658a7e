//! Facts about the bits of a hash that place it in the trie.

use vstd::prelude::*;
use crate::shape::extend;
use crate::shape::low_bits;
use crate::shape::slot_of;

verus! {

/// A slot index is below the number of slots.
pub proof fn lemma_slot_in_range(h: u64, lev: nat, w: nat)
    requires
        lev <= 60,
        w == 4 || w == 16,
    ensures
        0 <= slot_of(h, lev, w) < w,
{
    let l = lev as u64;
    assert(((h >> l) & 3u64) < 4) by (bit_vector);
    assert(((h >> l) & 15u64) < 16) by (bit_vector);
}

/// A path extended by a slot keeps to its bits.
pub proof fn lemma_extend_canonical(pfx: u64, lev: nat, s: int)
    requires
        lev + 4 <= 60,
        0 <= s < 16,
        low_bits(pfx, lev) == pfx,
    ensures
        low_bits(extend(pfx, lev, s), lev + 4) == extend(pfx, lev, s),
{
    let l = lev as u64;
    let l4 = (lev + 4) as u64;
    let su = s as u64;
    assert((pfx | (su << l)) & (((1u64 << l4) - 1) as u64) == pfx | (su << l)) by (bit_vector)
        requires
            l <= 56,
            l4 == l + 4,
            su < 16,
            pfx & (((1u64 << l) - 1) as u64) == pfx,
    ;
}

/// A hash follows an extended path exactly when it follows the path and takes the slot.
pub proof fn lemma_extend_split(h: u64, pfx: u64, lev: nat, s: int)
    requires
        lev <= 60,
        lev % 4 == 0,
        0 <= s < 16,
        low_bits(pfx, lev) == pfx,
    ensures
        low_bits(h, lev + 4) == extend(pfx, lev, s) <==> (low_bits(h, lev) == pfx && slot_of(
            h,
            lev,
            16,
        ) == s),
{
    let l = lev as u64;
    let su = s as u64;
    let nib = (h >> l) & 15u64;
    assert(nib < 16) by (bit_vector)
        requires
            nib == (h >> l) & 15u64,
    ;
    if lev + 4 < 64 {
        let l4 = (lev + 4) as u64;
        assert((h & (((1u64 << l4) - 1) as u64) == pfx | (su << l)) <==> (h & (((1u64 << l)
            - 1) as u64) == pfx && (h >> l) & 15u64 == su)) by (bit_vector)
            requires
                l <= 56,
                l4 == l + 4,
                su < 16,
                pfx & (((1u64 << l) - 1) as u64) == pfx,
        ;
    } else {
        assert(l == 60);
        assert((h == pfx | (su << 60u64)) <==> (h & (((1u64 << 60u64) - 1) as u64) == pfx && (h
            >> 60u64) & 15u64 == su)) by (bit_vector)
            requires
                su < 16,
                pfx & (((1u64 << 60u64) - 1) as u64) == pfx,
        ;
    }
}

/// Two hashes that agree below level `lev` and differ at all differ at or above it.
pub proof fn lemma_differ_above(h0: u64, h1: u64, lev: nat)
    requires
        lev <= 64,
        low_bits(h0, lev) == low_bits(h1, lev),
        h0 != h1,
    ensures
        lev <= 60 || lev == 61 || lev == 62 || lev == 63,
        (h0 >> (lev as u64)) != (h1 >> (lev as u64)),
{
    let l = lev as u64;
    if lev < 64 {
        assert((h0 >> l) != (h1 >> l)) by (bit_vector)
            requires
                l < 64,
                h0 & (((1u64 << l) - 1) as u64) == h1 & (((1u64 << l) - 1) as u64),
                h0 != h1,
        ;
    }
}

/// Two hashes that differ at or above level `lev` and take the same slot of a
/// 16-slot branch there differ at or above the next level.
pub proof fn lemma_differ_next(h0: u64, h1: u64, lev: nat)
    requires
        lev <= 60,
        lev % 4 == 0,
        (h0 >> (lev as u64)) != (h1 >> (lev as u64)),
        slot_of(h0, lev, 16) == slot_of(h1, lev, 16),
    ensures
        lev + 4 <= 60,
        (h0 >> ((lev + 4) as u64)) != (h1 >> ((lev + 4) as u64)),
{
    let l = lev as u64;
    let l4 = (lev + 4) as u64;
    assert(l <= 56 && (h0 >> l4) != (h1 >> l4)) by (bit_vector)
        requires
            l <= 60,
            l % 4 == 0,
            l4 == l + 4,
            (h0 >> l) != (h1 >> l),
            (h0 >> l) & 15u64 == (h1 >> l) & 15u64,
    ;
}

/// The bits below a level are among the bits below any higher level.
pub proof fn lemma_low_bits_nested(h: u64, lo: nat, hi: nat)
    requires
        lo <= hi <= 64,
    ensures
        low_bits(low_bits(h, hi), lo) == low_bits(h, lo),
{
    let a = lo as u64;
    let b = hi as u64;
    if hi < 64 {
        assert((h & (((1u64 << b) - 1) as u64)) & (((1u64 << a) - 1) as u64) == h & (((1u64 << a)
            - 1) as u64)) by (bit_vector)
            requires
                a <= b,
                b < 64,
        ;
    }
}

/// Extending a path leaves its bits below the level as they were.
pub proof fn lemma_extend_low(pfx: u64, lev: nat, s: int, lo: nat)
    requires
        lo <= lev <= 60,
        0 <= s < 16,
    ensures
        low_bits(extend(pfx, lev, s), lo) == low_bits(pfx, lo),
{
    let a = lo as u64;
    let l = lev as u64;
    let su = s as u64;
    assert((pfx | (su << l)) & (((1u64 << a) - 1) as u64) == pfx & (((1u64 << a) - 1) as u64))
        by (bit_vector)
        requires
            a <= l,
            l <= 60,
    ;
}

} // verus!
