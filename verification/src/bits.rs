//! The bit-level model of packed values.
//!
//! A packed value is a `u64` holding one bit per flag; `mask_of` is the mask
//! of a single bit position and `bit` says whether a position is set. All
//! table and accessor contracts are stated over these two functions.

use vstd::prelude::*;

verus! {

/// The mask of the flag at bit position `p`: `1 << p`. Meaningful for `p < 64`.
pub open spec fn mask_of(p: u64) -> u64 {
    1u64 << p
}

/// Whether bit `p` of the packed value `v` is set. Positions at or above 64
/// do not exist in a packed value, so they are never set.
pub open spec fn bit(v: u64, p: u64) -> bool {
    p < 64 && v & mask_of(p) != 0
}

/// The mask of a position has exactly that position set.
pub proof fn lemma_mask_bit(p: u64, q: u64)
    by (bit_vector)
    requires
        p < 64,
    ensures
        bit(mask_of(p), q) == (p == q),
{
}

/// Bitwise or sets exactly the bits set on either side.
pub proof fn lemma_or_bit(a: u64, b: u64, q: u64)
    by (bit_vector)
    ensures
        bit(a | b, q) == (bit(a, q) || bit(b, q)),
{
}

/// The zero value has no bit set.
pub proof fn lemma_zero_bit(q: u64)
    by (bit_vector)
    ensures
        !bit(0u64, q),
{
}

proof fn lemma_has_bit_from(v: u64, k: u64)
    requires
        k < 64,
        v >> k != 0,
    ensures
        exists|p: u64| #[trigger] bit(v, p),
    decreases 64 - k,
{
    if v & mask_of(k) != 0 {
        assert(bit(v, k));
    } else {
        assert(k < 63 && v >> ((k + 1) as u64) != 0) by (bit_vector)
            requires
                k < 64,
                v >> k != 0,
                v & (1u64 << k) == 0,
        ;
        lemma_has_bit_from(v, (k + 1) as u64);
    }
}

/// Every nonzero packed value has at least one bit set.
pub proof fn lemma_nonzero_has_bit(v: u64)
    requires
        v != 0,
    ensures
        exists|p: u64| #[trigger] bit(v, p),
{
    assert(v >> 0u64 == v) by (bit_vector);
    lemma_has_bit_from(v, 0);
}

} // verus!
