//! Bit masks of 64 children, counted.

use vstd::prelude::*;

verus! {

/// Whether bit `i` of `mask` is set, for `i` in `0..64`.
pub open spec fn bit(mask: u64, i: int) -> bool {
    (mask >> (i as u64)) & 1u64 == 1u64
}

/// How many of the bits below `i` are set.
pub open spec fn rank(mask: u64, i: int) -> nat
    decreases i,
{
    if i <= 0 {
        0
    } else {
        rank(mask, i - 1) + if bit(mask, i - 1) {
            1nat
        } else {
            0nat
        }
    }
}

/// How many bits are set.
pub open spec fn ones(mask: u64) -> nat {
    rank(mask, 64)
}

/// `u64::count_ones` returns the number of ones in the binary representation.
pub assume_specification[ u64::count_ones ](mask: u64) -> (count: u32)
    ensures
        count == ones(mask),
;

/// Counting further never counts less, and never more than the bits passed.
pub proof fn lemma_rank_monotone(mask: u64, i: int, j: int)
    requires
        0 <= i <= j,
    ensures
        rank(mask, i) <= rank(mask, j) <= rank(mask, i) + (j - i),
    decreases j,
{
    if i < j {
        lemma_rank_monotone(mask, i, j - 1);
    }
}

/// A set bit's rank is below that of every later position.
pub proof fn lemma_rank_strict(mask: u64, i: int, j: int)
    requires
        0 <= i < j,
        bit(mask, i),
    ensures
        rank(mask, i) < rank(mask, j),
{
    assert(rank(mask, i + 1) == rank(mask, i) + 1);
    lemma_rank_monotone(mask, i + 1, j);
}

/// Masks that agree below `n` have the same ranks up to `n`.
pub proof fn lemma_rank_agree(a: u64, b: u64, n: int)
    requires
        0 <= n <= 64,
        forall|i: int| 0 <= i < n ==> bit(a, i) == bit(b, i),
    ensures
        rank(a, n) == rank(b, n),
    decreases n,
{
    if n > 0 {
        lemma_rank_agree(a, b, n - 1);
        assert(bit(a, n - 1) == bit(b, n - 1));
    }
}

/// The bits below `child`, counted, are the child's rank.
pub proof fn lemma_prefix_rank(mask: u64, child: u32)
    requires
        child < 64,
    ensures
        ones(mask & (((1u64 << child) - 1) as u64)) == rank(mask, child as int),
        1u64 << child >= 1,
{
    let c = child as u64;
    let prefix = mask & (((1u64 << child) - 1) as u64);
    assert(1u64 << child == 1u64 << c);
    assert(1u64 << c >= 1) by (bit_vector)
        requires
            c < 64,
    ;
    assert forall|i: int| 0 <= i < 64 implies bit(prefix, i) == (i < child && bit(mask, i)) by {
        let j = i as u64;
        assert((((mask & (((1u64 << c) - 1) as u64)) >> j) & 1u64 == 1u64) == (j < c && (mask >> j) & 1u64
            == 1u64)) by (bit_vector)
            requires
                c < 64,
                j < 64,
        ;
    }
    lemma_rank_agree(prefix, mask, child as int);
    lemma_rank_flat(prefix, child as int, 64);
}

/// Clear bits add nothing.
pub proof fn lemma_rank_flat(mask: u64, i: int, j: int)
    requires
        0 <= i <= j <= 64,
        forall|k: int| i <= k < j ==> !bit(mask, k),
    ensures
        rank(mask, i) == rank(mask, j),
    decreases j,
{
    if i < j {
        lemma_rank_flat(mask, i, j - 1);
        assert(!bit(mask, j - 1));
    }
}

/// Set bits count one each.
pub proof fn lemma_rank_full(mask: u64, i: int)
    requires
        0 <= i <= 64,
        forall|k: int| 0 <= k < i ==> bit(mask, k),
    ensures
        rank(mask, i) == i,
    decreases i,
{
    if i > 0 {
        lemma_rank_full(mask, i - 1);
        assert(bit(mask, i - 1));
    }
}

/// A mask is zero exactly when no bit is set.
pub proof fn lemma_zero_mask(mask: u64)
    ensures
        mask == 0 <==> (forall|i: int| 0 <= i < 64 ==> !bit(mask, i)),
        mask == 0 <==> ones(mask) == 0,
{
    if mask == 0 {
        assert forall|i: int| 0 <= i < 64 implies !bit(mask, i) by {
            let j = i as u64;
            assert((0u64 >> j) & 1u64 != 1u64) by (bit_vector);
        }
        lemma_rank_flat(mask, 0, 64);
    } else {
        lemma_some_bit(mask);
        let i = choose|i: int| 0 <= i < 64 && bit(mask, i);
        lemma_rank_strict(mask, i, 64);
    }
}

/// A non-zero mask has a set bit.
pub proof fn lemma_some_bit(mask: u64)
    requires
        mask != 0,
    ensures
        exists|i: int| 0 <= i < 64 && bit(mask, i),
{
    assert(mask >> 0u64 == mask) by (bit_vector);
    let i = lowest_bit(mask, 0);
    assert(bit(mask, i as int));
}

/// The lowest set bit at or above `from`.
proof fn lowest_bit(mask: u64, from: u64) -> (i: u64)
    requires
        from < 64,
        mask >> from != 0,
    ensures
        from <= i < 64,
        (mask >> i) & 1u64 == 1u64,
    decreases 64 - from,
{
    if (mask >> from) & 1u64 == 1u64 {
        from
    } else {
        assert(from < 63 && (mask >> ((from + 1) as u64)) != 0) by (bit_vector)
            requires
                from < 64,
                mask >> from != 0,
                (mask >> from) & 1u64 != 1u64,
        ;
        lowest_bit(mask, (from + 1) as u64)
    }
}

/// Setting bit `i` sets it and leaves the others.
pub proof fn lemma_set_bit(mask: u64, i: u32)
    requires
        i < 64,
    ensures
        forall|k: int|
            0 <= k < 64 ==> #[trigger] bit(mask | (1u64 << i), k) == (k == i || bit(mask, k)),
{
    let c = i as u64;
    assert(1u64 << i == 1u64 << c);
    assert forall|k: int| 0 <= k < 64 implies #[trigger] bit(mask | (1u64 << i), k) == (k == i
        || bit(mask, k)) by {
        let j = k as u64;
        assert((((mask | (1u64 << c)) >> j) & 1u64 == 1u64) == (j == c || (mask >> j) & 1u64
            == 1u64)) by (bit_vector)
            requires
                c < 64,
                j < 64,
        ;
    }
}

/// The full mask is the one with every bit set.
pub proof fn lemma_full_mask(mask: u64)
    ensures
        mask == u64::MAX <==> (forall|i: int| 0 <= i < 64 ==> bit(mask, i)),
        mask == u64::MAX <==> ones(mask) == 64,
{
    if mask == u64::MAX {
        assert forall|i: int| 0 <= i < 64 implies bit(mask, i) by {
            let j = i as u64;
            assert((0xffff_ffff_ffff_ffffu64 >> j) & 1u64 == 1u64) by (bit_vector)
                requires
                    j < 64,
            ;
        }
        lemma_rank_full(mask, 64);
    } else {
        assert(!mask != 0) by (bit_vector)
            requires
                mask != 0xffff_ffff_ffff_ffffu64,
        ;
        lemma_some_bit(!mask);
        let i = choose|i: int| 0 <= i < 64 && bit(!mask, i);
        let j = i as u64;
        assert((mask >> j) & 1u64 != 1u64) by (bit_vector)
            requires
                ((!mask) >> j) & 1u64 == 1u64,
                j < 64,
        ;
        assert(!bit(mask, i));
        lemma_rank_monotone(mask, 0, i);
        lemma_rank_monotone(mask, i + 1, 64);
        assert(rank(mask, i + 1) == rank(mask, i));
    }
}

/// Whether bit `i` of the mask is set.
pub fn test_bit(mask: u64, i: u32) -> (set: bool)
    requires
        i < 64,
    ensures
        set == bit(mask, i as int),
{
    let c = i as u64;
    assert((mask & (1u64 << c) != 0) == ((mask >> c) & 1u64 == 1u64)) by (bit_vector)
        requires
            c < 64,
    ;
    assert(1u64 << i == 1u64 << c);
    mask & (1u64 << i) != 0
}

/// Masks with the same bits are the same.
pub proof fn lemma_mask_same(a: u64, b: u64)
    requires
        forall|i: int| 0 <= i < 64 ==> #[trigger] bit(a, i) == bit(b, i),
    ensures
        a == b,
{
    let apart = a ^ b;
    if apart != 0 {
        lemma_some_bit(apart);
        let i = choose|i: int| 0 <= i < 64 && bit(apart, i);
        let j = i as u64;
        assert((((a ^ b) >> j) & 1u64 == 1u64) ==> (((a >> j) & 1u64 == 1u64) != ((b >> j) & 1u64
            == 1u64))) by (bit_vector);
        assert(bit(a, i) == bit(b, i));
    }
    assert(a ^ b == 0 ==> a == b) by (bit_vector);
}

/// Every count below the number of set bits is the rank of one of them.
pub proof fn lemma_rank_onto(mask: u64, n: int, r: int) -> (i: int)
    requires
        0 <= n <= 64,
        0 <= r < rank(mask, n),
    ensures
        0 <= i < n,
        bit(mask, i),
        rank(mask, i) == r,
    decreases n,
{
    if bit(mask, n - 1) && r == rank(mask, n - 1) {
        n - 1
    } else {
        lemma_rank_onto(mask, n - 1, r)
    }
}

} // verus!
