use vstd::prelude::*;

verus! {

/// Number of set bits among the low `n` bits of `mask`.
pub open spec fn rank(mask: u8, n: int) -> nat
    decreases n,
{
    if n <= 0 {
        0
    } else {
        rank(mask, n - 1) + if (mask >> ((n - 1) as u8)) & 1 == 1 { 1nat } else { 0nat }
    }
}

/// Number of set bits of `mask`.
pub open spec fn popcount(mask: u8) -> nat {
    rank(mask, 8)
}

/// Whether bit `i` of `mask` is set.
pub open spec fn has_bit(mask: u8, i: int) -> bool {
    0 <= i < 8 && (mask >> (i as u8)) & 1 == 1
}

/// Every bit of the full mask is set, and below bit `j` there are `j` of them.
pub proof fn lemma_full_mask(j: int)
    requires
        0 <= j <= 8,
    ensures
        j < 8 ==> has_bit(0xff, j),
        rank(0xff, j) == j,
    decreases j,
{
    assert(forall|k: u8| k < 8 ==> #[trigger] ((0xffu8 >> k) & 1) == 1) by (bit_vector);
    if j > 0 {
        lemma_full_mask(j - 1);
        assert(((0xffu8 >> ((j - 1) as u8)) & 1) == 1);
    }
    if j < 8 {
        assert(((0xffu8 >> (j as u8)) & 1) == 1);
    }
}

/// No bit of the empty mask is set.
pub proof fn lemma_empty_mask(j: int)
    requires
        0 <= j <= 8,
    ensures
        !has_bit(0, j),
        rank(0, j) == 0,
    decreases j,
{
    assert(forall|k: u8| #[trigger] ((0u8 >> k) & 1) == 0) by (bit_vector);
    if j > 0 {
        lemma_empty_mask(j - 1);
        assert(((0u8 >> ((j - 1) as u8)) & 1) == 0);
    }
}

/// The `t`-th set bit of `mask` below bit `n` exists and has rank `t`.
pub proof fn lemma_rank_inverse(mask: u8, n: int, t: int)
    requires
        0 <= n <= 8,
        0 <= t < rank(mask, n),
    ensures
        exists|j: int| 0 <= j < n && has_bit(mask, j) && #[trigger] rank(mask, j) == t,
    decreases n,
{
    if t < rank(mask, n - 1) {
        lemma_rank_inverse(mask, n - 1, t);
        let j = choose|j: int| 0 <= j < n - 1 && has_bit(mask, j) && #[trigger] rank(mask, j) == t;
        assert(0 <= j < n && has_bit(mask, j) && rank(mask, j) == t);
    } else {
        assert(has_bit(mask, n - 1) && rank(mask, n - 1) == t);
    }
}

/// Below a set bit `j` the rank is smaller than the popcount.
pub proof fn lemma_rank_below_popcount(mask: u8, j: int, n: int)
    requires
        0 <= j < n <= 8,
        has_bit(mask, j),
    ensures
        rank(mask, j) < rank(mask, n),
    decreases n,
{
    if j < n - 1 {
        lemma_rank_below_popcount(mask, j, n - 1);
    }
}

/// At most `n` bits are set below bit `n`.
pub proof fn lemma_rank_le(mask: u8, n: int)
    requires
        0 <= n,
    ensures
        rank(mask, n) <= n,
    decreases n,
{
    if n > 0 {
        lemma_rank_le(mask, n - 1);
    }
}

/// Counting the set bits below bit `i` is the popcount of the mask with all
/// bits from `i` up cleared.
pub proof fn lemma_rank_is_masked_popcount(mask: u8, i: u8)
    requires
        i < 8,
    ensures
        rank(mask, i as int) == popcount(mask & (((1u8 << i) - 1) as u8)),
{
    let low = (((1u8 << i) - 1) as u8);
    assert(forall|m: u8, ii: u8, k: u8|
        ii < 8 && k < 8 ==> #[trigger] (((m & (((1u8 << ii) - 1) as u8)) >> k) & 1) == if k < ii {
            (m >> k) & 1
        } else {
            0
        }) by (bit_vector);
    lemma_rank_masked(mask, i, 8);
}

proof fn lemma_rank_masked(mask: u8, i: u8, k: int)
    requires
        i < 8,
        0 <= k <= 8,
        forall|m: u8, ii: u8, kk: u8|
            ii < 8 && kk < 8 ==> #[trigger] (((m & (((1u8 << ii) - 1) as u8)) >> kk) & 1) == if kk < ii {
                (m >> kk) & 1
            } else {
                0
            },
    ensures
        rank(mask & (((1u8 << i) - 1) as u8), k) == rank(mask, if k < i { k } else { i as int }),
    decreases k,
{
    if k > 0 {
        lemma_rank_masked(mask, i, k - 1);
        let kk = (k - 1) as u8;
        assert((((mask & (((1u8 << i) - 1) as u8)) >> kk) & 1) == if kk < i { (mask >> kk) & 1 } else { 0 });
    }
}

/// Only the empty mask has no set bit.
pub proof fn lemma_popcount_zero(mask: u8)
    requires
        popcount(mask) == 0,
    ensures
        mask == 0,
{
    reveal_with_fuel(rank, 9);
    assert(((mask >> 0u8) & 1) != 1 && ((mask >> 1u8) & 1) != 1 && ((mask >> 2u8) & 1) != 1 && ((mask >> 3u8) & 1) != 1
        && ((mask >> 4u8) & 1) != 1 && ((mask >> 5u8) & 1) != 1 && ((mask >> 6u8) & 1) != 1 && ((mask >> 7u8) & 1) != 1);
    assert(forall|m: u8|
        ((m >> 0u8) & 1) != 1 && ((m >> 1u8) & 1) != 1 && ((m >> 2u8) & 1) != 1 && ((m >> 3u8) & 1) != 1
            && ((m >> 4u8) & 1) != 1 && ((m >> 5u8) & 1) != 1 && ((m >> 6u8) & 1) != 1 && ((m >> 7u8) & 1) != 1
            ==> m == 0) by (bit_vector);
}

} // verus!
