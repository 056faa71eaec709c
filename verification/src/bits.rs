use vstd::prelude::*;

verus! {

/// Whether bit `j` (0 = least significant) of `t` is set.
pub open spec fn bit(t: u8, j: u8) -> bool {
    (t >> j) & 1u8 == 1u8
}

/// Number of set bits of `t` among the positions `0..k`.
pub open spec fn ones_below(t: u8, k: nat) -> nat
    decreases k,
{
    if k == 0 {
        0
    } else {
        ones_below(t, (k - 1) as nat) + if bit(t, (k - 1) as u8) {
            1nat
        } else {
            0nat
        }
    }
}

pub proof fn lemma_ones_below_bound(t: u8, k: nat)
    ensures
        ones_below(t, k) <= k,
    decreases k,
{
    if k > 0 {
        lemma_ones_below_bound(t, (k - 1) as nat);
    }
}

pub proof fn lemma_ones_below_mono(t: u8, a: nat, b: nat)
    requires
        a <= b,
    ensures
        ones_below(t, a) <= ones_below(t, b),
        a < b && bit(t, a as u8) ==> ones_below(t, a) < ones_below(t, b),
    decreases b - a,
{
    if a < b {
        lemma_ones_below_mono(t, a, (b - 1) as nat);
    }
}

/// Setting bit `m` of `p` sets that bit and leaves the others as they were.
pub proof fn lemma_bit_set(p: u8, m: u8, j: u8)
    requires
        m < 8,
        j < 8,
    ensures
        bit(p | (1u8 << m), j) == (bit(p, j) || j == m),
{
    assert(((p | (1u8 << m)) >> j) & 1u8 == 1u8 <==> (((p >> j) & 1u8 == 1u8) || j == m))
        by (bit_vector)
        requires
            m < 8,
            j < 8,
    ;
}

/// No bit of `0` is set and every bit of `0xff` is.
pub proof fn lemma_bit_extremes(j: u8)
    requires
        j < 8,
    ensures
        !bit(0u8, j),
        bit(0xffu8, j),
{
    assert((0u8 >> j) & 1u8 != 1u8) by (bit_vector);
    assert((0xffu8 >> j) & 1u8 == 1u8) by (bit_vector)
        requires
            j < 8,
    ;
}

/// `0xff << d` has exactly the bits `d..8` set.
pub proof fn lemma_bit_high_fill(d: u8, j: u8)
    requires
        d < 8,
        j < 8,
    ensures
        bit(0xffu8 << d, j) == (j >= d),
{
    assert((((0xffu8 << d) >> j) & 1u8 == 1u8) == (j >= d)) by (bit_vector)
        requires
            d < 8,
            j < 8,
    ;
}

/// A value whose bits are all clear is zero; one whose bits are all set is `0xff`.
pub proof fn lemma_bits_determine(t: u8)
    ensures
        (forall|j: u8| j < 8 ==> !#[trigger] bit(t, j)) ==> t == 0,
        (forall|j: u8| j < 8 ==> #[trigger] bit(t, j)) ==> t == 0xff,
{
    if forall|j: u8| j < 8 ==> !#[trigger] bit(t, j) {
        assert(!bit(t, 0) && !bit(t, 1) && !bit(t, 2) && !bit(t, 3));
        assert(!bit(t, 4) && !bit(t, 5) && !bit(t, 6) && !bit(t, 7));
        assert(t == 0) by (bit_vector)
            requires
                (t >> 0u8) & 1u8 != 1u8,
                (t >> 1u8) & 1u8 != 1u8,
                (t >> 2u8) & 1u8 != 1u8,
                (t >> 3u8) & 1u8 != 1u8,
                (t >> 4u8) & 1u8 != 1u8,
                (t >> 5u8) & 1u8 != 1u8,
                (t >> 6u8) & 1u8 != 1u8,
                (t >> 7u8) & 1u8 != 1u8,
        ;
    }
    if forall|j: u8| j < 8 ==> #[trigger] bit(t, j) {
        assert(bit(t, 0) && bit(t, 1) && bit(t, 2) && bit(t, 3));
        assert(bit(t, 4) && bit(t, 5) && bit(t, 6) && bit(t, 7));
        assert(t == 0xff) by (bit_vector)
            requires
                (t >> 0u8) & 1u8 == 1u8,
                (t >> 1u8) & 1u8 == 1u8,
                (t >> 2u8) & 1u8 == 1u8,
                (t >> 3u8) & 1u8 == 1u8,
                (t >> 4u8) & 1u8 == 1u8,
                (t >> 5u8) & 1u8 == 1u8,
                (t >> 6u8) & 1u8 == 1u8,
                (t >> 7u8) & 1u8 == 1u8,
        ;
    }
}

/// Counts the set bits of `t` among the positions `0..k`.
pub fn count_ones_below(t: u8, k: u8) -> (n: u8)
    requires
        k <= 8,
    ensures
        n == ones_below(t, k as nat),
{
    let mut n: u8 = 0;
    let mut j: u8 = 0;
    while j < k
        invariant
            j <= k <= 8,
            n == ones_below(t, j as nat),
            n <= j,
        decreases k - j,
    {
        if (t >> j) & 1u8 == 1u8 {
            n = n + 1;
        }
        j = j + 1;
    }
    n
}

} // verus!
