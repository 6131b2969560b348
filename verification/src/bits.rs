use vstd::prelude::*;

verus! {

/// Whether bit `c` of `x` is set.
pub open spec fn has_bit(x: u32, c: u32) -> bool {
    (x >> c) & 1u32 == 1u32
}

/// Number of set bits among bits `0 .. k` of `x`.
pub open spec fn popcount_below(x: u32, k: nat) -> nat
    decreases k,
{
    if k == 0 {
        0
    } else {
        popcount_below(x, (k - 1) as nat) + if has_bit(x, (k - 1) as u32) {
            1nat
        } else {
            0nat
        }
    }
}

pub proof fn lemma_bit_and(a: u32, b: u32, c: u32)
    requires
        c < 32,
    ensures
        has_bit(a & b, c) == (has_bit(a, c) && has_bit(b, c)),
{
    assert(((a & b) >> c) & 1u32 == 1u32 <==> (((a >> c) & 1u32 == 1u32) && ((b >> c) & 1u32
        == 1u32))) by (bit_vector)
        requires
            c < 32,
    ;
}

pub proof fn lemma_bit_or(a: u32, b: u32, c: u32)
    requires
        c < 32,
    ensures
        has_bit(a | b, c) == (has_bit(a, c) || has_bit(b, c)),
{
    assert(((a | b) >> c) & 1u32 == 1u32 <==> (((a >> c) & 1u32 == 1u32) || ((b >> c) & 1u32
        == 1u32))) by (bit_vector)
        requires
            c < 32,
    ;
}

pub proof fn lemma_bit_not(a: u32, c: u32)
    requires
        c < 32,
    ensures
        has_bit(!a, c) == !has_bit(a, c),
{
    assert(((!a) >> c) & 1u32 == 1u32 <==> !((a >> c) & 1u32 == 1u32)) by (bit_vector)
        requires
            c < 32,
    ;
}

pub proof fn lemma_bit_shr1(a: u32, c: u32)
    requires
        c < 31,
    ensures
        has_bit(a >> 1u32, c) == has_bit(a, (c + 1) as u32),
{
    assert(((a >> 1u32) >> c) & 1u32 == 1u32 <==> (a >> ((c + 1) as u32)) & 1u32 == 1u32)
        by (bit_vector)
        requires
            c < 31,
    ;
}

pub proof fn lemma_bit_shl1(a: u32, c: u32)
    requires
        0 < c < 32,
    ensures
        has_bit(a << 1u32, c) == has_bit(a, (c - 1) as u32),
{
    assert(((a << 1u32) >> c) & 1u32 == 1u32 <==> (a >> ((c - 1) as u32)) & 1u32 == 1u32)
        by (bit_vector)
        requires
            0 < c < 32,
    ;
}

pub proof fn lemma_bit_shl1_zero(a: u32)
    ensures
        !has_bit(a << 1u32, 0),
{
    assert(!(((a << 1u32) >> 0u32) & 1u32 == 1u32)) by (bit_vector);
}

pub proof fn lemma_bit_one_shl(k: u32, c: u32)
    requires
        k < 32,
        c < 32,
    ensures
        has_bit(1u32 << k, c) == (c == k),
{
    assert(((1u32 << k) >> c) & 1u32 == 1u32 <==> c == k) by (bit_vector)
        requires
            k < 32,
            c < 32,
    ;
}

pub proof fn lemma_bit_zero(c: u32)
    ensures
        !has_bit(0u32, c),
{
    assert(!((0u32 >> c) & 1u32 == 1u32)) by (bit_vector);
}

/// Testing one bit with a mask.
pub proof fn lemma_mask_test(x: u32, k: u32)
    requires
        k < 32,
    ensures
        (x & (1u32 << k) != 0) == has_bit(x, k),
{
    assert((x & (1u32 << k) != 0u32) <==> ((x >> k) & 1u32 == 1u32)) by (bit_vector)
        requires
            k < 32,
    ;
}

/// Converting a `bool` to a bit.
pub proof fn lemma_bool_bit(b: bool, k: u32, c: u32)
    requires
        k < 32,
        c < 32,
    ensures
        has_bit((if b { 1u32 } else { 0u32 }) << k, c) == (b && c == k),
{
    if b {
        lemma_bit_one_shl(k, c);
    } else {
        assert(((0u32 << k) >> c) & 1u32 != 1u32) by (bit_vector);
    }
}

/// Bits at or above `k` are clear in a value below `2^k` (for `k == 30`).
pub proof fn lemma_small_no_high_bit(x: u32, c: u32)
    requires
        x < 0x4000_0000,
        30 <= c < 32,
    ensures
        !has_bit(x, c),
{
    assert(!((x >> c) & 1u32 == 1u32)) by (bit_vector)
        requires
            x < 0x4000_0000u32,
            30 <= c < 32,
    ;
}

/// A value whose bits are all clear is zero.
pub proof fn lemma_no_bits_zero(x: u32, k: u32)
    requires
        k <= 32,
        forall|c: u32| k <= c < 32 ==> !has_bit(x, c),
    ensures
        k == 0 ==> x == 0,
        k < 32 ==> x >> k == 0,
    decreases 32 - k,
{
    if k == 32 {
    } else if k == 31 {
        assert(!has_bit(x, 31));
        assert(!((x >> 31u32) & 1u32 == 1u32) ==> x >> 31u32 == 0) by (bit_vector);
    } else {
        lemma_no_bits_zero(x, (k + 1) as u32);
        assert(!has_bit(x, k));
        let k1 = (k + 1) as u32;
        assert(x >> k1 == 0 && !((x >> k) & 1u32 == 1u32) && k < 31 && k1 == k + 1 ==> x >> k
            == 0) by (bit_vector);
        if k == 0 {
            assert(x >> 0u32 == x) by (bit_vector);
        }
    }
}

/// A non-zero value has a set bit.
pub proof fn lemma_nonzero_has_bit(x: u32) -> (c: u32)
    requires
        x != 0,
    ensures
        c < 32,
        has_bit(x, c),
{
    if forall|c: u32| 0 <= c < 32 ==> !has_bit(x, c) {
        lemma_no_bits_zero(x, 0);
        assert(false);
        0
    } else {
        choose|c: u32| 0 <= c < 32 && has_bit(x, c)
    }
}

/// The count of set bits never exceeds the number of bits looked at.
pub proof fn lemma_popcount_bound(x: u32, k: nat)
    ensures
        popcount_below(x, k) <= k,
    decreases k,
{
    if k > 0 {
        lemma_popcount_bound(x, (k - 1) as nat);
    }
}

/// More bits set gives a count at least as large, and strictly larger when one more bit is set.
pub proof fn lemma_popcount_mono(x: u32, y: u32, k: nat)
    requires
        k <= 32,
        forall|c: u32| c < k ==> has_bit(x, c) ==> has_bit(y, c),
    ensures
        popcount_below(x, k) <= popcount_below(y, k),
        (exists|c: u32| c < k && has_bit(y, c) && !has_bit(x, c)) ==> popcount_below(x, k)
            < popcount_below(y, k),
    decreases k,
{
    if k > 0 {
        lemma_popcount_mono(x, y, (k - 1) as nat);
        let c0 = (k - 1) as u32;
        if exists|c: u32| c < k && has_bit(y, c) && !has_bit(x, c) {
            let c = choose|c: u32| c < k && has_bit(y, c) && !has_bit(x, c);
            if c < c0 {
                assert(exists|c: u32| c < (k - 1) as nat && has_bit(y, c) && !has_bit(x, c));
            }
        }
    }
}

} // verus!
