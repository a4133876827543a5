//! Machine words as sets of bits.

use vstd::prelude::*;

verus! {

/// Whether bit `d` of `x` is set.
pub open spec fn bit(x: u64, d: u64) -> bool {
    (x >> d) & 1 == 1
}

/// Whether bit `d` of `x` is set.
pub open spec fn bit16(x: u16, d: u16) -> bool {
    (x >> d) & 1 == 1
}

pub proof fn lemma_no_bits(d: u64)
    ensures
        !bit(0, d),
{
    assert((0u64 >> d) & 1 == 0) by (bit_vector);
}

pub proof fn lemma_only_bit(d: u64)
    ensures
        bit(1, d) == (d == 0),
{
    assert((1u64 >> d) & 1 == 1 <==> d == 0) by (bit_vector);
}

pub proof fn lemma_shifted_bit(x: u64, shift: u64, d: u64)
    requires
        0 < shift < 64,
        d < 64,
    ensures
        bit((x << shift) | 1, d) == (d == 0 || d >= shift && bit(x, (d - shift) as u64)),
{
    if d >= shift {
        let e = (d - shift) as u64;
        assert((((x << shift) | 1) >> d) & 1 == (x >> e) & 1) by (bit_vector)
            requires
                0 < shift < 64,
                d < 64,
                e < 64,
                d == e + shift,
        ;
    } else {
        assert((((x << shift) | 1) >> d) & 1 == 1 <==> d == 0) by (bit_vector)
            requires
                0 < shift < 64,
                d < shift,
        ;
    }
}

pub proof fn lemma_bit_test(x: u64, d: u64)
    requires
        d < 64,
    ensures
        x & (1u64 << d) != 0 <==> bit(x, d),
{
    assert(x & (1u64 << d) != 0 <==> (x >> d) & 1 == 1) by (bit_vector)
        requires
            d < 64,
    ;
}

pub proof fn lemma_bit_set(x: u64, d: u64, e: u64)
    requires
        d < 64,
        e < 64,
    ensures
        bit(x | (1u64 << d), e) == (e == d || bit(x, e)),
{
    assert(((x | (1u64 << d)) >> e) & 1 == 1 <==> e == d || (x >> e) & 1 == 1) by (bit_vector)
        requires
            d < 64,
            e < 64,
    ;
}

pub proof fn lemma_bit_cleared(x: u64, d: u64, e: u64)
    requires
        d < 64,
        e < 64,
    ensures
        bit(x & !(1u64 << d), e) == (e != d && bit(x, e)),
{
    assert(((x & !(1u64 << d)) >> e) & 1 == 1 <==> e != d && (x >> e) & 1 == 1) by (bit_vector)
        requires
            d < 64,
            e < 64,
    ;
}

pub proof fn lemma_bit_union(x: u64, y: u64, e: u64)
    requires
        e < 64,
    ensures
        bit(x | y, e) == (bit(x, e) || bit(y, e)),
{
    assert(((x | y) >> e) & 1 == 1 <==> (x >> e) & 1 == 1 || (y >> e) & 1 == 1) by (bit_vector)
        requires
            e < 64,
    ;
}

pub proof fn lemma_bit_difference(x: u64, y: u64, e: u64)
    requires
        e < 64,
    ensures
        bit(x & !y, e) == (bit(x, e) && !bit(y, e)),
{
    assert(((x & !y) >> e) & 1 == 1 <==> (x >> e) & 1 == 1 && (y >> e) & 1 != 1) by (bit_vector)
        requires
            e < 64,
    ;
}

/// A word with any bit is not zero.
pub proof fn lemma_zero_word(x: u64)
    ensures
        x == 0 <==> forall|d: u64| d < 64 ==> !#[trigger] bit(x, d),
{
    if x == 0 {
        assert forall|d: u64| d < 64 implies !#[trigger] bit(x, d) by {
            lemma_no_bits(d);
        }
    } else if forall|d: u64| d < 64 ==> !#[trigger] bit(x, d) {
        assert(x >> 64u64 == 0) by (bit_vector);
        lemma_shift_down(x, 64);
    }
}

/// Taking off the lowest `k` bits one by one.
proof fn lemma_shift_down(x: u64, k: u64)
    requires
        k <= 64,
        x >> k == 0,
        forall|d: u64| d < k ==> !#[trigger] bit(x, d),
    ensures
        x == 0,
    decreases k,
{
    if k == 0 {
        assert(x >> 0u64 == x) by (bit_vector);
    } else {
        let j = (k - 1) as u64;
        assert(!bit(x, j));
        assert(x >> j == 0) by (bit_vector)
            requires
                k <= 64,
                k == j + 1,
                x >> k == 0,
                (x >> j) & 1 != 1,
        ;
        lemma_shift_down(x, j);
    }
}

pub proof fn lemma_bit16_test(x: u16, d: u16)
    requires
        d < 16,
    ensures
        x & (1u16 << d) != 0 <==> bit16(x, d),
{
    assert(x & (1u16 << d) != 0 <==> (x >> d) & 1 == 1) by (bit_vector)
        requires
            d < 16,
    ;
}

pub proof fn lemma_bit16_set(x: u16, d: u16, e: u16)
    requires
        d < 16,
        e < 16,
    ensures
        bit16(x | (1u16 << d), e) == (e == d || bit16(x, e)),
{
    assert(((x | (1u16 << d)) >> e) & 1 == 1 <==> e == d || (x >> e) & 1 == 1) by (bit_vector)
        requires
            d < 16,
            e < 16,
    ;
}

pub proof fn lemma_no_bits16(d: u16)
    ensures
        !bit16(0, d),
{
    assert((0u16 >> d) & 1 == 0) by (bit_vector);
}

} // verus!
