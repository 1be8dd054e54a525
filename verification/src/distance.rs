//! Distance classes: the bucket index that a key occupies, relative to the
//! heap's baseline (the key of the most recently extracted entry).

use vstd::prelude::*;
use vstd::std_specs::bits::axiom_u32_leading_zeros;
use vstd::std_specs::bits::u32_leading_zeros;

verus! {

/// The distance class of `key` relative to `base`: 0 when the two are equal,
/// otherwise the 1-based position, counted from the most significant bit, of
/// the highest bit at which `key` differs from `base`.
pub open spec fn class_of(key: u32, base: u32) -> int {
    if key == base {
        0
    } else {
        32 - u32_leading_zeros(key ^ base)
    }
}

/// A distance class is always one of the bucket indices 0..=32, and class 0
/// is reserved for keys equal to the baseline.
pub proof fn lemma_class_range(key: u32, base: u32)
    ensures
        0 <= class_of(key, base) <= 32,
        class_of(key, base) == 0 <==> key == base,
{
    if key != base {
        broadcast use axiom_u32_leading_zeros;

        assert(key ^ base != 0) by (bit_vector)
            requires
                key != base,
        ;
    }
}

/// A nonzero word shifted right by the position of its highest set bit is
/// exactly 1.
proof fn lemma_high_bit(x: u32)
    requires
        x != 0,
    ensures
        u32_leading_zeros(x) <= 31,
        x >> ((31 - u32_leading_zeros(x)) as u32) == 1u32,
{
    broadcast use axiom_u32_leading_zeros;

    let l = u32_leading_zeros(x);
    let h: u32 = (31 - l) as u32;
    let h1: u32 = (32 - l) as u32;
    assert((x >> h) & 1u32 != 0u32);
    assert(x >> h1 == 0u32);
    assert(x >> h == 1u32) by (bit_vector)
        requires
            h <= 31,
            h1 == h + 1,
            (x >> h) & 1u32 != 0u32,
            x >> h1 == 0u32,
    ;
}

/// Conversely, `x >> h == 1` determines the leading-zero count of `x`.
proof fn lemma_high_bit_unique(x: u32, h: u32)
    requires
        h <= 31,
        x >> h == 1u32,
    ensures
        u32_leading_zeros(x) == 31 - h,
{
    broadcast use axiom_u32_leading_zeros;

    assert(x != 0) by (bit_vector)
        requires
            x >> h == 1u32,
    ;
    let l = u32_leading_zeros(x);
    let g = (31 - l) as u32;
    lemma_high_bit(x);
    assert(g == h) by (bit_vector)
        requires
            g <= 31,
            h <= 31,
            x >> g == 1u32,
            x >> h == 1u32,
    ;
}

/// Keys at least the baseline are ordered by their distance class: a key in a
/// strictly lower class is strictly smaller.
pub proof fn lemma_class_order(k1: u32, k2: u32, base: u32)
    requires
        base <= k1,
        base <= k2,
        class_of(k1, base) < class_of(k2, base),
    ensures
        k1 < k2,
{
    lemma_class_range(k1, base);
    lemma_class_range(k2, base);
    if k1 == base {
        assert(k2 != base);
    } else {
        lemma_high_bit(k1 ^ base);
        lemma_high_bit(k2 ^ base);
        let h1 = (31 - u32_leading_zeros(k1 ^ base)) as u32;
        let h2 = (31 - u32_leading_zeros(k2 ^ base)) as u32;
        assert(k1 < k2) by (bit_vector)
            requires
                base <= k1,
                base <= k2,
                h1 < h2,
                h2 <= 31,
                (k1 ^ base) >> h1 == 1u32,
                (k2 ^ base) >> h2 == 1u32,
        ;
    }
}

/// Advancing the baseline to a key of a strictly lower class does not move
/// entries of higher classes: their distance class stays the same.
pub proof fn lemma_class_stable(k: u32, m: u32, base: u32)
    requires
        base <= m,
        base <= k,
        class_of(m, base) < class_of(k, base),
    ensures
        class_of(k, m) == class_of(k, base),
{
    lemma_class_range(k, base);
    lemma_class_range(m, base);
    assert(k != base);
    lemma_high_bit(k ^ base);
    let h2 = (31 - u32_leading_zeros(k ^ base)) as u32;
    if m == base {
    } else {
        lemma_high_bit(m ^ base);
        let h1 = (31 - u32_leading_zeros(m ^ base)) as u32;
        assert((k ^ m) >> h2 == 1u32) by (bit_vector)
            requires
                h1 < h2,
                h2 <= 31,
                (m ^ base) >> h1 == 1u32,
                (k ^ base) >> h2 == 1u32,
        ;
        assert(k != m) by (bit_vector)
            requires
                (k ^ m) >> h2 == 1u32,
        ;
        lemma_high_bit_unique(k ^ m, h2);
    }
}

/// Computes the distance class of `key` relative to `base`.
pub fn class_index(key: u32, base: u32) -> (c: usize)
    ensures
        c == class_of(key, base),
{
    proof {
        lemma_class_range(key, base);
        broadcast use axiom_u32_leading_zeros;

    }
    if key == base {
        0
    } else {
        (32 - (key ^ base).leading_zeros()) as usize
    }
}

} // verus!
