//! Bit-level model of the two mask kinds the solver uses: 9-bit candidate
//! masks held in a `u16`, and 81-bit cell sets held in a `u128`.

use vstd::prelude::*;

verus! {

/// Bit `b` of an 81-bit cell set.
pub open spec fn idx_bit(m: u128, b: int) -> bool {
    0 <= b < 128 && (m >> (b as u128)) & 1 == 1
}

/// Bit `d` of a 9-bit candidate mask: digit `d` is still possible.
pub open spec fn mask_bit(m: u16, d: int) -> bool {
    0 <= d < 9 && (m >> (d as u16)) & 1u16 == 1u16
}

/// The one-bit mask of digit `d`.
pub open spec fn digit_mask(d: int) -> u16 {
    1u16 << (d as u16)
}

/// The mask after digit `v` is eliminated.
pub open spec fn elim_mask(m: u16, v: int) -> u16 {
    m & !digit_mask(v)
}

/// A candidate mask with exactly one digit left.
pub open spec fn mask_is_singleton(m: u16) -> bool {
    exists|d: int| 0 <= d < 9 && m == digit_mask(d)
}

/// The least digit still set in a candidate mask (9 if the mask is empty).
pub open spec fn lowest_digit(m: u16) -> int {
    if mask_bit(m, 0) {
        0
    } else if mask_bit(m, 1) {
        1
    } else if mask_bit(m, 2) {
        2
    } else if mask_bit(m, 3) {
        3
    } else if mask_bit(m, 4) {
        4
    } else if mask_bit(m, 5) {
        5
    } else if mask_bit(m, 6) {
        6
    } else if mask_bit(m, 7) {
        7
    } else if mask_bit(m, 8) {
        8
    } else {
        9
    }
}

/// Setting bit `j` of an 81-bit set leaves every other bit alone.
pub proof fn lemma_u128_or_bit(m: u128, j: u128, b: u128)
    requires
        j < 128,
        b < 128,
    ensures
        idx_bit(m | (1u128 << j), b as int) <==> (b == j || idx_bit(m, b as int)),
{
    assert((j < 128 && b < 128) ==> (((m | (1u128 << j)) >> b) & 1 == (if b == j {
        1u128
    } else {
        (m >> b) & 1
    }))) by (bit_vector);
    assert((b < 128) ==> ((m >> b) & 1 == 0 || (m >> b) & 1 == 1)) by (bit_vector);
}

/// Clearing bit `j` of an 81-bit set leaves every other bit alone.
pub proof fn lemma_u128_clear_bit(m: u128, j: u128, b: u128)
    requires
        j < 128,
        b < 128,
    ensures
        idx_bit(m & !(1u128 << j), b as int) <==> (b != j && idx_bit(m, b as int)),
{
    assert((j < 128 && b < 128) ==> (((m & !(1u128 << j)) >> b) & 1 == (if b == j {
        0u128
    } else {
        (m >> b) & 1
    }))) by (bit_vector);
    assert((b < 128) ==> ((m >> b) & 1 == 0 || (m >> b) & 1 == 1)) by (bit_vector);
}

/// The empty 81-bit set has no bits.
pub proof fn lemma_u128_zero_bit(b: u128)
    ensures
        !idx_bit(0u128, b as int),
{
    assert((0u128 >> b) & 1 == 0) by (bit_vector);
}

/// Reading bit `b` of an 81-bit set with an exec shift.
pub proof fn lemma_u128_test_bit(m: u128, b: u128)
    requires
        b < 128,
    ensures
        ((m >> b) & 1 == 1) <==> idx_bit(m, b as int),
{
    assert((b < 128) ==> ((m >> b) & 1 == 0 || (m >> b) & 1 == 1)) by (bit_vector);
}

/// Clearing digit `v` from a candidate mask clears exactly that bit.
pub proof fn lemma_u16_elim_bit(m: u16, v: u16, d: u16)
    requires
        v < 9,
        d < 9,
    ensures
        mask_bit(m & !(1u16 << v), d as int) <==> (d != v && mask_bit(m, d as int)),
{
    assert((v < 9 && d < 9) ==> (((m & !(1u16 << v)) >> d) & 1u16 == (if d == v {
        0u16
    } else {
        (m >> d) & 1
    }))) by (bit_vector);
    assert((d < 9) ==> ((m >> d) & 1 == 0 || (m >> d) & 1 == 1)) by (bit_vector);
}

/// Clearing digit `v` leaves the mask unchanged exactly when `v` was absent.
pub proof fn lemma_u16_elim_unchanged(m: u16, v: u16)
    requires
        v < 9,
    ensures
        (m & !(1u16 << v) == m) <==> !mask_bit(m, v as int),
{
    assert((v < 9) ==> ((m & !(1u16 << v) == m) <==> ((m >> v) & 1 != 1))) by (bit_vector);
}

/// Clearing a bit can only shrink the mask, and keeps it under 512.
pub proof fn lemma_u16_elim_bound(m: u16, v: u16)
    requires
        v < 9,
        m < 512,
    ensures
        m & !(1u16 << v) < 512,
{
    assert((v < 9 && m < 512) ==> (m & !(1u16 << v) < 512)) by (bit_vector);
}

/// The bits of a one-digit mask, and its bounds.
pub proof fn lemma_u16_digit_mask(v: u16, d: u16)
    requires
        v < 9,
        d < 9,
    ensures
        mask_bit(1u16 << v, d as int) <==> d == v,
        0 < (1u16 << v) < 512,
{
    assert((v < 9 && d < 9) ==> ((((1u16 << v) >> d) & 1 == 1) <==> d == v)) by (bit_vector);
    assert((v < 9) ==> (0 < (1u16 << v) < 512)) by (bit_vector);
}

/// The exec power-of-two test `m & (m - 1) == 0` detects singleton masks.
pub proof fn lemma_u16_singleton_test(m: u16, p: u16)
    requires
        m < 512,
        m != 0,
        p == m - 1,
    ensures
        (m & p == 0) <==> mask_is_singleton(m),
{
    assert((m < 512 && m != 0 && p == m - 1) ==> ((m & p == 0) <==> (m == 1 || m == 2 || m == 4
        || m == 8 || m == 16 || m == 32 || m == 64 || m == 128 || m == 256))) by (bit_vector);
    assert((1u16 << 0u16) == 1 && (1u16 << 1u16) == 2 && (1u16 << 2u16) == 4 && (1u16 << 3u16) == 8
        && (1u16 << 4u16) == 16 && (1u16 << 5u16) == 32 && (1u16 << 6u16) == 64 && (1u16 << 7u16)
        == 128 && (1u16 << 8u16) == 256) by (bit_vector);
    if m & p == 0 {
        if m == 1 {
            assert(m == digit_mask(0));
        } else if m == 2 {
            assert(m == digit_mask(1));
        } else if m == 4 {
            assert(m == digit_mask(2));
        } else if m == 8 {
            assert(m == digit_mask(3));
        } else if m == 16 {
            assert(m == digit_mask(4));
        } else if m == 32 {
            assert(m == digit_mask(5));
        } else if m == 64 {
            assert(m == digit_mask(6));
        } else if m == 128 {
            assert(m == digit_mask(7));
        } else {
            assert(m == digit_mask(8));
        }
    }
    if mask_is_singleton(m) {
        let d = choose|d: int| 0 <= d < 9 && m == digit_mask(d);
        assert(m == 1u16 << (d as u16));
    }
}

/// A nonzero 9-bit mask has a set bit among the nine digits.
pub proof fn lemma_u16_nonzero_has_digit(m: u16)
    requires
        m < 512,
        m != 0,
    ensures
        0 <= lowest_digit(m) < 9,
        mask_bit(m, lowest_digit(m)),
        forall|d: int| 0 <= d < lowest_digit(m) ==> !mask_bit(m, d),
{
    assert((m < 512 && m != 0) ==> ((m >> 0u16) & 1 == 1 || (m >> 1u16) & 1 == 1 || (m >> 2u16) & 1
        == 1 || (m >> 3u16) & 1 == 1 || (m >> 4u16) & 1 == 1 || (m >> 5u16) & 1 == 1 || (m
        >> 6u16) & 1 == 1 || (m >> 7u16) & 1 == 1 || (m >> 8u16) & 1 == 1)) by (bit_vector);
    assert(mask_bit(m, 0) || mask_bit(m, 1) || mask_bit(m, 2) || mask_bit(m, 3) || mask_bit(m, 4)
        || mask_bit(m, 5) || mask_bit(m, 6) || mask_bit(m, 7) || mask_bit(m, 8));
}

/// The exec membership test `m & (1 << v) != 0` agrees with `mask_bit`.
pub proof fn lemma_u16_test_mask(m: u16, v: u16)
    requires
        v < 9,
    ensures
        (m & (1u16 << v) != 0) <==> mask_bit(m, v as int),
{
    assert((v < 9) ==> ((m & (1u16 << v) != 0) <==> ((m >> v) & 1 == 1))) by (bit_vector);
}

/// The empty mask absorbs intersections.
pub proof fn lemma_u16_zero_and(x: u16)
    ensures
        0u16 & x == 0,
        x & 0u16 == 0,
{
    assert(0u16 & x == 0 && x & 0u16 == 0) by (bit_vector);
}

/// Bitwise OR of candidate masks is union of their digit sets.
pub proof fn lemma_u16_or_bit(a: u16, b: u16, d: u16)
    requires
        d < 9,
    ensures
        mask_bit(a | b, d as int) <==> (mask_bit(a, d as int) || mask_bit(b, d as int)),
{
    assert((d < 9) ==> ((((a | b) >> d) & 1 == 1) <==> ((a >> d) & 1 == 1 || (b >> d) & 1
        == 1))) by (bit_vector);
}

/// Bitwise AND of candidate masks is intersection of their digit sets.
pub proof fn lemma_u16_and_bit(a: u16, b: u16, d: u16)
    requires
        d < 9,
    ensures
        mask_bit(a & b, d as int) <==> (mask_bit(a, d as int) && mask_bit(b, d as int)),
{
    assert((d < 9) ==> ((((a & b) >> d) & 1 == 1) <==> ((a >> d) & 1 == 1 && (b >> d) & 1
        == 1))) by (bit_vector);
}

/// `a & !b` keeps exactly the digits of `a` missing from `b`.
pub proof fn lemma_u16_andnot_bit(a: u16, b: u16, d: u16)
    requires
        d < 9,
    ensures
        mask_bit(a & !b, d as int) <==> (mask_bit(a, d as int) && !mask_bit(b, d as int)),
{
    assert((d < 9) ==> ((((a & !b) >> d) & 1 == 1) <==> ((a >> d) & 1 == 1 && !((b >> d) & 1
        == 1)))) by (bit_vector);
}

/// `a & x` stays a 9-bit mask when `a` is one.
pub proof fn lemma_u16_and_bound(a: u16, x: u16)
    requires
        a < 512,
    ensures
        a & x < 512,
        a & !x < 512,
{
    assert((a < 512) ==> (a & x < 512 && a & !x < 512)) by (bit_vector);
}

/// The all-candidates mask holds every digit.
pub proof fn lemma_u16_full_mask_bit(d: u16)
    requires
        d < 9,
    ensures
        mask_bit(0x1FFu16, d as int),
{
    assert((d < 9) ==> ((0x1FFu16 >> d) & 1 == 1)) by (bit_vector);
}

/// A 9-bit mask holding no digit at all is the zero sentinel.
pub proof fn lemma_u16_no_digits_zero(m: u16)
    requires
        m < 512,
        forall|d: int| 0 <= d < 9 ==> !mask_bit(m, d),
    ensures
        m == 0,
{
    assert(!mask_bit(m, 0) && !mask_bit(m, 1) && !mask_bit(m, 2) && !mask_bit(m, 3) && !mask_bit(
        m,
        4,
    ) && !mask_bit(m, 5) && !mask_bit(m, 6) && !mask_bit(m, 7) && !mask_bit(m, 8));
    assert((m < 512 && (m >> 0u16) & 1 != 1 && (m >> 1u16) & 1 != 1 && (m >> 2u16) & 1 != 1 && (m
        >> 3u16) & 1 != 1 && (m >> 4u16) & 1 != 1 && (m >> 5u16) & 1 != 1 && (m >> 6u16) & 1 != 1
        && (m >> 7u16) & 1 != 1 && (m >> 8u16) & 1 != 1) ==> m == 0) by (bit_vector);
}

/// An empty candidate mask has no digits.
pub proof fn lemma_u16_zero_mask(d: u16)
    requires
        d < 9,
    ensures
        !mask_bit(0u16, d as int),
{
    assert((d < 9) ==> ((0u16 >> d) & 1 == 0)) by (bit_vector);
}

} // verus!

