//! Single-word bit primitives used to walk the set bits of a bitmap word,
//! lowest first.
use vstd::prelude::*;
use vstd::std_specs::bits::{axiom_u32_trailing_zeros, u32_trailing_zeros};

verus! {

/// Whether bit `k` (bit 0 being the least significant) of `w` is set.
pub open spec fn bit_of(w: u32, k: u32) -> bool {
    (w >> k) & 1u32 == 1u32
}

/// `x & -x` in two's complement: only the lowest set bit of `x` is kept.
pub open spec fn lowest_spec(x: u32) -> u32 {
    x & ((!x + 1u32) as u32)
}

/// `x & (x - 1)`: the lowest set bit of `x` is cleared.
pub open spec fn drop_lowest_spec(x: u32) -> u32 {
    if x == 0 {
        0
    } else {
        x & ((x - 1u32) as u32)
    }
}

/// `x ^ (x - 1)`: every bit from bit 0 up to and including the lowest set bit.
pub open spec fn smear_spec(x: u32) -> u32 {
    if x == 0 {
        0
    } else {
        x ^ ((x - 1u32) as u32)
    }
}

/// Clears the lowest set bit of `x`; zero stays zero.
pub fn remove(x: u32) -> (r: u32)
    ensures
        r == drop_lowest_spec(x),
{
    if x > 0 {
        x & (x - 1)
    } else {
        0
    }
}

/// Isolates the lowest set bit of `x`; zero stays zero.
pub fn extract(x: u32) -> (r: u32)
    ensures
        r == lowest_spec(x),
{
    if x == 0 {
        assert(0u32 & ((!0u32 + 1u32) as u32) == 0u32) by (bit_vector);
        0
    } else {
        assert(x != 0 ==> !x < 0xffff_ffffu32) by (bit_vector);
        x & (!x + 1)
    }
}

/// Sets every bit from bit 0 through the lowest set bit of `x`; zero stays zero.
pub fn smear(x: u32) -> (r: u32)
    ensures
        r == smear_spec(x),
{
    if x > 0 {
        x ^ (x - 1)
    } else {
        0
    }
}

/// The lowest set bit of a non-zero word sits at its trailing-zero count, and the
/// three primitives act on exactly that bit.
pub proof fn lemma_lowest_bit(x: u32)
    requires
        x != 0,
    ensures
        u32_trailing_zeros(x) < 32,
        bit_of(x, u32_trailing_zeros(x)),
        forall|j: u32| j < u32_trailing_zeros(x) ==> !bit_of(x, j),
        lowest_spec(x) == 1u32 << u32_trailing_zeros(x),
        drop_lowest_spec(x) == x & !(1u32 << u32_trailing_zeros(x)),
        smear_spec(x) == (1u32 << u32_trailing_zeros(x)) | (((1u32 << u32_trailing_zeros(x)) - 1u32) as u32),
{
    axiom_u32_trailing_zeros(x);
    let k = u32_trailing_zeros(x);
    assert forall|j: u32| j < k implies !bit_of(x, j) by {
        assert((x >> j) & 1u32 == 0u32);
    }
    assert(x << ((32 - k) as u32) == 0 && k < 32 && (x >> k) & 1u32 == 1u32 ==> x & ((!x + 1u32) as u32)
        == 1u32 << k) by (bit_vector);
    assert(x << ((32 - k) as u32) == 0 && k < 32 && (x >> k) & 1u32 == 1u32 ==> x & ((x - 1u32) as u32)
        == x & !(1u32 << k)) by (bit_vector);
    assert(x << ((32 - k) as u32) == 0 && k < 32 && (x >> k) & 1u32 == 1u32 ==> x ^ ((x - 1u32) as u32)
        == (1u32 << k) | (((1u32 << k) - 1u32) as u32)) by (bit_vector);
}

} // verus!
