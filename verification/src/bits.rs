//! Shifts of 32-bit signed integers, related to multiplication and floor
//! division by powers of two.
use vstd::arithmetic::power2::{lemma2_to64, lemma_pow2_pos, lemma_pow2_strictly_increases, pow2};
use vstd::bits::{lemma_u32_shl_is_mul, lemma_u32_shr_is_div};
use vstd::prelude::*;

verus! {

/// The powers of two that a shift of an `i32` can reach stay below `2^32`.
pub proof fn lemma_pow2_bounds(k: nat)
    requires
        k < 32,
    ensures
        0 < pow2(k) <= 0x8000_0000,
        k < 31 ==> pow2(k) <= 0x4000_0000,
        k == 31 ==> pow2(k) == 0x8000_0000,
{
    lemma2_to64();
    lemma_pow2_pos(k);
    if k < 31 {
        if k < 30 {
            lemma_pow2_strictly_increases(k, 30);
        }
    } else {
        assert(pow2(31) == 0x8000_0000);
    }
}

/// An arithmetic right shift is a division that rounds toward negative
/// infinity.
pub proof fn lemma_shr_is_floor_div(x: i32, k: u32)
    requires
        k < 32,
    ensures
        (x >> k) as int == (x as int) / (pow2(k as nat) as int),
{
    lemma_pow2_bounds(k as nat);
    let d = pow2(k as nat) as int;
    if x >= 0 {
        let ux = x as u32;
        assert(x >= 0 && k < 32 ==> (x >> k) == ((x as u32) >> k) as i32) by (bit_vector);
        lemma_u32_shr_is_div(ux, k);
    } else {
        let y: i32 = !x;
        assert(x < 0 && k < 32 ==> (x >> k) == !((!x) >> k)) by (bit_vector);
        assert(!x == -1 - x) by (bit_vector);
        let z: i32 = y >> k;
        assert(!z == -1 - z) by (bit_vector);
        let uy = y as u32;
        assert(y >= 0 && k < 32 ==> (y >> k) == ((y as u32) >> k) as i32) by (bit_vector);
        lemma_u32_shr_is_div(uy, k);
        assert((x as int) / d == -1 - (y as int) / d) by (nonlinear_arith)
            requires
                d > 0,
                y >= 0,
                x == -1 - y,
        ;
    }
}

/// A left shift whose mathematical result fits is a multiplication.
pub proof fn lemma_shl_is_mul(x: i32, k: u32)
    requires
        k < 32,
        i32::MIN <= x * pow2(k as nat) <= i32::MAX,
    ensures
        (x << k) as int == x * pow2(k as nat),
{
    lemma_pow2_bounds(k as nat);
    let d = pow2(k as nat) as int;
    if k == 31 {
        assert(x == 0 || x == -1) by (nonlinear_arith)
            requires
                d == 0x8000_0000,
                i32::MIN <= x * d <= i32::MAX,
        ;
        assert((0i32 << 31u32) == 0i32) by (bit_vector);
        assert((-1i32 << 31u32) == -0x8000_0000i32) by (bit_vector);
    } else {
        lemma_u32_shl_is_mul(1u32, k);
        assert(k < 31 ==> (1i32 << k) == (1u32 << k) as i32) by (bit_vector);
        let p: i32 = 1i32 << k;
        assert(p == d);
        assert(k < 31 && (i32::MIN <= x * ((1i32 << k) as int) <= i32::MAX) ==> (x << k) == x * (1i32
            << k)) by (bit_vector);
    }
}

} // verus!
