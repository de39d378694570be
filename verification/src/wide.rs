//! Full-precision multiplication of two `u128` values: the exact 256-bit
//! product is returned as a `(high, low)` pair of 128-bit words, computed by
//! schoolbook multiplication on 64-bit limbs with carry propagation.

use vstd::prelude::*;
use vstd::arithmetic::div_mod::{
    lemma_fundamental_div_mod, lemma_fundamental_div_mod_converse_div,
};
use vstd::arithmetic::mul::{lemma_mul_inequality, lemma_mul_upper_bound};
use vstd::arithmetic::power2::{lemma2_to64_rest, lemma_pow2_adds, pow2};

verus! {

/// The weight of the high 64-bit limb of a `u128`: `2^64`.
pub const LIMB64: u128 = 0x1_0000_0000_0000_0000;

/// Split a `u128` into its two 64-bit halves `(high, low)`,
/// so that `a == high * 2^64 + low`.
pub fn split(a: u128) -> (r: (u64, u64))
    ensures
        a == r.0 * LIMB64 + r.1,
        a as nat % pow2(64) == r.1 as nat,
        a as nat / pow2(64) == r.0 as nat,
{
    let al = a as u64;
    let ah = (a >> 64u32) as u64;
    proof {
        assert(a == (ah as u128) * LIMB64 + al) by (bit_vector)
            requires
                al == a as u64,
                ah == (a >> 64u32) as u64,
        ;
        lemma2_to64_rest();
        lemma_fundamental_div_mod_converse_div(a as int, pow2(64) as int, ah as int, al as int);
        assert(a as int - (ah as int) * (pow2(64) as int) == al as int);
    }
    (ah, al)
}

/// The low 64 bits of `x`, as a `u128`.
pub fn lo(x: u128) -> (r: u128)
    ensures
        r == x % LIMB64,
        r < LIMB64,
{
    x % LIMB64
}

/// The high 64 bits of `x`, as a `u128`.
pub fn hi(x: u128) -> (r: u128)
    ensures
        r == x / LIMB64,
        r < LIMB64,
        x == r * LIMB64 + (x % LIMB64),
{
    proof {
        lemma_fundamental_div_mod(x as int, LIMB64 as int);
        lemma_fundamental_div_mod_converse_div(
            u128::MAX as int,
            LIMB64 as int,
            LIMB64 as int - 1,
            LIMB64 as int - 1,
        );
        vstd::arithmetic::div_mod::lemma_div_is_ordered(x as int, u128::MAX as int, LIMB64 as int);
    }
    x / LIMB64
}

/// The exact 256-bit product of `a` and `b`, as `(carry, result)`:
/// `result` holds bits 0-127 and `carry` bits 128-255, so that
/// `carry * 2^128 + result == a * b` for every pair of operands.
pub fn multiply(a: u128, b: u128) -> (r: (u128, u128))
    ensures
        r.0 as nat * pow2(128) + r.1 as nat == a as nat * b as nat,
{
    let al = lo(a);
    let ah = hi(a);
    let bl = lo(b);
    let bh = hi(b);
    proof {
        lemma_mul_upper_bound(al as int, LIMB64 as int - 1, bl as int, LIMB64 as int - 1);
        assert(al as int * bl as int <= (LIMB64 as int - 1) * (LIMB64 as int - 1));
        assert((LIMB64 as int - 1) * (LIMB64 as int - 1) < u128::MAX as int)
            by (nonlinear_arith);
    }
    let x1 = al * bl;
    let s0 = lo(x1);
    let c1 = hi(x1);
    proof {
        lemma_mul_upper_bound(ah as int, LIMB64 as int - 1, bl as int, LIMB64 as int - 1);
        assert(ah as int * bl as int <= (LIMB64 as int - 1) * (LIMB64 as int - 1));
        assert((LIMB64 as int - 1) * (LIMB64 as int - 1) + (LIMB64 as int - 1) < u128::MAX as int)
            by (nonlinear_arith);
    }
    let x2 = ah * bl + c1;
    let s1a = lo(x2);
    let s2a = hi(x2);
    proof {
        lemma_mul_upper_bound(al as int, LIMB64 as int - 1, bh as int, LIMB64 as int - 1);
        assert(al as int * bh as int <= (LIMB64 as int - 1) * (LIMB64 as int - 1));
        assert((LIMB64 as int - 1) + (LIMB64 as int - 1) * (LIMB64 as int - 1) < u128::MAX as int)
            by (nonlinear_arith);
    }
    let x3 = s1a + al * bh;
    let s1 = lo(x3);
    let c3 = hi(x3);
    proof {
        lemma_mul_upper_bound(ah as int, LIMB64 as int - 1, bh as int, LIMB64 as int - 1);
        assert(ah as int * bh as int <= (LIMB64 as int - 1) * (LIMB64 as int - 1));
        assert((LIMB64 as int - 1) + (LIMB64 as int - 1) * (LIMB64 as int - 1) + (LIMB64 as int
            - 1) <= u128::MAX as int) by (nonlinear_arith);
    }
    let x4 = s2a + ah * bh + c3;
    let s2 = lo(x4);
    let s3 = hi(x4);
    proof {
        lemma_mul_inequality(s1 as int, LIMB64 as int - 1, LIMB64 as int);
        lemma_mul_inequality(s3 as int, LIMB64 as int - 1, LIMB64 as int);
    }
    let result = s1 * LIMB64 + s0;
    let carry = s3 * LIMB64 + s2;
    proof {
        let bb = LIMB64 as int;
        let phh = ah as int * bh as int;
        let phl = ah as int * bl as int;
        let plh = al as int * bh as int;
        let pll = al as int * bl as int;
        assert(a as int * b as int == phh * (bb * bb) + phl * bb + plh * bb + pll)
            by (nonlinear_arith)
            requires
                a == ah * bb + al,
                b == bh * bb + bl,
                phh == ah as int * bh as int,
                phl == ah as int * bl as int,
                plh == al as int * bh as int,
                pll == al as int * bl as int,
        ;
        assert(carry as int * (bb * bb) + result as int == s3 as int * (bb * (bb * bb)) + s2 as int
            * (bb * bb) + s1 as int * bb + s0 as int) by (nonlinear_arith)
            requires
                carry == s3 * bb + s2,
                result == s1 * bb + s0,
        ;
        assert(phh * (bb * bb) + phl * bb + plh * bb + pll == s3 as int * (bb * (bb * bb)) + s2
            as int * (bb * bb) + s1 as int * bb + s0 as int) by (nonlinear_arith)
            requires
                x1 == pll,
                x1 == c1 * bb + s0,
                x2 == phl + c1,
                x2 == s2a * bb + s1a,
                x3 == s1a + plh,
                x3 == c3 * bb + s1,
                x4 == s2a + phh + c3,
                x4 == s3 * bb + s2,
        ;
        assert(carry as int * (bb * bb) + result as int == a as int * b as int);
        lemma_pow2_adds(64, 64);
        lemma2_to64_rest();
        assert(pow2(128) == bb * bb);
    }
    (carry, result)
}

} // verus!
