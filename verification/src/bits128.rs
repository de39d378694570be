//! Power-of-two and leading-zero helpers for 128-bit values, together with
//! the overflow lemmas that justify shifting a value left by at most its
//! number of leading zero bits.

use vstd::prelude::*;
use vstd::arithmetic::div_mod::{lemma_div_denominator, lemma_fundamental_div_mod};
use vstd::arithmetic::mul::{lemma_mul_inequality, lemma_mul_strict_inequality};
use vstd::arithmetic::power2::{
    lemma2_to64, lemma2_to64_rest, lemma_pow2_adds, lemma_pow2_pos, lemma_pow2_strictly_increases,
    pow2,
};

verus! {

/// `2^128` is one more than the largest `u128`.
pub proof fn lemma_pow2_128()
    ensures
        pow2(128) == u128::MAX as nat + 1,
{
    lemma_pow2_adds(64, 64);
    lemma2_to64_rest();
    assert(pow2(64) * pow2(64) == 0x1_0000_0000_0000_0000nat * 0x1_0000_0000_0000_0000nat);
    assert(0x1_0000_0000_0000_0000nat * 0x1_0000_0000_0000_0000nat == u128::MAX as nat + 1)
        by (nonlinear_arith);
}

/// A value below `2^m`, multiplied by `2^s`, stays below `2^(m + s)`;
/// when `m + s` is at most 128 the product therefore fits in a `u128`.
pub proof fn lemma_shift_fits(x: nat, m: nat, s: nat)
    requires
        x < pow2(m),
        m + s <= 128,
    ensures
        x * pow2(s) < pow2((m + s) as nat),
        x * pow2(s) <= u128::MAX as nat,
{
    lemma_pow2_adds(m, s);
    lemma_pow2_pos(s);
    lemma_mul_strict_inequality(x as int, pow2(m) as int, pow2(s) as int);
    if m + s < 128 {
        lemma_pow2_strictly_increases(m + s, 128);
    }
    lemma_pow2_128();
}

/// A value of at least `2^m`, multiplied by `2^s` with `m + s` at least 128,
/// exceeds the largest `u128`.
pub proof fn lemma_shift_overflows(x: nat, m: nat, s: nat)
    requires
        pow2(m) <= x,
        m + s >= 128,
    ensures
        x * pow2(s) > u128::MAX as nat,
{
    lemma_pow2_adds(m, s);
    lemma_mul_inequality(pow2(m) as int, x as int, pow2(s) as int);
    if m + s > 128 {
        lemma_pow2_strictly_increases(128, m + s);
    }
    lemma_pow2_128();
}

/// `2^e`, computed by repeated doubling; defined for exponents below 128.
pub fn pow2_u128(e: u32) -> (r: u128)
    requires
        e < 128,
    ensures
        r as nat == pow2(e as nat),
        r >= 1,
{
    let mut r: u128 = 1;
    let mut i: u32 = 0;
    proof {
        lemma2_to64();
    }
    while i < e
        invariant
            i <= e < 128,
            r as nat == pow2(i as nat),
        decreases e - i,
    {
        proof {
            lemma_pow2_adds(i as nat, 1);
            lemma2_to64();
            lemma_pow2_strictly_increases(i as nat + 1, 128);
            lemma_pow2_128();
        }
        r = r * 2;
        i = i + 1;
    }
    proof {
        lemma_pow2_pos(e as nat);
    }
    r
}

/// The number of leading zero bits in the 128-bit representation of `a`:
/// `a` lies below `2^(128 - r)`, and at or above `2^(127 - r)` unless it
/// is zero, in which case the count is 128.
pub fn leading_zeros_u128(a: u128) -> (r: u32)
    ensures
        r <= 128,
        (a as nat) < pow2((128 - r) as nat),
        r < 128 ==> pow2((127 - r) as nat) <= (a as nat),
        a == 0 <==> r == 128,
{
    let mut n: u32 = 0;
    let mut x: u128 = a;
    proof {
        lemma2_to64();
    }
    while x > 0
        invariant
            n <= 128,
            x as nat == a as nat / pow2(n as nat),
            n > 0 ==> pow2((n - 1) as nat) <= a as nat,
            a == 0 ==> n == 0,
        decreases x,
    {
        proof {
            lemma_pow2_pos(n as nat);
            if a == 0 {
                vstd::arithmetic::div_mod::lemma_div_of0(pow2(n as nat) as int);
            }
            lemma_fundamental_div_mod(a as int, pow2(n as nat) as int);
            // x >= 1, so a >= pow2(n); in particular n is still below 128.
            lemma_mul_inequality(1, x as int, pow2(n as nat) as int);
            if n >= 128 {
                lemma_pow2_128();
            }
            lemma_div_denominator(a as int, pow2(n as nat) as int, 2);
            lemma_pow2_adds(n as nat, 1);
            lemma2_to64();
        }
        x = x / 2;
        n = n + 1;
    }
    proof {
        lemma2_to64();
        lemma_pow2_pos(n as nat);
        lemma_fundamental_div_mod(a as int, pow2(n as nat) as int);
    }
    128 - n
}

} // verus!
