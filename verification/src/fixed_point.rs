//! Fixed-point division: `floor(a * 2^p / b)` computed without ever
//! materialising the possibly 384-bit intermediate `a * 2^p`. The value `a`
//! is pre-shifted as far as its leading zeros allow, divided, and the
//! remainder refined through one further shift-and-divide pass.

use vstd::prelude::*;
use crate::bits128::{
    leading_zeros_u128, lemma_pow2_128, lemma_shift_fits, lemma_shift_overflows, pow2_u128,
};
use vstd::arithmetic::div_mod::{
    lemma_div_by_multiple, lemma_fundamental_div_mod, lemma_hoist_over_denominator,
    lemma_multiply_divide_lt,
};
use vstd::arithmetic::mul::lemma_mul_strict_inequality;
use vstd::arithmetic::power2::{
    lemma2_to64, lemma_pow2_adds, lemma_pow2_pos, lemma_pow2_strictly_increases, pow2,
};

verus! {

/// `floor(a * 2^p / b)`, or `None` when the result cannot be seen to fit in
/// 128 bits.
///
/// Every returned quotient is exact, and whenever `a * 2^p` itself fits in a
/// `u128` the division succeeds. The refinement is deliberately bounded to
/// two shift-and-divide passes, so a `None` can also mean that the two
/// passes could not absorb the whole exponent, even though the true quotient
/// would have fit.
pub fn divide(a: u128, b: u128, p: u8) -> (r: Option<u128>)
    requires
        b >= 1,
    ensures
        r matches Some(q) ==> q as nat == a as nat * pow2(p as nat) / b as nat,
        a as nat * pow2(p as nat) <= u128::MAX as nat ==> r is Some,
        p == 0 ==> r == Some(a / b),
{
    if a == 0 {
        proof {
            lemma_pow2_pos(p as nat);
            vstd::arithmetic::div_mod::lemma_div_of0(b as int);
        }
        return Some(0);
    }
    // Bits of space to shift into.
    let lz = leading_zeros_u128(a);
    let pw: u32 = p as u32;
    let shift: u32 = if lz < pw {
        lz
    } else {
        pw
    };
    proof {
        lemma_shift_fits(a as nat, (128 - lz) as nat, shift as nat);
    }
    // Shift as much as the leading zeros allow.
    let a1 = a * pow2_u128(shift);
    let p1: u32 = pw - shift;
    // First division.
    let d = a1 / b;
    let rem = a1 % b;
    proof {
        lemma_pow2_adds(shift as nat, p1 as nat);
        assert(a as nat * pow2(pw as nat) == a1 as nat * pow2(p1 as nat)) by (nonlinear_arith)
            requires
                a1 as nat == a as nat * pow2(shift as nat),
                pow2(pw as nat) == pow2(shift as nat) * pow2(p1 as nat),
        ;
        lemma_fundamental_div_mod(a1 as int, b as int);
    }
    if p1 == 0 {
        // The shift absorbed the whole exponent.
        proof {
            lemma2_to64();
            if p == 0 {
                assert(a as nat * pow2(0) == a as nat) by (nonlinear_arith)
                    requires
                        pow2(0) == 1,
                ;
            }
        }
        return Some(d);
    }
    proof {
        // The pre-shift was capped by the leading zeros, so `a * 2^p` has
        // more than 128 bits and overflow may no longer be ruled out.
        lemma_shift_overflows(a as nat, (127 - lz) as nat, pw as nat);
    }
    let lzd = leading_zeros_u128(d);
    if lzd < p1 {
        // Even the first-pass quotient cannot absorb the remaining exponent.
        return None;
    }
    // Scaled partial result.
    let n: u128;
    if d == 0 {
        n = 0;
    } else {
        proof {
            lemma_shift_fits(d as nat, (128 - lzd) as nat, p1 as nat);
        }
        n = d * pow2_u128(p1);
    }
    if rem == 0 {
        // The first division was exact.
        proof {
            assert(a1 as nat * pow2(p1 as nat) == (d as nat * pow2(p1 as nat)) * b as nat)
                by (nonlinear_arith)
                requires
                    a1 as nat == b as nat * (d as nat) + rem as nat,
                    rem == 0,
            ;
            lemma_div_by_multiple(d as int * pow2(p1 as nat) as int, b as int);
        }
        return Some(n);
    }
    // Second pass: continue with the remainder.
    let lzr = leading_zeros_u128(rem);
    let shift2: u32 = if lzr < p1 {
        lzr
    } else {
        p1
    };
    proof {
        lemma_shift_fits(rem as nat, (128 - lzr) as nat, shift2 as nat);
    }
    let a2 = rem * pow2_u128(shift2);
    let p2: u32 = p1 - shift2;
    let d2 = a2 / b;
    if p2 == 0 {
        proof {
            lemma_pow2_pos(p1 as nat);
            // rem < b, so the second-pass quotient is below 2^p1 ...
            lemma_mul_strict_inequality(rem as int, b as int, pow2(p1 as nat) as int);
            lemma_multiply_divide_lt(a2 as int, b as int, pow2(p1 as nat) as int);
            // ... and the first-pass quotient leaves it exactly that headroom.
            if 128 - lzd < 128 - p1 {
                lemma_pow2_strictly_increases((128 - lzd) as nat, (128 - p1) as nat);
            }
            lemma_pow2_adds((128 - p1) as nat, p1 as nat);
            lemma_pow2_128();
            assert(n as nat + d2 as nat <= u128::MAX as nat) by (nonlinear_arith)
                requires
                    (d as nat) < pow2((128 - p1) as nat),
                    (d2 as nat) < pow2(p1 as nat),
                    n as nat == d as nat * pow2(p1 as nat),
                    pow2((128 - p1) as nat) * pow2(p1 as nat) == pow2(128),
                    pow2(128) == u128::MAX as nat + 1,
            ;
            // Exactness: quotient and scaled remainder recombine.
            assert(a1 as nat * pow2(p1 as nat) == a2 as nat + (d as nat * pow2(p1 as nat)) * (
            b as nat)) by (nonlinear_arith)
                requires
                    a1 as nat == b as nat * (d as nat) + rem as nat,
                    a2 as nat == rem as nat * pow2(p1 as nat),
            ;
            lemma_hoist_over_denominator(a2 as int, d as int * pow2(p1 as nat) as int, b as nat);
        }
        return Some(n + d2);
    }
    // A third pass would be needed; give up and report overflow.
    None
}

} // verus!
