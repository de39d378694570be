//! Safe rational multiply-divide `a * b / c` over `u128`. The native
//! product is attempted first, after shortcuts that divide an exactly
//! divisible operand by `c`; only when the product overflows 128 bits do
//! the operands move into the arbitrary-precision domain.

use vstd::prelude::*;
use crate::bignum::{big_add, big_div, big_mul, big_rem, big_to_u128, big_value, to_big_uint};
use vstd::arithmetic::div_mod::{
    lemma_div_basics_1, lemma_div_multiples_vanish, lemma_div_nonincreasing,
    lemma_fundamental_div_mod, lemma_mod_bound,
};

verus! {

/// The value `multiply_by_rational` computes for operands `a`, `b` and a
/// divisor `c >= 1`: the truncated quotient `a * b / c`, except that the
/// arbitrary-precision fallback rounds half up when the divisor needs more
/// than one base-2^32 limb. That path is taken exactly when neither operand
/// is divisible by `c` and the product overflows 128 bits.
pub open spec fn rational_mul_div(a: nat, b: nat, c: nat) -> nat {
    let p = a * b;
    let q = p / c;
    if a % c != 0 && b % c != 0 && p > u128::MAX as nat && c >= 0x1_0000_0000 && p % c > c / 2 {
        q + 1
    } else {
        q
    }
}

/// Compute `a * b / c` exactly, or report that the result has no 128-bit
/// representation.
///
/// The division truncates, with one documented exception: when the product
/// overflows 128 bits, no shortcut division applies, and `c` occupies more
/// than one base-2^32 limb, the fallback rounds the quotient up by one
/// whenever the remainder exceeds `c / 2` (see [`rational_mul_div`]).
pub fn multiply_by_rational(a: u128, b: u128, c: u128) -> (r: Result<u128, &'static str>)
    requires
        c >= 1,
    ensures
        r matches Ok(v) ==> v as nat == rational_mul_div(a as nat, b as nat, c as nat),
        r is Ok <==> rational_mul_div(a as nat, b as nat, c as nat) <= u128::MAX as nat,
        r matches Err(e) ==> e@ == "result cannot fit in u128"@,
{
    let ghost num: nat = a as nat * b as nat;
    if a == 0 || b == 0 {
        proof {
            lemma_div_basics_1(c as int);
            assert(num == 0);
            assert(rational_mul_div(a as nat, b as nat, c as nat) == 0);
        }
        return Ok(0);
    }
    // The product is symmetric; let `x` be the larger operand.
    let x = if b > a {
        b
    } else {
        a
    };
    let y = if b > a {
        a
    } else {
        b
    };
    proof {
        vstd::arithmetic::mul::lemma_mul_is_commutative(a as int, b as int);
        assert(x as nat * y as nat == num);
    }
    // Divide first where a division is exact; it lowers the chance that the
    // native product overflows.
    let x2: u128;
    let y2: u128;
    let c2: u128;
    let ghost reduced: bool = x as nat % c as nat == 0 || y as nat % c as nat == 0;
    if x % c == 0 {
        x2 = x / c;
        y2 = y;
        c2 = 1;
        proof {
            lemma_fundamental_div_mod(x as int, c as int);
            assert(num == c as nat * (x2 as nat * y2 as nat)) by (nonlinear_arith)
                requires
                    x as nat == c as nat * x2 as nat,
                    num == x as nat * y as nat,
                    y2 == y,
            ;
        }
    } else if y % c == 0 {
        x2 = x;
        y2 = y / c;
        c2 = 1;
        proof {
            lemma_fundamental_div_mod(y as int, c as int);
            assert(num == c as nat * (x2 as nat * y2 as nat)) by (nonlinear_arith)
                requires
                    y as nat == c as nat * y2 as nat,
                    num == x as nat * y as nat,
                    x2 == x,
            ;
        }
    } else {
        x2 = x;
        y2 = y;
        c2 = c;
    }
    proof {
        // In either case the final quotient is `x2 * y2 / c2`.
        if reduced {
            lemma_div_multiples_vanish(x2 as int * y2 as int, c as int);
            assert(num / c as nat == x2 as nat * y2 as nat);
            vstd::arithmetic::div_mod::lemma_mod_multiples_basic(
                x2 as int * y2 as int,
                c as int,
            );
            vstd::arithmetic::mul::lemma_mul_is_commutative(c as int, x2 as int * y2 as int);
            assert(num % c as nat == 0);
            lemma_div_basics_1(1int);
        }
        lemma_mod_bound(num as int, c as int);
    }
    let ghost goal: nat = rational_mul_div(a as nat, b as nat, c as nat);
    match x2.checked_mul(y2) {
        Some(prod) => {
            // The native product fits; divide directly.
            let v = prod / c2;
            proof {
                lemma_div_nonincreasing(prod as int, c2 as int);
                if reduced {
                    lemma_div_basics_1(prod as int);
                    assert(v as nat == num / c as nat);
                } else {
                    assert(v as nat == num / c as nat);
                }
                assert(goal == num / c as nat);
            }
            Ok(v)
        },
        None => {
            // Fall back to exact arbitrary-precision arithmetic.
            let xb = to_big_uint(x2);
            let yb = to_big_uint(y2);
            let ab = big_mul(&xb, &yb);
            let cb = to_big_uint(c2);
            let q: num_bigint::BigUint;
            if c2 <= 0xFFFF_FFFF {
                // `c2` occupies a single base-2^32 limb: truncated division.
                q = big_div(&ab, &cb);
                proof {
                    if reduced {
                        lemma_div_basics_1(big_value(ab) as int);
                    }
                    assert(big_value(q) == num / c as nat);
                    assert(goal == num / c as nat);
                }
            } else {
                // Multi-limb divisor: round half up on the remainder.
                let q0 = big_div(&ab, &cb);
                let r0 = big_rem(&ab, &cb);
                proof {
                    lemma_mod_bound(big_value(ab) as int, c2 as int);
                }
                let rv = big_to_u128(&r0).unwrap();
                if rv > c2 / 2 {
                    let one = to_big_uint(1);
                    q = big_add(&q0, &one);
                } else {
                    q = q0;
                }
                proof {
                    assert(!reduced && c2 == c && num > u128::MAX as nat);
                    assert(big_value(q) == goal);
                }
            }
            match big_to_u128(&q) {
                Some(v) => Ok(v),
                None => Err("result cannot fit in u128"),
            }
        },
    }
}

} // verus!
