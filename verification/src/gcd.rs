//! Binary (Stein's) greatest common divisor for `u128` operands, written as
//! an iterative loop with an explicit accumulator for the shared power-of-two
//! factor. The result is characterised as the greatest common divisor: it
//! divides both operands and dominates every common divisor.

use vstd::prelude::*;
use crate::bits128::{lemma_pow2_128, pow2_u128};
use vstd::arithmetic::mul::{group_mul_basics, lemma_mul_inequality};
use vstd::arithmetic::div_mod::lemma_fundamental_div_mod_converse_mod;
use vstd::arithmetic::power2::{lemma2_to64, lemma_pow2_adds, pow2};

verus! {

/// `d` divides `n`: some multiple of `d` equals `n`.
pub open spec fn divides(d: nat, n: nat) -> bool {
    exists|j: nat| n == #[trigger] (j * d)
}

/// `g` is the greatest common divisor of `a` and `b`: it divides both, and
/// every common divisor is at most `g`. No `g` satisfies this for
/// `a == b == 0`, whose common divisors are unbounded.
pub open spec fn is_gcd(g: nat, a: nat, b: nat) -> bool {
    &&& divides(g, a)
    &&& divides(g, b)
    &&& forall|d: nat| #[trigger] divides(d, a) && divides(d, b) ==> d <= g
}

/// A divisor of a positive number is at most that number.
pub proof fn lemma_divides_bound(d: nat, n: nat)
    requires
        divides(d, n),
        n >= 1,
    ensures
        d <= n,
{
    let j = choose|j: nat| n == #[trigger] (j * d);
    assert(d <= n) by (nonlinear_arith)
        requires
            n == j * d,
            n >= 1,
    ;
}

/// Every positive number is its own greatest common divisor with itself.
pub proof fn lemma_gcd_self(x: nat)
    requires
        x >= 1,
    ensures
        is_gcd(x, x, x),
{
    assert(x == 1 * x) by (nonlinear_arith);
    assert forall|d: nat| #[trigger] divides(d, x) && divides(d, x) implies d <= x by {
        lemma_divides_bound(d, x);
    }
}

/// Every positive number is the greatest common divisor of itself and zero.
pub proof fn lemma_gcd_zero(x: nat)
    requires
        x >= 1,
    ensures
        is_gcd(x, x, 0),
{
    assert(x == 1 * x) by (nonlinear_arith);
    assert(0 == 0 * x) by (nonlinear_arith);
    assert forall|d: nat| #[trigger] divides(d, x) && divides(d, 0) implies d <= x by {
        lemma_divides_bound(d, x);
    }
}

/// The greatest-common-divisor relation is symmetric in the two operands.
pub proof fn lemma_gcd_sym(g: nat, x: nat, y: nat)
    requires
        is_gcd(g, x, y),
    ensures
        is_gcd(g, y, x),
{
    assert forall|d: nat| #[trigger] divides(d, y) && divides(d, x) implies d <= g by {
        assert(divides(d, x) && divides(d, y));
    }
}

/// An odd divisor of `2 * x` already divides `x`.
proof fn lemma_odd_divides_double(d: nat, x: nat)
    requires
        d % 2 == 1,
        divides(d, 2 * x),
    ensures
        divides(d, x),
{
    let j = choose|j: nat| 2 * x == #[trigger] (j * d);
    if j % 2 == 1 {
        let jh = j / 2;
        let dh = d / 2;
        assert(j * d == 2 * (2 * jh * dh + jh + dh) + 1) by (nonlinear_arith)
            requires
                j == 2 * jh + 1,
                d == 2 * dh + 1,
        ;
        lemma_fundamental_div_mod_converse_mod(
            (j * d) as int,
            2,
            (2 * jh * dh + jh + dh) as int,
            1,
        );
    }
    assert(x == (j / 2) * d) by (nonlinear_arith)
        requires
            2 * x == j * d,
            j % 2 == 0,
    ;
}

/// A divisor of an odd number is odd.
proof fn lemma_divisor_of_odd_is_odd(d: nat, y: nat)
    requires
        y % 2 == 1,
        divides(d, y),
    ensures
        d % 2 == 1,
{
    let j = choose|j: nat| y == #[trigger] (j * d);
    if d % 2 == 0 {
        let dh = d / 2;
        assert(j * d == 2 * (j * dh)) by (nonlinear_arith)
            requires
                d == 2 * dh,
        ;
        lemma_fundamental_div_mod_converse_mod((j * d) as int, 2, (j * dh) as int, 0);
    }
}

/// Doubling both operands doubles their greatest common divisor.
proof fn lemma_gcd_double(g: nat, x: nat, y: nat)
    requires
        is_gcd(g, x, y),
    ensures
        is_gcd(2 * g, 2 * x, 2 * y),
{
    let jx = choose|j: nat| x == #[trigger] (j * g);
    assert(2 * x == jx * (2 * g)) by (nonlinear_arith)
        requires
            x == jx * g,
    ;
    let jy = choose|j: nat| y == #[trigger] (j * g);
    assert(2 * y == jy * (2 * g)) by (nonlinear_arith)
        requires
            y == jy * g,
    ;
    assert forall|d: nat| #[trigger] divides(d, 2 * x) && divides(d, 2 * y) implies d <= 2 * g by {
        if d % 2 == 0 {
            let e = (d / 2) as nat;
            let j1 = choose|j: nat| 2 * x == #[trigger] (j * d);
            assert(x == j1 * e) by (nonlinear_arith)
                requires
                    2 * x == j1 * d,
                    d == 2 * e,
            ;
            let j2 = choose|j: nat| 2 * y == #[trigger] (j * d);
            assert(y == j2 * e) by (nonlinear_arith)
                requires
                    2 * y == j2 * d,
                    d == 2 * e,
            ;
            assert(divides(e, x) && divides(e, y));
            assert(e <= g);
        } else {
            lemma_odd_divides_double(d, x);
            lemma_odd_divides_double(d, y);
            assert(d <= g);
        }
    }
}

/// When `y` is odd, a factor of two on the other operand does not change the
/// greatest common divisor.
proof fn lemma_gcd_even_odd(g: nat, x: nat, y: nat)
    requires
        is_gcd(g, x, y),
        y % 2 == 1,
    ensures
        is_gcd(g, 2 * x, y),
{
    let jx = choose|j: nat| x == #[trigger] (j * g);
    assert(2 * x == (2 * jx) * g) by (nonlinear_arith)
        requires
            x == jx * g,
    ;
    assert forall|d: nat| #[trigger] divides(d, 2 * x) && divides(d, y) implies d <= g by {
        lemma_divisor_of_odd_is_odd(d, y);
        lemma_odd_divides_double(d, x);
        assert(divides(d, x) && divides(d, y));
    }
}

/// The subtraction step of the binary algorithm: for odd `x`, the greatest
/// common divisor of the halved difference and `x` is also the greatest
/// common divisor of the pair `(x + 2h, x)` that it replaced.
proof fn lemma_gcd_sub(g: nat, h: nat, x: nat)
    requires
        is_gcd(g, h, x),
        x % 2 == 1,
    ensures
        is_gcd(g, x + 2 * h, x),
{
    let jh = choose|j: nat| h == #[trigger] (j * g);
    let jx = choose|j: nat| x == #[trigger] (j * g);
    assert(x + 2 * h == (jx + 2 * jh) * g) by (nonlinear_arith)
        requires
            h == jh * g,
            x == jx * g,
    ;
    assert forall|d: nat| #[trigger] divides(d, x + 2 * h) && divides(d, x) implies d <= g by {
        lemma_divisor_of_odd_is_odd(d, x);
        let j3 = choose|j: nat| x + 2 * h == #[trigger] (j * d);
        let j4 = choose|j: nat| x == #[trigger] (j * d);
        assert(j3 >= j4 && 2 * h == (j3 - j4) * d) by (nonlinear_arith)
            requires
                x + 2 * h == j3 * d,
                x == j4 * d,
                d % 2 == 1,
        ;
        assert(divides(d, 2 * h));
        lemma_odd_divides_double(d, h);
        assert(divides(d, h) && divides(d, x));
    }
}

/// Greatest common divisor of two `u128` values by the binary algorithm.
///
/// For operands that are not both zero the result is their greatest common
/// divisor in the sense of [`is_gcd`]; two zero operands yield zero.
pub fn gcd(a: u128, b: u128) -> (r: u128)
    ensures
        a == 0 && b == 0 ==> r == 0,
        !(a == 0 && b == 0) ==> is_gcd(r as nat, a as nat, b as nat),
        a == b ==> r == a,
        a == 0 ==> r == b,
        b == 0 ==> r == a,
{
    if a == b {
        proof {
            if a != 0 {
                lemma_gcd_self(a as nat);
            }
        }
        return b;
    }
    if a == 0 {
        proof {
            lemma_gcd_zero(b as nat);
            lemma_gcd_sym(b as nat, b as nat, 0);
        }
        return b;
    }
    if b == 0 {
        proof {
            lemma_gcd_zero(a as nat);
        }
        return a;
    }
    let mut x = a;
    let mut y = b;
    let mut k: u32 = 0;
    proof {
        broadcast use group_mul_basics;

        lemma2_to64();
    }
    while x != y
        invariant
            1 <= x,
            1 <= y,
            k <= 127,
            x as nat * pow2(k as nat) <= u128::MAX as nat,
            y as nat * pow2(k as nat) <= u128::MAX as nat,
            forall|g: nat| is_gcd(g, x as nat, y as nat) ==> is_gcd(
                g * pow2(k as nat),
                a as nat,
                b as nat,
            ),
        decreases x + y,
    {
        proof {
            broadcast use group_mul_basics;

            lemma_pow2_adds(k as nat, 1);
            lemma2_to64();
        }
        if x % 2 == 0 && y % 2 == 0 {
            let ghost x0 = x as nat;
            let ghost y0 = y as nat;
            let ghost k0 = k as nat;
            x = x / 2;
            y = y / 2;
            k = k + 1;
            proof {
                assert(x as nat * pow2(k as nat) == x0 * pow2(k0)) by (nonlinear_arith)
                    requires
                        x0 == 2 * (x as nat),
                        pow2(k as nat) == pow2(k0) * 2,
                ;
                assert(y as nat * pow2(k as nat) == y0 * pow2(k0)) by (nonlinear_arith)
                    requires
                        y0 == 2 * (y as nat),
                        pow2(k as nat) == pow2(k0) * 2,
                ;
                // The new exponent still fits: x * 2^k bounds 2^k itself.
                lemma_mul_inequality(1, x as int, pow2(k as nat) as int);
                if k > 127 {
                    lemma_pow2_128();
                }
                assert forall|g: nat| is_gcd(g, x as nat, y as nat) implies is_gcd(
                    g * pow2(k as nat),
                    a as nat,
                    b as nat,
                ) by {
                    lemma_gcd_double(g, x as nat, y as nat);
                    assert(is_gcd(2 * g, x0, y0));
                    assert((2 * g) * pow2(k0) == g * pow2(k as nat)) by (nonlinear_arith)
                        requires
                            pow2(k as nat) == pow2(k0) * 2,
                    ;
                }
            }
        } else if x % 2 == 0 {
            let ghost x0 = x as nat;
            x = x / 2;
            proof {
                lemma_mul_inequality(x as int, x0 as int, pow2(k as nat) as int);
                assert forall|g: nat| is_gcd(g, x as nat, y as nat) implies is_gcd(
                    g * pow2(k as nat),
                    a as nat,
                    b as nat,
                ) by {
                    lemma_gcd_even_odd(g, x as nat, y as nat);
                    assert(is_gcd(g, x0, y as nat));
                }
            }
        } else if y % 2 == 0 {
            let ghost y0 = y as nat;
            y = y / 2;
            proof {
                lemma_mul_inequality(y as int, y0 as int, pow2(k as nat) as int);
                assert forall|g: nat| is_gcd(g, x as nat, y as nat) implies is_gcd(
                    g * pow2(k as nat),
                    a as nat,
                    b as nat,
                ) by {
                    lemma_gcd_sym(g, x as nat, y as nat);
                    lemma_gcd_even_odd(g, y as nat, x as nat);
                    assert(is_gcd(g, y0, x as nat));
                    lemma_gcd_sym(g, y0, x as nat);
                    assert(is_gcd(g, x as nat, y0));
                }
            }
        } else {
            // Both odd: replace the larger by half the difference.
            let ghost xp = x as nat;
            let ghost yp = y as nat;
            let small = if x < y {
                x
            } else {
                y
            };
            let large = if x < y {
                y
            } else {
                x
            };
            x = (large - small) / 2;
            y = small;
            proof {
                lemma_mul_inequality(x as int, large as int, pow2(k as nat) as int);
                lemma_mul_inequality(y as int, large as int, pow2(k as nat) as int);
                assert forall|g: nat| is_gcd(g, x as nat, y as nat) implies is_gcd(
                    g * pow2(k as nat),
                    a as nat,
                    b as nat,
                ) by {
                    lemma_gcd_sub(g, x as nat, y as nat);
                    assert(small as nat + 2 * (x as nat) == large as nat);
                    assert(is_gcd(g, large as nat, small as nat));
                    if xp < yp {
                        lemma_gcd_sym(g, large as nat, small as nat);
                        assert(is_gcd(g, xp, yp));
                    } else {
                        assert(is_gcd(g, xp, yp));
                    }
                }
            }
        }
    }
    proof {
        lemma_gcd_self(x as nat);
        assert(is_gcd(x as nat, x as nat, y as nat));
    }
    x * pow2_u128(k)
}

} // verus!
