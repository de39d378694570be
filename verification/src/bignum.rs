//! Bridge from `u128` into the arbitrary-precision integer domain. The
//! arbitrary-precision type itself comes from the `num_bigint` crate; its
//! value is modelled by the uninterpreted `big_value`, and each operation
//! the library relies on is stated over that model.

use vstd::prelude::*;
use num_bigint::BigUint;
use num_traits::ToPrimitive;

verus! {

#[verifier::external_type_specification]
#[verifier::external_body]
pub struct ExBigUint(BigUint);

/// The numeric value held by an arbitrary-precision integer.
pub uninterp spec fn big_value(n: BigUint) -> nat;

/// The value of a little-endian sequence of base-2^32 digits.
pub open spec fn limbs_value(s: Seq<u32>) -> nat
    decreases s.len(),
{
    if s.len() == 0 {
        0
    } else {
        s[0] as nat + 0x1_0000_0000 * limbs_value(s.skip(1))
    }
}

/// Relies on `num_bigint::BigUint::from_slice`: the constructed integer has
/// the value of the given base-2^32 digits, ordered least significant first.
#[verifier::external_body]
fn big_from_slice(limbs: &Vec<u32>) -> (r: BigUint)
    ensures
        big_value(r) == limbs_value(limbs@),
{
    BigUint::from_slice(limbs)
}

/// Relies on `Mul for &BigUint`: the result holds the product of the values.
#[verifier::external_body]
pub(crate) fn big_mul(a: &BigUint, b: &BigUint) -> (r: BigUint)
    ensures
        big_value(r) == big_value(*a) * big_value(*b),
{
    a * b
}

/// Relies on `Add for &BigUint`: the result holds the sum of the values.
#[verifier::external_body]
pub(crate) fn big_add(a: &BigUint, b: &BigUint) -> (r: BigUint)
    ensures
        big_value(r) == big_value(*a) + big_value(*b),
{
    a + b
}

/// Relies on `Div for &BigUint`: the truncated quotient of the values. The
/// division panics on a zero divisor, so that case is excluded here.
#[verifier::external_body]
pub(crate) fn big_div(a: &BigUint, b: &BigUint) -> (r: BigUint)
    requires
        big_value(*b) >= 1,
    ensures
        big_value(r) == big_value(*a) / big_value(*b),
{
    a / b
}

/// Relies on `Rem for &BigUint`: the remainder of the values. The operation
/// panics on a zero divisor, so that case is excluded here.
#[verifier::external_body]
pub(crate) fn big_rem(a: &BigUint, b: &BigUint) -> (r: BigUint)
    requires
        big_value(*b) >= 1,
    ensures
        big_value(r) == big_value(*a) % big_value(*b),
{
    a % b
}

/// Relies on `num_traits::ToPrimitive::to_u128` for `BigUint`: the value is
/// returned exactly when it fits in 128 bits, and `None` otherwise.
#[verifier::external_body]
pub(crate) fn big_to_u128(n: &BigUint) -> (r: Option<u128>)
    ensures
        big_value(*n) <= u128::MAX as nat <==> r is Some,
        r matches Some(v) ==> v as nat == big_value(*n),
{
    n.to_u128()
}

/// Split a `u64` into its two 32-bit halves `(high, low)`,
/// so that `a == high * 2^32 + low`.
fn split64(a: u64) -> (r: (u32, u32))
    ensures
        a as nat == r.0 as nat * 0x1_0000_0000 + r.1 as nat,
{
    let al = a as u32;
    let ah = (a >> 32u32) as u32;
    proof {
        assert(a == (ah as u64) * 0x1_0000_0000u64 + al) by (bit_vector)
            requires
                al == a as u32,
                ah == (a >> 32u32) as u32,
        ;
    }
    (ah, al)
}

/// A four-digit sequence denotes its base-2^32 expansion.
proof fn lemma_limbs_value4(s: Seq<u32>)
    requires
        s.len() == 4,
    ensures
        limbs_value(s) == s[0] as nat + 0x1_0000_0000 * (s[1] as nat + 0x1_0000_0000 * (
        s[2] as nat + 0x1_0000_0000 * (s[3] as nat))),
{
    let s1 = s.skip(1);
    let s2 = s1.skip(1);
    let s3 = s2.skip(1);
    let s4 = s3.skip(1);
    assert(s4.len() == 0);
    assert(limbs_value(s4) == 0);
    assert(s3[0] == s[3] && limbs_value(s3) == s[3] as nat + 0x1_0000_0000 * limbs_value(s4));
    assert(s2[0] == s[2] && limbs_value(s2) == s[2] as nat + 0x1_0000_0000 * limbs_value(s3));
    assert(s1[0] == s[1] && limbs_value(s1) == s[1] as nat + 0x1_0000_0000 * limbs_value(s2));
    assert(limbs_value(s) == s[0] as nat + 0x1_0000_0000 * limbs_value(s1));
}

/// Convert a `u128` to an arbitrary-precision integer of equal value, built
/// from its four base-2^32 limbs, least significant first.
pub fn to_big_uint(x: u128) -> (n: BigUint)
    ensures
        big_value(n) == x as nat,
{
    let (xh, xl) = crate::wide::split(x);
    let (xhh, xhl) = split64(xh);
    let (xlh, xll) = split64(xl);
    let mut limbs: Vec<u32> = Vec::new();
    limbs.push(xll);
    limbs.push(xlh);
    limbs.push(xhl);
    limbs.push(xhh);
    proof {
        lemma_limbs_value4(limbs@);
        assert(x as nat == xll as nat + 0x1_0000_0000 * (xlh as nat + 0x1_0000_0000 * (
        xhl as nat + 0x1_0000_0000 * (xhh as nat)))) by (nonlinear_arith)
            requires
                x as nat == xh as nat * 0x1_0000_0000_0000_0000 + xl as nat,
                xh as nat == xhh as nat * 0x1_0000_0000 + xhl as nat,
                xl as nat == xlh as nat * 0x1_0000_0000 + xll as nat,
        ;
    }
    big_from_slice(&limbs)
}

} // verus!
