//! Exact, overflow-safe arithmetic on 128-bit unsigned integers: a
//! full-precision 128x128 -> 256 bit multiply, a rational multiply-divide
//! `a * b / c` with an arbitrary-precision fallback, a fixed-point divide
//! `a * 2^p / b` that never materialises the wide intermediate, a binary
//! greatest common divisor, and the bridge from `u128` into an
//! arbitrary-precision integer type.

pub mod bignum;
pub mod bits128;
pub mod fixed_point;
pub mod gcd;
pub mod rational;
pub mod wide;

pub use wide::lo;
pub use wide::hi;
pub use wide::multiply;
pub use wide::split;
pub use fixed_point::divide;
pub use gcd::gcd;
pub use bignum::to_big_uint;
pub use rational::multiply_by_rational;
