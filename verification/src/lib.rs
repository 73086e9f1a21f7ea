//! Arbitrary-precision signed integers in sign-magnitude form.
//!
//! A number is a sign and a vector of 32-bit limbs, least-significant limb
//! first.  Every operation carries a contract over the mathematical value of
//! the limb sequence, and Verus proves each contract.

pub mod arith;
pub mod bigint;
pub mod bignumber;
pub mod bitwise;
pub mod hex;
pub mod limbs;

pub use bigint::{MyBigInt, Sign};
pub use bignumber::BigNumber;
pub use limbs::LIMB_BITS;
