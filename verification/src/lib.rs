//! Arbitrary-precision integer arithmetic on little-endian sequences of
//! 32-bit limbs, with every operation proved against the mathematical value
//! of its operands.

pub mod limbs;
pub mod big_uint;
pub mod compare;
pub mod division;
pub mod decimal;
pub mod big_int;
pub mod laws;

pub use big_int::{BigInt, Sign};
pub use big_uint::BigUInt;
pub use decimal::ParseBigIntError;
