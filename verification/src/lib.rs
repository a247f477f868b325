//! Divisor discriminant tables over a database of 32-bit hash values, and the
//! word-list bitset generator that accompanies them.

pub mod bitset;
pub mod codec;
pub mod compile;
pub mod dictionary;
pub mod encoder;
pub mod fnv32;
pub mod matrix;
pub mod options;
pub mod search;
