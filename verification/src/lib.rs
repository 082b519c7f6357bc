//! Finite fields GF(2^p) for small p, built from binary polynomials.
//!
//! The crate models polynomials over GF(2) as the bits of a `u64`, searches
//! for an irreducible modulus and a generator of the multiplicative group,
//! builds the discrete exponent/logarithm tables, and defines table-driven
//! field arithmetic (add, sub, mul, div) over the resulting field.

pub mod error;
pub mod field;
pub mod poly;
pub mod search;
pub mod tables;
