//! Conversion between arbitrary-precision decimals and the base-10000
//! NUMERIC wire layout of PostgreSQL.
pub mod bignum;
pub mod digits;
pub mod laws;
pub mod numeric;
