//! Small number-theory utilities: primality testing, prime enumeration,
//! divisor listing and factorials, each with a verified contract.
pub mod prime_util;
pub mod number_util;
pub mod str_util;
pub mod big_natural;
