//! Number-theoretic primitives for protocols that perform many modular
//! exponentiations against a shared modulus: simultaneous multi-base
//! exponentiation, fixed-base exponentiation backed by a precomputation
//! table with an initialize-once cache, and Miller-Rabin primality testing.
//!
//! The arbitrary-precision ring operations themselves are supplied by the
//! `num-bigint` crate; everything built on top of them is verified.

use vstd::prelude::*;

pub mod fpowm;
pub mod miller_rabin;
pub mod modpow;
pub mod natural;
pub mod spown;

verus! {

/// Top-level error type: either the parameters of a simultaneous
/// exponentiation do not match, or a size parameter does not fit the
/// range the algorithms can handle.
#[derive(Debug, Clone, PartialEq, Eq)]
pub enum GmpMEEError {
    /// The number of bases differs from the number of exponents.
    SPowmParameters { bases_len: usize, exponents_len: usize },
    /// A size parameter of a fixed-base table is out of range.
    FPowmParameters(crate::fpowm::FPownError),
    /// A length cannot be cast to the required integer width.
    Cast { value: usize },
}

/// Converts a length to the signed 64-bit type the classical C
/// implementations use for sizes, rejecting values that do not fit.
pub fn usize_to_size_t_type(n: usize) -> (r: Result<i64, GmpMEEError>)
    ensures
        n <= i64::MAX ==> r == Ok::<i64, GmpMEEError>(n as i64),
        n > i64::MAX ==> r == Err::<i64, GmpMEEError>(GmpMEEError::Cast { value: n }),
{
    if n as u64 <= 0x7fff_ffff_ffff_ffff_u64 {
        Ok(n as i64)
    } else {
        Err(GmpMEEError::Cast { value: n })
    }
}

} // verus!
