//! Literature-grounded security parameter choices: the community-standard
//! error width, its tail cut, the recommended secret distribution and the
//! 128-bit modulus-size table.

use vstd::prelude::*;

verus! {

/// Standard deviation of the fresh-encryption discrete Gaussian error, in
/// tenths (`sigma = 3.2`, the homomorphicencryption.org community standard).
pub const STANDARD_ERROR_STD_DEV_TENTHS: u64 = 32;

/// Number of standard deviations the error distribution is truncated to.
pub const ERROR_TAIL_CUT_STD_DEVS: u64 = 6;

/// Recommended statistical security parameter (bits) for smudging noise.
pub const RECOMMENDED_STATISTICAL_SECURITY_BITS: u32 = 40;

/// Secret key coefficient distribution.
#[derive(Clone, Copy, Debug, PartialEq, Eq)]
pub enum SecretDistribution {
    /// Ternary coefficients `{-1, 0, 1}`.
    Ternary,
    /// Discrete Gaussian; `sigma_bits` is the IEEE-754 bit pattern of the
    /// standard deviation.
    Gaussian { sigma_bits: u64 },
}

/// `ceil(sigma * tail_cut)`: the absolute bound on every coefficient of a
/// fresh error term.
pub open spec fn spec_fresh_error_bound() -> u64 {
    ((STANDARD_ERROR_STD_DEV_TENTHS * ERROR_TAIL_CUT_STD_DEVS + 9) / 10) as u64
}

/// Recommended secret-key distribution: ternary.
pub fn recommended_secret_distribution() -> (r: SecretDistribution)
    ensures
        r == SecretDistribution::Ternary,
{
    SecretDistribution::Ternary
}

/// Upper bound on any coefficient of an error term sampled at the standard
/// deviation and truncated at the tail cut: `ceil(sigma * tail_cut)`.
pub fn fresh_error_bound() -> (r: u64)
    ensures
        r == spec_fresh_error_bound(),
        r * 10 >= STANDARD_ERROR_STD_DEV_TENTHS * ERROR_TAIL_CUT_STD_DEVS,
        (r - 1) * 10 < STANDARD_ERROR_STD_DEV_TENTHS * ERROR_TAIL_CUT_STD_DEVS,
        r == 20,
{
    (STANDARD_ERROR_STD_DEV_TENTHS * ERROR_TAIL_CUT_STD_DEVS + 9) / 10
}

/// The homomorphicencryption.org 128-bit table: the largest total modulus bit
/// length a ring of `degree` may use with a ternary secret.
pub open spec fn spec_max_secure_total_modulus_bits_128(degree: usize) -> Option<u32> {
    if degree == 1024 {
        Some(27u32)
    } else if degree == 2048 {
        Some(54u32)
    } else if degree == 4096 {
        Some(109u32)
    } else if degree == 8192 {
        Some(218u32)
    } else if degree == 16384 {
        Some(438u32)
    } else if degree == 32768 {
        Some(881u32)
    } else {
        None
    }
}

/// Maximum total ciphertext-modulus bit length a degree-`degree` ring can use
/// at 128-bit classical security with a ternary secret; `None` for a degree
/// the standard table does not cover.
pub fn max_secure_total_modulus_bits_128(degree: usize) -> (r: Option<u32>)
    ensures
        r == spec_max_secure_total_modulus_bits_128(degree),
{
    match degree {
        1024 => Some(27),
        2048 => Some(54),
        4096 => Some(109),
        8192 => Some(218),
        16384 => Some(438),
        32768 => Some(881),
        _ => None,
    }
}

/// The table grows strictly with the ring degree: a larger ring tolerates a
/// strictly larger modulus at the same security level.
pub proof fn lemma_max_secure_bits_grow_with_degree(smaller: usize, larger: usize)
    requires
        spec_max_secure_total_modulus_bits_128(smaller) is Some,
        spec_max_secure_total_modulus_bits_128(larger) is Some,
        smaller < larger,
    ensures
        spec_max_secure_total_modulus_bits_128(smaller)->0 < spec_max_secure_total_modulus_bits_128(larger)->0,
{
}

} // verus!
