//! Sound worst-case bounds on RLWE decryption noise after fresh encryption
//! or a homomorphic operation.
//!
//! These are triangle-inequality bounds, not probabilistic estimates: as long
//! as the true noise never exceeds a bound and the bound stays under half the
//! ciphertext modulus, decryption is correct whatever noise samples were drawn.

use vstd::prelude::*;

use crate::lattice::security::{fresh_error_bound, spec_fresh_error_bound};

verus! {

/// `degree * bound_a * bound_b`: the bound on one coefficient of a negacyclic
/// product in `Z[X]/(X^degree + 1)`, a signed sum of `degree` terms each at
/// most `bound_a * bound_b` in absolute value.
pub open spec fn spec_ring_product_bound(degree: int, bound_a: int, bound_b: int) -> int {
    degree * bound_a * bound_b
}

/// `2 * degree * e + e` for the fresh error bound `e`: the noise
/// `-u*e_pk + e1 + e2*s` of a public-key encryption with ternary `u` and `s`.
pub open spec fn spec_fresh_public_key_noise_bound(degree: int) -> int {
    spec_ring_product_bound(degree, 1, spec_fresh_error_bound() as int)
        + spec_fresh_error_bound() + spec_ring_product_bound(degree, 1, spec_fresh_error_bound() as int)
}

/// Noise of a raw product: `pt_a*e_b + pt_b*e_a + e_a*e_b`.
pub open spec fn spec_mul_noise_bound(degree: int, plaintext_bound: int, noise_bound: int) -> int {
    2 * spec_ring_product_bound(degree, plaintext_bound, noise_bound) + spec_ring_product_bound(
        degree,
        noise_bound,
        noise_bound,
    )
}

/// The largest gadget digit for base `2^base_log`.
pub open spec fn spec_digit_bound(base_log: u32) -> int {
    vstd::arithmetic::power2::pow2(base_log as nat) - 1
}

/// Noise of an RGSW external product: `m*e_ct` plus `2 * total_levels`
/// products of a gadget digit against a fresh row error.
pub open spec fn spec_external_product_noise_bound(
    degree: int,
    message_bound: int,
    ct_noise_bound: int,
    total_levels: int,
    base_log: u32,
) -> int {
    spec_ring_product_bound(degree, message_bound, ct_noise_bound) + 2 * total_levels
        * spec_ring_product_bound(degree, spec_digit_bound(base_log), spec_fresh_error_bound() as int)
}

/// Worst-case bound on any single coefficient of a negacyclic ring product
/// `a * b`, given bounds on the coefficients of `a` and `b` and the ring degree.
pub fn ring_product_bound(degree: usize, bound_a: u64, bound_b: u64) -> (r: u64)
    requires
        degree * bound_a <= u64::MAX,
        degree * bound_a * bound_b <= u64::MAX,
    ensures
        r == spec_ring_product_bound(degree as int, bound_a as int, bound_b as int),
{
    degree as u64 * bound_a * bound_b
}

/// Worst-case decryption noise of a secret-key fresh encryption: exactly the
/// one sampled error term.
pub fn fresh_secret_key_noise_bound() -> (r: u64)
    ensures
        r == spec_fresh_error_bound(),
{
    fresh_error_bound()
}

/// Worst-case decryption noise of a public-key fresh encryption on a ring of
/// the given degree, with a ternary secret and ternary encryption randomness.
pub fn fresh_public_key_noise_bound(degree: usize) -> (r: u64)
    requires
        2 * degree * spec_fresh_error_bound() + spec_fresh_error_bound() <= u64::MAX,
    ensures
        r == spec_fresh_public_key_noise_bound(degree as int),
        r == 2 * degree * spec_fresh_error_bound() + spec_fresh_error_bound(),
{
    let error_bound = fresh_error_bound();
    let u_times_e_pk = ring_product_bound(degree, 1, error_bound);
    let e2_times_s = ring_product_bound(degree, 1, error_bound);
    u_times_e_pk + error_bound + e2_times_s
}

/// Worst-case noise of the raw (pre-relinearization) product of two
/// ciphertexts with plaintext bound `plaintext_bound` and noise bound
/// `noise_bound`.
pub fn mul_noise_bound(degree: usize, plaintext_bound: u64, noise_bound: u64) -> (r: u64)
    requires
        degree * plaintext_bound <= u64::MAX,
        degree * noise_bound <= u64::MAX,
        spec_mul_noise_bound(degree as int, plaintext_bound as int, noise_bound as int)
            <= u64::MAX,
    ensures
        r == spec_mul_noise_bound(degree as int, plaintext_bound as int, noise_bound as int),
{
    proof {
        assert(0 <= degree * plaintext_bound * noise_bound) by (nonlinear_arith);
        assert(0 <= degree * noise_bound * noise_bound) by (nonlinear_arith);
    }
    let pt_times_noise = ring_product_bound(degree, plaintext_bound, noise_bound);
    let noise_times_noise = ring_product_bound(degree, noise_bound, noise_bound);
    2 * pt_times_noise + noise_times_noise
}

/// Worst-case noise of an RGSW external product `RGSW(m) ⊡ ct`, given the
/// bound on `m`'s coefficients, `ct`'s own noise bound, the total gadget digit
/// count and the gadget base bit length.
pub fn external_product_noise_bound(
    degree: usize,
    message_bound: u64,
    ct_noise_bound: u64,
    total_levels: usize,
    base_log: u32,
) -> (r: u64)
    requires
        base_log < 64,
        degree * message_bound <= u64::MAX,
        degree * spec_digit_bound(base_log) <= u64::MAX,
        2 * total_levels <= u64::MAX,
        0 <= spec_ring_product_bound(degree as int, spec_digit_bound(base_log), spec_fresh_error_bound() as int)
            <= u64::MAX,
        2 * total_levels * spec_ring_product_bound(
            degree as int,
            spec_digit_bound(base_log),
            spec_fresh_error_bound() as int,
        ) <= u64::MAX,
        spec_external_product_noise_bound(
            degree as int,
            message_bound as int,
            ct_noise_bound as int,
            total_levels as int,
            base_log,
        ) <= u64::MAX,
    ensures
        r == spec_external_product_noise_bound(
            degree as int,
            message_bound as int,
            ct_noise_bound as int,
            total_levels as int,
            base_log,
        ),
{
    proof {
        vstd::bits::lemma_u64_pow2_no_overflow(base_log as nat);
        vstd::bits::lemma_u64_shl_is_mul(1, base_log as u64);
        vstd::arithmetic::power2::lemma_pow2_pos(base_log as nat);
        assert(0 <= degree * message_bound * ct_noise_bound) by (nonlinear_arith);
        assert(0 <= 2 * total_levels * spec_ring_product_bound(
            degree as int,
            spec_digit_bound(base_log),
            spec_fresh_error_bound() as int,
        )) by (nonlinear_arith)
            requires
                0 <= spec_ring_product_bound(degree as int, spec_digit_bound(base_log), spec_fresh_error_bound() as int),
        ;
    }
    let digit_bound = (1u64 << base_log) - 1;
    let message_term = ring_product_bound(degree, message_bound, ct_noise_bound);
    let gadget_term = 2 * total_levels as u64 * ring_product_bound(degree, digit_bound, fresh_error_bound());
    message_term + gadget_term
}

} // verus!
