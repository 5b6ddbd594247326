//! BGV relinearization and rotation keys: classical gadget key-switching
//! material over the plain basis `Q`, one RLWE row per gadget digit
//! `(modulus, level)`.
//!
//! Row `(m, level)` of a key from `s_old` to `s_new` encrypts
//! `B^level * L_m * s_old` under `s_new`, where `B = 2^base_log` is the
//! gadget base and `L_m` the CRT lift constant of modulus `m`: the CRT
//! reconstruction weight `(Q / q_m) * ((Q / q_m)^-1 mod q_m)`.

use vstd::arithmetic::power::pow;
use vstd::arithmetic::power2::pow2;
use vstd::prelude::*;

use crate::lattice::rgsw::decomposition::GadgetDecompositionParams;
use crate::lattice::rlwe::ciphertext::Ciphertext;
use crate::lattice::rlwe::keyswitch::{clone_ciphertexts, rows_view, scale_poly_per_component};
use crate::ring::arith::mul_mod;
use crate::ring::poly::{
    modulus_values, poly_check, poly_in_ring, poly_scale_rows, Poly, Ring, RingError, Rows,
};
use crate::ring::rns::{crt_lift, pow_mod};

verus! {

/// `B^level mod q` for the gadget base `B = 2^base_log`.
pub open spec fn base_power(base_log: u32, level: int, q: u64) -> int {
    pow(pow2(base_log as nat) as int, level as nat) % (q as int)
}

/// The scale of each row at gadget level `level`: `B^level * lift[k] mod q_k`.
pub open spec fn base_power_scale(moduli: Seq<u64>, base_log: u32, level: int, lift: Seq<u64>) -> Seq<u64> {
    Seq::new(
        moduli.len(),
        |k: int| ((base_power(base_log, level, moduli[k]) * lift[k]) % (moduli[k] as int)) as u64,
    )
}

/// The CRT lift constants of modulus `m`, one per modulus of the ring.
pub open spec fn lift_constants(moduli: Seq<u64>, m: int) -> Seq<u64> {
    Seq::new(moduli.len(), |k: int| crt_lift(moduli, m, moduli[k]))
}

/// Scales `poly` by `B^level` and the lift constants `lift`, row by row:
/// the ring error of `poly` where it is not a ring element.
pub fn scale_by_base_power_and_lift(
    ring: &Ring,
    poly: &Poly,
    base_log: u32,
    level: usize,
    lift: &[u64],
) -> (r: Result<Poly, RingError>)
    requires
        base_log < 64,
        lift@.len() == ring@.moduli.len(),
    ensures
        r is Ok <==> poly_in_ring(ring@.degree, ring@.moduli, poly@),
        r matches Err(e) ==> poly_check(ring@, poly@) == Err::<(), RingError>(e),
        r matches Ok(p) ==> p@ == poly_scale_rows(
            poly@,
            base_power_scale(ring@.moduli, base_log, level as int, lift@),
            ring@.moduli,
        ) && poly_in_ring(ring@.degree, ring@.moduli, p@),
{
    let moduli = ring.moduli();
    proof {
        vstd::bits::lemma_u64_pow2_no_overflow(base_log as nat);
        vstd::bits::lemma_u64_shl_is_mul(1, base_log as u64);
    }
    let base: u64 = 1u64 << (base_log as u64);
    assert(base == pow2(base_log as nat));
    let ghost want = base_power_scale(ring@.moduli, base_log, level as int, lift@);
    let mut scales: Vec<u64> = Vec::with_capacity(moduli.len());
    let mut k: usize = 0;
    while k < moduli.len()
        invariant
            modulus_values(moduli@) == ring@.moduli,
            lift@.len() == ring@.moduli.len(),
            base == pow2(base_log as nat),
            want == base_power_scale(ring@.moduli, base_log, level as int, lift@),
            k <= moduli@.len(),
            scales@.len() == k,
            forall|u: int| 0 <= u < k ==> #[trigger] scales@[u] == want[u],
        decreases moduli@.len() - k,
    {
        let q = moduli[k].value();
        let w = pow_mod(base, level as u64, q);
        scales.push(mul_mod(w, lift[k], q));
        k = k + 1;
    }
    assert(scales@ =~= want);
    scale_poly_per_component(ring, poly, scales.as_slice())
}

/// A BGV key-switching key: its gadget parameters and one RLWE row per
/// gadget digit, modulus-major.
#[derive(Debug)]
pub struct BgvRelinearizationKey {
    decomposition_params: GadgetDecompositionParams,
    rows: Vec<Ciphertext>,
}

impl View for BgvRelinearizationKey {
    type V = ((u32, usize), Seq<Seq<Rows>>);

    closed spec fn view(&self) -> ((u32, usize), Seq<Seq<Rows>>) {
        (self.decomposition_params@, rows_view(self.rows@))
    }
}

impl Clone for BgvRelinearizationKey {
    fn clone(&self) -> (r: Self)
        ensures
            r@ == self@,
    {
        BgvRelinearizationKey {
            decomposition_params: self.decomposition_params,
            rows: clone_ciphertexts(self.rows.as_slice()),
        }
    }
}

impl BgvRelinearizationKey {
    /// Builds a key from rows computed elsewhere, such as the combined
    /// output of a multiparty protocol.
    pub fn from_rows(decomposition_params: GadgetDecompositionParams, rows: Vec<Ciphertext>) -> (r: Self)
        ensures
            r@ == (decomposition_params@, rows_view(rows@)),
    {
        BgvRelinearizationKey { decomposition_params, rows }
    }

    /// Returns the gadget parameters.
    pub fn decomposition_params(&self) -> (r: GadgetDecompositionParams)
        ensures
            r@ == self@.0,
    {
        self.decomposition_params
    }

    /// Returns the rows.
    pub fn rows(&self) -> (r: &[Ciphertext])
        ensures
            rows_view(r@) == self@.1,
    {
        self.rows.as_slice()
    }
}

} // verus!
