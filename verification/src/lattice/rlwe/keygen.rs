//! RLWE key generation from sampled randomness.

use vstd::prelude::*;

use crate::lattice::error::{ring_result, LatticeError};
use crate::lattice::rlwe::ciphertext::{first_failure, lemma_first_failure_at};
use crate::lattice::rlwe::evaluation_key::{galois_view, GaloisKey, KeySwitchView, RelinearizationKey};
use crate::lattice::rlwe::keys::{PublicKey, SecretKey};
use crate::lattice::rlwe::keyswitch::{
    extended_ring, generate_key_switch_key, generated_key_switch_key, rebase_ternary_secret, rebased,
    row_is_ternary,
};
use crate::lattice::rlwe::params::RlweParams;
use crate::ring::automorphism::{galois_apply, galois_invertible};
use crate::ring::conversion::{concat_moduli, extend_basis, fast_convert};
use crate::ring::poly::{
    modulus_values, pair_check, poly_add, poly_check, poly_in_ring, poly_mul, poly_neg, Degree,
    Modulus, Poly, Ring, RingError, RingView, Rows,
};

verus! {

/// The public key of `s` with uniform `a` and error `e`: `(-(a*s + e), a)`.
pub open spec fn public_key_of(s: Rows, a: Rows, e: Rows, moduli: Seq<u64>) -> (Rows, Rows) {
    (poly_neg(poly_add(poly_mul(a, s, moduli), e, moduli), moduli), a)
}

/// Key generator over one ring.
#[derive(Debug)]
pub struct KeyGenerator {
    params: RlweParams,
}

impl View for KeyGenerator {
    type V = RingView;

    closed spec fn view(&self) -> RingView {
        self.params@
    }
}

impl Clone for KeyGenerator {
    fn clone(&self) -> (r: Self)
        ensures
            r@ == self@,
    {
        KeyGenerator { params: self.params.clone() }
    }
}

impl KeyGenerator {
    /// Creates a key generator.
    pub fn new(params: RlweParams) -> (r: Self)
        ensures
            r@ == params@,
    {
        KeyGenerator { params }
    }

    /// Returns the parameters.
    pub fn params(&self) -> (r: &RlweParams)
        ensures
            r@ == self@,
    {
        &self.params
    }

    /// Generates the public key `(-(a*s + e), a)` of `sk` from a uniform `a`
    /// and an error `e`. Each of `a`, `s`, `e` must be a ring element; the
    /// error names the first, in that order, that is not.
    pub fn generate_public_key(&self, sk: &SecretKey, a: &Poly, e: &Poly) -> (r: Result<PublicKey, LatticeError>)
        ensures
            r is Ok <==> (poly_in_ring(self@.degree, self@.moduli, a@) && poly_in_ring(
                self@.degree,
                self@.moduli,
                sk@,
            ) && poly_in_ring(self@.degree, self@.moduli, e@)),
            r matches Ok(pk) ==> pk@ == public_key_of(sk@, a@, e@, self@.moduli),
            r matches Err(err) ==> (err matches LatticeError::Ring(x) && first_failure(
                self@,
                seq![a@, sk@, e@],
                x,
            )),
    {
        let ring = self.params.ring();
        let ghost used = seq![a@, sk@, e@];
        let as_prod = match ring.mul(a, sk.value()) {
            Ok(p) => p,
            Err(x) => {
                proof {
                    if poly_check(self@, a@) is Err {
                        lemma_first_failure_at(self@, used, 0, x);
                    } else {
                        lemma_first_failure_at(self@, used, 1, x);
                    }
                }
                return Err(LatticeError::Ring(x));
            },
        };
        let noisy = match ring.add(&as_prod, e) {
            Ok(p) => p,
            Err(x) => {
                proof {
                    lemma_first_failure_at(self@, used, 2, x);
                }
                return Err(LatticeError::Ring(x));
            },
        };
        let b = ring_result(ring.neg(&noisy))?;
        Ok(PublicKey::new(b, a.clone()))
    }

    /// Generates the placeholder relinearization key; the secret is not
    /// used.
    pub fn generate_relinearization_key(&self, sk: &SecretKey) -> (r: RelinearizationKey)
        ensures
            r@ is None,
    {
        RelinearizationKey::placeholder()
    }

    /// Generates one placeholder Galois key per element, in order; the
    /// secret is not used.
    pub fn generate_galois_keys(&self, elements: &[usize], sk: &SecretKey) -> (r: Vec<GaloisKey>)
        ensures
            galois_view(r@) == elements@.map_values(|el: usize| (el, None::<KeySwitchView>)),
    {
        let mut out: Vec<GaloisKey> = Vec::with_capacity(elements.len());
        let mut i: usize = 0;
        while i < elements.len()
            invariant
                i <= elements@.len(),
                out@.len() == i,
                forall|t: int| 0 <= t < i ==> (#[trigger] out@[t])@ == (elements@[t], None::<KeySwitchView>),
            decreases elements@.len() - i,
        {
            out.push(GaloisKey::new(elements[i]));
            i = i + 1;
        }
        assert(galois_view(out@) =~= elements@.map_values(|el: usize| (el, None::<KeySwitchView>)));
        out
    }
    /// Generates a real relinearization key: a hybrid key-switching key from
    /// `s^2` to `s` with the auxiliary moduli `p_moduli` and the sampled
    /// randomness of its rows (`masks[j]`, `errors[j]` for row `j`). `s^2` is
    /// carried to `QP` by fast base conversion, a representative congruent
    /// to it modulo `Q`, which is all the construction needs. `sk` must be
    /// ternary.
    pub fn generate_hybrid_relinearization_key(
        &self,
        sk: &SecretKey,
        p_moduli: &[Modulus],
        masks: &[Poly],
        errors: &[Poly],
    ) -> (r: Result<RelinearizationKey, LatticeError>)
        requires
            masks@.len() == self@.moduli.len(),
            errors@.len() == self@.moduli.len(),
        ensures
            pair_check(self@, sk@, sk@) matches Err(e) ==> r == Err::<RelinearizationKey, _>(
                LatticeError::Ring(e),
            ),
            pair_check(self@, sk@, sk@) is Ok ==> match generated_key_switch_key(
                self@,
                modulus_values(p_moduli@),
                fast_convert(
                    poly_mul(sk@, sk@, self@.moduli),
                    self@.moduli,
                    self@.moduli + modulus_values(p_moduli@),
                ),
                sk@,
                crate::lattice::rlwe::ciphertext::polys_view(masks@),
                crate::lattice::rlwe::ciphertext::polys_view(errors@),
            ) {
                Ok(v) => r matches Ok(k) && k@ == Some(v),
                Err(e) => r == Err::<RelinearizationKey, _>(e),
            },
    {
        let ring = self.params.ring();
        let s_squared = ring_result(ring.mul(sk.value(), sk.value()))?;
        let q_moduli = ring.moduli();
        let qp_moduli = concat_moduli(q_moduli, p_moduli);
        let s_squared_qp = match extend_basis(&s_squared, q_moduli, qp_moduli.as_slice()) {
            Ok(p) => p,
            Err(e) => {
                assert(false);
                return Err(LatticeError::Ring(e));
            },
        };
        let ksk = generate_key_switch_key(&self.params, p_moduli, &s_squared_qp, sk, masks, errors)?;
        Ok(RelinearizationKey::from_key_switch_key(ksk))
    }

    /// Generates a real Galois key for `element`: a hybrid key-switching key
    /// from `sigma(s)` (the image of `s` under `X -> X^element`) to `s`, with
    /// the auxiliary moduli `p_moduli` and the sampled randomness of its
    /// rows. `sigma(s)` is ternary when `s` is, and is re-expressed in `QP`
    /// coefficient by coefficient; `element` must be invertible modulo twice
    /// the degree.
    pub fn generate_hybrid_galois_key(
        &self,
        element: usize,
        sk: &SecretKey,
        p_moduli: &[Modulus],
        masks: &[Poly],
        errors: &[Poly],
    ) -> (r: Result<GaloisKey, LatticeError>)
        requires
            masks@.len() == self@.moduli.len(),
            errors@.len() == self@.moduli.len(),
        ensures
            poly_check(self@, sk@) matches Err(e) ==> r == Err::<GaloisKey, _>(LatticeError::Ring(e)),
            poly_check(self@, sk@) is Ok && !galois_invertible(element as int, self@.degree as int)
                ==> r == Err::<GaloisKey, _>(LatticeError::Ring(RingError::InvalidGaloisElement)),
            poly_check(self@, sk@) is Ok && galois_invertible(element as int, self@.degree as int) ==> ({
                let sigma = galois_apply(sk@, element as int, self@.degree as int, self@.moduli);
                let qp = extended_ring(self@, modulus_values(p_moduli@));
                if !row_is_ternary(sigma[0], self@.moduli[0]) {
                    r == Err::<GaloisKey, _>(
                        LatticeError::InvalidParameters(
                            "s_new must be ternary to rebase into the extended QP ring",
                        ),
                    )
                } else {
                    match generated_key_switch_key(
                        self@,
                        modulus_values(p_moduli@),
                        rebased(sigma[0], self@.moduli[0], qp.moduli),
                        sk@,
                        crate::lattice::rlwe::ciphertext::polys_view(masks@),
                        crate::lattice::rlwe::ciphertext::polys_view(errors@),
                    ) {
                        Ok(v) => r matches Ok(k) && k@ == (element, Some(v)),
                        Err(e) => r == Err::<GaloisKey, _>(e),
                    }
                }
            }),
    {
        let ring = self.params.ring();
        ring.check_valid();
        let sigma_s = ring_result(ring.apply_automorphism(sk.value(), element))?;
        let sigma_sk = SecretKey::new(sigma_s);
        let q_moduli = ring.moduli();
        let qp_moduli = concat_moduli(q_moduli, p_moduli);
        let degree = match Degree::new(ring.degree()) {
            Ok(d) => d,
            Err(e) => {
                assert(false);
                return Err(LatticeError::Ring(e));
            },
        };
        let qp_ring = match Ring::new(degree, qp_moduli) {
            Ok(x) => x,
            Err(e) => {
                assert(false);
                return Err(LatticeError::Ring(e));
            },
        };
        assert(qp_ring@ == extended_ring(self@, modulus_values(p_moduli@)));
        let sigma_s_qp = rebase_ternary_secret(&sigma_sk, q_moduli[0], &qp_ring)?;
        let ksk = generate_key_switch_key(&self.params, p_moduli, &sigma_s_qp, sk, masks, errors)?;
        Ok(GaloisKey::from_key_switch_key(element, ksk))
    }
}

} // verus!
