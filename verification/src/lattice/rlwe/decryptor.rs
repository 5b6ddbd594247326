//! RLWE decryption.

use vstd::prelude::*;

use crate::lattice::error::{ring_result, LatticeError};
use crate::lattice::rlwe::ciphertext::{
    check_components, ciphertext_error, ciphertext_valid, polys_view, Ciphertext, Plaintext,
};
use crate::lattice::rlwe::keys::SecretKey;
use crate::lattice::rlwe::params::RlweParams;
use crate::ring::poly::{poly_add, poly_check, poly_in_ring, poly_mul, RingView, Rows};

verus! {

/// `s^i` for `i >= 1`, as repeated ring products `((s * s) * s) ...`.
pub open spec fn poly_pow(s: Rows, i: nat, moduli: Seq<u64>) -> Rows
    decreases i,
{
    if i <= 1 {
        s
    } else {
        poly_mul(poly_pow(s, (i - 1) as nat, moduli), s, moduli)
    }
}

/// The phase of the first `m >= 1` components: `c_0 + c_1 s + ... +
/// c_{m-1} s^{m-1}`, accumulated left to right.
pub open spec fn phase(c: Seq<Rows>, s: Rows, moduli: Seq<u64>, m: nat) -> Rows
    decreases m,
{
    if m <= 1 {
        c[0]
    } else {
        poly_add(
            phase(c, s, moduli, (m - 1) as nat),
            poly_mul(c[m - 1], poly_pow(s, (m - 1) as nat, moduli), moduli),
            moduli,
        )
    }
}

/// RLWE decryptor: a ring and a secret key.
#[derive(Clone)]
pub struct Decryptor {
    params: RlweParams,
    sk: SecretKey,
}

impl View for Decryptor {
    type V = (RingView, Rows);

    closed spec fn view(&self) -> (RingView, Rows) {
        (self.params@, self.sk@)
    }
}

impl Decryptor {
    /// Creates a decryptor.
    pub fn new(params: RlweParams, sk: SecretKey) -> (r: Self)
        ensures
            r@ == (params@, sk@),
    {
        Decryptor { params, sk }
    }

    /// Decrypts a ciphertext to its phase `c_0 + c_1 s + ... + c_d s^d`.
    /// The key is only used, and so only checked, when there is more than
    /// one component.
    pub fn decrypt(&self, ct: &Ciphertext) -> (r: Result<Plaintext, LatticeError>)
        ensures
            !ciphertext_valid(self@.0, ct@) ==> (r matches Err(e) && ciphertext_error(self@.0, ct@, e)),
            ciphertext_valid(self@.0, ct@) && ct@.len() > 1 ==> (poly_check(self@.0, self@.1) matches Err(
                e,
            ) ==> r == Err::<Plaintext, _>(LatticeError::Ring(e))),
            ciphertext_valid(self@.0, ct@) && (ct@.len() == 1 || poly_in_ring(
                self@.0.degree,
                self@.0.moduli,
                self@.1,
            )) ==> (r matches Ok(pt) && pt@ == phase(ct@, self@.1, self@.0.moduli, ct@.len())),
    {
        let comps = ct.value();
        if comps.len() == 0 {
            return Err(LatticeError::DimensionMismatch);
        }
        let ring = self.params.ring();
        check_components(ring, comps)?;
        let ghost r = self@.0;
        let ghost s = self@.1;
        let ghost c = ct@;
        assert(comps@[0]@ == c[0]);
        let mut acc = comps[0].clone();
        let mut sk_power = self.sk.value().clone();
        let mut i: usize = 1;
        while i < comps.len()
            invariant
                ring@ == r,
                r == self@.0,
                s == self@.1,
                c == ct@,
                polys_view(comps@) == c,
                ciphertext_valid(r, c),
                i > 1 ==> poly_in_ring(r.degree, r.moduli, s),
                1 <= i <= comps@.len(),
                acc@ == phase(c, s, r.moduli, i as nat),
                poly_in_ring(r.degree, r.moduli, acc@),
                sk_power@ == poly_pow(s, i as nat, r.moduli),
                i > 1 ==> poly_in_ring(r.degree, r.moduli, sk_power@),
            decreases comps@.len() - i,
        {
            assert(comps@[i as int]@ == c[i as int]);
            assert(poly_in_ring(r.degree, r.moduli, c[i as int]));
            let term = ring_result(ring.mul(&comps[i], &sk_power))?;
            let next = ring_result(ring.add(&acc, &term))?;
            acc = next;
            let power = ring_result(ring.mul(&sk_power, self.sk.value()))?;
            sk_power = power;
            i = i + 1;
        }
        Ok(Plaintext::new(acc))
    }
}

} // verus!
