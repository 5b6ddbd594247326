//! RLWE encryption from sampled randomness.

use vstd::prelude::*;

use crate::lattice::error::{ring_result, LatticeError};
use crate::lattice::rlwe::ciphertext::{first_failure, lemma_first_failure_at, Ciphertext, Plaintext};
use crate::lattice::rlwe::decryptor::{phase, poly_pow};
use crate::lattice::rlwe::keys::{PublicKey, SecretKey};
use crate::lattice::rlwe::params::RlweParams;
use crate::lattice::rlwe::keygen::public_key_of;
use crate::ring::algebra::{
    lemma_mul_associative, lemma_mul_commutative, lemma_mul_distributes_over_add_left, lemma_mul_neg_left,
};
use crate::ring::poly::{
    lemma_mul_stays_in_ring, lemma_ring_ops_stay_in_ring, poly_add, poly_check, poly_in_ring, poly_mul, poly_neg,
    poly_sub, Poly, RingView, Rows,
};

verus! {

/// Secret-key encryption of `pt` with uniform mask `a` and error `e`:
/// `(pt - a*s + e, a)`.
pub open spec fn sk_encryption(pt: Rows, s: Rows, a: Rows, e: Rows, moduli: Seq<u64>) -> Seq<Rows> {
    seq![poly_add(poly_sub(pt, poly_mul(a, s, moduli), moduli), e, moduli), a]
}

/// Public-key encryption of `pt` under `(b, a)` with ternary `u` and errors
/// `e1`, `e2`: `(pt + b*u + e1, a*u + e2)`.
pub open spec fn pk_encryption(
    pt: Rows,
    b: Rows,
    a: Rows,
    u: Rows,
    e1: Rows,
    e2: Rows,
    moduli: Seq<u64>,
) -> Seq<Rows> {
    seq![
        poly_add(poly_add(pt, poly_mul(b, u, moduli), moduli), e1, moduli),
        poly_add(poly_mul(a, u, moduli), e2, moduli),
    ]
}

proof fn lemma_sub_add_cancel_mod(p: int, y: int, e: int, q: int)
    requires
        q > 0,
        0 <= y < q,
    ensures
        (((p - y) % q + e) % q + y) % q == (p + e) % q,
{
    let a = (p - y) % q;
    vstd::arithmetic::div_mod::lemma_small_mod(y as nat, q as nat);
    vstd::arithmetic::div_mod::lemma_add_mod_noop(a + e, y, q);
    vstd::arithmetic::div_mod::lemma_mod_twice(a + e, q);
    vstd::arithmetic::div_mod::lemma_add_mod_noop(p - y, e + y, q);
    vstd::arithmetic::div_mod::lemma_mod_twice(p - y, q);
    vstd::arithmetic::div_mod::lemma_add_mod_noop(a, e + y, q);
    assert(a + e + y == a + (e + y));
    assert(p - y + (e + y) == p + e);
}

/// Decrypting a secret-key encryption under the same key gives the
/// plaintext plus the error: `(pt - a*s + e) + a*s = pt + e`.
pub proof fn lemma_sk_encryption_phase(r: RingView, pt: Rows, s: Rows, a: Rows, e: Rows)
    requires
        crate::ring::poly::ring_valid(r),
        poly_in_ring(r.degree, r.moduli, pt),
        poly_in_ring(r.degree, r.moduli, s),
        poly_in_ring(r.degree, r.moduli, a),
        poly_in_ring(r.degree, r.moduli, e),
    ensures
        phase(sk_encryption(pt, s, a, e, r.moduli), s, r.moduli, 2) == poly_add(pt, e, r.moduli),
{
    let m = r.moduli;
    let y = poly_mul(a, s, m);
    crate::ring::poly::lemma_mul_stays_in_ring(r, a, s);
    let c = sk_encryption(pt, s, a, e, m);
    assert(poly_pow(s, 1, m) == s);
    assert(phase(c, s, m, 1) == c[0]);
    let got = phase(c, s, m, 2);
    assert(got == poly_add(c[0], poly_mul(a, s, m), m));
    let want = poly_add(pt, e, m);
    assert forall|j: int, i: int| 0 <= j < m.len() && 0 <= i < r.degree implies #[trigger] got[j][i] == want[j][i] by {
        let q = m[j] as int;
        assert(crate::ring::arith::modulus_in_range(q));
        lemma_sub_add_cancel_mod(pt[j][i] as int, y[j][i] as int, e[j][i] as int, q);
    }
    assert forall|j: int| 0 <= j < m.len() implies #[trigger] got[j] == want[j] by {
        assert(got[j] =~= want[j]);
    }
    assert(got =~= want);
}

/// `pt - (x + y) + e1 + (x + z) == pt + e1 + (z - y)` on residues modulo
/// `q`.
proof fn lemma_pk_phase_residues(p: int, x: int, y: int, e1: int, z: int, q: int)
    requires
        q > 0,
    ensures
        (((p + (0 - (x + y) % q) % q) % q + e1) % q + (x + z) % q) % q == ((p + e1) % q + (z - y) % q) % q,
{
    let neg = (0 - (x + y) % q) % q;
    let a = (p + neg) % q;
    let b = (a + e1) % q;
    vstd::arithmetic::div_mod::lemma_add_mod_noop(a + e1, x + z, q);
    vstd::arithmetic::div_mod::lemma_mod_twice(a + e1, q);
    vstd::arithmetic::div_mod::lemma_mod_twice(x + z, q);
    assert((b + (x + z) % q) % q == (a + e1 + (x + z)) % q);
    vstd::arithmetic::div_mod::lemma_add_mod_noop_right(e1 + (x + z), p + neg, q);
    assert((a + e1 + (x + z)) % q == (e1 + (x + z) + (p + neg)) % q);
    vstd::arithmetic::div_mod::lemma_add_mod_noop_right(e1 + (x + z) + p, 0 - (x + y) % q, q);
    assert((e1 + (x + z) + (p + neg)) % q == (e1 + (x + z) + p + (0 - (x + y) % q)) % q);
    vstd::arithmetic::div_mod::lemma_sub_mod_noop_right(e1 + (x + z) + p, x + y, q);
    assert((e1 + (x + z) + p + (0 - (x + y) % q)) % q == (e1 + (x + z) + p - (x + y)) % q);
    vstd::arithmetic::div_mod::lemma_add_mod_noop(p + e1, z - y, q);
    assert(e1 + (x + z) + p - (x + y) == (p + e1) + (z - y));
}

/// Decrypting a public-key encryption under the key's secret gives the
/// plaintext plus the encryption noise: with the public key
/// `(-(a*s + e), a)`, `(pt + b*u + e1) + (a*u + e2)*s == pt + e1 + (e2*s - e*u)`.
pub proof fn lemma_pk_encryption_phase(
    r: RingView,
    pt: Rows,
    s: Rows,
    a: Rows,
    e: Rows,
    u: Rows,
    e1: Rows,
    e2: Rows,
)
    requires
        crate::ring::poly::ring_valid(r),
        poly_in_ring(r.degree, r.moduli, pt),
        poly_in_ring(r.degree, r.moduli, s),
        poly_in_ring(r.degree, r.moduli, a),
        poly_in_ring(r.degree, r.moduli, e),
        poly_in_ring(r.degree, r.moduli, u),
        poly_in_ring(r.degree, r.moduli, e1),
        poly_in_ring(r.degree, r.moduli, e2),
    ensures
        ({
            let m = r.moduli;
            let (b, a_pk) = public_key_of(s, a, e, m);
            phase(pk_encryption(pt, b, a_pk, u, e1, e2, m), s, m, 2) == poly_add(
                poly_add(pt, e1, m),
                poly_sub(poly_mul(e2, s, m), poly_mul(e, u, m), m),
                m,
            )
        }),
{
    let m = r.moduli;
    let as_ = poly_mul(a, s, m);
    let b = poly_neg(poly_add(as_, e, m), m);
    let x = poly_mul(as_, u, m);
    let y = poly_mul(e, u, m);
    let z = poly_mul(e2, s, m);
    lemma_mul_stays_in_ring(r, a, s);
    lemma_mul_stays_in_ring(r, a, u);
    lemma_mul_stays_in_ring(r, u, s);
    lemma_ring_ops_stay_in_ring(r, as_, e);
    // b*u == -(x + y)
    lemma_mul_neg_left(r, poly_add(as_, e, m), u);
    lemma_mul_distributes_over_add_left(r, as_, e, u);
    // (a*u + e2)*s == x + z
    lemma_mul_distributes_over_add_left(r, poly_mul(a, u, m), e2, s);
    lemma_mul_associative(r, a, u, s);
    lemma_mul_commutative(r, u, s);
    lemma_mul_associative(r, a, s, u);
    assert(poly_mul(poly_mul(a, u, m), s, m) == x);
    let c = pk_encryption(pt, b, a, u, e1, e2, m);
    assert(poly_pow(s, 1, m) == s);
    assert(phase(c, s, m, 1) == c[0]);
    let got = phase(c, s, m, 2);
    assert(got == poly_add(c[0], poly_mul(c[1], s, m), m));
    assert(poly_mul(b, u, m) == poly_neg(poly_add(x, y, m), m));
    assert(poly_mul(c[1], s, m) == poly_add(x, z, m));
    let want = poly_add(poly_add(pt, e1, m), poly_sub(z, y, m), m);
    lemma_mul_stays_in_ring(r, as_, u);
    lemma_mul_stays_in_ring(r, e, u);
    lemma_mul_stays_in_ring(r, e2, s);
    assert forall|j: int| 0 <= j < m.len() implies #[trigger] got[j] =~= want[j] by {
        let q = m[j] as int;
        assert forall|i: int| 0 <= i < r.degree implies #[trigger] got[j][i] == want[j][i] by {
            lemma_pk_phase_residues(
                pt[j][i] as int,
                x[j][i] as int,
                y[j][i] as int,
                e1[j][i] as int,
                z[j][i] as int,
                q,
            );
        }
    }
    assert(got =~= want);
}

/// Success exactly when every polynomial used is a ring element, with the
/// ciphertext `want`; else the ring error of the first one that is not.
pub open spec fn encryption_outcome(
    ring: RingView,
    used: Seq<Rows>,
    r: Result<Ciphertext, LatticeError>,
    want: Seq<Rows>,
) -> bool {
    &&& (r is Ok <==> forall|i: int|
        0 <= i < used.len() ==> poly_in_ring(ring.degree, ring.moduli, #[trigger] used[i]))
    &&& (r matches Ok(ct) ==> ct@ == want)
    &&& (r matches Err(err) ==> (err matches LatticeError::Ring(e) && first_failure(ring, used, e)))
}

/// The encryption key, as the view sees it.
pub enum EncryptorView {
    SecretKey { ring: RingView, s: Rows },
    PublicKey { ring: RingView, b: Rows, a: Rows },
}

/// Encryptor for noisy RLWE encryption, secret-key or public-key.
#[derive(Clone)]
pub enum Encryptor {
    /// Secret-key encryptor.
    SecretKey {
        /// Parameters.
        params: RlweParams,
        /// Secret key.
        sk: SecretKey,
    },
    /// Public-key encryptor.
    PublicKey {
        /// Parameters.
        params: RlweParams,
        /// Public key.
        pk: PublicKey,
    },
}

impl View for Encryptor {
    type V = EncryptorView;

    open spec fn view(&self) -> EncryptorView {
        match self {
            Encryptor::SecretKey { params, sk } => EncryptorView::SecretKey { ring: params@, s: sk@ },
            Encryptor::PublicKey { params, pk } => EncryptorView::PublicKey {
                ring: params@,
                b: pk@.0,
                a: pk@.1,
            },
        }
    }
}

impl Encryptor {
    /// Creates a secret-key encryptor.
    pub fn with_secret_key(params: RlweParams, sk: SecretKey) -> (r: Self)
        ensures
            r@ == (EncryptorView::SecretKey { ring: params@, s: sk@ }),
    {
        Encryptor::SecretKey { params, sk }
    }

    /// Creates a public-key encryptor.
    pub fn with_public_key(params: RlweParams, pk: PublicKey) -> (r: Self)
        ensures
            r@ == (EncryptorView::PublicKey { ring: params@, b: pk@.0, a: pk@.1 }),
    {
        Encryptor::PublicKey { params, pk }
    }

    /// Encrypts `pt` with sampled randomness. With a secret key `s`, `mask`
    /// is the uniform `a`, `e0` the error and `e1` is not used: the result
    /// is `(pt - a*s + e0, a)`. With a public key `(b, a)`, `mask` is the
    /// ternary `u`: the result is `(pt + b*u + e0, a*u + e1)`. Every
    /// polynomial used must be a ring element; the error names the first
    /// one, in the order of use, that is not.
    pub fn encrypt(&self, pt: &Plaintext, mask: &Poly, e0: &Poly, e1: &Poly) -> (r: Result<Ciphertext, LatticeError>)
        ensures
            match self@ {
                EncryptorView::SecretKey { ring, s } => encryption_outcome(
                    ring,
                    seq![pt@, mask@, s, e0@],
                    r,
                    sk_encryption(pt@, s, mask@, e0@, ring.moduli),
                ),
                EncryptorView::PublicKey { ring, b, a } => encryption_outcome(
                    ring,
                    seq![pt@, b, mask@, e0@, a, e1@],
                    r,
                    pk_encryption(pt@, b, a, mask@, e0@, e1@, ring.moduli),
                ),
            },
    {
        match self {
            Encryptor::SecretKey { params, sk } => {
                let ring = params.ring();
                let ghost rv = ring@;
                let ghost used = seq![pt@, mask@, sk@, e0@];
                if let Err(e) = ring.check_poly(pt.value()) {
                    proof {
                        lemma_first_failure_at(rv, used, 0, e);
                    }
                    return Err(LatticeError::Ring(e));
                }
                let as_prod = match ring.mul(mask, sk.value()) {
                    Ok(p) => p,
                    Err(e) => {
                        proof {
                            if poly_check(rv, mask@) is Err {
                                lemma_first_failure_at(rv, used, 1, e);
                            } else {
                                lemma_first_failure_at(rv, used, 2, e);
                            }
                        }
                        return Err(LatticeError::Ring(e));
                    },
                };
                let masked = ring_result(ring.sub(pt.value(), &as_prod))?;
                let c0 = match ring.add(&masked, e0) {
                    Ok(p) => p,
                    Err(e) => {
                        proof {
                            lemma_first_failure_at(rv, used, 3, e);
                        }
                        return Err(LatticeError::Ring(e));
                    },
                };
                let mut v: Vec<Poly> = Vec::with_capacity(2);
                v.push(c0);
                v.push(mask.clone());
                let ct = Ciphertext::new(v);
                assert(ct@ =~= sk_encryption(pt@, sk@, mask@, e0@, rv.moduli));
                assert(forall|i: int| 0 <= i < used.len() ==> poly_in_ring(rv.degree, rv.moduli, #[trigger] used[i]));
                Ok(ct)
            },
            Encryptor::PublicKey { params, pk } => {
                let ring = params.ring();
                let ghost rv = ring@;
                let ghost used = seq![pt@, pk@.0, mask@, e0@, pk@.1, e1@];
                if let Err(e) = ring.check_poly(pt.value()) {
                    proof {
                        lemma_first_failure_at(rv, used, 0, e);
                    }
                    return Err(LatticeError::Ring(e));
                }
                let keys = pk.value();
                let c0_mask = match ring.mul(&keys[0], mask) {
                    Ok(p) => p,
                    Err(e) => {
                        proof {
                            if poly_check(rv, pk@.0) is Err {
                                lemma_first_failure_at(rv, used, 1, e);
                            } else {
                                lemma_first_failure_at(rv, used, 2, e);
                            }
                        }
                        return Err(LatticeError::Ring(e));
                    },
                };
                let c0_noisy = ring_result(ring.add(pt.value(), &c0_mask))?;
                let c0 = match ring.add(&c0_noisy, e0) {
                    Ok(p) => p,
                    Err(e) => {
                        proof {
                            lemma_first_failure_at(rv, used, 3, e);
                        }
                        return Err(LatticeError::Ring(e));
                    },
                };
                let c1_mask = match ring.mul(&keys[1], mask) {
                    Ok(p) => p,
                    Err(e) => {
                        proof {
                            lemma_first_failure_at(rv, used, 4, e);
                        }
                        return Err(LatticeError::Ring(e));
                    },
                };
                let c1 = match ring.add(&c1_mask, e1) {
                    Ok(p) => p,
                    Err(e) => {
                        proof {
                            lemma_first_failure_at(rv, used, 5, e);
                        }
                        return Err(LatticeError::Ring(e));
                    },
                };
                let mut v: Vec<Poly> = Vec::with_capacity(2);
                v.push(c0);
                v.push(c1);
                let ct = Ciphertext::new(v);
                assert(ct@ =~= pk_encryption(pt@, pk@.0, pk@.1, mask@, e0@, e1@, rv.moduli));
                assert(forall|i: int| 0 <= i < used.len() ==> poly_in_ring(rv.degree, rv.moduli, #[trigger] used[i]));
                Ok(ct)
            },
        }
    }
}

} // verus!
