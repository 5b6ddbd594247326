//! RLWE secret and public keys.

use vstd::prelude::*;

use crate::ring::poly::{Poly, Rows};

verus! {

/// Secret RLWE key: one ring element.
#[derive(PartialEq, Eq)]
pub struct SecretKey {
    value: Poly,
}

impl View for SecretKey {
    type V = Rows;

    closed spec fn view(&self) -> Rows {
        self.value@
    }
}

impl Clone for SecretKey {
    fn clone(&self) -> (r: Self)
        ensures
            r@ == self@,
    {
        SecretKey { value: self.value.clone() }
    }
}

impl SecretKey {
    /// Creates a secret key from a polynomial.
    pub fn new(value: Poly) -> (r: Self)
        ensures
            r@ == value@,
    {
        SecretKey { value }
    }

    /// Returns the secret polynomial.
    pub fn value(&self) -> (r: &Poly)
        ensures
            r@ == self@,
    {
        &self.value
    }
}

/// Public RLWE key `(b, a)` with `b + a*s` small.
#[derive(Debug, PartialEq, Eq)]
pub struct PublicKey {
    value: [Poly; 2],
}

impl View for PublicKey {
    type V = (Rows, Rows);

    closed spec fn view(&self) -> (Rows, Rows) {
        (self.value@[0]@, self.value@[1]@)
    }
}

impl Clone for PublicKey {
    fn clone(&self) -> (r: Self)
        ensures
            r@ == self@,
    {
        PublicKey { value: [self.value[0].clone(), self.value[1].clone()] }
    }
}

impl PublicKey {
    /// Creates a public key from its two components.
    pub fn new(c0: Poly, c1: Poly) -> (r: Self)
        ensures
            r@ == (c0@, c1@),
    {
        PublicKey { value: [c0, c1] }
    }

    /// Returns the two components `[b, a]`.
    pub fn value(&self) -> (r: &[Poly; 2])
        ensures
            r@[0]@ == self@.0,
            r@[1]@ == self@.1,
    {
        &self.value
    }
}

} // verus!
