//! BGV parameters as the multiparty protocols use them.

use vstd::prelude::*;

use crate::ring::poly::{Ring, RingView};

verus! {

/// BGV parameters: the ciphertext ring and the plaintext modulus `t`.
#[derive(Debug)]
pub struct BgvParams {
    ring: Ring,
    plaintext_modulus: u64,
}

impl View for BgvParams {
    type V = (RingView, u64);

    closed spec fn view(&self) -> (RingView, u64) {
        (self.ring@, self.plaintext_modulus)
    }
}

impl Clone for BgvParams {
    fn clone(&self) -> (r: Self)
        ensures
            r@ == self@,
    {
        BgvParams { ring: self.ring.clone(), plaintext_modulus: self.plaintext_modulus }
    }
}

impl BgvParams {
    /// Creates parameters over `ring` with plaintext modulus `t`.
    pub fn new(ring: Ring, plaintext_modulus: u64) -> (r: Self)
        ensures
            r@ == (ring@, plaintext_modulus),
    {
        BgvParams { ring, plaintext_modulus }
    }

    /// Returns the ciphertext ring.
    pub fn ring(&self) -> (r: &Ring)
        ensures
            r@ == self@.0,
    {
        &self.ring
    }

    /// Returns the plaintext modulus.
    pub fn plaintext_modulus(&self) -> (r: u64)
        ensures
            r == self@.1,
    {
        self.plaintext_modulus
    }
}

} // verus!
