//! RGSW keys.

use vstd::prelude::*;

use crate::lattice::rlwe::keys::SecretKey;
use crate::ring::poly::Rows;

verus! {

/// An RGSW key: the RLWE secret it encrypts under.
#[derive(Clone)]
pub struct RgswKey {
    secret: SecretKey,
}

impl View for RgswKey {
    type V = Rows;

    closed spec fn view(&self) -> Rows {
        self.secret@
    }
}

impl RgswKey {
    /// Wraps a secret key.
    pub fn new(secret: SecretKey) -> (r: Self)
        ensures
            r@ == secret@,
    {
        RgswKey { secret }
    }

    /// Returns the secret key.
    pub fn secret(&self) -> (r: &SecretKey)
        ensures
            r@ == self@,
    {
        &self.secret
    }
}

} // verus!
