//! A CKKS ciphertext as the multiparty protocols see it.

use vstd::prelude::*;

use crate::lattice::rlwe::ciphertext::Ciphertext;
use crate::ring::poly::Rows;

verus! {

/// A CKKS ciphertext: its RLWE components and its level. Its scale and
/// precision estimate travel beside it, outside the library.
#[derive(Debug)]
pub struct CkksCiphertext {
    poly: Ciphertext,
    level: usize,
}

impl View for CkksCiphertext {
    type V = (Seq<Rows>, nat);

    closed spec fn view(&self) -> (Seq<Rows>, nat) {
        (self.poly@, self.level as nat)
    }
}

impl Clone for CkksCiphertext {
    fn clone(&self) -> (r: Self)
        ensures
            r@ == self@,
    {
        CkksCiphertext { poly: self.poly.clone(), level: self.level }
    }
}

impl CkksCiphertext {
    /// Wraps RLWE components at `level`.
    pub fn new(poly: Ciphertext, level: usize) -> (r: Self)
        ensures
            r@ == (poly@, level as nat),
    {
        CkksCiphertext { poly, level }
    }

    /// Returns the RLWE components.
    pub fn poly(&self) -> (r: &Ciphertext)
        ensures
            r@ == self@.0,
    {
        &self.poly
    }

    /// Returns the level.
    pub fn level(&self) -> (r: usize)
        ensures
            r == self@.1,
    {
        self.level
    }
}

} // verus!
