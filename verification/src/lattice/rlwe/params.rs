//! RLWE parameters.

use vstd::prelude::*;

use crate::ring::poly::{Ring, RingView};

verus! {

/// RLWE parameters: the ciphertext ring.
#[derive(Debug)]
pub struct RlweParams {
    ring: Ring,
}

impl View for RlweParams {
    type V = RingView;

    closed spec fn view(&self) -> RingView {
        self.ring@
    }
}

impl Clone for RlweParams {
    fn clone(&self) -> (r: Self)
        ensures
            r@ == self@,
    {
        RlweParams { ring: self.ring.clone() }
    }
}

impl RlweParams {
    /// Creates parameters over `ring`.
    pub fn new(ring: Ring) -> (r: Self)
        ensures
            r@ == ring@,
    {
        RlweParams { ring }
    }

    /// Returns the ciphertext ring.
    pub fn ring(&self) -> (r: &Ring)
        ensures
            r@ == self@,
    {
        &self.ring
    }
}

} // verus!
