//! CKKS parameters as the multiparty protocols use them.

use vstd::prelude::*;

use crate::ring::poly::{Ring, RingView};

verus! {

/// The ring of level `level`: the first `level + 1` moduli.
pub open spec fn level_ring(r: RingView, level: nat) -> RingView {
    RingView { degree: r.degree, moduli: r.moduli.subrange(0, level + 1 as int) }
}

/// CKKS parameters: the full-level ciphertext ring. A ciphertext at level
/// `l` lives over its first `l + 1` moduli; the scale and the precision
/// estimate are carried beside the library.
#[derive(Debug)]
pub struct CkksParams {
    ring: Ring,
}

impl View for CkksParams {
    type V = RingView;

    closed spec fn view(&self) -> RingView {
        self.ring@
    }
}

impl Clone for CkksParams {
    fn clone(&self) -> (r: Self)
        ensures
            r@ == self@,
    {
        CkksParams { ring: self.ring.clone() }
    }
}

impl CkksParams {
    /// Creates parameters over the full-level `ring`.
    pub fn new(ring: Ring) -> (r: Self)
        ensures
            r@ == ring@,
    {
        CkksParams { ring }
    }

    /// Returns the full-level ring.
    pub fn ring(&self) -> (r: &Ring)
        ensures
            r@ == self@,
    {
        &self.ring
    }

    /// The highest level: one less than the number of moduli.
    pub fn max_level(&self) -> (r: usize)
        ensures
            r == self@.moduli.len() - 1,
    {
        self.ring.check_valid();
        self.ring.moduli().len() - 1
    }

    /// The parameters at `level`; `None` above the highest level.
    pub fn at_level(&self, level: usize) -> (r: Option<CkksParams>)
        ensures
            level < self@.moduli.len() <==> r is Some,
            r matches Some(p) ==> p@ == level_ring(self@, level as nat),
    {
        self.ring.check_valid();
        let count = self.ring.moduli().len();
        if level >= count {
            return None;
        }
        Some(CkksParams { ring: self.ring.with_first_moduli(level + 1) })
    }
}

} // verus!
