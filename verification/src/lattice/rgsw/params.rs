//! RGSW parameters.

use vstd::prelude::*;

use crate::lattice::error::LatticeError;
use crate::lattice::rlwe::params::RlweParams;
use crate::ring::poly::RingView;

verus! {

/// RGSW parameters: the RLWE parameters and the gadget decomposition.
#[derive(Debug)]
pub struct RgswParams {
    rlwe: RlweParams,
    decomposition_base_log: u32,
    decomposition_levels: usize,
}

impl View for RgswParams {
    type V = (RingView, u32, usize);

    closed spec fn view(&self) -> (RingView, u32, usize) {
        (self.rlwe@, self.decomposition_base_log, self.decomposition_levels)
    }
}

impl Clone for RgswParams {
    fn clone(&self) -> (r: Self)
        ensures
            r@ == self@,
    {
        RgswParams {
            rlwe: self.rlwe.clone(),
            decomposition_base_log: self.decomposition_base_log,
            decomposition_levels: self.decomposition_levels,
        }
    }
}

impl RgswParams {
    /// Creates RGSW parameters; the base log must be in `1..63` and the
    /// level count nonzero.
    pub fn new(rlwe: RlweParams, decomposition_base_log: u32, decomposition_levels: usize) -> (r: Result<
        Self,
        LatticeError,
    >)
        ensures
            !(1 <= decomposition_base_log < 63) ==> r == Err::<Self, _>(
                LatticeError::InvalidParameters("decomposition_base_log must be in 1..63"),
            ),
            1 <= decomposition_base_log < 63 && decomposition_levels == 0 ==> r == Err::<Self, _>(
                LatticeError::InvalidParameters("decomposition_levels must be non-zero"),
            ),
            1 <= decomposition_base_log < 63 && decomposition_levels > 0 ==> (r matches Ok(p) && p@ == (
                rlwe@,
                decomposition_base_log,
                decomposition_levels,
            )),
    {
        if decomposition_base_log == 0 || decomposition_base_log >= 63 {
            return Err(LatticeError::InvalidParameters("decomposition_base_log must be in 1..63"));
        }
        if decomposition_levels == 0 {
            return Err(LatticeError::InvalidParameters("decomposition_levels must be non-zero"));
        }
        Ok(RgswParams { rlwe, decomposition_base_log, decomposition_levels })
    }

    /// Returns the RLWE parameters.
    pub fn rlwe(&self) -> (r: &RlweParams)
        ensures
            r@ == self@.0,
    {
        &self.rlwe
    }

    /// Returns the decomposition base log.
    pub fn decomposition_base_log(&self) -> (r: u32)
        ensures
            r == self@.1,
    {
        self.decomposition_base_log
    }

    /// Returns the number of decomposition levels.
    pub fn decomposition_levels(&self) -> (r: usize)
        ensures
            r == self@.2,
    {
        self.decomposition_levels
    }
}

} // verus!
