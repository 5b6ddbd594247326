//! Errors of the lattice primitives.

use vstd::prelude::*;

use crate::ring::poly::RingError;

verus! {

/// Errors of the canonical binary encodings.
#[derive(Clone, Copy, Debug, PartialEq, Eq)]
pub enum UtilsError {
    /// The input ended before a complete field.
    UnexpectedEnd,
    /// The 8-byte domain tag names another object type.
    InvalidDomain,
    /// The version field names a version this encoding does not read.
    UnsupportedVersion { found: u16 },
}

/// Errors emitted by lattice cryptographic primitives.
#[derive(Clone, Copy, Debug, PartialEq, Eq)]
pub enum LatticeError {
    /// A ring-level operation failed.
    Ring(RingError),
    /// Ciphertext degree or dimensions are invalid for an operation.
    DimensionMismatch,
    /// Parameters are invalid.
    InvalidParameters(&'static str),
    /// Requested key material is not available.
    MissingKey(&'static str),
    /// An encoding failed to decode.
    Utils(UtilsError),
}

/// Lifts a ring result into a lattice result, wrapping the error.
pub fn ring_result<T>(r: Result<T, RingError>) -> (out: Result<T, LatticeError>)
    ensures
        match r {
            Ok(v) => out == Ok::<T, LatticeError>(v),
            Err(e) => out == Err::<T, _>(LatticeError::Ring(e)),
        },
{
    match r {
        Ok(v) => Ok(v),
        Err(e) => Err(LatticeError::Ring(e)),
    }
}

} // verus!
