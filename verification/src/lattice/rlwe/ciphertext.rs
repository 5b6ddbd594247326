//! RLWE plaintexts and ciphertexts.

use vstd::prelude::*;

use crate::lattice::error::LatticeError;
use crate::ring::poly::{
    poly_add, poly_check, poly_in_ring, poly_neg, poly_sub, poly_zero, Poly, Ring, RingError, RingView,
    Rows,
};

verus! {

/// A plaintext: one ring element.
#[derive(Debug, PartialEq, Eq)]
pub struct Plaintext {
    value: Poly,
}

impl View for Plaintext {
    type V = Rows;

    closed spec fn view(&self) -> Rows {
        self.value@
    }
}

impl Clone for Plaintext {
    fn clone(&self) -> (r: Self)
        ensures
            r@ == self@,
    {
        Plaintext { value: self.value.clone() }
    }
}

impl Plaintext {
    /// Wraps a ring element.
    pub fn new(value: Poly) -> (r: Self)
        ensures
            r@ == value@,
    {
        Plaintext { value }
    }

    /// Returns the ring element.
    pub fn value(&self) -> (r: &Poly)
        ensures
            r@ == self@,
    {
        &self.value
    }
}

/// The component views of a sequence of polynomials.
pub open spec fn polys_view(polys: Seq<Poly>) -> Seq<Rows> {
    polys.map_values(|p: Poly| p@)
}

/// Every component is an element of the ring.
pub open spec fn components_in_ring(r: RingView, c: Seq<Rows>) -> bool {
    forall|i: int| 0 <= i < c.len() ==> poly_in_ring(r.degree, r.moduli, #[trigger] c[i])
}

/// Component `i` is the first that is not a ring element, and checking it
/// fails with `e`.
pub open spec fn first_failure(r: RingView, c: Seq<Rows>, e: RingError) -> bool {
    exists|i: int|
        0 <= i < c.len() && (forall|t: int|
            0 <= t < i ==> poly_in_ring(r.degree, r.moduli, #[trigger] c[t])) && #[trigger] poly_check(
            r,
            c[i],
        ) == Err::<(), RingError>(e)
}

/// `c[i]` is the first polynomial that is not a ring element.
pub proof fn lemma_first_failure_at(r: RingView, c: Seq<Rows>, i: int, e: RingError)
    requires
        0 <= i < c.len(),
        forall|t: int| 0 <= t < i ==> poly_in_ring(r.degree, r.moduli, #[trigger] c[t]),
        poly_check(r, c[i]) == Err::<(), RingError>(e),
    ensures
        first_failure(r, c, e),
        !poly_in_ring(r.degree, r.moduli, c[i]),
        !(forall|t: int| 0 <= t < c.len() ==> poly_in_ring(r.degree, r.moduli, #[trigger] c[t])),
{
}

/// A ciphertext that the evaluator accepts: at least one component, each a
/// ring element.
pub open spec fn ciphertext_valid(r: RingView, c: Seq<Rows>) -> bool {
    c.len() > 0 && components_in_ring(r, c)
}

/// `err` is what checking an invalid ciphertext reports: `DimensionMismatch`
/// without components, else the ring error of its first bad component.
pub open spec fn ciphertext_error(r: RingView, c: Seq<Rows>, err: LatticeError) -> bool {
    match err {
        LatticeError::DimensionMismatch => c.len() == 0,
        LatticeError::Ring(e) => c.len() > 0 && first_failure(r, c, e),
        _ => false,
    }
}

/// Componentwise sum.
pub open spec fn ciphertext_add(a: Seq<Rows>, b: Seq<Rows>, moduli: Seq<u64>) -> Seq<Rows> {
    Seq::new(a.len(), |i: int| poly_add(a[i], b[i], moduli))
}

/// Componentwise difference.
pub open spec fn ciphertext_sub(a: Seq<Rows>, b: Seq<Rows>, moduli: Seq<u64>) -> Seq<Rows> {
    Seq::new(a.len(), |i: int| poly_sub(a[i], b[i], moduli))
}

/// Componentwise negation.
pub open spec fn ciphertext_neg(a: Seq<Rows>, moduli: Seq<u64>) -> Seq<Rows> {
    Seq::new(a.len(), |i: int| poly_neg(a[i], moduli))
}

/// Checks that every polynomial is a ring element; the error is the ring
/// error of the first one that is not.
pub fn check_components(ring: &Ring, comps: &[Poly]) -> (r: Result<(), LatticeError>)
    ensures
        r is Ok <==> components_in_ring(ring@, polys_view(comps@)),
        r matches Err(err) ==> (err matches LatticeError::Ring(e) && first_failure(
            ring@,
            polys_view(comps@),
            e,
        )),
{
    let ghost c = polys_view(comps@);
    let mut i: usize = 0;
    while i < comps.len()
        invariant
            c == polys_view(comps@),
            i <= comps@.len(),
            forall|t: int| 0 <= t < i ==> poly_in_ring(ring@.degree, ring@.moduli, #[trigger] c[t]),
        decreases comps@.len() - i,
    {
        assert(c[i as int] == comps@[i as int]@);
        match ring.check_poly(&comps[i]) {
            Ok(()) => {},
            Err(e) => {
                assert(poly_check(ring@, c[i as int]) == Err::<(), RingError>(e));
                return Err(LatticeError::Ring(e));
            },
        }
        i = i + 1;
    }
    Ok(())
}

/// A ciphertext: components `(c_0, ..., c_d)` decrypting to `sum_i c_i s^i`.
#[derive(Debug, PartialEq, Eq)]
pub struct Ciphertext {
    value: Vec<Poly>,
}

impl View for Ciphertext {
    type V = Seq<Rows>;

    closed spec fn view(&self) -> Seq<Rows> {
        polys_view(self.value@)
    }
}

/// Copies a slice of polynomials.
pub fn clone_polys(polys: &[Poly]) -> (r: Vec<Poly>)
    ensures
        polys_view(r@) == polys_view(polys@),
{
    let mut out: Vec<Poly> = Vec::with_capacity(polys.len());
    let mut i: usize = 0;
    while i < polys.len()
        invariant
            i <= polys@.len(),
            out@.len() == i,
            forall|t: int| 0 <= t < i ==> (#[trigger] out@[t])@ == polys@[t]@,
        decreases polys@.len() - i,
    {
        out.push(polys[i].clone());
        i = i + 1;
    }
    assert(polys_view(out@) =~= polys_view(polys@));
    out
}

impl Clone for Ciphertext {
    fn clone(&self) -> (r: Self)
        ensures
            r@ == self@,
    {
        Ciphertext { value: clone_polys(self.value.as_slice()) }
    }
}

impl Ciphertext {
    /// Wraps components.
    pub fn new(value: Vec<Poly>) -> (r: Self)
        ensures
            r@ == polys_view(value@),
    {
        Ciphertext { value }
    }

    /// Returns the components.
    pub fn value(&self) -> (r: &[Poly])
        ensures
            polys_view(r@) == self@,
    {
        self.value.as_slice()
    }

    /// Returns the components, consuming the ciphertext.
    pub fn into_value(self) -> (r: Vec<Poly>)
        ensures
            polys_view(r@) == self@,
    {
        self.value
    }

    /// Returns the degree: the component count less one (zero when empty).
    pub fn degree(&self) -> (r: usize)
        ensures
            self@.len() > 0 ==> r == self@.len() - 1,
            self@.len() == 0 ==> r == 0,
    {
        if self.value.len() == 0 {
            0
        } else {
            self.value.len() - 1
        }
    }

    /// A ciphertext of `degree + 1` zero components.
    pub fn zero(ring: &Ring, degree: usize) -> (r: Self)
        requires
            degree < usize::MAX,
        ensures
            r@ == Seq::new((degree + 1) as nat, |i: int| poly_zero(ring@.degree, ring@.moduli.len())),
            components_in_ring(ring@, r@),
    {
        let mut value: Vec<Poly> = Vec::with_capacity(degree + 1);
        let mut i: usize = 0;
        while i <= degree
            invariant
                i <= degree + 1,
                degree < usize::MAX,
                value@.len() == i,
                forall|t: int|
                    0 <= t < i ==> (#[trigger] value@[t])@ == poly_zero(ring@.degree, ring@.moduli.len())
                        && poly_in_ring(ring@.degree, ring@.moduli, value@[t]@),
            decreases degree + 1 - i,
        {
            value.push(ring.zero());
            i = i + 1;
        }
        let r = Ciphertext { value };
        assert(r@ =~= Seq::new((degree + 1) as nat, |i: int| poly_zero(ring@.degree, ring@.moduli.len())));
        r
    }
}

} // verus!
