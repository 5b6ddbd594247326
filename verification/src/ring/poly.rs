//! Moduli, degrees, rings and RNS polynomials.

use vstd::prelude::*;

use crate::ring::arith::{add_mod, modulus_in_range, mul_mod, sub_mod};

verus! {

/// Errors of ring-level operations.
#[derive(Clone, Copy, Debug, PartialEq, Eq)]
pub enum RingError {
    /// A modulus outside `2..2^63`.
    InvalidModulus,
    /// A degree that is not a power of two.
    InvalidDegree,
    /// A ring without moduli.
    EmptyModuli,
    /// A polynomial whose shape does not match the ring (or is ragged).
    ShapeMismatch,
    /// A coefficient not reduced modulo its component's modulus.
    CoefficientOutOfRange,
    /// An element without an inverse modulo a modulus.
    NotInvertible,
    /// A Galois element without an inverse modulo twice the degree.
    InvalidGaloisElement,
}

/// `n` is a power of two.
pub open spec fn is_power_of_two(n: nat) -> bool
    decreases n,
{
    if n <= 1 {
        n == 1
    } else {
        n % 2 == 0 && is_power_of_two(n / 2)
    }
}

/// Word-sized RNS modulus in `2..2^63`.
#[derive(Clone, Copy, Debug, PartialEq, Eq)]
pub struct Modulus(u64);

impl View for Modulus {
    type V = u64;

    closed spec fn view(&self) -> u64 {
        self.0
    }
}

impl Modulus {
    #[verifier::type_invariant]
    closed spec fn in_range(self) -> bool {
        modulus_in_range(self.0 as int)
    }

    /// Creates a modulus; `InvalidModulus` outside `2..2^63`.
    pub fn new(value: u64) -> (r: Result<Self, RingError>)
        ensures
            modulus_in_range(value as int) <==> r is Ok,
            r matches Ok(m) ==> m@ == value,
            !modulus_in_range(value as int) ==> r == Err::<Self, _>(RingError::InvalidModulus),
    {
        if value < 2 || value >= 0x8000_0000_0000_0000 {
            return Err(RingError::InvalidModulus);
        }
        Ok(Modulus(value))
    }

    /// Returns the modulus.
    pub fn value(&self) -> (r: u64)
        ensures
            r == self@,
            modulus_in_range(r as int),
    {
        proof {
            use_type_invariant(self);
        }
        self.0
    }
}

/// Ring degree: a power of two.
#[derive(Clone, Copy, Debug, PartialEq, Eq)]
pub struct Degree(usize);

impl View for Degree {
    type V = usize;

    closed spec fn view(&self) -> usize {
        self.0
    }
}

impl Degree {
    #[verifier::type_invariant]
    closed spec fn power_of_two(self) -> bool {
        is_power_of_two(self.0 as nat)
    }

    /// Creates a degree; `InvalidDegree` unless `value` is a power of two.
    pub fn new(value: usize) -> (r: Result<Self, RingError>)
        ensures
            is_power_of_two(value as nat) <==> r is Ok,
            r matches Ok(d) ==> d@ == value,
            !is_power_of_two(value as nat) ==> r == Err::<Self, _>(RingError::InvalidDegree),
    {
        let mut n = value;
        if n == 0 {
            return Err(RingError::InvalidDegree);
        }
        while n > 1
            invariant
                n >= 1,
                is_power_of_two(value as nat) == is_power_of_two(n as nat),
            decreases n,
        {
            if n % 2 != 0 {
                return Err(RingError::InvalidDegree);
            }
            n = n / 2;
        }
        Ok(Degree(value))
    }

    /// Returns the degree.
    pub fn get(&self) -> (r: usize)
        ensures
            r == self@,
            is_power_of_two(r as nat),
    {
        proof {
            use_type_invariant(self);
        }
        self.0
    }
}

/// The residue rows of a polynomial.
pub type Rows = Seq<Seq<u64>>;

/// Every row has `degree` coefficients, each reduced modulo its row's
/// modulus, and there is one row per modulus.
pub open spec fn poly_in_ring(degree: nat, moduli: Seq<u64>, p: Rows) -> bool {
    &&& p.len() == moduli.len()
    &&& forall|j: int| 0 <= j < p.len() ==> (#[trigger] p[j]).len() == degree
    &&& forall|j: int, i: int|
        0 <= j < p.len() && 0 <= i < p[j].len() ==> #[trigger] p[j][i] < moduli[j]
}

/// Every row has `degree` coefficients and there is one row per modulus.
pub open spec fn poly_shaped(degree: nat, moduli: Seq<u64>, p: Rows) -> bool {
    &&& p.len() == moduli.len()
    &&& forall|j: int| 0 <= j < p.len() ==> (#[trigger] p[j]).len() == degree
}

/// What checking `p` against a ring reports: `ShapeMismatch` on a wrong
/// shape, else `CoefficientOutOfRange` on an unreduced coefficient.
pub open spec fn poly_check(r: RingView, p: Rows) -> Result<(), RingError> {
    if !poly_shaped(r.degree, r.moduli, p) {
        Err(RingError::ShapeMismatch)
    } else if !poly_in_ring(r.degree, r.moduli, p) {
        Err(RingError::CoefficientOutOfRange)
    } else {
        Ok(())
    }
}

/// Checking `a`, then `b`: the first failure.
pub open spec fn pair_check(r: RingView, a: Rows, b: Rows) -> Result<(), RingError> {
    match poly_check(r, a) {
        Err(e) => Err(e),
        Ok(_) => poly_check(r, b),
    }
}

/// Coefficientwise `(a + b) mod q`.
pub open spec fn row_add(a: Seq<u64>, b: Seq<u64>, q: u64) -> Seq<u64> {
    Seq::new(a.len(), |i: int| ((a[i] + b[i]) % (q as int)) as u64)
}

/// Coefficientwise `(a - b) mod q`.
pub open spec fn row_sub(a: Seq<u64>, b: Seq<u64>, q: u64) -> Seq<u64> {
    Seq::new(a.len(), |i: int| ((a[i] - b[i]) % (q as int)) as u64)
}

/// Coefficientwise `-a mod q`.
pub open spec fn row_neg(a: Seq<u64>, q: u64) -> Seq<u64> {
    Seq::new(a.len(), |i: int| ((0 - a[i]) % (q as int)) as u64)
}

/// Coefficientwise `(a * s) mod q`.
pub open spec fn row_scale(a: Seq<u64>, s: u64, q: u64) -> Seq<u64> {
    Seq::new(a.len(), |i: int| ((a[i] * s) % (q as int)) as u64)
}

/// The contribution of `a[i]` to coefficient `k` of the negacyclic product
/// `a * b` in `Z[X]/(X^n + 1)`: `a[i] * b[k - i]`, or, where the exponent
/// wraps past `n` (`X^n = -1`), `-a[i] * b[k + n - i]`.
pub open spec fn nega_term(a: Seq<u64>, b: Seq<u64>, k: int, i: int, n: int) -> int {
    if i <= k {
        a[i] * b[k - i]
    } else {
        -(a[i] * b[k + n - i])
    }
}

/// `sum_{i < m} nega_term(a, b, k, i, n)`.
pub open spec fn nega_sum(a: Seq<u64>, b: Seq<u64>, k: int, m: int, n: int) -> int
    decreases m,
{
    if m <= 0 {
        0
    } else {
        nega_sum(a, b, k, m - 1, n) + nega_term(a, b, k, m - 1, n)
    }
}

/// The negacyclic product of two rows modulo `q`.
pub open spec fn row_mul(a: Seq<u64>, b: Seq<u64>, q: u64) -> Seq<u64> {
    Seq::new(a.len(), |k: int| (nega_sum(a, b, k, a.len() as int, a.len() as int) % (q as int)) as u64)
}

/// Rowwise sum.
pub open spec fn poly_add(a: Rows, b: Rows, moduli: Seq<u64>) -> Rows {
    Seq::new(a.len(), |j: int| row_add(a[j], b[j], moduli[j]))
}

/// Rowwise difference.
pub open spec fn poly_sub(a: Rows, b: Rows, moduli: Seq<u64>) -> Rows {
    Seq::new(a.len(), |j: int| row_sub(a[j], b[j], moduli[j]))
}

/// Rowwise negation.
pub open spec fn poly_neg(a: Rows, moduli: Seq<u64>) -> Rows {
    Seq::new(a.len(), |j: int| row_neg(a[j], moduli[j]))
}

/// Rowwise scaling by one integer.
pub open spec fn poly_scale(a: Rows, s: u64, moduli: Seq<u64>) -> Rows {
    Seq::new(a.len(), |j: int| row_scale(a[j], s, moduli[j]))
}

/// Rowwise scaling by a per-row constant.
pub open spec fn poly_scale_rows(a: Rows, s: Seq<u64>, moduli: Seq<u64>) -> Rows {
    Seq::new(a.len(), |j: int| row_scale(a[j], s[j], moduli[j]))
}

/// Rowwise negacyclic product.
pub open spec fn poly_mul(a: Rows, b: Rows, moduli: Seq<u64>) -> Rows {
    Seq::new(a.len(), |j: int| row_mul(a[j], b[j], moduli[j]))
}

/// The all-zero polynomial of a ring shape.
pub open spec fn poly_zero(degree: nat, count: nat) -> Rows {
    Seq::new(count, |j: int| Seq::new(degree, |i: int| 0u64))
}

/// `polys[0] + ... + polys[len - 1]`, added left to right onto zero.
pub open spec fn poly_sum(polys: Seq<Rows>, r: RingView) -> Rows
    decreases polys.len(),
{
    if polys.len() == 0 {
        poly_zero(r.degree, r.moduli.len())
    } else {
        poly_add(poly_sum(polys.drop_last(), r), polys.last(), r.moduli)
    }
}

/// A polynomial: one residue row per RNS modulus, every row of the same
/// nonzero length.
#[derive(Debug, PartialEq, Eq)]
pub struct Poly {
    coeffs: Vec<Vec<u64>>,
}

impl View for Poly {
    type V = Rows;

    closed spec fn view(&self) -> Rows {
        self.coeffs@.map_values(|r: Vec<u64>| r@)
    }
}

/// The rows are nonempty and all of one nonzero length.
pub open spec fn rectangular(p: Rows) -> bool {
    &&& p.len() > 0
    &&& p[0].len() > 0
    &&& forall|j: int| 0 <= j < p.len() ==> (#[trigger] p[j]).len() == p[0].len()
}

impl Clone for Poly {
    fn clone(&self) -> (r: Self)
        ensures
            r@ == self@,
    {
        proof {
            use_type_invariant(self);
        }
        let mut rows: Vec<Vec<u64>> = Vec::with_capacity(self.coeffs.len());
        let mut j: usize = 0;
        while j < self.coeffs.len()
            invariant
                j <= self.coeffs@.len(),
                rows@.len() == j,
                forall|t: int| 0 <= t < j ==> (#[trigger] rows@[t])@ == self.coeffs@[t]@,
            decreases self.coeffs@.len() - j,
        {
            let row = self.coeffs[j].clone();
            assert(row@ =~= self.coeffs@[j as int]@);
            rows.push(row);
            j = j + 1;
        }
        assert(rows@.map_values(|r: Vec<u64>| r@) =~= self@);
        Poly { coeffs: rows }
    }
}

impl Poly {
    #[verifier::type_invariant]
    closed spec fn is_rectangular(self) -> bool {
        rectangular(self@)
    }

    /// Every polynomial is rectangular.
    pub fn check_rectangular(&self)
        ensures
            rectangular(self@),
    {
        proof {
            use_type_invariant(self);
        }
    }

    /// Builds a polynomial from residue rows; `ShapeMismatch` unless the rows
    /// are nonempty and all of one nonzero length.
    pub fn from_coeffs(coeffs: Vec<Vec<u64>>) -> (r: Result<Self, RingError>)
        ensures
            rectangular(coeffs@.map_values(|r: Vec<u64>| r@)) <==> r is Ok,
            r matches Ok(p) ==> p@ == coeffs@.map_values(|r: Vec<u64>| r@),
            !rectangular(coeffs@.map_values(|r: Vec<u64>| r@)) ==> r == Err::<Self, _>(
                RingError::ShapeMismatch,
            ),
    {
        let ghost v = coeffs@.map_values(|r: Vec<u64>| r@);
        if coeffs.len() == 0 || coeffs[0].len() == 0 {
            return Err(RingError::ShapeMismatch);
        }
        let n = coeffs[0].len();
        let mut j: usize = 0;
        while j < coeffs.len()
            invariant
                v == coeffs@.map_values(|r: Vec<u64>| r@),
                v.len() > 0,
                n == v[0].len(),
                j <= v.len(),
                forall|t: int| 0 <= t < j ==> (#[trigger] v[t]).len() == n,
            decreases v.len() - j,
        {
            if coeffs[j].len() != n {
                assert(v[j as int].len() != v[0].len());
                return Err(RingError::ShapeMismatch);
            }
            j = j + 1;
        }
        Ok(Poly { coeffs })
    }

    /// Returns the residue rows.
    pub fn coeffs(&self) -> (r: &[Vec<u64>])
        ensures
            r@.map_values(|r: Vec<u64>| r@) == self@,
    {
        self.coeffs.as_slice()
    }

    /// Returns the residue row of modulus `j`, if any.
    pub fn component(&self, j: usize) -> (r: Option<&[u64]>)
        ensures
            j < self@.len() ==> (r matches Some(row) && row@ == self@[j as int]),
            j >= self@.len() ==> r is None,
    {
        if j < self.coeffs.len() {
            Some(self.coeffs[j].as_slice())
        } else {
            None
        }
    }

    /// Returns the number of coefficients per row.
    pub fn degree(&self) -> (r: usize)
        ensures
            r == self@[0].len(),
            r > 0,
    {
        proof {
            use_type_invariant(self);
        }
        self.coeffs[0].len()
    }

    /// Returns the number of residue rows.
    pub fn moduli_count(&self) -> (r: usize)
        ensures
            r == self@.len(),
            r > 0,
    {
        proof {
            use_type_invariant(self);
        }
        self.coeffs.len()
    }

    /// Whether the two polynomials have the same rows.
    pub fn same_as(&self, other: &Poly) -> (r: bool)
        ensures
            r <==> self@ == other@,
    {
        if self.coeffs.len() != other.coeffs.len() {
            assert(self@.len() != other@.len());
            return false;
        }
        let mut j: usize = 0;
        while j < self.coeffs.len()
            invariant
                self.coeffs@.len() == other.coeffs@.len(),
                self@.len() == self.coeffs@.len(),
                other@.len() == other.coeffs@.len(),
                j <= self.coeffs@.len(),
                forall|t: int| 0 <= t < j ==> (#[trigger] self.coeffs@[t])@ == other.coeffs@[t]@,
            decreases self.coeffs@.len() - j,
        {
            let a = &self.coeffs[j];
            let b = &other.coeffs[j];
            assert(a@ == self@[j as int] && b@ == other@[j as int]);
            if a.len() != b.len() {
                assert(self@[j as int] != other@[j as int]);
                return false;
            }
            let mut i: usize = 0;
            while i < a.len()
                invariant
                    a@.len() == b@.len(),
                    a@ == self@[j as int],
                    b@ == other@[j as int],
                    i <= a@.len(),
                    forall|u: int| 0 <= u < i ==> a@[u] == b@[u],
                decreases a@.len() - i,
            {
                if a[i] != b[i] {
                    assert(self@[j as int][i as int] != other@[j as int][i as int]);
                    return false;
                }
                i = i + 1;
            }
            assert(a@ =~= b@);
            j = j + 1;
        }
        assert(self@ =~= other@);
        true
    }

    /// Builds a polynomial from rows known to be rectangular.
    pub(crate) fn from_rows(coeffs: Vec<Vec<u64>>) -> (r: Self)
        requires
            rectangular(coeffs@.map_values(|r: Vec<u64>| r@)),
        ensures
            r@ == coeffs@.map_values(|r: Vec<u64>| r@),
    {
        Poly { coeffs }
    }
}

/// The shape of a ring: its degree and its moduli.
pub struct RingView {
    pub degree: nat,
    pub moduli: Seq<u64>,
}

/// `Z_Q[X]/(X^degree + 1)` for `Q` the product of the moduli.
#[derive(Debug, PartialEq, Eq)]
pub struct Ring {
    degree: usize,
    moduli: Vec<Modulus>,
}

/// The raw values of a modulus sequence.
pub open spec fn modulus_values(moduli: Seq<Modulus>) -> Seq<u64> {
    moduli.map_values(|m: Modulus| m@)
}

/// A valid ring shape: power-of-two degree, at least one modulus, every
/// modulus in range.
pub open spec fn ring_valid(r: RingView) -> bool {
    &&& is_power_of_two(r.degree)
    &&& r.moduli.len() > 0
    &&& forall|j: int| 0 <= j < r.moduli.len() ==> modulus_in_range(#[trigger] r.moduli[j] as int)
}

impl View for Ring {
    type V = RingView;

    closed spec fn view(&self) -> RingView {
        RingView { degree: self.degree as nat, moduli: modulus_values(self.moduli@) }
    }
}

impl Clone for Ring {
    fn clone(&self) -> (r: Self)
        ensures
            r@ == self@,
    {
        proof {
            use_type_invariant(self);
        }
        let mut moduli: Vec<Modulus> = Vec::with_capacity(self.moduli.len());
        let mut j: usize = 0;
        while j < self.moduli.len()
            invariant
                j <= self.moduli@.len(),
                moduli@ == self.moduli@.subrange(0, j as int),
            decreases self.moduli@.len() - j,
        {
            moduli.push(self.moduli[j]);
            j = j + 1;
            assert(moduli@ =~= self.moduli@.subrange(0, j as int));
        }
        assert(moduli@ =~= self.moduli@);
        Ring { degree: self.degree, moduli }
    }
}

impl Ring {
    #[verifier::type_invariant]
    closed spec fn valid(self) -> bool {
        ring_valid(self@)
    }

    /// Every ring has a valid shape.
    pub fn check_valid(&self)
        ensures
            ring_valid(self@),
    {
        proof {
            use_type_invariant(self);
        }
    }

    /// Creates a ring; `EmptyModuli` without moduli.
    pub fn new(degree: Degree, moduli: Vec<Modulus>) -> (r: Result<Self, RingError>)
        ensures
            moduli@.len() > 0 <==> r is Ok,
            r matches Ok(ring) ==> ring@ == (RingView {
                degree: degree@ as nat,
                moduli: modulus_values(moduli@),
            }),
            moduli@.len() == 0 ==> r == Err::<Self, _>(RingError::EmptyModuli),
    {
        let n = degree.get();
        if moduli.len() == 0 {
            return Err(RingError::EmptyModuli);
        }
        let mut j: usize = 0;
        while j < moduli.len()
            invariant
                j <= moduli@.len(),
                forall|t: int|
                    0 <= t < j ==> modulus_in_range(#[trigger] modulus_values(moduli@)[t] as int),
            decreases moduli@.len() - j,
        {
            let _ = moduli[j].value();
            j = j + 1;
        }
        Ok(Ring { degree: n, moduli })
    }

    /// Returns the ring degree.
    pub fn degree(&self) -> (r: usize)
        ensures
            r == self@.degree,
            r > 0,
    {
        proof {
            use_type_invariant(self);
        }
        self.degree
    }

    /// Returns the moduli.
    pub fn moduli(&self) -> (r: &[Modulus])
        ensures
            modulus_values(r@) == self@.moduli,
            r@.len() > 0,
    {
        proof {
            use_type_invariant(self);
        }
        self.moduli.as_slice()
    }

    /// The ring of the same degree over the first `count` moduli.
    pub fn with_first_moduli(&self, count: usize) -> (r: Ring)
        requires
            1 <= count <= self@.moduli.len(),
        ensures
            r@ == (RingView { degree: self@.degree, moduli: self@.moduli.subrange(0, count as int) }),
    {
        proof {
            use_type_invariant(self);
        }
        let mut moduli: Vec<Modulus> = Vec::with_capacity(count);
        let mut j: usize = 0;
        while j < count
            invariant
                j <= count,
                count <= self.moduli@.len(),
                moduli@ == self.moduli@.subrange(0, j as int),
            decreases count - j,
        {
            moduli.push(self.moduli[j]);
            j = j + 1;
            assert(moduli@ =~= self.moduli@.subrange(0, j as int));
        }
        assert(modulus_values(moduli@) =~= self@.moduli.subrange(0, count as int));
        Ring { degree: self.degree, moduli }
    }

    /// The modulus of row `j`.
    fn modulus(&self, j: usize) -> (r: u64)
        requires
            j < self@.moduli.len(),
        ensures
            r == self@.moduli[j as int],
            modulus_in_range(r as int),
    {
        self.moduli[j].value()
    }

    /// The all-zero polynomial.
    pub fn zero(&self) -> (r: Poly)
        ensures
            r@ == poly_zero(self@.degree, self@.moduli.len()),
            poly_in_ring(self@.degree, self@.moduli, r@),
    {
        proof {
            use_type_invariant(self);
        }
        let mut rows: Vec<Vec<u64>> = Vec::with_capacity(self.moduli.len());
        let mut j: usize = 0;
        while j < self.moduli.len()
            invariant
                j <= self.moduli@.len(),
                self.degree > 0,
                rows@.len() == j,
                forall|t: int|
                    0 <= t < j ==> (#[trigger] rows@[t])@ == Seq::new(self.degree as nat, |i: int| 0u64),
            decreases self.moduli@.len() - j,
        {
            let row = zero_row(self.degree);
            rows.push(row);
            j = j + 1;
        }
        let r = Poly::from_rows_checked(rows, Ghost(self.degree as nat));
        assert(r@ =~= poly_zero(self@.degree, self@.moduli.len()));
        proof {
            let z = r@;
            assert forall|t: int, i: int| 0 <= t < z.len() && 0 <= i < z[t].len() implies #[trigger] z[t][i]
                < self@.moduli[t] by {
                assert(modulus_in_range(self@.moduli[t] as int));
            }
        }
        r
    }

    /// Checks that `poly` has one row of `degree` reduced coefficients per
    /// modulus: `ShapeMismatch` on a wrong shape, `CoefficientOutOfRange` on
    /// an unreduced coefficient.
    pub fn check_poly(&self, poly: &Poly) -> (r: Result<(), RingError>)
        ensures
            r == poly_check(self@, poly@),
            r is Ok <==> poly_in_ring(self@.degree, self@.moduli, poly@),
    {
        proof {
            use_type_invariant(poly);
        }
        if poly.coeffs.len() != self.moduli.len() || poly.coeffs[0].len() != self.degree {
            assert(poly.coeffs@[0]@ == poly@[0]);
            return Err(RingError::ShapeMismatch);
        }
        assert(poly.coeffs@[0]@ == poly@[0]);
        assert(poly_shaped(self@.degree, self@.moduli, poly@));
        let mut j: usize = 0;
        while j < poly.coeffs.len()
            invariant
                j <= poly@.len(),
                poly@.len() == self@.moduli.len(),
                rectangular(poly@),
                poly@[0].len() == self@.degree,
                poly_shaped(self@.degree, self@.moduli, poly@),
                forall|t: int, i: int|
                    0 <= t < j && 0 <= i < poly@[t].len() ==> #[trigger] poly@[t][i]
                        < self@.moduli[t],
            decreases poly@.len() - j,
        {
            let q = self.modulus(j);
            let row = &poly.coeffs[j];
            let mut i: usize = 0;
            while i < row.len()
                invariant
                    j < poly@.len(),
                    poly@.len() == self@.moduli.len(),
                    poly_shaped(self@.degree, self@.moduli, poly@),
                    row@ == poly@[j as int],
                    q == self@.moduli[j as int],
                    i <= row@.len(),
                    forall|t: int| 0 <= t < i ==> row@[t] < q,
                decreases row@.len() - i,
            {
                if row[i] >= q {
                    assert(poly@[j as int][i as int] >= self@.moduli[j as int]);
                    return Err(RingError::CoefficientOutOfRange);
                }
                i = i + 1;
            }
            j = j + 1;
        }
        Ok(())
    }

    /// `a + b`.
    pub fn add(&self, a: &Poly, b: &Poly) -> (r: Result<Poly, RingError>)
        ensures
            r matches Err(e) ==> pair_check(self@, a@, b@) == Err::<(), RingError>(e),
            (poly_in_ring(self@.degree, self@.moduli, a@) && poly_in_ring(
                self@.degree,
                self@.moduli,
                b@,
            )) <==> r is Ok,
            r matches Ok(p) ==> p@ == poly_add(a@, b@, self@.moduli) && poly_in_ring(
                self@.degree,
                self@.moduli,
                p@,
            ),
    {
        self.check_poly(a)?;
        self.check_poly(b)?;
        Ok(self.zip(a, b, true))
    }

    /// `a - b`.
    pub fn sub(&self, a: &Poly, b: &Poly) -> (r: Result<Poly, RingError>)
        ensures
            r matches Err(e) ==> pair_check(self@, a@, b@) == Err::<(), RingError>(e),
            (poly_in_ring(self@.degree, self@.moduli, a@) && poly_in_ring(
                self@.degree,
                self@.moduli,
                b@,
            )) <==> r is Ok,
            r matches Ok(p) ==> p@ == poly_sub(a@, b@, self@.moduli) && poly_in_ring(
                self@.degree,
                self@.moduli,
                p@,
            ),
    {
        self.check_poly(a)?;
        self.check_poly(b)?;
        Ok(self.zip(a, b, false))
    }

    /// `acc += b`.
    pub fn add_assign(&self, acc: &mut Poly, b: &Poly) -> (r: Result<(), RingError>)
        ensures
            r matches Err(e) ==> pair_check(self@, old(acc)@, b@) == Err::<(), RingError>(e),
            (poly_in_ring(self@.degree, self@.moduli, old(acc)@) && poly_in_ring(
                self@.degree,
                self@.moduli,
                b@,
            )) <==> r is Ok,
            r is Ok ==> final(acc)@ == poly_add(old(acc)@, b@, self@.moduli) && poly_in_ring(
                self@.degree,
                self@.moduli,
                final(acc)@,
            ),
            r is Err ==> final(acc)@ == old(acc)@,
    {
        let sum = self.add(acc, b)?;
        *acc = sum;
        Ok(())
    }

    fn zip(&self, a: &Poly, b: &Poly, adding: bool) -> (r: Poly)
        requires
            poly_in_ring(self@.degree, self@.moduli, a@),
            poly_in_ring(self@.degree, self@.moduli, b@),
        ensures
            adding ==> r@ == poly_add(a@, b@, self@.moduli),
            !adding ==> r@ == poly_sub(a@, b@, self@.moduli),
            poly_in_ring(self@.degree, self@.moduli, r@),
    {
        proof {
            use_type_invariant(self);
        }
        let ghost want = if adding {
            poly_add(a@, b@, self@.moduli)
        } else {
            poly_sub(a@, b@, self@.moduli)
        };
        let mut rows: Vec<Vec<u64>> = Vec::with_capacity(self.moduli.len());
        let mut j: usize = 0;
        while j < self.moduli.len()
            invariant
                j <= self@.moduli.len(),
                self.degree > 0,
                poly_in_ring(self@.degree, self@.moduli, a@),
                poly_in_ring(self@.degree, self@.moduli, b@),
                want == (if adding {
                    poly_add(a@, b@, self@.moduli)
                } else {
                    poly_sub(a@, b@, self@.moduli)
                }),
                rows@.len() == j,
                forall|t: int| 0 <= t < j ==> (#[trigger] rows@[t])@ == want[t],
            decreases self@.moduli.len() - j,
        {
            let q = self.modulus(j);
            let x = &a.coeffs[j];
            let y = &b.coeffs[j];
            assert(x@ == a@[j as int]);
            assert(y@ == b@[j as int]);
            let mut row: Vec<u64> = Vec::with_capacity(self.degree);
            let mut i: usize = 0;
            while i < x.len()
                invariant
                    x@ == a@[j as int],
                    y@ == b@[j as int],
                    x@.len() == y@.len(),
                    modulus_in_range(q as int),
                    forall|t: int| 0 <= t < x@.len() ==> x@[t] < q && y@[t] < q,
                    i <= x@.len(),
                    row@.len() == i,
                    forall|t: int|
                        0 <= t < i ==> #[trigger] row@[t] == (if adding {
                            row_add(x@, y@, q)
                        } else {
                            row_sub(x@, y@, q)
                        })[t],
                decreases x@.len() - i,
            {
                let v = if adding {
                    add_mod(x[i], y[i], q)
                } else {
                    sub_mod(x[i], y[i], q)
                };
                row.push(v);
                i = i + 1;
            }
            proof {
                let expect = if adding {
                    row_add(x@, y@, q)
                } else {
                    row_sub(x@, y@, q)
                };
                assert(row@ =~= expect);
                assert(want[j as int] == expect);
            }
            rows.push(row);
            j = j + 1;
        }
        let r = Poly::from_rows_checked(rows, Ghost(self.degree as nat));
        proof {
            assert(r@ =~= want);
            lemma_ring_ops_stay_in_ring(self@, a@, b@);
        }
        r
    }

    /// `-a`.
    pub fn neg(&self, a: &Poly) -> (r: Result<Poly, RingError>)
        ensures
            r matches Err(e) ==> poly_check(self@, a@) == Err::<(), RingError>(e),
            poly_in_ring(self@.degree, self@.moduli, a@) <==> r is Ok,
            r matches Ok(p) ==> p@ == poly_neg(a@, self@.moduli) && poly_in_ring(
                self@.degree,
                self@.moduli,
                p@,
            ),
    {
        self.check_poly(a)?;
        Ok(self.map_rows(a, 0, false))
    }

    /// `a * s` for an integer `s`.
    pub fn scalar_mul(&self, a: &Poly, s: u64) -> (r: Result<Poly, RingError>)
        ensures
            r matches Err(e) ==> poly_check(self@, a@) == Err::<(), RingError>(e),
            poly_in_ring(self@.degree, self@.moduli, a@) <==> r is Ok,
            r matches Ok(p) ==> p@ == poly_scale(a@, s, self@.moduli) && poly_in_ring(
                self@.degree,
                self@.moduli,
                p@,
            ),
    {
        self.check_poly(a)?;
        Ok(self.map_rows(a, s, true))
    }

    fn map_rows(&self, a: &Poly, s: u64, scaling: bool) -> (r: Poly)
        requires
            poly_in_ring(self@.degree, self@.moduli, a@),
        ensures
            scaling ==> r@ == poly_scale(a@, s, self@.moduli),
            !scaling ==> r@ == poly_neg(a@, self@.moduli),
            poly_in_ring(self@.degree, self@.moduli, r@),
    {
        proof {
            use_type_invariant(self);
        }
        let ghost want = if scaling {
            poly_scale(a@, s, self@.moduli)
        } else {
            poly_neg(a@, self@.moduli)
        };
        let mut rows: Vec<Vec<u64>> = Vec::with_capacity(self.moduli.len());
        let mut j: usize = 0;
        while j < self.moduli.len()
            invariant
                j <= self@.moduli.len(),
                self.degree > 0,
                poly_in_ring(self@.degree, self@.moduli, a@),
                want == (if scaling {
                    poly_scale(a@, s, self@.moduli)
                } else {
                    poly_neg(a@, self@.moduli)
                }),
                rows@.len() == j,
                forall|t: int| 0 <= t < j ==> (#[trigger] rows@[t])@ == want[t],
            decreases self@.moduli.len() - j,
        {
            let q = self.modulus(j);
            let x = &a.coeffs[j];
            assert(x@ == a@[j as int]);
            let mut row: Vec<u64> = Vec::with_capacity(self.degree);
            let mut i: usize = 0;
            while i < x.len()
                invariant
                    x@ == a@[j as int],
                    modulus_in_range(q as int),
                    forall|t: int| 0 <= t < x@.len() ==> x@[t] < q,
                    i <= x@.len(),
                    row@.len() == i,
                    forall|t: int|
                        0 <= t < i ==> #[trigger] row@[t] == (if scaling {
                            row_scale(x@, s, q)
                        } else {
                            row_neg(x@, q)
                        })[t],
                decreases x@.len() - i,
            {
                let v = if scaling {
                    mul_mod(x[i], s, q)
                } else {
                    sub_mod(0, x[i], q)
                };
                row.push(v);
                i = i + 1;
            }
            proof {
                let expect = if scaling {
                    row_scale(x@, s, q)
                } else {
                    row_neg(x@, q)
                };
                assert(row@ =~= expect);
            }
            rows.push(row);
            j = j + 1;
        }
        let r = Poly::from_rows_checked(rows, Ghost(self.degree as nat));
        proof {
            assert(r@ =~= want);
            lemma_unary_ops_stay_in_ring(self@, a@, s);
        }
        r
    }

    /// The negacyclic product `a * b` in `Z_Q[X]/(X^N + 1)`.
    pub fn mul(&self, a: &Poly, b: &Poly) -> (r: Result<Poly, RingError>)
        ensures
            r matches Err(e) ==> pair_check(self@, a@, b@) == Err::<(), RingError>(e),
            (poly_in_ring(self@.degree, self@.moduli, a@) && poly_in_ring(
                self@.degree,
                self@.moduli,
                b@,
            )) <==> r is Ok,
            r matches Ok(p) ==> p@ == poly_mul(a@, b@, self@.moduli) && poly_in_ring(
                self@.degree,
                self@.moduli,
                p@,
            ),
    {
        self.check_poly(a)?;
        self.check_poly(b)?;
        proof {
            use_type_invariant(self);
        }
        let mut rows: Vec<Vec<u64>> = Vec::with_capacity(self.moduli.len());
        let mut j: usize = 0;
        while j < self.moduli.len()
            invariant
                j <= self@.moduli.len(),
                self.degree > 0,
                poly_in_ring(self@.degree, self@.moduli, a@),
                poly_in_ring(self@.degree, self@.moduli, b@),
                rows@.len() == j,
                forall|t: int|
                    0 <= t < j ==> (#[trigger] rows@[t])@ == poly_mul(a@, b@, self@.moduli)[t],
            decreases self@.moduli.len() - j,
        {
            let q = self.modulus(j);
            assert(a.coeffs@[j as int]@ == a@[j as int]);
            assert(b.coeffs@[j as int]@ == b@[j as int]);
            let row = mul_row(&a.coeffs[j], &b.coeffs[j], q);
            assert(row@ == poly_mul(a@, b@, self@.moduli)[j as int]);
            rows.push(row);
            j = j + 1;
        }
        let r = Poly::from_rows_checked(rows, Ghost(self.degree as nat));
        proof {
            assert(r@ =~= poly_mul(a@, b@, self@.moduli));
            lemma_mul_stays_in_ring(self@, a@, b@);
        }
        Ok(r)
    }
}

impl Poly {
    fn from_rows_checked(rows: Vec<Vec<u64>>, Ghost(n): Ghost<nat>) -> (r: Self)
        requires
            rows@.len() > 0,
            n > 0,
            forall|t: int| 0 <= t < rows@.len() ==> (#[trigger] rows@[t])@.len() == n,
        ensures
            r@ == rows@.map_values(|r: Vec<u64>| r@),
    {
        let ghost v = rows@.map_values(|r: Vec<u64>| r@);
        assert forall|t: int| 0 <= t < v.len() implies (#[trigger] v[t]).len() == v[0].len() by {
            assert(v[t] == rows@[t]@);
            assert(v[0] == rows@[0]@);
        }
        Poly { coeffs: rows }
    }
}

/// `n` zeros.
fn zero_row(n: usize) -> (r: Vec<u64>)
    ensures
        r@ == Seq::new(n as nat, |i: int| 0u64),
{
    let mut row: Vec<u64> = Vec::with_capacity(n);
    let mut i: usize = 0;
    while i < n
        invariant
            i <= n,
            row@ == Seq::new(i as nat, |t: int| 0u64),
        decreases n - i,
    {
        row.push(0);
        i = i + 1;
        assert(row@ =~= Seq::new(i as nat, |t: int| 0u64));
    }
    row
}

/// The negacyclic product of two rows of reduced residues modulo `q`.
fn mul_row(a: &Vec<u64>, b: &Vec<u64>, q: u64) -> (r: Vec<u64>)
    requires
        a@.len() == b@.len(),
        modulus_in_range(q as int),
        forall|t: int| 0 <= t < a@.len() ==> a@[t] < q && b@[t] < q,
    ensures
        r@ == row_mul(a@, b@, q),
{
    let n = a.len();
    let mut out: Vec<u64> = Vec::with_capacity(n);
    let mut k: usize = 0;
    while k < n
        invariant
            n == a@.len(),
            a@.len() == b@.len(),
            modulus_in_range(q as int),
            forall|t: int| 0 <= t < a@.len() ==> a@[t] < q && b@[t] < q,
            k <= n,
            out@.len() == k,
            forall|t: int| 0 <= t < k ==> #[trigger] out@[t] == row_mul(a@, b@, q)[t],
        decreases n - k,
    {
        let mut acc: u64 = 0;
        let mut i: usize = 0;
        assert(nega_sum(a@, b@, k as int, 0, n as int) == 0);
        proof {
            vstd::arithmetic::div_mod::lemma_small_mod(0, q as nat);
        }
        while i < n
            invariant
                n == a@.len(),
                a@.len() == b@.len(),
                modulus_in_range(q as int),
                forall|t: int| 0 <= t < a@.len() ==> a@[t] < q && b@[t] < q,
                k < n,
                i <= n,
                acc < q,
                acc == nega_sum(a@, b@, k as int, i as int, n as int) % (q as int),
            decreases n - i,
        {
            let ghost before = nega_sum(a@, b@, k as int, i as int, n as int);
            if i <= k {
                let t = mul_mod(a[i], b[k - i], q);
                proof {
                    vstd::arithmetic::div_mod::lemma_add_mod_noop(before, a@[i as int] * b@[k - i], q as int);
                    vstd::arithmetic::div_mod::lemma_mod_twice(before, q as int);
                    vstd::arithmetic::div_mod::lemma_small_mod(acc as nat, q as nat);
                    vstd::arithmetic::div_mod::lemma_small_mod(t as nat, q as nat);
                }
                acc = add_mod(acc, t, q);
            } else {
                let t = mul_mod(a[i], b[k + (n - i)], q);
                proof {
                    vstd::arithmetic::div_mod::lemma_sub_mod_noop(before, a@[i as int] * b@[k + n - i], q as int);
                    vstd::arithmetic::div_mod::lemma_mod_twice(before, q as int);
                    vstd::arithmetic::div_mod::lemma_small_mod(acc as nat, q as nat);
                    vstd::arithmetic::div_mod::lemma_small_mod(t as nat, q as nat);
                }
                acc = sub_mod(acc, t, q);
            }
            i = i + 1;
        }
        out.push(acc);
        k = k + 1;
    }
    assert(out@ =~= row_mul(a@, b@, q));
    out
}

/// Sums, differences and products of ring elements are ring elements.
pub proof fn lemma_ring_ops_stay_in_ring(r: RingView, a: Rows, b: Rows)
    requires
        ring_valid(r),
        poly_in_ring(r.degree, r.moduli, a),
        poly_in_ring(r.degree, r.moduli, b),
    ensures
        poly_in_ring(r.degree, r.moduli, poly_add(a, b, r.moduli)),
        poly_in_ring(r.degree, r.moduli, poly_sub(a, b, r.moduli)),
{
    let s = poly_add(a, b, r.moduli);
    let d = poly_sub(a, b, r.moduli);
    assert forall|j: int, i: int| 0 <= j < s.len() && 0 <= i < s[j].len() implies #[trigger] s[j][i]
        < r.moduli[j] by {
        vstd::arithmetic::div_mod::lemma_mod_bound(a[j][i] + b[j][i], r.moduli[j] as int);
    }
    assert forall|j: int, i: int| 0 <= j < d.len() && 0 <= i < d[j].len() implies #[trigger] d[j][i]
        < r.moduli[j] by {
        vstd::arithmetic::div_mod::lemma_mod_bound(a[j][i] - b[j][i], r.moduli[j] as int);
    }
}

/// Scaling each row by its own constant keeps a ring element in the ring.
pub proof fn lemma_scale_rows_stay_in_ring(r: RingView, a: Rows, s: Seq<u64>)
    requires
        ring_valid(r),
        poly_in_ring(r.degree, r.moduli, a),
    ensures
        poly_in_ring(r.degree, r.moduli, poly_scale_rows(a, s, r.moduli)),
{
    let y = poly_scale_rows(a, s, r.moduli);
    assert forall|j: int, i: int| 0 <= j < y.len() && 0 <= i < y[j].len() implies #[trigger] y[j][i]
        < r.moduli[j] by {
        vstd::arithmetic::div_mod::lemma_mod_bound(a[j][i] * s[j], r.moduli[j] as int);
    }
}

/// Negations and scalings of ring elements are ring elements.
pub proof fn lemma_unary_ops_stay_in_ring(r: RingView, a: Rows, s: u64)
    requires
        ring_valid(r),
        poly_in_ring(r.degree, r.moduli, a),
    ensures
        poly_in_ring(r.degree, r.moduli, poly_neg(a, r.moduli)),
        poly_in_ring(r.degree, r.moduli, poly_scale(a, s, r.moduli)),
{
    let x = poly_neg(a, r.moduli);
    let y = poly_scale(a, s, r.moduli);
    assert forall|j: int, i: int| 0 <= j < x.len() && 0 <= i < x[j].len() implies #[trigger] x[j][i]
        < r.moduli[j] by {
        vstd::arithmetic::div_mod::lemma_mod_bound(0 - a[j][i], r.moduli[j] as int);
    }
    assert forall|j: int, i: int| 0 <= j < y.len() && 0 <= i < y[j].len() implies #[trigger] y[j][i]
        < r.moduli[j] by {
        vstd::arithmetic::div_mod::lemma_mod_bound(a[j][i] * s, r.moduli[j] as int);
    }
}

/// Products of ring elements are ring elements.
pub proof fn lemma_mul_stays_in_ring(r: RingView, a: Rows, b: Rows)
    requires
        ring_valid(r),
        poly_in_ring(r.degree, r.moduli, a),
        poly_in_ring(r.degree, r.moduli, b),
    ensures
        poly_in_ring(r.degree, r.moduli, poly_mul(a, b, r.moduli)),
{
    let p = poly_mul(a, b, r.moduli);
    assert forall|j: int, i: int| 0 <= j < p.len() && 0 <= i < p[j].len() implies #[trigger] p[j][i]
        < r.moduli[j] by {
        vstd::arithmetic::div_mod::lemma_mod_bound(
            nega_sum(a[j], b[j], i, a[j].len() as int, a[j].len() as int),
            r.moduli[j] as int,
        );
    }
}

} // verus!
