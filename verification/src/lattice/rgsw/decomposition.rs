//! Gadget decomposition of RNS polynomials.
//!
//! Each residue row `c_m` (modulo `q_m`) is split into `levels` base-`2^b`
//! digits; digit `(m, l)` is the polynomial whose every row holds
//! `(c_m >> (l*b)) & (2^b - 1)` reduced modulo that row's modulus.
//! Recomposition weights digit `(m, l)` by `2^(l*b)` and by the CRT lift
//! constant of `q_m`, and sums.

use vstd::prelude::*;

use crate::lattice::error::LatticeError;
use crate::ring::arith::{add_mod, modulus_in_range, mul_mod};
use crate::ring::poly::{modulus_values, rectangular, Modulus, Poly, Rows};
use crate::ring::rns::{crt_lift, crt_lift_constant};

verus! {

/// Gadget parameters: `levels` digits of `base_log` bits each.
#[derive(Clone, Copy, Debug, PartialEq, Eq)]
pub struct GadgetDecompositionParams {
    base_log: u32,
    levels: usize,
}

impl View for GadgetDecompositionParams {
    type V = (u32, usize);

    closed spec fn view(&self) -> (u32, usize) {
        (self.base_log, self.levels)
    }
}

/// Valid gadget parameters: `1 <= base_log < 63`, `levels > 0`.
pub open spec fn gadget_params_valid(base_log: u32, levels: usize) -> bool {
    1 <= base_log < 63 && levels > 0
}

impl GadgetDecompositionParams {
    #[verifier::type_invariant]
    closed spec fn valid(self) -> bool {
        gadget_params_valid(self.base_log, self.levels)
    }

    /// Creates gadget parameters; `base_log` must be in `1..63` and `levels`
    /// nonzero.
    pub fn new(base_log: u32, levels: usize) -> (r: Result<Self, LatticeError>)
        ensures
            !(1 <= base_log < 63) ==> r == Err::<Self, _>(LatticeError::InvalidParameters("base_log must be in 1..63")),
            1 <= base_log < 63 && levels == 0 ==> r == Err::<Self, _>(
                LatticeError::InvalidParameters("levels must be non-zero"),
            ),
            gadget_params_valid(base_log, levels) ==> (r matches Ok(p) && p@ == (base_log, levels)),
    {
        if base_log == 0 || base_log >= 63 {
            return Err(LatticeError::InvalidParameters("base_log must be in 1..63"));
        }
        if levels == 0 {
            return Err(LatticeError::InvalidParameters("levels must be non-zero"));
        }
        Ok(GadgetDecompositionParams { base_log, levels })
    }

    /// Returns the digit width in bits.
    pub fn base_log(self) -> (r: u32)
        ensures
            r == self@.0,
            1 <= r < 63,
    {
        proof {
            use_type_invariant(&self);
        }
        self.base_log
    }

    /// Returns the number of digits.
    pub fn levels(self) -> (r: usize)
        ensures
            r == self@.1,
            r > 0,
    {
        proof {
            use_type_invariant(&self);
        }
        self.levels
    }

    /// Returns the digit base `2^base_log`.
    pub fn base(self) -> (r: u64)
        ensures
            r == 1u64 << self@.0,
    {
        proof {
            use_type_invariant(&self);
        }
        1u64 << self.base_log
    }
}

/// Digit `level` of `c`: `(c >> (level*base_log)) & (2^base_log - 1)`.
pub open spec fn gadget_digit(c: u64, level: int, base_log: u32) -> u64 {
    (c >> ((level * base_log) as u64)) & (((1u64 << (base_log as u64)) - 1) as u64)
}

/// The digit polynomial of residue row `row` at `level`: every row holds the
/// digits of `row` reduced modulo that row's modulus.
pub open spec fn digit_poly(row: Seq<u64>, level: int, base_log: u32, moduli: Seq<u64>) -> Rows {
    Seq::new(
        moduli.len(),
        |j: int| Seq::new(row.len(), |i: int| (gadget_digit(row[i], level, base_log) % moduli[j]) as u64),
    )
}

/// The digits of `p`: digit `(m, l)` at index `m*levels + l`.
pub open spec fn decomposition_of(p: Rows, base_log: u32, levels: int, moduli: Seq<u64>, d: Seq<Rows>) -> bool {
    &&& d.len() == p.len() * levels
    &&& forall|m: int, l: int|
        0 <= m < p.len() && 0 <= l < levels ==> #[trigger] d[m * levels + l] == digit_poly(
            p[m],
            l,
            base_log,
            moduli,
        )
}

/// The weight `2^(level*base_log) mod q`.
pub open spec fn level_weight(level: int, base_log: u32, q: u64) -> u64 {
    ((1u128 << ((level * base_log) as u32)) % (q as u128)) as u64
}

/// The scale of digit `(m, l)` in row `j`: its weight times the CRT lift
/// constant of `q_m`, modulo `q_j`.
pub open spec fn digit_scale(moduli: Seq<u64>, m: int, l: int, base_log: u32, j: int) -> int {
    (level_weight(l, base_log, moduli[j]) as int * crt_lift(moduli, m, moduli[j]) as int) % (moduli[j] as int)
}

/// The weighted contribution of digit `(m, l)` to coefficient `i` of row `j`.
pub open spec fn recompose_term(d: Seq<Rows>, levels: int, moduli: Seq<u64>, base_log: u32, m: int, l: int, j: int, i: int) -> int {
    (d[m * levels + l][j][i] as int * digit_scale(moduli, m, l, base_log, j)) % (moduli[j] as int)
}

/// `sum_{l < upto} recompose_term(.., m, l, ..)`.
pub open spec fn level_sum(d: Seq<Rows>, levels: int, moduli: Seq<u64>, base_log: u32, m: int, j: int, i: int, upto: int) -> int
    decreases upto,
{
    if upto <= 0 {
        0
    } else {
        level_sum(d, levels, moduli, base_log, m, j, i, upto - 1) + recompose_term(
            d,
            levels,
            moduli,
            base_log,
            m,
            upto - 1,
            j,
            i,
        )
    }
}

/// `sum_{m < upto} level_sum(.., m, .., levels)`.
pub open spec fn modulus_sum(d: Seq<Rows>, levels: int, moduli: Seq<u64>, base_log: u32, j: int, i: int, upto: int) -> int
    decreases upto,
{
    if upto <= 0 {
        0
    } else {
        modulus_sum(d, levels, moduli, base_log, j, i, upto - 1) + level_sum(
            d,
            levels,
            moduli,
            base_log,
            upto - 1,
            j,
            i,
            levels,
        )
    }
}

/// The recomposition of the digits `d` over `moduli`, `n` coefficients a row.
pub open spec fn recomposition(d: Seq<Rows>, levels: int, moduli: Seq<u64>, base_log: u32, n: nat) -> Rows {
    Seq::new(
        moduli.len(),
        |j: int|
            Seq::new(
                n,
                |i: int| (modulus_sum(d, levels, moduli, base_log, j, i, moduli.len() as int) % (moduli[j] as int)) as u64,
            ),
    )
}

/// Digit `(mm, l)` of an earlier source row precedes the digits of row `m`.
pub proof fn lemma_digit_index(mm: int, l: int, m: int, levels: int)
    requires
        0 <= mm < m,
        0 <= l < levels,
    ensures
        0 <= mm * levels + l < m * levels,
{
    vstd::arithmetic::mul::lemma_mul_inequality(mm + 1, m, levels);
    vstd::arithmetic::mul::lemma_mul_is_distributive_add_other_way(levels, mm, 1);
    vstd::arithmetic::mul::lemma_mul_nonnegative(mm, levels);
}

/// The polys views of a digit list.
pub open spec fn digits_view(d: Seq<Poly>) -> Seq<Rows> {
    d.map_values(|p: Poly| p@)
}

/// A gadget decomposition: its parameters, the number of residue rows of
/// the source, and the digits, `modulus_count * levels` of them.
#[derive(Debug)]
pub struct GadgetDecomposition {
    params: GadgetDecompositionParams,
    modulus_count: usize,
    digits: Vec<Poly>,
}

impl View for GadgetDecomposition {
    type V = ((u32, usize), usize, Seq<Rows>);

    closed spec fn view(&self) -> ((u32, usize), usize, Seq<Rows>) {
        (self.params@, self.modulus_count, digits_view(self.digits@))
    }
}

impl GadgetDecomposition {
    #[verifier::type_invariant]
    closed spec fn shaped(self) -> bool {
        let d = digits_view(self.digits@);
        let levels = self.params@.1 as int;
        &&& gadget_params_valid(self.params@.0, self.params@.1)
        &&& (levels - 1) * self.params@.0 < 64
        &&& self.modulus_count > 0
        &&& d.len() == self.modulus_count * levels
        &&& forall|k: int|
            0 <= k < d.len() ==> (#[trigger] d[k]).len() == self.modulus_count && d[k][0].len() == d[0][0].len()
        &&& forall|k: int, j: int| 0 <= k < d.len() && 0 <= j < self.modulus_count ==> (#[trigger] d[k][j]).len() == d[0][0].len()
    }

    /// Decomposes `poly` over `moduli`; `DimensionMismatch` unless it has one
    /// row per modulus. The digit shifts must stay below 64 bits.
    pub fn decompose(poly: &Poly, params: GadgetDecompositionParams, moduli: &[Modulus]) -> (r: Result<
        Self,
        LatticeError,
    >)
        requires
            (params@.1 - 1) * params@.0 < 64,
        ensures
            poly@.len() != moduli@.len() ==> r matches Err(LatticeError::DimensionMismatch),
            poly@.len() == moduli@.len() ==> (r matches Ok(d) && d@.0 == params@ && d@.1 == moduli@.len()
                && decomposition_of(poly@, params@.0, params@.1 as int, modulus_values(moduli@), d@.2)),
    {
        poly.check_rectangular();
        let levels = params.levels();
        let base_log = params.base_log();
        let rows = poly.coeffs();
        if rows.len() != moduli.len() {
            return Err(LatticeError::DimensionMismatch);
        }
        let base = params.base();
        assert(base >= 2) by (bit_vector)
            requires
                base == 1u64 << base_log,
                1 <= base_log < 63,
        ;
        let mask: u64 = base - 1;
        let n = poly.degree();
        let n_moduli = moduli.len();
        let ghost mv = modulus_values(moduli@);
        let mut digits: Vec<Poly> = Vec::new();
        let mut m: usize = 0;
        while m < n_moduli
            invariant
                rows@.map_values(|r: Vec<u64>| r@) == poly@,
                rectangular(poly@),
                n == poly@[0].len(),
                n_moduli == moduli@.len(),
                n_moduli == poly@.len(),
                mv == modulus_values(moduli@),
                levels == params@.1,
                base_log == params@.0,
                levels > 0,
                1 <= base_log < 63,
                (levels - 1) * base_log < 64,
                mask == ((1u64 << base_log) - 1) as u64,
                m <= n_moduli,
                digits@.len() == m * levels,
                forall|mm: int, l: int|
                    0 <= mm < m && 0 <= l < levels ==> (#[trigger] digits@[mm * levels + l])@ == digit_poly(
                        poly@[mm],
                        l,
                        base_log,
                        mv,
                    ),
                forall|k: int| 0 <= k < digits@.len() ==> (#[trigger] digits@[k])@.len() == n_moduli,
                forall|k: int, t: int|
                    0 <= k < digits@.len() && 0 <= t < n_moduli ==> (#[trigger] digits@[k]@[t]).len() == n,
            decreases n_moduli - m,
        {
            let source = &rows[m];
            assert(source@ == poly@[m as int]);
            let mut level: usize = 0;
            while level < levels
                invariant
                    source@ == poly@[m as int],
                    source@.len() == n,
                    n > 0,
                    n_moduli == moduli@.len(),
                    n_moduli > 0,
                    mv == modulus_values(moduli@),
                    levels > 0,
                    1 <= base_log < 63,
                    (levels - 1) * base_log < 64,
                    mask == ((1u64 << base_log) - 1) as u64,
                    m < n_moduli,
                    level <= levels,
                    digits@.len() == m * levels + level,
                    forall|mm: int, l: int|
                        0 <= mm < m && 0 <= l < levels ==> (#[trigger] digits@[mm * levels + l])@
                            == digit_poly(poly@[mm], l, base_log, mv),
                    forall|l: int| 0 <= l < level ==> (#[trigger] digits@[m * levels + l])@ == digit_poly(
                        poly@[m as int],
                        l,
                        base_log,
                        mv,
                    ),
                    forall|k: int| 0 <= k < digits@.len() ==> (#[trigger] digits@[k])@.len() == n_moduli,
                    forall|k: int, t: int|
                        0 <= k < digits@.len() && 0 <= t < n_moduli ==> (#[trigger] digits@[k]@[t]).len() == n,
                decreases levels - level,
            {
                proof {
                    vstd::arithmetic::mul::lemma_mul_inequality(level as int, (levels - 1) as int, base_log as int);
                    vstd::arithmetic::mul::lemma_mul_inequality(1, base_log as int, level as int);
                    assert(level < 64);
                }
                let shift: u32 = (level as u32) * base_log;
                let ghost want = digit_poly(poly@[m as int], level as int, base_log, mv);
                assert(want.len() == mv.len());
                let mut coeffs: Vec<Vec<u64>> = Vec::with_capacity(n_moduli);
                let mut j: usize = 0;
                while j < n_moduli
                    invariant
                        source@ == poly@[m as int],
                        source@.len() == n,
                        n_moduli == moduli@.len(),
                        mv == modulus_values(moduli@),
                        mv.len() == n_moduli,
                        source@.len() == poly@[m as int].len(),
                        shift == level * base_log,
                        shift < 64,
                        mask == ((1u64 << base_log) - 1) as u64,
                        want == digit_poly(poly@[m as int], level as int, base_log, mv),
                        j <= n_moduli,
                        coeffs@.len() == j,
                        forall|t: int| 0 <= t < j ==> (#[trigger] coeffs@[t])@ == want[t],
                    decreases n_moduli - j,
                {
                    let q = moduli[j].value();
                    let mut row: Vec<u64> = Vec::with_capacity(n);
                    let mut i: usize = 0;
                    while i < n
                        invariant
                            source@.len() == n,
                            source@ == poly@[m as int],
                            j < n_moduli,
                            n_moduli == mv.len(),
                            want == digit_poly(poly@[m as int], level as int, base_log, mv),
                            q == mv[j as int],
                            q > 1,
                            shift == level * base_log,
                            shift < 64,
                            mask == ((1u64 << base_log) - 1) as u64,
                            i <= n,
                            row@.len() == i,
                            forall|u: int| 0 <= u < i ==> #[trigger] row@[u] == gadget_digit(
                                source@[u],
                                level as int,
                                base_log,
                            ) % q,
                        decreases n - i,
                    {
                        let digit_value = (source[i] >> shift) & mask;
                        assert(digit_value == gadget_digit(source@[i as int], level as int, base_log));
                        row.push(digit_value % q);
                        i = i + 1;
                    }
                    assert(want.len() == mv.len());
                    assert(j < mv.len());
                    assert(poly@[m as int].len() == n);
                    assert(want[j as int].len() == n);
                    assert(row@.len() == n);
                    assert forall|u: int| 0 <= u < n implies row@[u] == want[j as int][u] by {
                        assert(want[j as int][u] == gadget_digit(poly@[m as int][u], level as int, base_log) % mv[j as int]);
                    }
                    assert(row@ =~= want[j as int]);
                    coeffs.push(row);
                    j = j + 1;
                }
                let ghost cv = coeffs@.map_values(|r: Vec<u64>| r@);
                assert(cv =~= want);
                proof {
                    assert forall|t: int| 0 <= t < cv.len() implies (#[trigger] cv[t]).len() == cv[0].len() by {}
                }
                let digit = Poly::from_rows(coeffs);
                let ghost before = digits@;
                digits.push(digit);
                proof {
                    assert forall|mm: int, l: int|
                        0 <= mm < m && 0 <= l < levels implies (#[trigger] digits@[mm * levels + l])@
                            == digit_poly(poly@[mm], l, base_log, mv) by {
                        lemma_digit_index(mm, l, m as int, levels as int);
                        assert(digits@[mm * levels + l] == before[mm * levels + l]);
                    }
                    assert forall|l: int| 0 <= l < level + 1 implies (#[trigger] digits@[m * levels + l])@
                        == digit_poly(poly@[m as int], l, base_log, mv) by {
                        vstd::arithmetic::mul::lemma_mul_nonnegative(m as int, levels as int);
                        if l < level {
                            assert(digits@[m * levels + l] == before[m * levels + l]);
                        }
                    }
                }
                level = level + 1;
            }
            proof {
                vstd::arithmetic::mul::lemma_mul_is_distributive_add_other_way(levels as int, m as int, 1);
                assert forall|mm: int, l: int|
                    0 <= mm < m + 1 && 0 <= l < levels implies (#[trigger] digits@[mm * levels + l])@
                        == digit_poly(poly@[mm], l, base_log, mv) by {
                    if mm == m {
                    }
                }
            }
            m = m + 1;
        }
        proof {
            vstd::arithmetic::mul::lemma_mul_inequality(1, n_moduli as int, levels as int);
            let d = digits_view(digits@);
            assert(d.len() == n_moduli * levels);
            assert forall|k: int| 0 <= k < d.len() implies (#[trigger] d[k]).len() == n_moduli && d[k][0].len()
                == d[0][0].len() by {
                assert(d[k] == digits@[k]@);
                assert(d[0] == digits@[0]@);
            }
            assert forall|k: int, t: int| 0 <= k < d.len() && 0 <= t < n_moduli implies (#[trigger] d[k][t]).len()
                == d[0][0].len() by {
                assert(d[k] == digits@[k]@);
                assert(d[0] == digits@[0]@);
            }
            assert forall|mm: int, l: int|
                0 <= mm < poly@.len() && 0 <= l < levels implies #[trigger] d[mm * levels + l] == digit_poly(
                    poly@[mm],
                    l,
                    base_log,
                    mv,
                ) by {
                lemma_digit_index(mm, l, n_moduli as int, levels as int);
                assert(d[mm * levels + l] == digits@[mm * levels + l]@);
            }
        }
        Ok(GadgetDecomposition { params, modulus_count: n_moduli, digits })
    }

    /// Recomposes the digits over `moduli`: coefficient `i` of row `j` is
    /// `sum_{m, l} digit(m, l)[j][i] * 2^(l*b) * lift_m` modulo `q_j`, with
    /// `lift_m` the CRT lift constant of `q_m`. `DimensionMismatch` unless
    /// there is one modulus per decomposed row.
    pub fn recompose(&self, moduli: &[Modulus]) -> (r: Result<Poly, LatticeError>)
        ensures
            moduli@.len() != self@.1 ==> r matches Err(LatticeError::DimensionMismatch),
            moduli@.len() == self@.1 ==> (r matches Ok(p) && p@ == recomposition(
                self@.2,
                self@.0.1 as int,
                modulus_values(moduli@),
                self@.0.0,
                self@.2[0][0].len(),
            )),
    {
        proof {
            use_type_invariant(self);
        }
        if moduli.len() != self.modulus_count {
            return Err(LatticeError::DimensionMismatch);
        }
        let levels = self.params.levels();
        let base_log = self.params.base_log();
        let count = self.modulus_count;
        let ghost d = digits_view(self.digits@);
        let ghost mv = modulus_values(moduli@);
        if self.digits.len() != count * levels {
            return Err(LatticeError::InvalidParameters("digit count doesn't match modulus_count * levels"));
        }
        proof {
            vstd::arithmetic::mul::lemma_mul_strictly_positive(count as int, levels as int);
        }
        if self.digits.len() == 0 {
            return Err(LatticeError::InvalidParameters("missing decomposition digits"));
        }
        let n = self.digits[0].degree();
        assert(self.digits@[0]@ == d[0]);
        // scales[m * levels + l][j] = 2^(l*b) * lift_m mod q_j
        let mut scales: Vec<Vec<u64>> = Vec::with_capacity(self.digits.len());
        let mut m: usize = 0;
        while m < count
            invariant
                count == moduli@.len(),
                count > 0,
                mv == modulus_values(moduli@),
                mv.len() == count,
                levels == self@.0.1,
                base_log == self@.0.0,
                levels > 0,
                1 <= base_log < 63,
                (levels - 1) * base_log < 64,
                m <= count,
                scales@.len() == m * levels,
                forall|k: int| 0 <= k < scales@.len() ==> (#[trigger] scales@[k])@.len() == count,
                forall|mm: int, l: int, j: int|
                    0 <= mm < m && 0 <= l < levels && 0 <= j < count ==> #[trigger] scales@[mm * levels + l]@[j]
                        == digit_scale(mv, mm, l, base_log, j),
            decreases count - m,
        {
            let lift = crate::ring::rns::crt_lift_constant(moduli, m, moduli);
            let mut l: usize = 0;
            while l < levels
                invariant
                    count == moduli@.len(),
                    mv == modulus_values(moduli@),
                    mv.len() == count,
                    lift@.len() == count,
                    forall|j: int| 0 <= j < count ==> #[trigger] lift@[j] == crt_lift(mv, m as int, moduli@[j]@),
                    levels > 0,
                    1 <= base_log < 63,
                    (levels - 1) * base_log < 64,
                    m < count,
                    l <= levels,
                    scales@.len() == m * levels + l,
                    forall|k: int| 0 <= k < scales@.len() ==> (#[trigger] scales@[k])@.len() == count,
                    forall|mm: int, ll: int, j: int|
                        0 <= mm < m && 0 <= ll < levels && 0 <= j < count ==> #[trigger] scales@[mm * levels
                            + ll]@[j] == digit_scale(mv, mm, ll, base_log, j),
                    forall|ll: int, j: int|
                        0 <= ll < l && 0 <= j < count ==> #[trigger] scales@[m * levels + ll]@[j] == digit_scale(
                            mv,
                            m as int,
                            ll,
                            base_log,
                            j,
                        ),
                decreases levels - l,
            {
                proof {
                    vstd::arithmetic::mul::lemma_mul_inequality(l as int, (levels - 1) as int, base_log as int);
                    vstd::arithmetic::mul::lemma_mul_inequality(1, base_log as int, l as int);
                }
                let shift: u32 = (l as u32) * base_log;
                let mut row: Vec<u64> = Vec::with_capacity(count);
                let mut j: usize = 0;
                while j < count
                    invariant
                        count == moduli@.len(),
                        mv == modulus_values(moduli@),
                        mv.len() == count,
                        lift@.len() == count,
                        forall|jj: int| 0 <= jj < count ==> #[trigger] lift@[jj] == crt_lift(mv, m as int, moduli@[jj]@),
                        shift == l * base_log,
                        shift < 64,
                        j <= count,
                        row@.len() == j,
                        forall|jj: int| 0 <= jj < j ==> #[trigger] row@[jj] == digit_scale(mv, m as int, l as int, base_log, jj),
                    decreases count - j,
                {
                    let q = moduli[j].value();
                    assert(q == mv[j as int]);
                    let weight = ((1u128 << shift) % (q as u128)) as u64;
                    assert(weight == level_weight(l as int, base_log, q));
                    row.push(mul_mod(weight, lift[j], q));
                    j = j + 1;
                }
                let ghost before = scales@;
                scales.push(row);
                proof {
                    assert forall|mm: int, ll: int, j: int|
                        0 <= mm < m && 0 <= ll < levels && 0 <= j < count implies #[trigger] scales@[mm * levels
                            + ll]@[j] == digit_scale(mv, mm, ll, base_log, j) by {
                        lemma_digit_index(mm, ll, m as int, levels as int);
                        assert(scales@[mm * levels + ll] == before[mm * levels + ll]);
                    }
                    assert forall|ll: int, j: int|
                        0 <= ll < l + 1 && 0 <= j < count implies #[trigger] scales@[m * levels + ll]@[j]
                            == digit_scale(mv, m as int, ll, base_log, j) by {
                        vstd::arithmetic::mul::lemma_mul_nonnegative(m as int, levels as int);
                        if ll < l {
                            assert(scales@[m * levels + ll] == before[m * levels + ll]);
                        }
                    }
                }
                l = l + 1;
            }
            proof {
                vstd::arithmetic::mul::lemma_mul_is_distributive_add_other_way(levels as int, m as int, 1);
            }
            m = m + 1;
        }
        let ghost want = recomposition(d, levels as int, mv, base_log, n as nat);
        let mut rows: Vec<Vec<u64>> = Vec::with_capacity(count);
        let mut j: usize = 0;
        while j < count
            invariant
                count == moduli@.len(),
                count == self@.1,
                count > 0,
                mv == modulus_values(moduli@),
                mv.len() == count,
                d == digits_view(self.digits@),
                d == self@.2,
                d.len() == count * levels,
                levels == self@.0.1,
                base_log == self@.0.0,
                levels > 0,
                n == d[0][0].len(),
                n > 0,
                forall|k: int| 0 <= k < d.len() ==> (#[trigger] d[k]).len() == count,
                forall|k: int, jj: int| 0 <= k < d.len() && 0 <= jj < count ==> (#[trigger] d[k][jj]).len() == n,
                scales@.len() == count * levels,
                forall|k: int| 0 <= k < scales@.len() ==> (#[trigger] scales@[k])@.len() == count,
                forall|mm: int, l: int, jj: int|
                    0 <= mm < count && 0 <= l < levels && 0 <= jj < count ==> #[trigger] scales@[mm * levels + l]@[jj]
                        == digit_scale(mv, mm, l, base_log, jj),
                want == recomposition(d, levels as int, mv, base_log, n as nat),
                j <= count,
                rows@.len() == j,
                forall|t: int| 0 <= t < j ==> (#[trigger] rows@[t])@ == want[t],
            decreases count - j,
        {
            let q = moduli[j].value();
            assert(q == mv[j as int]);
            let mut row: Vec<u64> = Vec::with_capacity(n);
            let mut i: usize = 0;
            while i < n
                invariant
                    count == moduli@.len(),
                    count > 0,
                    mv.len() == count,
                    q == mv[j as int],
                    q > 1,
                    modulus_in_range(q as int),
                    j < count,
                    count == self@.1,
                    levels == self@.0.1,
                    base_log == self@.0.0,
                    d == self@.2,
                    n == d[0][0].len(),
                    d == digits_view(self.digits@),
                    d.len() == count * levels,
                    levels > 0,
                    forall|k: int| 0 <= k < d.len() ==> (#[trigger] d[k]).len() == count,
                    forall|k: int, jj: int| 0 <= k < d.len() && 0 <= jj < count ==> (#[trigger] d[k][jj]).len() == n,
                    scales@.len() == count * levels,
                    forall|k: int| 0 <= k < scales@.len() ==> (#[trigger] scales@[k])@.len() == count,
                    forall|mm: int, l: int, jj: int|
                        0 <= mm < count && 0 <= l < levels && 0 <= jj < count ==> #[trigger] scales@[mm * levels
                            + l]@[jj] == digit_scale(mv, mm, l, base_log, jj),
                    i <= n,
                    row@.len() == i,
                    forall|u: int|
                        0 <= u < i ==> #[trigger] row@[u] == (modulus_sum(d, levels as int, mv, base_log, j as int, u, count as int)
                            % (q as int)) as u64,
                decreases n - i,
            {
                let cell = self.recompose_cell(scales.as_slice(), count, levels, j, i, q, Ghost(mv));
                row.push(cell);
                i = i + 1;
            }
            assert(row@ =~= want[j as int]);
            rows.push(row);
            j = j + 1;
        }
        let ghost rv = rows@.map_values(|r: Vec<u64>| r@);
        assert(rv =~= want);
        proof {
            assert forall|t: int| 0 <= t < rv.len() implies (#[trigger] rv[t]).len() == rv[0].len() by {}
        }
        Ok(Poly::from_rows(rows))
    }

    /// Coefficient `i` of row `j` of the recomposition.
    fn recompose_cell(
        &self,
        scales: &[Vec<u64>],
        count: usize,
        levels: usize,
        j: usize,
        i: usize,
        q: u64,
        Ghost(mv): Ghost<Seq<u64>>,
    ) -> (r: u64)
        requires
            count == self@.1,
            levels == self@.0.1,
            levels > 0,
            mv.len() == count,
            j < count,
            q == mv[j as int],
            q > 1,
            modulus_in_range(q as int),
            self@.2.len() == count * levels,
            forall|k: int| 0 <= k < self@.2.len() ==> (#[trigger] self@.2[k]).len() == count,
            forall|k: int, jj: int|
                0 <= k < self@.2.len() && 0 <= jj < count ==> (#[trigger] self@.2[k][jj]).len() == self@.2[0][0].len(),
            i < self@.2[0][0].len(),
            scales@.len() == count * levels,
            forall|k: int| 0 <= k < scales@.len() ==> (#[trigger] scales@[k])@.len() == count,
            forall|mm: int, l: int, jj: int|
                0 <= mm < count && 0 <= l < levels && 0 <= jj < count ==> #[trigger] scales@[mm * levels + l]@[jj]
                    == digit_scale(mv, mm, l, self@.0.0, jj),
        ensures
            r == (modulus_sum(self@.2, levels as int, mv, self@.0.0, j as int, i as int, count as int) % (q as int)) as u64,
    {
        let ghost d = self@.2;
        let ghost b = self@.0.0;
        let total = self.digits.len();
        assert(total as int == count * levels);
        let mut acc: u64 = 0;
        let mut m: usize = 0;
        while m < count
            invariant
                count == self@.1,
                levels == self@.0.1,
                levels > 0,
                d == self@.2,
                b == self@.0.0,
                mv.len() == count,
                j < count,
                q == mv[j as int],
                q > 1,
                modulus_in_range(q as int),
                count * levels <= usize::MAX,
                d.len() == count * levels,
                forall|k: int| 0 <= k < d.len() ==> (#[trigger] d[k]).len() == count,
                forall|k: int, jj: int| 0 <= k < d.len() && 0 <= jj < count ==> (#[trigger] d[k][jj]).len() == d[0][0].len(),
                i < d[0][0].len(),
                scales@.len() == count * levels,
                forall|k: int| 0 <= k < scales@.len() ==> (#[trigger] scales@[k])@.len() == count,
                forall|mm: int, l: int, jj: int|
                    0 <= mm < count && 0 <= l < levels && 0 <= jj < count ==> #[trigger] scales@[mm * levels + l]@[jj]
                        == digit_scale(mv, mm, l, b, jj),
                m <= count,
                acc < q,
                acc as int == modulus_sum(d, levels as int, mv, b, j as int, i as int, m as int) % (q as int),
            decreases count - m,
        {
            let mut l: usize = 0;
            while l < levels
                invariant
                    count == self@.1,
                    levels == self@.0.1,
                    d == self@.2,
                    b == self@.0.0,
                    mv.len() == count,
                    j < count,
                    q == mv[j as int],
                    q > 1,
                    modulus_in_range(q as int),
                    count * levels <= usize::MAX,
                    d.len() == count * levels,
                    forall|k: int| 0 <= k < d.len() ==> (#[trigger] d[k]).len() == count,
                    forall|k: int, jj: int| 0 <= k < d.len() && 0 <= jj < count ==> (#[trigger] d[k][jj]).len() == d[0][0].len(),
                    i < d[0][0].len(),
                    scales@.len() == count * levels,
                    forall|k: int| 0 <= k < scales@.len() ==> (#[trigger] scales@[k])@.len() == count,
                    forall|mm: int, ll: int, jj: int|
                        0 <= mm < count && 0 <= ll < levels && 0 <= jj < count ==> #[trigger] scales@[mm * levels
                            + ll]@[jj] == digit_scale(mv, mm, ll, b, jj),
                    m < count,
                    l <= levels,
                    acc < q,
                    acc as int == (modulus_sum(d, levels as int, mv, b, j as int, i as int, m as int) + level_sum(
                        d,
                        levels as int,
                        mv,
                        b,
                        m as int,
                        j as int,
                        i as int,
                        l as int,
                    )) % (q as int),
                decreases levels - l,
            {
                proof {
                    lemma_digit_index(m as int, l as int, count as int, levels as int);
                }
                let k = m * levels + l;
                assert(self.digits@[k as int]@ == d[k as int]);
                let rows = self.digits[k].coeffs();
                assert(rows@[j as int]@ == d[k as int][j as int]);
                let dv = rows[j][i];
                let term = mul_mod(dv, scales[k][j], q);
                proof {
                    let x = modulus_sum(d, levels as int, mv, b, j as int, i as int, m as int) + level_sum(
                        d,
                        levels as int,
                        mv,
                        b,
                        m as int,
                        j as int,
                        i as int,
                        l as int,
                    );
                    let t = recompose_term(d, levels as int, mv, b, m as int, l as int, j as int, i as int);
                    assert(term as int == t);
                    vstd::arithmetic::div_mod::lemma_add_mod_noop(x, t, q as int);
                    vstd::arithmetic::div_mod::lemma_mod_twice(x, q as int);
                    vstd::arithmetic::div_mod::lemma_small_mod(term as nat, q as nat);
                }
                acc = add_mod(acc, term, q);
                l = l + 1;
            }
            m = m + 1;
        }
        acc
    }

    /// Returns the digits, digit `(m, l)` at index `m*levels + l`.
    pub fn digits(&self) -> (r: &[Poly])
        ensures
            digits_view(r@) == self@.2,
    {
        self.digits.as_slice()
    }

    /// Returns the number of residue rows of the decomposed polynomial.
    pub fn modulus_count(&self) -> (r: usize)
        ensures
            r == self@.1,
    {
        self.modulus_count
    }
}

} // verus!
