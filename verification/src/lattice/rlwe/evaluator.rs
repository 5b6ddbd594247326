//! Scheme-agnostic RLWE evaluation.

use vstd::prelude::*;

use crate::lattice::error::{ring_result, LatticeError};
use crate::lattice::rlwe::ciphertext::{
    check_components, ciphertext_add, ciphertext_error, ciphertext_neg, ciphertext_sub,
    ciphertext_valid, components_in_ring, first_failure, polys_view, Ciphertext, Plaintext,
};
use crate::lattice::rlwe::evaluation_key::{GaloisKey, RelinearizationKey};
use crate::ring::automorphism::{galois_apply, galois_invertible};
use crate::lattice::rlwe::keyswitch::{key_switch, key_switch_key_readable, key_switch_result};
use crate::lattice::rlwe::params::RlweParams;
use crate::ring::poly::{
    poly_add, poly_check, poly_in_ring, poly_mul, poly_zero, Poly, RingError, RingView, Rows,
};

verus! {

/// Scheme-agnostic evaluator over one ciphertext ring.
#[derive(Debug)]
pub struct Evaluator {
    params: RlweParams,
}

impl View for Evaluator {
    type V = RingView;

    closed spec fn view(&self) -> RingView {
        self.params@
    }
}

impl Clone for Evaluator {
    fn clone(&self) -> (r: Self)
        ensures
            r@ == self@,
    {
        Evaluator { params: self.params.clone() }
    }
}

/// `sum_{i < m, 0 <= k - i < b.len()} (a_i * b_{k-i})[t][c]`: coefficient
/// `c` of row `t` of the degree-`k` part of the tensor product, over the
/// first `m` components of `a`, before the final reduction.
pub open spec fn tensor_sum(a: Seq<Rows>, b: Seq<Rows>, moduli: Seq<u64>, k: int, t: int, c: int, m: int) -> int
    decreases m,
{
    if m <= 0 {
        0
    } else {
        tensor_sum(a, b, moduli, k, t, c, m - 1) + tensor_term(a, b, moduli, k, t, c, m - 1)
    }
}

/// The contribution of `a_i * b_{k-i}` to coefficient `c` of row `t` of
/// the degree-`k` part.
pub open spec fn tensor_term(a: Seq<Rows>, b: Seq<Rows>, moduli: Seq<u64>, k: int, t: int, c: int, i: int) -> int {
    if 0 <= k - i < b.len() {
        poly_mul(a[i], b[k - i], moduli)[t][c] as int
    } else {
        0
    }
}

/// The tensor product of two ciphertexts: component `k` is
/// `sum_{i + j = k} a_i * b_j`, reduced row by row.
pub open spec fn ciphertext_mul(a: Seq<Rows>, b: Seq<Rows>, r: RingView) -> Seq<Rows> {
    Seq::new(
        (a.len() + b.len() - 1) as nat,
        |k: int|
            Seq::new(
                r.moduli.len(),
                |t: int|
                    Seq::new(
                        r.degree,
                        |c: int| (tensor_sum(a, b, r.moduli, k, t, c, a.len() as int) % (r.moduli[t] as int)) as u64,
                    ),
            ),
    )
}

/// Row `row` rotated left by `s` places.
pub open spec fn row_rotate(row: Seq<u64>, s: int) -> Seq<u64> {
    Seq::new(row.len(), |i: int| row[(i + s) % (row.len() as int)])
}

/// Every row of every component rotated left by `s` places.
pub open spec fn ciphertext_rotate(c: Seq<Rows>, s: int) -> Seq<Rows> {
    Seq::new(c.len(), |k: int| Seq::new(c[k].len(), |t: int| row_rotate(c[k][t], s)))
}

/// Rotating a row left by `s` (`0 <= s <= n`) moves its first `s`
/// coefficients to the end: the result is `row[s..] ++ row[..s]`.
pub proof fn lemma_row_rotate_splits(row: Seq<u64>, s: int)
    requires
        0 <= s <= row.len(),
        row.len() > 0,
    ensures
        row_rotate(row, s) == row.subrange(s, row.len() as int) + row.subrange(0, s),
{
    let n = row.len() as int;
    let lhs = row_rotate(row, s);
    let rhs = row.subrange(s, n) + row.subrange(0, s);
    assert forall|i: int| 0 <= i < n implies #[trigger] lhs[i] == rhs[i] by {
        if i < n - s {
            vstd::arithmetic::div_mod::lemma_small_mod((i + s) as nat, n as nat);
        } else {
            vstd::arithmetic::div_mod::lemma_fundamental_div_mod_converse(i + s, n, 1, i + s - n);
        }
    }
    assert(lhs =~= rhs);
}

/// Rotating by `a` and then by `b` is rotating by `a + b` modulo the row
/// length; rotating by zero leaves the row as it is.
pub proof fn lemma_row_rotate_composes(row: Seq<u64>, a: int, b: int)
    requires
        row.len() > 0,
        0 <= a < row.len(),
        0 <= b < row.len(),
    ensures
        row_rotate(row_rotate(row, a), b) == row_rotate(row, (a + b) % (row.len() as int)),
        row_rotate(row, 0) == row,
{
    let n = row.len() as int;
    let lhs = row_rotate(row_rotate(row, a), b);
    let rhs = row_rotate(row, (a + b) % n);
    assert forall|i: int| 0 <= i < n implies #[trigger] lhs[i] == rhs[i] by {
        vstd::arithmetic::div_mod::lemma_mod_bound(i + b, n);
        vstd::arithmetic::div_mod::lemma_add_mod_noop(i + b, a, n);
        vstd::arithmetic::div_mod::lemma_small_mod(a as nat, n as nat);
        vstd::arithmetic::div_mod::lemma_add_mod_noop(i, a + b, n);
        vstd::arithmetic::div_mod::lemma_small_mod(i as nat, n as nat);
        vstd::arithmetic::div_mod::lemma_mod_twice(a + b, n);
        vstd::arithmetic::div_mod::lemma_mod_bound(a + b, n);
        assert(i + b + a == i + (a + b));
    }
    assert(lhs =~= rhs);
    let z = row_rotate(row, 0);
    assert forall|i: int| 0 <= i < n implies #[trigger] z[i] == row[i] by {
        vstd::arithmetic::div_mod::lemma_small_mod(i as nat, n as nat);
    }
    assert(z =~= row);
}

/// Coefficient rotation of a ciphertext keeps its shape and sends each row
/// `r` of each component to `r[s..] ++ r[..s]`; rotating by `a` and then
/// by `b` is rotating by `a + b` modulo the degree, and by zero changes
/// nothing.
pub proof fn lemma_ciphertext_rotate(c: Seq<Rows>, n: int, a: int, b: int)
    requires
        n > 0,
        0 <= a < n,
        0 <= b < n,
        forall|k: int, t: int| 0 <= k < c.len() && 0 <= t < c[k].len() ==> (#[trigger] c[k][t]).len() == n,
    ensures
        ciphertext_rotate(c, a).len() == c.len(),
        forall|k: int| 0 <= k < c.len() ==> (#[trigger] ciphertext_rotate(c, a)[k]).len() == c[k].len(),
        forall|k: int, t: int|
            0 <= k < c.len() && 0 <= t < c[k].len() ==> #[trigger] ciphertext_rotate(c, a)[k][t] == c[k][t].subrange(
                a,
                n,
            ) + c[k][t].subrange(0, a),
        ciphertext_rotate(ciphertext_rotate(c, a), b) == ciphertext_rotate(c, (a + b) % n),
        ciphertext_rotate(c, 0) == c,
{
    let ra = ciphertext_rotate(c, a);
    assert forall|k: int, t: int| 0 <= k < c.len() && 0 <= t < c[k].len() implies #[trigger] ra[k][t]
        == c[k][t].subrange(a, n) + c[k][t].subrange(0, a) by {
        lemma_row_rotate_splits(c[k][t], a);
    }
    let lhs = ciphertext_rotate(ra, b);
    let rhs = ciphertext_rotate(c, (a + b) % n);
    assert forall|k: int| 0 <= k < c.len() implies #[trigger] lhs[k] =~= rhs[k] by {
        assert forall|t: int| 0 <= t < c[k].len() implies #[trigger] lhs[k][t] == rhs[k][t] by {
            lemma_row_rotate_composes(c[k][t], a, b);
        }
    }
    assert(lhs =~= rhs);
    let z = ciphertext_rotate(c, 0);
    assert forall|k: int| 0 <= k < c.len() implies #[trigger] z[k] =~= c[k] by {
        assert forall|t: int| 0 <= t < c[k].len() implies #[trigger] z[k][t] == c[k][t] by {
            lemma_row_rotate_composes(c[k][t], 0, 0);
        }
    }
    assert(z =~= c);
}

/// The accumulator after the pairs `(i', j)` with `i' < i`, and the pairs
/// `(i, j')` with `j' < j`, have been added in.
spec fn mul_progress(acc: Seq<Rows>, a: Seq<Rows>, b: Seq<Rows>, r: RingView, i: int, j: int) -> bool {
    forall|k: int, t: int, c: int|
        0 <= k < acc.len() && 0 <= t < r.moduli.len() && 0 <= c < r.degree ==> #[trigger] acc[k][t][c]
            == ((tensor_sum(a, b, r.moduli, k, t, c, i) + (if 0 <= k - i < j {
            tensor_term(a, b, r.moduli, k, t, c, i)
        } else {
            0
        })) % (r.moduli[t] as int)) as u64
}

proof fn lemma_mul_step(
    acc: Seq<Rows>,
    next: Seq<Rows>,
    a: Seq<Rows>,
    b: Seq<Rows>,
    r: RingView,
    i: int,
    j: int,
)
    requires
        0 <= i < a.len(),
        0 <= j < b.len(),
        i + j < acc.len(),
        components_in_ring(r, acc),
        components_in_ring(r, a),
        components_in_ring(r, b),
        forall|t: int| 0 <= t < r.moduli.len() ==> (#[trigger] r.moduli[t]) > 1,
        mul_progress(acc, a, b, r, i, j),
        next == acc.update(i + j, poly_add(acc[i + j], poly_mul(a[i], b[j], r.moduli), r.moduli)),
    ensures
        mul_progress(next, a, b, r, i, j + 1),
{
    assert forall|k: int, t: int, c: int|
        0 <= k < next.len() && 0 <= t < r.moduli.len() && 0 <= c < r.degree implies #[trigger] next[k][t][c]
            == ((tensor_sum(a, b, r.moduli, k, t, c, i) + (if 0 <= k - i < j + 1 {
            tensor_term(a, b, r.moduli, k, t, c, i)
        } else {
            0
        })) % (r.moduli[t] as int)) as u64 by {
        let q = r.moduli[t] as int;
        assert(q > 1);
        if k == i + j {
            let x = tensor_sum(a, b, r.moduli, k, t, c, i);
            let p = tensor_term(a, b, r.moduli, k, t, c, i);
            assert(acc[k][t][c] == (x % q) as u64);
            assert(0 <= x % q < q);
            assert(acc[k][t][c] as int == x % q);
            assert(p == poly_mul(a[i], b[j], r.moduli)[t][c] as int);
            assert(next[k][t][c] == ((acc[k][t][c] + poly_mul(a[i], b[j], r.moduli)[t][c]) % q) as u64);
            assert(((x % q) + p) % q == (x + p) % q) by {
                vstd::arithmetic::div_mod::lemma_add_mod_noop(x, p, q);
                assert(0 <= p);
                vstd::arithmetic::div_mod::lemma_add_mod_noop_right(x % q, p, q);
                vstd::arithmetic::div_mod::lemma_mod_twice(x, q);
            }
        } else {
            assert(next[k] == acc[k]);
        }
    }
}

proof fn lemma_mul_row_done(acc: Seq<Rows>, a: Seq<Rows>, b: Seq<Rows>, r: RingView, i: int)
    requires
        0 <= i,
        mul_progress(acc, a, b, r, i, b.len() as int),
    ensures
        mul_progress(acc, a, b, r, i + 1, 0),
{
    assert forall|k: int, t: int, c: int|
        0 <= k < acc.len() && 0 <= t < r.moduli.len() && 0 <= c < r.degree implies #[trigger] acc[k][t][c]
            == ((tensor_sum(a, b, r.moduli, k, t, c, i + 1) + (if 0 <= k - (i + 1) < 0 {
            tensor_term(a, b, r.moduli, k, t, c, i + 1)
        } else {
            0
        })) % (r.moduli[t] as int)) as u64 by {
        assert(tensor_sum(a, b, r.moduli, k, t, c, i + 1) == tensor_sum(a, b, r.moduli, k, t, c, i)
            + tensor_term(a, b, r.moduli, k, t, c, i));
        if !(0 <= k - i < b.len()) {
            assert(tensor_term(a, b, r.moduli, k, t, c, i) == 0);
        }
    }
}

impl Evaluator {
    /// Creates an evaluator.
    pub fn new(params: RlweParams) -> (r: Self)
        ensures
            r@ == params@,
    {
        Evaluator { params }
    }

    /// Adds two ciphertexts componentwise.
    pub fn add(&self, lhs: &Ciphertext, rhs: &Ciphertext) -> (r: Result<Ciphertext, LatticeError>)
        ensures
            !ciphertext_valid(self@, lhs@) ==> (r matches Err(e) && ciphertext_error(self@, lhs@, e)),
            ciphertext_valid(self@, lhs@) && !ciphertext_valid(self@, rhs@) ==> (r matches Err(e)
                && ciphertext_error(self@, rhs@, e)),
            ciphertext_valid(self@, lhs@) && ciphertext_valid(self@, rhs@) && lhs@.len()
                != rhs@.len() ==> r matches Err(LatticeError::DimensionMismatch),
            ciphertext_valid(self@, lhs@) && ciphertext_valid(self@, rhs@) && lhs@.len()
                == rhs@.len() ==> (r matches Ok(out) && out@ == ciphertext_add(
                lhs@,
                rhs@,
                self@.moduli,
            )),
    {
        self.binary_zip(lhs, rhs, true)
    }

    /// Subtracts two ciphertexts componentwise.
    pub fn sub(&self, lhs: &Ciphertext, rhs: &Ciphertext) -> (r: Result<Ciphertext, LatticeError>)
        ensures
            !ciphertext_valid(self@, lhs@) ==> (r matches Err(e) && ciphertext_error(self@, lhs@, e)),
            ciphertext_valid(self@, lhs@) && !ciphertext_valid(self@, rhs@) ==> (r matches Err(e)
                && ciphertext_error(self@, rhs@, e)),
            ciphertext_valid(self@, lhs@) && ciphertext_valid(self@, rhs@) && lhs@.len()
                != rhs@.len() ==> r matches Err(LatticeError::DimensionMismatch),
            ciphertext_valid(self@, lhs@) && ciphertext_valid(self@, rhs@) && lhs@.len()
                == rhs@.len() ==> (r matches Ok(out) && out@ == ciphertext_sub(
                lhs@,
                rhs@,
                self@.moduli,
            )),
    {
        self.binary_zip(lhs, rhs, false)
    }

    /// Negates every component; an empty ciphertext stays empty.
    pub fn neg(&self, ct: &Ciphertext) -> (r: Result<Ciphertext, LatticeError>)
        ensures
            r is Ok <==> components_in_ring(self@, ct@),
            r matches Ok(out) ==> out@ == ciphertext_neg(ct@, self@.moduli),
            r matches Err(err) ==> (err matches LatticeError::Ring(e) && first_failure(self@, ct@, e)),
    {
        let ring = self.params.ring();
        let comps = ct.value();
        check_components(ring, comps)?;
        let mut out: Vec<Poly> = Vec::with_capacity(comps.len());
        let mut i: usize = 0;
        while i < comps.len()
            invariant
                ring@ == self@,
                polys_view(comps@) == ct@,
                components_in_ring(self@, ct@),
                i <= comps@.len(),
                out@.len() == i,
                forall|t: int|
                    0 <= t < i ==> (#[trigger] out@[t])@ == ciphertext_neg(ct@, self@.moduli)[t],
            decreases comps@.len() - i,
        {
            assert(comps@[i as int]@ == ct@[i as int]);
            let p = ring_result(ring.neg(&comps[i]))?;
            out.push(p);
            i = i + 1;
        }
        let r = Ciphertext::new(out);
        assert(r@ =~= ciphertext_neg(ct@, self@.moduli));
        Ok(r)
    }

    /// Adds a plaintext into the first component; the other components are
    /// left as they are, unchecked.
    pub fn add_plain(&self, ct: &Ciphertext, pt: &Plaintext) -> (r: Result<Ciphertext, LatticeError>)
        ensures
            poly_check(self@, pt@) matches Err(e) ==> r == Err::<Ciphertext, _>(LatticeError::Ring(e)),
            poly_check(self@, pt@) is Ok && ct@.len() == 0 ==> r matches Err(
                LatticeError::DimensionMismatch,
            ),
            poly_check(self@, pt@) is Ok && ct@.len() > 0 ==> (poly_check(self@, ct@[0]) matches Err(e)
                ==> r == Err::<Ciphertext, _>(LatticeError::Ring(e))),
            poly_check(self@, pt@) is Ok && ct@.len() > 0 && poly_check(self@, ct@[0]) is Ok ==> (r matches Ok(
                out,
            ) && out@ == ct@.update(0, poly_add(ct@[0], pt@, self@.moduli))),
    {
        let ring = self.params.ring();
        ring_result(ring.check_poly(pt.value()))?;
        let comps = ct.value();
        if comps.len() == 0 {
            return Err(LatticeError::DimensionMismatch);
        }
        assert(comps@[0]@ == ct@[0]);
        let first = ring_result(ring.add(&comps[0], pt.value()))?;
        let mut out: Vec<Poly> = Vec::with_capacity(comps.len());
        out.push(first);
        let mut i: usize = 1;
        while i < comps.len()
            invariant
                polys_view(comps@) == ct@,
                ct@.len() > 0,
                1 <= i <= comps@.len(),
                out@.len() == i,
                out@[0]@ == poly_add(ct@[0], pt@, self@.moduli),
                forall|t: int| 1 <= t < i ==> (#[trigger] out@[t])@ == ct@[t],
            decreases comps@.len() - i,
        {
            assert(comps@[i as int]@ == ct@[i as int]);
            out.push(comps[i].clone());
            i = i + 1;
        }
        let r = Ciphertext::new(out);
        assert(r@ =~= ct@.update(0, poly_add(ct@[0], pt@, self@.moduli)));
        Ok(r)
    }

    /// Multiplies two ciphertexts: the unrelinearized tensor product, of
    /// degree the sum of the two degrees.
    pub fn mul(&self, lhs: &Ciphertext, rhs: &Ciphertext) -> (r: Result<Ciphertext, LatticeError>)
        requires
            lhs@.len() + rhs@.len() <= usize::MAX,
        ensures
            !ciphertext_valid(self@, lhs@) ==> (r matches Err(e) && ciphertext_error(self@, lhs@, e)),
            ciphertext_valid(self@, lhs@) && !ciphertext_valid(self@, rhs@) ==> (r matches Err(e)
                && ciphertext_error(self@, rhs@, e)),
            ciphertext_valid(self@, lhs@) && ciphertext_valid(self@, rhs@) ==> (r matches Ok(out)
                && out@ == ciphertext_mul(lhs@, rhs@, self@)),
    {
        self.check_ciphertext(lhs)?;
        self.check_ciphertext(rhs)?;
        let ring = self.params.ring();
        ring.check_valid();
        let a = lhs.value();
        let b = rhs.value();
        let degree = lhs.degree() + rhs.degree();
        let zero = Ciphertext::zero(ring, degree);
        assert(zero@.len() == lhs@.len() + rhs@.len() - 1);
        let mut acc = zero.into_value();
        let ghost r = self@;
        let ghost av = lhs@;
        let ghost bv = rhs@;
        proof {
            assert(polys_view(acc@).len() == av.len() + bv.len() - 1);
            assert forall|k: int, t: int, c: int|
                0 <= k < polys_view(acc@).len() && 0 <= t < r.moduli.len() && 0 <= c
                    < r.degree implies #[trigger] polys_view(acc@)[k][t][c] == ((tensor_sum(
                av,
                bv,
                r.moduli,
                k,
                t,
                c,
                0,
            ) + (if 0 <= k - 0 < 0 {
                tensor_term(av, bv, r.moduli, k, t, c, 0)
            } else {
                0
            })) % (r.moduli[t] as int)) as u64 by {
                assert(r.moduli[t] > 1);
                assert(polys_view(acc@)[k] == poly_zero(r.degree, r.moduli.len()));
                assert(tensor_sum(av, bv, r.moduli, k, t, c, 0) == 0);
                assert(0int % (r.moduli[t] as int) == 0);
            }
            assert(mul_progress(polys_view(acc@), av, bv, r, 0, 0));
        }
        let mut i: usize = 0;
        while i < a.len()
            invariant
                ring@ == r,
                r == self@,
                polys_view(a@) == av,
                polys_view(b@) == bv,
                ciphertext_valid(r, av),
                ciphertext_valid(r, bv),
                forall|t: int| 0 <= t < r.moduli.len() ==> (#[trigger] r.moduli[t]) > 1,
                i <= a@.len(),
                av.len() + bv.len() <= usize::MAX,
                polys_view(acc@).len() == av.len() + bv.len() - 1,
                components_in_ring(r, polys_view(acc@)),
                mul_progress(polys_view(acc@), av, bv, r, i as int, 0),
            decreases a@.len() - i,
        {
            let mut j: usize = 0;
            while j < b.len()
                invariant
                    ring@ == r,
                    polys_view(a@) == av,
                    polys_view(b@) == bv,
                    ciphertext_valid(r, av),
                    ciphertext_valid(r, bv),
                    forall|t: int| 0 <= t < r.moduli.len() ==> (#[trigger] r.moduli[t]) > 1,
                    i < a@.len(),
                    j <= b@.len(),
                    av.len() + bv.len() <= usize::MAX,
                    polys_view(acc@).len() == av.len() + bv.len() - 1,
                    components_in_ring(r, polys_view(acc@)),
                    mul_progress(polys_view(acc@), av, bv, r, i as int, j as int),
                decreases b@.len() - j,
            {
                assert(a@[i as int]@ == av[i as int]);
                assert(b@[j as int]@ == bv[j as int]);
                let term = ring_result(ring.mul(&a[i], &b[j]))?;
                let k = i + j;
                assert(acc@[k as int]@ == polys_view(acc@)[k as int]);
                let sum = ring_result(ring.add(&acc[k], &term))?;
                let ghost before = polys_view(acc@);
                acc[k] = sum;
                proof {
                    assert(polys_view(acc@) =~= before.update(
                        k as int,
                        poly_add(before[k as int], poly_mul(av[i as int], bv[j as int], r.moduli), r.moduli),
                    ));
                    lemma_mul_step(before, polys_view(acc@), av, bv, r, i as int, j as int);
                }
                j = j + 1;
            }
            proof {
                lemma_mul_row_done(polys_view(acc@), av, bv, r, i as int);
            }
            i = i + 1;
        }
        let out = Ciphertext::new(acc);
        proof {
            let want = ciphertext_mul(av, bv, r);
            let got = out@;
            assert forall|k: int| 0 <= k < got.len() implies #[trigger] got[k] == want[k] by {
                assert(poly_in_ring(r.degree, r.moduli, got[k]));
                assert forall|t: int| 0 <= t < got[k].len() implies #[trigger] got[k][t] == want[k][t] by {
                    assert(got[k][t] =~= want[k][t]);
                }
                assert(got[k] =~= want[k]);
            }
            assert(got =~= want);
        }
        Ok(out)
    }

    /// Relinearizes a degree-2 ciphertext `(c0, c1, c2)` with `key`. With the
    /// placeholder key the ciphertext is returned as it is. With a real key
    /// from `s^2` to `s`, `(0, c2)` is key-switched to `(d0, d1)` and the
    /// result is `(c0 + d0, c1 + d1)`; a ciphertext of another degree is
    /// refused.
    pub fn relinearize(&self, ct: &Ciphertext, key: &RelinearizationKey) -> (r: Result<Ciphertext, LatticeError>)
        requires
            key@ matches Some(k) ==> key_switch_key_readable(k, self@.moduli.len()),
        ensures
            !ciphertext_valid(self@, ct@) ==> (r matches Err(e) && ciphertext_error(self@, ct@, e)),
            ciphertext_valid(self@, ct@) && key@ is None ==> (r matches Ok(out) && out@ == ct@),
            ciphertext_valid(self@, ct@) && key@ is Some && ct@.len() != 3 ==> r == Err::<Ciphertext, _>(
                LatticeError::InvalidParameters(
                    "relinearize with a real key expects a degree-2 ciphertext (3 components)",
                ),
            ),
            ciphertext_valid(self@, ct@) && ct@.len() == 3 ==> (key@ matches Some(k) ==> match key_switch_result(
                seq![poly_zero(self@.degree, self@.moduli.len()), ct@[2]],
                k,
                self@,
            ) {
                Ok(v) => r matches Ok(out) && out@ == seq![
                    poly_add(ct@[0], v[0], self@.moduli),
                    poly_add(ct@[1], v[1], self@.moduli),
                ],
                Err(e) => r == Err::<Ciphertext, _>(e),
            }),
    {
        self.check_ciphertext(ct)?;
        let ksk = match key.key_switch_key() {
            Some(k) => k,
            None => {
                return Ok(ct.clone());
            },
        };
        let comps = ct.value();
        if comps.len() != 3 {
            return Err(
                LatticeError::InvalidParameters(
                    "relinearize with a real key expects a degree-2 ciphertext (3 components)",
                ),
            );
        }
        let ring = self.params.ring();
        assert(comps@[0]@ == ct@[0] && comps@[1]@ == ct@[1] && comps@[2]@ == ct@[2]);
        let mut halves: Vec<Poly> = Vec::with_capacity(2);
        halves.push(ring.zero());
        halves.push(comps[2].clone());
        let c2_ct = Ciphertext::new(halves);
        assert(c2_ct@ =~= seq![poly_zero(self@.degree, self@.moduli.len()), ct@[2]]);
        let switched = key_switch(&c2_ct, ksk, &self.params)?;
        proof {
            let kr = key_switch_result(c2_ct@, ksk@, self@);
            assert(kr is Ok);
            assert(switched@ == crate::lattice::rlwe::keyswitch::key_switched(c2_ct@, ksk@.0, ksk@.1, self@));
            assert(switched@.len() == 2);
        }
        let parts = switched.value();
        assert(parts@[0]@ == switched@[0] && parts@[1]@ == switched@[1]);
        let new_c0 = ring_result(ring.add(&comps[0], &parts[0]))?;
        let new_c1 = ring_result(ring.add(&comps[1], &parts[1]))?;
        let mut out: Vec<Poly> = Vec::with_capacity(2);
        out.push(new_c0);
        out.push(new_c1);
        let result = Ciphertext::new(out);
        assert(result@ =~= seq![
            poly_add(ct@[0], switched@[0], self@.moduli),
            poly_add(ct@[1], switched@[1], self@.moduli),
        ]);
        Ok(result)
    }

    /// Applies the Galois automorphism `X -> X^element` of `key` to a
    /// degree-1 ciphertext under `s`: both components are mapped, giving a
    /// ciphertext of `sigma(m)` under `sigma(s)`, which the key switches back
    /// to `s`. A ciphertext of another degree is refused, as is the
    /// placeholder key.
    pub fn apply_galois_automorphism(&self, ct: &Ciphertext, key: &GaloisKey) -> (r: Result<Ciphertext, LatticeError>)
        requires
            key@.1 matches Some(k) ==> key_switch_key_readable(k, self@.moduli.len()),
        ensures
            !ciphertext_valid(self@, ct@) ==> (r matches Err(e) && ciphertext_error(self@, ct@, e)),
            ciphertext_valid(self@, ct@) && ct@.len() != 2 ==> r == Err::<Ciphertext, _>(
                LatticeError::InvalidParameters(
                    "apply_galois_automorphism expects a degree-1 ciphertext (2 components)",
                ),
            ),
            ciphertext_valid(self@, ct@) && ct@.len() == 2 && key@.1 is None ==> r == Err::<Ciphertext, _>(
                LatticeError::MissingKey("galois key without key-switching material"),
            ),
            ciphertext_valid(self@, ct@) && ct@.len() == 2 && key@.1 is Some && !galois_invertible(
                key@.0 as int,
                self@.degree as int,
            ) ==> r == Err::<Ciphertext, _>(LatticeError::Ring(RingError::InvalidGaloisElement)),
            ciphertext_valid(self@, ct@) && ct@.len() == 2 && galois_invertible(key@.0 as int, self@.degree as int)
                ==> (key@.1 matches Some(k) ==> match key_switch_result(
                seq![
                    galois_apply(ct@[0], key@.0 as int, self@.degree as int, self@.moduli),
                    galois_apply(ct@[1], key@.0 as int, self@.degree as int, self@.moduli),
                ],
                k,
                self@,
            ) {
                Ok(v) => r matches Ok(out) && out@ == v,
                Err(e) => r == Err::<Ciphertext, _>(e),
            }),
    {
        self.check_ciphertext(ct)?;
        let comps = ct.value();
        if comps.len() != 2 {
            return Err(
                LatticeError::InvalidParameters(
                    "apply_galois_automorphism expects a degree-1 ciphertext (2 components)",
                ),
            );
        }
        let ksk = match key.key_switch_key() {
            Some(k) => k,
            None => {
                return Err(LatticeError::MissingKey("galois key without key-switching material"));
            },
        };
        let ring = self.params.ring();
        let element = key.element();
        assert(comps@[0]@ == ct@[0] && comps@[1]@ == ct@[1]);
        let c0 = ring_result(ring.apply_automorphism(&comps[0], element))?;
        let c1 = ring_result(ring.apply_automorphism(&comps[1], element))?;
        let mut mapped: Vec<Poly> = Vec::with_capacity(2);
        mapped.push(c0);
        mapped.push(c1);
        let mapped_ct = Ciphertext::new(mapped);
        assert(mapped_ct@ =~= seq![
            galois_apply(ct@[0], key@.0 as int, self@.degree as int, self@.moduli),
            galois_apply(ct@[1], key@.0 as int, self@.degree as int, self@.moduli),
        ]);
        key_switch(&mapped_ct, ksk, &self.params)
    }

    /// Rotates every row of every component left by `shift` places
    /// (modulo the ring degree).
    pub fn rotate_coefficients(&self, ct: &Ciphertext, shift: usize) -> (r: Result<Ciphertext, LatticeError>)
        ensures
            r is Ok <==> ciphertext_valid(self@, ct@),
            r matches Err(e) ==> ciphertext_error(self@, ct@, e),
            r matches Ok(out) ==> out@ == ciphertext_rotate(ct@, (shift as int) % (self@.degree as int)),
            r matches Ok(out) ==> out@.len() == ct@.len() && forall|k: int, t: int|
                0 <= k < ct@.len() && 0 <= t < ct@[k].len() ==> #[trigger] out@[k][t] == ct@[k][t].subrange(
                    (shift as int) % (self@.degree as int),
                    self@.degree as int,
                ) + ct@[k][t].subrange(0, (shift as int) % (self@.degree as int)),
    {
        self.check_ciphertext(ct)?;
        let ring = self.params.ring();
        ring.check_valid();
        let n = ring.degree();
        let s = shift % n;
        let comps = ct.value();
        let ghost want = ciphertext_rotate(ct@, s as int);
        let mut out: Vec<Poly> = Vec::with_capacity(comps.len());
        let mut k: usize = 0;
        while k < comps.len()
            invariant
                polys_view(comps@) == ct@,
                ciphertext_valid(self@, ct@),
                self@.moduli.len() > 0,
                n == self@.degree,
                s < n,
                want == ciphertext_rotate(ct@, s as int),
                k <= comps@.len(),
                out@.len() == k,
                forall|t: int| 0 <= t < k ==> (#[trigger] out@[t])@ == want[t],
            decreases comps@.len() - k,
        {
            assert(comps@[k as int]@ == ct@[k as int]);
            assert(k < ct@.len());
            let rows = comps[k].coeffs();
            let mut new_rows: Vec<Vec<u64>> = Vec::with_capacity(rows.len());
            let mut t: usize = 0;
            while t < rows.len()
                invariant
                    k < ct@.len(),
                    rows@.map_values(|r: Vec<u64>| r@) == ct@[k as int],
                    poly_in_ring(self@.degree, self@.moduli, ct@[k as int]),
                    n == self@.degree,
                    s < n,
                    t <= rows@.len(),
                    new_rows@.len() == t,
                    forall|u: int|
                        0 <= u < t ==> (#[trigger] new_rows@[u])@ == row_rotate(ct@[k as int][u], s as int),
                decreases rows@.len() - t,
            {
                let row = &rows[t];
                assert(row@ == ct@[k as int][t as int]);
                let mut new_row: Vec<u64> = Vec::with_capacity(n);
                let mut i: usize = 0;
                while i < n
                    invariant
                        row@.len() == n,
                        s < n,
                        i <= n,
                        new_row@.len() == i,
                        forall|u: int| 0 <= u < i ==> #[trigger] new_row@[u] == row_rotate(row@, s as int)[u],
                    decreases n - i,
                {
                    let idx = if i >= n - s {
                        i - (n - s)
                    } else {
                        i + s
                    };
                    assert(idx as int == (i + s) as int % (n as int)) by {
                        if i >= n - s {
                            vstd::arithmetic::div_mod::lemma_fundamental_div_mod_converse(
                                (i + s) as int,
                                n as int,
                                1,
                                (i + s - n) as int,
                            );
                        } else {
                            vstd::arithmetic::div_mod::lemma_small_mod((i + s) as nat, n as nat);
                        }
                    }
                    new_row.push(row[idx]);
                    i = i + 1;
                }
                assert(new_row@ =~= row_rotate(row@, s as int));
                new_rows.push(new_row);
                t = t + 1;
            }
            let ghost nv = new_rows@.map_values(|r: Vec<u64>| r@);
            assert(nv =~= want[k as int]);
            proof {
                assert(poly_in_ring(self@.degree, self@.moduli, ct@[k as int]));
                assert(ct@[k as int][0].len() == n);
                assert(nv.len() == self@.moduli.len());
                assert(nv[0].len() == n);
                assert forall|u: int| 0 <= u < nv.len() implies (#[trigger] nv[u]).len() == nv[0].len() by {
                    assert(nv[u] == row_rotate(ct@[k as int][u], s as int));
                }
            }
            let p = ring_result(Poly::from_coeffs(new_rows))?;
            out.push(p);
            k = k + 1;
        }
        let r = Ciphertext::new(out);
        assert(r@ =~= want);
        proof {
            assert forall|kk: int, t: int| 0 <= kk < ct@.len() && 0 <= t < ct@[kk].len() implies (
            #[trigger] ct@[kk][t]).len() == n by {
                assert(poly_in_ring(self@.degree, self@.moduli, ct@[kk]));
            }
            lemma_ciphertext_rotate(ct@, n as int, s as int, 0);
        }
        Ok(r)
    }

    /// Checks that `ct` has at least one component and that every component
    /// is a ring element.
    pub fn check_ciphertext(&self, ct: &Ciphertext) -> (r: Result<(), LatticeError>)
        ensures
            r is Ok <==> ciphertext_valid(self@, ct@),
            r matches Err(e) ==> ciphertext_error(self@, ct@, e),
    {
        if ct.value().len() == 0 {
            return Err(LatticeError::DimensionMismatch);
        }
        check_components(self.params.ring(), ct.value())
    }

    fn binary_zip(&self, lhs: &Ciphertext, rhs: &Ciphertext, adding: bool) -> (r: Result<Ciphertext, LatticeError>)
        ensures
            !ciphertext_valid(self@, lhs@) ==> (r matches Err(e) && ciphertext_error(self@, lhs@, e)),
            ciphertext_valid(self@, lhs@) && !ciphertext_valid(self@, rhs@) ==> (r matches Err(e)
                && ciphertext_error(self@, rhs@, e)),
            ciphertext_valid(self@, lhs@) && ciphertext_valid(self@, rhs@) && lhs@.len()
                != rhs@.len() ==> r matches Err(LatticeError::DimensionMismatch),
            ciphertext_valid(self@, lhs@) && ciphertext_valid(self@, rhs@) && lhs@.len()
                == rhs@.len() ==> (r matches Ok(out) && out@ == (if adding {
                ciphertext_add(lhs@, rhs@, self@.moduli)
            } else {
                ciphertext_sub(lhs@, rhs@, self@.moduli)
            })),
    {
        self.check_ciphertext(lhs)?;
        self.check_ciphertext(rhs)?;
        let a = lhs.value();
        let b = rhs.value();
        if a.len() != b.len() {
            return Err(LatticeError::DimensionMismatch);
        }
        let ring = self.params.ring();
        let ghost want = if adding {
            ciphertext_add(lhs@, rhs@, self@.moduli)
        } else {
            ciphertext_sub(lhs@, rhs@, self@.moduli)
        };
        let mut out: Vec<Poly> = Vec::with_capacity(a.len());
        let mut i: usize = 0;
        while i < a.len()
            invariant
                ring@ == self@,
                polys_view(a@) == lhs@,
                polys_view(b@) == rhs@,
                a@.len() == b@.len(),
                ciphertext_valid(self@, lhs@),
                ciphertext_valid(self@, rhs@),
                want == (if adding {
                    ciphertext_add(lhs@, rhs@, self@.moduli)
                } else {
                    ciphertext_sub(lhs@, rhs@, self@.moduli)
                }),
                i <= a@.len(),
                out@.len() == i,
                forall|t: int| 0 <= t < i ==> (#[trigger] out@[t])@ == want[t],
            decreases a@.len() - i,
        {
            assert(a@[i as int]@ == lhs@[i as int]);
            assert(b@[i as int]@ == rhs@[i as int]);
            let p = if adding {
                ring_result(ring.add(&a[i], &b[i]))?
            } else {
                ring_result(ring.sub(&a[i], &b[i]))?
            };
            out.push(p);
            i = i + 1;
        }
        let r = Ciphertext::new(out);
        assert(r@ =~= want);
        Ok(r)
    }
}

} // verus!
