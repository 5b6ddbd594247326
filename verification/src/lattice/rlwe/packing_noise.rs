//! What a packed ciphertext decrypts to.
//!
//! Component `j` of the packing of `c_0, ..., c_{m-1}` is
//! `sum_i c_i[j] * X^i`, so its phase is `sum_i phase(c_i) * X^i`. A
//! product with a monomial `X^i` (`i < n`) only moves coefficients, negating
//! those that wrap past `X^n`, so each error keeps its size and the packed
//! noise is at most `m` times the largest.

use vstd::prelude::*;

use crate::lattice::rlwe::ciphertext::components_in_ring;
use crate::lattice::rlwe::decryptor::{phase, poly_pow};
use crate::lattice::rlwe::noise_growth::{
    centered_distance, coefficients_within, lemma_difference_within, lemma_sum_within, lemma_within_after_adding, within,
};
use crate::lattice::rlwe::repacking::{monomial_rows, packed, packed_sum};
use crate::ring::algebra::{
    lemma_add_commutative, lemma_mul_associative, lemma_mul_commutative, lemma_mul_distributes_over_add_left,
    lemma_sub_add_cancel, lemma_sum_in_ring, lemma_sum_of_products_left, lemma_sum_of_sums,
};
use crate::ring::poly::{
    lemma_mul_stays_in_ring, lemma_ring_ops_stay_in_ring, nega_sum, poly_add, poly_in_ring, poly_mul,
    poly_sub, poly_sum, poly_zero, ring_valid, RingView, Rows,
};

verus! {

/// `sum_i xs[i] * X^i`.
pub open spec fn shifted_sum(xs: Seq<Rows>, r: RingView) -> Rows {
    poly_sum(shifted_terms(xs, r), r)
}

/// The terms `xs[i] * X^i`.
pub open spec fn shifted_terms(xs: Seq<Rows>, r: RingView) -> Seq<Rows> {
    Seq::new(xs.len(), |i: int| poly_mul(xs[i], monomial_rows(r.degree, r.moduli.len(), i), r.moduli))
}

/// `X^e` is a ring element for `e < n`.
proof fn lemma_monomial_in_ring(r: RingView, e: int)
    requires
        ring_valid(r),
    ensures
        poly_in_ring(r.degree, r.moduli, monomial_rows(r.degree, r.moduli.len(), e)),
{
    let x = monomial_rows(r.degree, r.moduli.len(), e);
    assert forall|j: int, i: int| 0 <= j < x.len() && 0 <= i < x[j].len() implies #[trigger] x[j][i]
        < r.moduli[j] by {
        assert(crate::ring::arith::modulus_in_range(r.moduli[j] as int));
    }
}

/// The first `m` terms of the negacyclic product of `a` with the monomial
/// `b = X^e` at coefficient `k`: only `a[k - e]` contributes, or
/// `-a[k + n - e]` where the exponent wraps.
proof fn lemma_nega_sum_monomial(a: Seq<u64>, b: Seq<u64>, k: int, m: int, n: int, e: int)
    requires
        a.len() == n,
        b.len() == n,
        0 <= e < n,
        0 <= k < n,
        0 <= m <= n,
        forall|t: int| 0 <= t < n ==> #[trigger] b[t] == (if t == e { 1u64 } else { 0u64 }),
    ensures
        nega_sum(a, b, k, m, n) == if k >= e {
            if k - e < m { a[k - e] as int } else { 0 }
        } else {
            if k + n - e < m { -(a[k + n - e] as int) } else { 0 }
        },
    decreases m,
{
    if m > 0 {
        lemma_nega_sum_monomial(a, b, k, m - 1, n, e);
        let x = m - 1;
        if x <= k {
            let v = b[k - x] as int;
            let w = a[x] as int;
            if k - x == e {
                assert(w * v == w) by (nonlinear_arith)
                    requires
                        v == 1,
                ;
            } else {
                assert(w * v == 0) by (nonlinear_arith)
                    requires
                        v == 0,
                ;
            }
        } else {
            let v = b[k + n - x] as int;
            let w = a[x] as int;
            if k + n - x == e {
                assert(w * v == w) by (nonlinear_arith)
                    requires
                        v == 1,
                ;
            } else {
                assert(w * v == 0) by (nonlinear_arith)
                    requires
                        v == 0,
                ;
            }
        }
    }
}

/// A product with `X^e` (`e < n`) keeps every coefficient's distance from
/// zero: coefficients move, and those that wrap are negated.
proof fn lemma_monomial_keeps_within(r: RingView, x: Rows, e: int, bound: int)
    requires
        ring_valid(r),
        0 <= e < r.degree,
        poly_in_ring(r.degree, r.moduli, x),
        coefficients_within(x, bound, r.moduli),
    ensures
        coefficients_within(poly_mul(x, monomial_rows(r.degree, r.moduli.len(), e), r.moduli), bound, r.moduli),
{
    let mv = r.moduli;
    let n = r.degree as int;
    let mono = monomial_rows(r.degree, mv.len(), e);
    let p = poly_mul(x, mono, mv);
    assert forall|j: int, k: int| 0 <= j < mv.len() && 0 <= k < p[j].len() implies #[trigger] centered_distance(
        p[j][k] as int,
        mv[j] as int,
    ) <= bound by {
        let q = mv[j] as int;
        assert(crate::ring::arith::modulus_in_range(q));
        lemma_nega_sum_monomial(x[j], mono[j], k, n, n, e);
        let y = nega_sum(x[j], mono[j], k, n, n);
        assert(p[j][k] == (y % q) as u64);
        vstd::arithmetic::div_mod::lemma_mod_bound(y, q);
        vstd::arithmetic::div_mod::lemma_mod_twice(y, q);
        let src = if k >= e {
            k - e
        } else {
            k + n - e
        };
        let c = x[j][src] as int;
        assert(centered_distance(c, q) <= bound);
        vstd::arithmetic::div_mod::lemma_small_mod(c as nat, q as nat);
        if k < e {
            assert(y == -c);
            if c == 0 {
                vstd::arithmetic::div_mod::lemma_small_mod(0, q as nat);
            } else {
                vstd::arithmetic::div_mod::lemma_mod_add_multiples_vanish(-c, q);
                vstd::arithmetic::div_mod::lemma_small_mod((q - c) as nat, q as nat);
            }
        }
    }
}

/// The first `m` shifted terms of component `j` sum, coefficient by
/// coefficient, to the packing sum reduced modulo the row's modulus.
proof fn lemma_packed_prefix(cts: Seq<Seq<Rows>>, r: RingView, j: int, m: int)
    requires
        ring_valid(r),
        0 <= m <= cts.len(),
        cts.len() <= r.degree,
        forall|i: int|
            0 <= i < cts.len() ==> j < (#[trigger] cts[i]).len() && poly_in_ring(r.degree, r.moduli, cts[i][j]),
        0 <= j,
    ensures
        ({
            let xs = Seq::new(cts.len(), |i: int| cts[i][j]);
            let sum = poly_sum(shifted_terms(xs, r).take(m), r);
            &&& poly_in_ring(r.degree, r.moduli, sum)
            &&& forall|t: int, k: int|
                0 <= t < r.moduli.len() && 0 <= k < r.degree ==> #[trigger] sum[t][k] == packed_sum(cts, r, j, t, k, m)
                    % (r.moduli[t] as int)
        }),
    decreases m,
{
    let mv = r.moduli;
    let xs = Seq::new(cts.len(), |i: int| cts[i][j]);
    let terms = shifted_terms(xs, r);
    let sum = poly_sum(terms.take(m), r);
    if m == 0 {
        assert(terms.take(0).len() == 0);
        let z = poly_zero(r.degree, mv.len());
        assert forall|t: int, i: int| 0 <= t < z.len() && 0 <= i < z[t].len() implies #[trigger] z[t][i] < mv[t] by {
            assert(crate::ring::arith::modulus_in_range(mv[t] as int));
        }
        assert forall|t: int, k: int| 0 <= t < mv.len() && 0 <= k < r.degree implies #[trigger] sum[t][k]
            == packed_sum(cts, r, j, t, k, 0) % (mv[t] as int) by {
            assert(crate::ring::arith::modulus_in_range(mv[t] as int));
            vstd::arithmetic::div_mod::lemma_small_mod(0, mv[t] as nat);
        }
    } else {
        lemma_packed_prefix(cts, r, j, m - 1);
        assert(terms.take(m).drop_last() =~= terms.take(m - 1));
        let prev = poly_sum(terms.take(m - 1), r);
        let mono = monomial_rows(r.degree, mv.len(), m - 1);
        lemma_monomial_in_ring(r, m - 1);
        let term = poly_mul(cts[m - 1][j], mono, mv);
        assert(xs[m - 1] == cts[m - 1][j]);
        assert(terms.take(m).last() == term);
        lemma_mul_stays_in_ring(r, cts[m - 1][j], mono);
        lemma_ring_ops_stay_in_ring(r, prev, term);
        assert forall|t: int, k: int| 0 <= t < mv.len() && 0 <= k < r.degree implies #[trigger] sum[t][k]
            == packed_sum(cts, r, j, t, k, m) % (mv[t] as int) by {
            let q = mv[t] as int;
            assert(crate::ring::arith::modulus_in_range(q));
            let ps = packed_sum(cts, r, j, t, k, m - 1);
            let tv = term[t][k] as int;
            assert(prev[t][k] == ps % q);
            assert(packed_sum(cts, r, j, t, k, m) == ps + tv);
            vstd::arithmetic::div_mod::lemma_add_mod_noop(ps, tv, q);
            vstd::arithmetic::div_mod::lemma_small_mod(tv as nat, q as nat);
            vstd::arithmetic::div_mod::lemma_mod_twice(ps, q);
        }
    }
}

/// Component `j` of the packing is the shifted sum of the components `j`.
proof fn lemma_packed_component(cts: Seq<Seq<Rows>>, r: RingView, shape: nat, j: int)
    requires
        ring_valid(r),
        cts.len() <= r.degree,
        0 <= j < shape,
        forall|i: int|
            0 <= i < cts.len() ==> j < (#[trigger] cts[i]).len() && poly_in_ring(r.degree, r.moduli, cts[i][j]),
    ensures
        packed(cts, r, shape)[j] == shifted_sum(Seq::new(cts.len(), |i: int| cts[i][j]), r),
        poly_in_ring(r.degree, r.moduli, packed(cts, r, shape)[j]),
{
    let mv = r.moduli;
    let xs = Seq::new(cts.len(), |i: int| cts[i][j]);
    let terms = shifted_terms(xs, r);
    lemma_packed_prefix(cts, r, j, cts.len() as int);
    assert(terms.take(cts.len() as int) =~= terms);
    let sum = shifted_sum(xs, r);
    let pk = packed(cts, r, shape)[j];
    assert forall|t: int| 0 <= t < mv.len() implies #[trigger] pk[t] =~= sum[t] by {
        assert forall|k: int| 0 <= k < r.degree implies #[trigger] pk[t][k] == sum[t][k] by {
            assert(crate::ring::arith::modulus_in_range(mv[t] as int));
            vstd::arithmetic::div_mod::lemma_mod_bound(packed_sum(cts, r, j, t, k, cts.len() as int), mv[t] as int);
        }
    }
    assert(pk =~= sum);
}

/// A sum of ring elements each within `bound` of zero is within
/// `len * bound` of zero.
proof fn lemma_poly_sum_within(r: RingView, xs: Seq<Rows>, bound: int)
    requires
        ring_valid(r),
        forall|i: int|
            0 <= i < xs.len() ==> poly_in_ring(r.degree, r.moduli, #[trigger] xs[i]) && coefficients_within(
                xs[i],
                bound,
                r.moduli,
            ),
    ensures
        coefficients_within(poly_sum(xs, r), xs.len() * bound, r.moduli),
    decreases xs.len(),
{
    let mv = r.moduli;
    if xs.len() == 0 {
        let z = poly_zero(r.degree, mv.len());
        assert forall|j: int, i: int| 0 <= j < mv.len() && 0 <= i < z[j].len() implies #[trigger] centered_distance(
            z[j][i] as int,
            mv[j] as int,
        ) <= xs.len() * bound by {
            assert(crate::ring::arith::modulus_in_range(mv[j] as int));
            vstd::arithmetic::div_mod::lemma_small_mod(0, mv[j] as nat);
        }
    } else {
        let init = xs.drop_last();
        lemma_poly_sum_within(r, init, bound);
        lemma_sum_in_ring(r, init);
        lemma_sum_within(r, poly_sum(init, r), xs.last(), init.len() * bound, bound);
        assert(init.len() * bound + bound == xs.len() * bound) by (nonlinear_arith)
            requires
                init.len() == xs.len() - 1,
        ;
    }
}

/// Packing keeps decryption: when each of `cts` (at most `n` ciphertexts of
/// two components) decrypts under `s` to within `bound` of `msgs[i]`, the
/// packing's phase is exactly `sum_i phase(cts[i]) * X^i`, and it is within
/// `cts.len() * bound` of `sum_i msgs[i] * X^i`.
pub proof fn lemma_repack_decrypts(r: RingView, cts: Seq<Seq<Rows>>, s: Rows, msgs: Seq<Rows>, bound: int)
    requires
        ring_valid(r),
        0 < cts.len() <= r.degree,
        forall|i: int| 0 <= i < cts.len() ==> (#[trigger] cts[i]).len() == 2 && components_in_ring(r, cts[i]),
        poly_in_ring(r.degree, r.moduli, s),
        msgs.len() == cts.len(),
        forall|i: int|
            0 <= i < msgs.len() ==> poly_in_ring(r.degree, r.moduli, #[trigger] msgs[i]) && within(
                phase(cts[i], s, r.moduli, 2),
                msgs[i],
                bound,
                r.moduli,
            ),
    ensures
        phase(packed(cts, r, 2), s, r.moduli, 2) == shifted_sum(
            Seq::new(cts.len(), |i: int| phase(cts[i], s, r.moduli, 2)),
            r,
        ),
        within(phase(packed(cts, r, 2), s, r.moduli, 2), shifted_sum(msgs, r), cts.len() * bound, r.moduli),
{
    let mv = r.moduli;
    let len = cts.len();
    let x0 = Seq::new(len, |i: int| cts[i][0]);
    let x1 = Seq::new(len, |i: int| cts[i][1]);
    assert forall|i: int| 0 <= i < len implies 0 < (#[trigger] cts[i]).len() && poly_in_ring(r.degree, mv, cts[i][0])
        && poly_in_ring(r.degree, mv, cts[i][1]) by {}
    lemma_packed_component(cts, r, 2, 0);
    lemma_packed_component(cts, r, 2, 1);
    let pk = packed(cts, r, 2);
    let t0 = shifted_terms(x0, r);
    let t1 = shifted_terms(x1, r);
    let u = Seq::new(len, |i: int| poly_mul(t1[i], s, mv));
    let phases = Seq::new(len, |i: int| phase(cts[i], s, mv, 2));
    let errs = Seq::new(len, |i: int| poly_sub(phases[i], msgs[i], mv));
    let tp = shifted_terms(phases, r);
    let tm = shifted_terms(msgs, r);
    let te = shifted_terms(errs, r);
    assert forall|i: int|
        #![trigger t0[i]]
        #![trigger t1[i]]
        #![trigger u[i]]
        #![trigger tm[i]]
        #![trigger te[i]]
        0 <= i < len implies {
        &&& poly_in_ring(r.degree, mv, t0[i])
        &&& poly_in_ring(r.degree, mv, t1[i])
        &&& poly_in_ring(r.degree, mv, u[i])
        &&& poly_in_ring(r.degree, mv, tm[i])
        &&& poly_in_ring(r.degree, mv, te[i])
        &&& coefficients_within(te[i], bound, mv)
        &&& poly_add(t0[i], u[i], mv) == tp[i]
        &&& poly_add(tm[i], te[i], mv) == tp[i]
    } by {
        let x = monomial_rows(r.degree, mv.len(), i);
        lemma_monomial_in_ring(r, i);
        let (c0, c1) = (cts[i][0], cts[i][1]);
        assert(x0[i] == c0 && x1[i] == c1);
        lemma_mul_stays_in_ring(r, c0, x);
        lemma_mul_stays_in_ring(r, c1, x);
        lemma_mul_stays_in_ring(r, poly_mul(c1, x, mv), s);
        // (c1*X)*s == (c1*s)*X
        lemma_mul_associative(r, c1, x, s);
        lemma_mul_commutative(r, x, s);
        lemma_mul_associative(r, c1, s, x);
        let c1s = poly_mul(c1, s, mv);
        lemma_mul_stays_in_ring(r, c1, s);
        // c0*X + (c1*s)*X == (c0 + c1*s)*X
        lemma_mul_distributes_over_add_left(r, c0, c1s, x);
        assert(phase(cts[i], s, mv, 1) == c0);
        assert(poly_pow(s, 1, mv) == s);
        let ph = phases[i];
        assert(ph == poly_add(c0, c1s, mv));
        lemma_ring_ops_stay_in_ring(r, c0, c1s);
        // ph == e + m, so ph*X == m*X + e*X
        let m = msgs[i];
        let e = errs[i];
        lemma_ring_ops_stay_in_ring(r, ph, m);
        lemma_sub_add_cancel(r, ph, m);
        lemma_mul_distributes_over_add_left(r, e, m, x);
        lemma_mul_stays_in_ring(r, e, x);
        lemma_mul_stays_in_ring(r, m, x);
        lemma_add_commutative(r, poly_mul(e, x, mv), poly_mul(m, x, mv));
        lemma_difference_within(r, ph, m, bound);
        lemma_monomial_keeps_within(r, e, i, bound);
    }
    // pk[0] + pk[1]*s == sum_i phase_i * X^i
    lemma_sum_of_products_left(r, t1, s);
    lemma_sum_of_sums(r, t0, u);
    assert(Seq::new(t0.len(), |i: int| poly_add(t0[i], u[i], mv)) =~= tp);
    assert(phase(pk, s, mv, 1) == pk[0]);
    assert(poly_pow(s, 1, mv) == s);
    // sum_i phase_i * X^i == sum_i m_i * X^i + sum_i e_i * X^i
    lemma_sum_of_sums(r, tm, te);
    assert(Seq::new(tm.len(), |i: int| poly_add(tm[i], te[i], mv)) =~= tp);
    lemma_poly_sum_within(r, te, bound);
    lemma_sum_in_ring(r, tm);
    lemma_sum_in_ring(r, te);
    let noise = poly_sum(te, r);
    assert forall|j: int, i: int| 0 <= j < mv.len() && 0 <= i < r.degree implies #[trigger] centered_distance(
        noise[j][i] as int,
        mv[j] as int,
    ) <= len * bound by {}
    lemma_within_after_adding(r, poly_sum(tm, r), noise, len * bound);
}

} // verus!
