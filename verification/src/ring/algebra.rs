//! Algebraic laws of the ring operations: `Z_Q[X]/(X^n + 1)` is a
//! commutative ring (addition and multiplication associate and commute,
//! multiplication distributes over addition and subtraction), scalings and
//! automorphisms are additive, and sums of ring elements stay in the ring.

use vstd::prelude::*;

use crate::ring::automorphism::{galois_apply, galois_inverse};
use crate::ring::convolution::{
    conv, lemma_conv_associates, lemma_conv_commutes, lemma_row_mul_is_conv, lemma_sum_congruent, lemma_sum_scale,
    nega_ext,
};
use crate::ring::poly::{
    nega_sum, nega_term, poly_add, poly_in_ring, poly_mul, poly_neg, poly_scale, poly_scale_rows, poly_sub,
    poly_sum, poly_zero, row_scale,
    row_add, row_mul, ring_valid, RingView, Rows,
};

verus! {

/// `nega_sum` is additive in its second argument up to a multiple of `q`:
/// the returned `c` is that multiple.
proof fn lemma_nega_sum_add(a: Seq<u64>, x: Seq<u64>, y: Seq<u64>, q: u64, k: int, m: int, n: int) -> (c: int)
    requires
        q > 0,
        a.len() == n,
        x.len() == n,
        y.len() == n,
        0 <= k < n,
        0 <= m <= n,
    ensures
        nega_sum(a, row_add(x, y, q), k, m, n) == nega_sum(a, x, k, m, n) + nega_sum(a, y, k, m, n) + c * q,
    decreases m,
{
    if m <= 0 {
        0
    } else {
        let c0 = lemma_nega_sum_add(a, x, y, q, k, m - 1, n);
        let i = m - 1;
        let j = if i <= k {
            k - i
        } else {
            k + n - i
        };
        let s = x[j] + y[j];
        let z = row_add(x, y, q)[j];
        let d = s / (q as int);
        vstd::arithmetic::div_mod::lemma_fundamental_div_mod(s, q as int);
        assert(z == s % (q as int));
        let ai = a[i] as int;
        assert(ai * z == ai * x[j] + ai * y[j] - (ai * d) * q) by (nonlinear_arith)
            requires
                s == q * d + z,
                s == x[j] + y[j],
        ;
        let e = ai * d;
        let t = row_add(x, y, q);
        if i <= k {
            assert(nega_term(a, t, k, i, n) == nega_term(a, x, k, i, n) + nega_term(a, y, k, i, n) - e * q);
            assert((c0 - e) * q == c0 * q - e * q) by (nonlinear_arith);
            c0 - e
        } else {
            assert(nega_term(a, t, k, i, n) == nega_term(a, x, k, i, n) + nega_term(a, y, k, i, n) + e * q);
            assert((c0 + e) * q == c0 * q + e * q) by (nonlinear_arith);
            c0 + e
        }
    }
}

/// `nega_sum` against the zero row is zero.
proof fn lemma_nega_sum_zero(a: Seq<u64>, b: Seq<u64>, k: int, m: int, n: int)
    requires
        a.len() == n,
        b.len() == n,
        forall|i: int| 0 <= i < n ==> #[trigger] b[i] == 0,
        0 <= k < n,
        0 <= m <= n,
    ensures
        nega_sum(a, b, k, m, n) == 0,
    decreases m,
{
    if m > 0 {
        lemma_nega_sum_zero(a, b, k, m - 1, n);
        let i = m - 1;
        if i <= k {
            assert(b[k - i] == 0);
        } else {
            assert(b[k + n - i] == 0);
        }
        assert(nega_term(a, b, k, i, n) == 0);
    }
}

/// Multiplication distributes over addition: `a * (x + y) == a*x + a*y`.
pub proof fn lemma_mul_distributes_over_add(r: RingView, a: Rows, x: Rows, y: Rows)
    requires
        ring_valid(r),
        poly_in_ring(r.degree, r.moduli, a),
        poly_in_ring(r.degree, r.moduli, x),
        poly_in_ring(r.degree, r.moduli, y),
    ensures
        poly_mul(a, poly_add(x, y, r.moduli), r.moduli) == poly_add(
            poly_mul(a, x, r.moduli),
            poly_mul(a, y, r.moduli),
            r.moduli,
        ),
{
    let mv = r.moduli;
    let n = r.degree as int;
    let lhs = poly_mul(a, poly_add(x, y, mv), mv);
    let rhs = poly_add(poly_mul(a, x, mv), poly_mul(a, y, mv), mv);
    assert forall|j: int| 0 <= j < lhs.len() implies #[trigger] lhs[j] =~= rhs[j] by {
        let q = mv[j];
        assert(q > 1);
        assert forall|k: int| 0 <= k < lhs[j].len() implies #[trigger] lhs[j][k] == rhs[j][k] by {
            let c = lemma_nega_sum_add(a[j], x[j], y[j], q, k, n, n);
            let s1 = nega_sum(a[j], x[j], k, n, n);
            let s2 = nega_sum(a[j], y[j], k, n, n);
            vstd::arithmetic::div_mod::lemma_mod_multiples_vanish(c, s1 + s2, q as int);
            assert((q as int) * c + (s1 + s2) == s1 + s2 + c * q) by (nonlinear_arith);
            vstd::arithmetic::div_mod::lemma_add_mod_noop(s1, s2, q as int);
            vstd::arithmetic::div_mod::lemma_mod_bound(s1, q as int);
            vstd::arithmetic::div_mod::lemma_mod_bound(s2, q as int);
        }
    }
    assert(lhs =~= rhs);
}

/// Multiplying by zero gives zero.
pub proof fn lemma_mul_by_zero(r: RingView, a: Rows)
    requires
        ring_valid(r),
        poly_in_ring(r.degree, r.moduli, a),
    ensures
        poly_mul(a, poly_zero(r.degree, r.moduli.len()), r.moduli) == poly_zero(r.degree, r.moduli.len()),
{
    let mv = r.moduli;
    let n = r.degree as int;
    let z = poly_zero(r.degree, mv.len());
    let p = poly_mul(a, z, mv);
    assert forall|j: int| 0 <= j < p.len() implies #[trigger] p[j] =~= z[j] by {
        assert forall|k: int| 0 <= k < n implies #[trigger] p[j][k] == 0 by {
            lemma_nega_sum_zero(a[j], z[j], k, n, n);
        }
    }
    assert(p =~= z);
}

/// `nega_sum` is additive in its first argument up to a multiple of `q`.
proof fn lemma_nega_sum_add_left(x: Seq<u64>, y: Seq<u64>, b: Seq<u64>, q: u64, k: int, m: int, n: int) -> (c: int)
    requires
        q > 0,
        b.len() == n,
        x.len() == n,
        y.len() == n,
        0 <= k < n,
        0 <= m <= n,
    ensures
        nega_sum(row_add(x, y, q), b, k, m, n) == nega_sum(x, b, k, m, n) + nega_sum(y, b, k, m, n) + c * q,
    decreases m,
{
    if m <= 0 {
        0
    } else {
        let c0 = lemma_nega_sum_add_left(x, y, b, q, k, m - 1, n);
        let i = m - 1;
        let j = if i <= k {
            k - i
        } else {
            k + n - i
        };
        let s = x[i] + y[i];
        let z = row_add(x, y, q)[i];
        let d = s / (q as int);
        vstd::arithmetic::div_mod::lemma_fundamental_div_mod(s, q as int);
        let bj = b[j] as int;
        assert(z * bj == x[i] * bj + y[i] * bj - (bj * d) * q) by (nonlinear_arith)
            requires
                s == q * d + z,
                s == x[i] + y[i],
        ;
        let e = bj * d;
        let t = row_add(x, y, q);
        if i <= k {
            assert(nega_term(t, b, k, i, n) == nega_term(x, b, k, i, n) + nega_term(y, b, k, i, n) - e * q);
            assert((c0 - e) * q == c0 * q - e * q) by (nonlinear_arith);
            c0 - e
        } else {
            assert(nega_term(t, b, k, i, n) == nega_term(x, b, k, i, n) + nega_term(y, b, k, i, n) + e * q);
            assert((c0 + e) * q == c0 * q + e * q) by (nonlinear_arith);
            c0 + e
        }
    }
}

/// Multiplication distributes over addition on the left:
/// `(x + y) * b == x*b + y*b`.
pub proof fn lemma_mul_distributes_over_add_left(r: RingView, x: Rows, y: Rows, b: Rows)
    requires
        ring_valid(r),
        poly_in_ring(r.degree, r.moduli, x),
        poly_in_ring(r.degree, r.moduli, y),
        poly_in_ring(r.degree, r.moduli, b),
    ensures
        poly_mul(poly_add(x, y, r.moduli), b, r.moduli) == poly_add(
            poly_mul(x, b, r.moduli),
            poly_mul(y, b, r.moduli),
            r.moduli,
        ),
{
    let mv = r.moduli;
    let n = r.degree as int;
    let lhs = poly_mul(poly_add(x, y, mv), b, mv);
    let rhs = poly_add(poly_mul(x, b, mv), poly_mul(y, b, mv), mv);
    assert forall|j: int| 0 <= j < lhs.len() implies #[trigger] lhs[j] =~= rhs[j] by {
        let q = mv[j];
        assert(q > 1);
        assert forall|k: int| 0 <= k < lhs[j].len() implies #[trigger] lhs[j][k] == rhs[j][k] by {
            let c = lemma_nega_sum_add_left(x[j], y[j], b[j], q, k, n, n);
            let s1 = nega_sum(x[j], b[j], k, n, n);
            let s2 = nega_sum(y[j], b[j], k, n, n);
            vstd::arithmetic::div_mod::lemma_mod_multiples_vanish(c, s1 + s2, q as int);
            assert((q as int) * c + (s1 + s2) == s1 + s2 + c * q) by (nonlinear_arith);
            vstd::arithmetic::div_mod::lemma_add_mod_noop(s1, s2, q as int);
            vstd::arithmetic::div_mod::lemma_mod_bound(s1, q as int);
            vstd::arithmetic::div_mod::lemma_mod_bound(s2, q as int);
        }
    }
    assert(lhs =~= rhs);
}

/// Addition is associative and commutative: the four terms of
/// `(a + b) + (c + d)` may be regrouped as `(a + c) + (b + d)`.
pub proof fn lemma_add_interchange(r: RingView, a: Rows, b: Rows, c: Rows, d: Rows)
    requires
        ring_valid(r),
        poly_in_ring(r.degree, r.moduli, a),
        poly_in_ring(r.degree, r.moduli, b),
        poly_in_ring(r.degree, r.moduli, c),
        poly_in_ring(r.degree, r.moduli, d),
    ensures
        poly_add(poly_add(a, b, r.moduli), poly_add(c, d, r.moduli), r.moduli) == poly_add(
            poly_add(a, c, r.moduli),
            poly_add(b, d, r.moduli),
            r.moduli,
        ),
{
    let mv = r.moduli;
    let lhs = poly_add(poly_add(a, b, mv), poly_add(c, d, mv), mv);
    let rhs = poly_add(poly_add(a, c, mv), poly_add(b, d, mv), mv);
    assert forall|j: int| 0 <= j < lhs.len() implies #[trigger] lhs[j] =~= rhs[j] by {
        let q = mv[j] as int;
        assert forall|i: int| 0 <= i < lhs[j].len() implies #[trigger] lhs[j][i] == rhs[j][i] by {
            let (w, x, y, z) = (a[j][i] as int, b[j][i] as int, c[j][i] as int, d[j][i] as int);
            vstd::arithmetic::div_mod::lemma_add_mod_noop(w + x, y + z, q);
            vstd::arithmetic::div_mod::lemma_add_mod_noop(w + y, x + z, q);
            vstd::arithmetic::div_mod::lemma_mod_bound(w + x, q);
            vstd::arithmetic::div_mod::lemma_mod_bound(y + z, q);
            vstd::arithmetic::div_mod::lemma_mod_bound(w + y, q);
            vstd::arithmetic::div_mod::lemma_mod_bound(x + z, q);
        }
    }
    assert(lhs =~= rhs);
}

/// Sums and differences interchange: `(a - b) + (c - d) == (a + c) - (b + d)`.
pub proof fn lemma_add_sub_interchange(r: RingView, a: Rows, b: Rows, c: Rows, d: Rows)
    requires
        ring_valid(r),
        poly_in_ring(r.degree, r.moduli, a),
        poly_in_ring(r.degree, r.moduli, b),
        poly_in_ring(r.degree, r.moduli, c),
        poly_in_ring(r.degree, r.moduli, d),
    ensures
        poly_add(poly_sub(a, b, r.moduli), poly_sub(c, d, r.moduli), r.moduli) == poly_sub(
            poly_add(a, c, r.moduli),
            poly_add(b, d, r.moduli),
            r.moduli,
        ),
{
    let mv = r.moduli;
    let lhs = poly_add(poly_sub(a, b, mv), poly_sub(c, d, mv), mv);
    let rhs = poly_sub(poly_add(a, c, mv), poly_add(b, d, mv), mv);
    assert forall|j: int| 0 <= j < lhs.len() implies #[trigger] lhs[j] =~= rhs[j] by {
        let q = mv[j] as int;
        assert forall|i: int| 0 <= i < lhs[j].len() implies #[trigger] lhs[j][i] == rhs[j][i] by {
            let (w, x, y, z) = (a[j][i] as int, b[j][i] as int, c[j][i] as int, d[j][i] as int);
            vstd::arithmetic::div_mod::lemma_add_mod_noop(w - x, y - z, q);
            vstd::arithmetic::div_mod::lemma_sub_mod_noop(w + y, x + z, q);
            vstd::arithmetic::div_mod::lemma_mod_bound(w - x, q);
            vstd::arithmetic::div_mod::lemma_mod_bound(y - z, q);
            vstd::arithmetic::div_mod::lemma_mod_bound(w + y, q);
            vstd::arithmetic::div_mod::lemma_mod_bound(x + z, q);
        }
    }
    assert(lhs =~= rhs);
}

/// Scaling by an integer distributes over addition.
pub proof fn lemma_scale_distributes_over_add(r: RingView, x: Rows, y: Rows, t: u64)
    requires
        ring_valid(r),
        poly_in_ring(r.degree, r.moduli, x),
        poly_in_ring(r.degree, r.moduli, y),
    ensures
        poly_scale(poly_add(x, y, r.moduli), t, r.moduli) == poly_add(
            poly_scale(x, t, r.moduli),
            poly_scale(y, t, r.moduli),
            r.moduli,
        ),
{
    let mv = r.moduli;
    let ts = Seq::new(mv.len(), |j: int| t);
    lemma_scale_rows_distributes_over_add(r, x, y, ts);
    assert(poly_scale_rows(x, ts, mv) =~= poly_scale(x, t, mv));
    assert(poly_scale_rows(y, ts, mv) =~= poly_scale(y, t, mv));
    assert(poly_scale_rows(poly_add(x, y, mv), ts, mv) =~= poly_scale(poly_add(x, y, mv), t, mv));
}

/// Scaling each row by its own constant distributes over addition.
pub proof fn lemma_scale_rows_distributes_over_add(r: RingView, x: Rows, y: Rows, s: Seq<u64>)
    requires
        ring_valid(r),
        poly_in_ring(r.degree, r.moduli, x),
        poly_in_ring(r.degree, r.moduli, y),
    ensures
        poly_scale_rows(poly_add(x, y, r.moduli), s, r.moduli) == poly_add(
            poly_scale_rows(x, s, r.moduli),
            poly_scale_rows(y, s, r.moduli),
            r.moduli,
        ),
{
    let mv = r.moduli;
    let lhs = poly_scale_rows(poly_add(x, y, mv), s, mv);
    let rhs = poly_add(poly_scale_rows(x, s, mv), poly_scale_rows(y, s, mv), mv);
    assert forall|j: int| 0 <= j < lhs.len() implies #[trigger] lhs[j] =~= rhs[j] by {
        let q = mv[j] as int;
        let c = s[j] as int;
        assert forall|i: int| 0 <= i < lhs[j].len() implies #[trigger] lhs[j][i] == rhs[j][i] by {
            let (u, v) = (x[j][i] as int, y[j][i] as int);
            vstd::arithmetic::div_mod::lemma_mul_mod_noop_left(u + v, c, q);
            vstd::arithmetic::div_mod::lemma_add_mod_noop(u * c, v * c, q);
            assert((u + v) * c == u * c + v * c) by (nonlinear_arith);
            vstd::arithmetic::div_mod::lemma_mod_bound(u + v, q);
            vstd::arithmetic::div_mod::lemma_mod_bound(u * c, q);
            vstd::arithmetic::div_mod::lemma_mod_bound(v * c, q);
            vstd::arithmetic::div_mod::lemma_mod_bound((u + v) * c, q);
        }
    }
    assert(lhs =~= rhs);
}

/// The automorphism `X -> X^k` is additive.
pub proof fn lemma_galois_apply_additive(r: RingView, x: Rows, y: Rows, k: int)
    requires
        ring_valid(r),
        poly_in_ring(r.degree, r.moduli, x),
        poly_in_ring(r.degree, r.moduli, y),
    ensures
        galois_apply(poly_add(x, y, r.moduli), k, r.degree as int, r.moduli) == poly_add(
            galois_apply(x, k, r.degree as int, r.moduli),
            galois_apply(y, k, r.degree as int, r.moduli),
            r.moduli,
        ),
{
    let mv = r.moduli;
    let n = r.degree as int;
    let c = galois_inverse(k, n);
    let lhs = galois_apply(poly_add(x, y, mv), k, n, mv);
    let rhs = poly_add(galois_apply(x, k, n, mv), galois_apply(y, k, n, mv), mv);
    assert(n > 0);
    assert forall|j: int| 0 <= j < lhs.len() implies #[trigger] lhs[j] =~= rhs[j] by {
        let q = mv[j] as int;
        assert forall|t: int| 0 <= t < lhs[j].len() implies #[trigger] lhs[j][t] == rhs[j][t] by {
            let p = (t * c) % (2 * n);
            vstd::arithmetic::div_mod::lemma_mod_bound(t * c, 2 * n);
            if p < n {
                let (u, v) = (x[j][p] as int, y[j][p] as int);
                vstd::arithmetic::div_mod::lemma_mod_bound(u + v, q);
            } else {
                let (u, v) = (x[j][p - n] as int, y[j][p - n] as int);
                vstd::arithmetic::div_mod::lemma_mod_bound(u + v, q);
                vstd::arithmetic::div_mod::lemma_mod_bound(0 - u, q);
                vstd::arithmetic::div_mod::lemma_mod_bound(0 - v, q);
                vstd::arithmetic::div_mod::lemma_mod_bound(0 - (u + v), q);
                vstd::arithmetic::div_mod::lemma_sub_mod_noop(0, u + v, q);
                vstd::arithmetic::div_mod::lemma_add_mod_noop(0 - u, 0 - v, q);
                vstd::arithmetic::div_mod::lemma_small_mod(0, q as nat);
            }
        }
    }
    assert(lhs =~= rhs);
}

/// A sum of ring elements is a ring element.
pub proof fn lemma_sum_in_ring(r: RingView, xs: Seq<Rows>)
    requires
        ring_valid(r),
        forall|i: int| 0 <= i < xs.len() ==> poly_in_ring(r.degree, r.moduli, #[trigger] xs[i]),
    ensures
        poly_in_ring(r.degree, r.moduli, poly_sum(xs, r)),
    decreases xs.len(),
{
    if xs.len() > 0 {
        lemma_sum_in_ring(r, xs.drop_last());
        crate::ring::poly::lemma_ring_ops_stay_in_ring(r, poly_sum(xs.drop_last(), r), xs.last());
    }
}

/// Zero is a ring element, and `0 + 0 == 0 - 0 == 0`.
proof fn lemma_zero_facts(r: RingView)
    requires
        ring_valid(r),
    ensures
        poly_in_ring(r.degree, r.moduli, poly_zero(r.degree, r.moduli.len())),
        poly_add(poly_zero(r.degree, r.moduli.len()), poly_zero(r.degree, r.moduli.len()), r.moduli) == poly_zero(
            r.degree,
            r.moduli.len(),
        ),
        poly_sub(poly_zero(r.degree, r.moduli.len()), poly_zero(r.degree, r.moduli.len()), r.moduli) == poly_zero(
            r.degree,
            r.moduli.len(),
        ),
{
    let mv = r.moduli;
    let z = poly_zero(r.degree, mv.len());
    let s = poly_add(z, z, mv);
    let d = poly_sub(z, z, mv);
    assert forall|j: int| 0 <= j < z.len() implies #[trigger] s[j] =~= z[j] && d[j] =~= z[j] by {
        vstd::arithmetic::div_mod::lemma_small_mod(0, mv[j] as nat);
    }
    assert(s =~= z);
    assert(d =~= z);
}

/// The sum of the images of `xs` under an additive map `f` that keeps ring
/// elements in the ring and sends zero to zero is the image of their sum.
pub proof fn lemma_sum_of_additive_map(r: RingView, xs: Seq<Rows>, f: spec_fn(Rows) -> Rows)
    requires
        ring_valid(r),
        forall|i: int| 0 <= i < xs.len() ==> poly_in_ring(r.degree, r.moduli, #[trigger] xs[i]),
        forall|x: Rows| poly_in_ring(r.degree, r.moduli, x) ==> poly_in_ring(r.degree, r.moduli, #[trigger] f(x)),
        forall|x: Rows, y: Rows|
            poly_in_ring(r.degree, r.moduli, x) && poly_in_ring(r.degree, r.moduli, y) ==> #[trigger] f(
                poly_add(x, y, r.moduli),
            ) == poly_add(f(x), f(y), r.moduli),
        f(poly_zero(r.degree, r.moduli.len())) == poly_zero(r.degree, r.moduli.len()),
    ensures
        poly_sum(Seq::new(xs.len(), |i: int| f(xs[i])), r) == f(poly_sum(xs, r)),
    decreases xs.len(),
{
    let ys = Seq::new(xs.len(), |i: int| f(xs[i]));
    if xs.len() > 0 {
        let init = xs.drop_last();
        lemma_sum_of_additive_map(r, init, f);
        assert(ys.drop_last() =~= Seq::new(init.len(), |i: int| f(init[i])));
        lemma_sum_in_ring(r, init);
        assert(f(poly_add(poly_sum(init, r), xs.last(), r.moduli)) == poly_add(
            f(poly_sum(init, r)),
            f(xs.last()),
            r.moduli,
        ));
    }
}

/// The sum of pairwise sums is the sum of the two sums.
pub proof fn lemma_sum_of_sums(r: RingView, xs: Seq<Rows>, ys: Seq<Rows>)
    requires
        ring_valid(r),
        xs.len() == ys.len(),
        forall|i: int| 0 <= i < xs.len() ==> poly_in_ring(r.degree, r.moduli, #[trigger] xs[i]),
        forall|i: int| 0 <= i < ys.len() ==> poly_in_ring(r.degree, r.moduli, #[trigger] ys[i]),
    ensures
        poly_sum(Seq::new(xs.len(), |i: int| poly_add(xs[i], ys[i], r.moduli)), r) == poly_add(
            poly_sum(xs, r),
            poly_sum(ys, r),
            r.moduli,
        ),
    decreases xs.len(),
{
    let zs = Seq::new(xs.len(), |i: int| poly_add(xs[i], ys[i], r.moduli));
    lemma_zero_facts(r);
    if xs.len() > 0 {
        let (xi, yi) = (xs.drop_last(), ys.drop_last());
        lemma_sum_of_sums(r, xi, yi);
        assert(zs.drop_last() =~= Seq::new(xi.len(), |i: int| poly_add(xi[i], yi[i], r.moduli)));
        lemma_sum_in_ring(r, xi);
        lemma_sum_in_ring(r, yi);
        lemma_add_interchange(r, poly_sum(xi, r), poly_sum(yi, r), xs.last(), ys.last());
    }
}

/// The sum of pairwise differences is the difference of the two sums.
pub proof fn lemma_sum_of_differences(r: RingView, xs: Seq<Rows>, ys: Seq<Rows>)
    requires
        ring_valid(r),
        xs.len() == ys.len(),
        forall|i: int| 0 <= i < xs.len() ==> poly_in_ring(r.degree, r.moduli, #[trigger] xs[i]),
        forall|i: int| 0 <= i < ys.len() ==> poly_in_ring(r.degree, r.moduli, #[trigger] ys[i]),
    ensures
        poly_sum(Seq::new(xs.len(), |i: int| poly_sub(xs[i], ys[i], r.moduli)), r) == poly_sub(
            poly_sum(xs, r),
            poly_sum(ys, r),
            r.moduli,
        ),
    decreases xs.len(),
{
    let zs = Seq::new(xs.len(), |i: int| poly_sub(xs[i], ys[i], r.moduli));
    lemma_zero_facts(r);
    if xs.len() > 0 {
        let (xi, yi) = (xs.drop_last(), ys.drop_last());
        lemma_sum_of_differences(r, xi, yi);
        assert(zs.drop_last() =~= Seq::new(xi.len(), |i: int| poly_sub(xi[i], yi[i], r.moduli)));
        lemma_sum_in_ring(r, xi);
        lemma_sum_in_ring(r, yi);
        lemma_add_sub_interchange(r, poly_sum(xi, r), poly_sum(yi, r), xs.last(), ys.last());
    }
}

/// Scaling zero gives zero.
pub proof fn lemma_scale_of_zero(r: RingView, t: u64, c: Seq<u64>)
    requires
        ring_valid(r),
    ensures
        poly_scale(poly_zero(r.degree, r.moduli.len()), t, r.moduli) == poly_zero(r.degree, r.moduli.len()),
        poly_scale_rows(poly_zero(r.degree, r.moduli.len()), c, r.moduli) == poly_zero(
            r.degree,
            r.moduli.len(),
        ),
{
    let mv = r.moduli;
    let z = poly_zero(r.degree, mv.len());
    let x = poly_scale(z, t, mv);
    let y = poly_scale_rows(z, c, mv);
    assert forall|j: int| 0 <= j < z.len() implies #[trigger] x[j] =~= z[j] && y[j] =~= z[j] by {
        vstd::arithmetic::div_mod::lemma_small_mod(0, mv[j] as nat);
    }
    assert(x =~= z);
    assert(y =~= z);
}

/// Subtracting and adding back cancel: `(x - y) + y == x`.
pub proof fn lemma_sub_add_cancel(r: RingView, x: Rows, y: Rows)
    requires
        ring_valid(r),
        poly_in_ring(r.degree, r.moduli, x),
        poly_in_ring(r.degree, r.moduli, y),
    ensures
        poly_add(poly_sub(x, y, r.moduli), y, r.moduli) == x,
{
    let mv = r.moduli;
    let lhs = poly_add(poly_sub(x, y, mv), y, mv);
    assert forall|j: int| 0 <= j < lhs.len() implies #[trigger] lhs[j] =~= x[j] by {
        let q = mv[j] as int;
        assert forall|i: int| 0 <= i < lhs[j].len() implies #[trigger] lhs[j][i] == x[j][i] by {
            let (u, v) = (x[j][i] as int, y[j][i] as int);
            vstd::arithmetic::div_mod::lemma_mod_bound(u - v, q);
            vstd::arithmetic::div_mod::lemma_add_mod_noop(u - v, v, q);
            vstd::arithmetic::div_mod::lemma_small_mod(v as nat, q as nat);
            vstd::arithmetic::div_mod::lemma_small_mod(u as nat, q as nat);
        }
    }
    assert(lhs =~= x);
}

/// The sum of scalings by `t` is the scaling of the sum.
pub proof fn lemma_sum_of_scaled(r: RingView, xs: Seq<Rows>, t: u64)
    requires
        ring_valid(r),
        forall|i: int| 0 <= i < xs.len() ==> poly_in_ring(r.degree, r.moduli, #[trigger] xs[i]),
    ensures
        poly_sum(Seq::new(xs.len(), |i: int| poly_scale(xs[i], t, r.moduli)), r) == poly_scale(
            poly_sum(xs, r),
            t,
            r.moduli,
        ),
{
    let mv = r.moduli;
    let f = |x: Rows| poly_scale(x, t, mv);
    assert forall|x: Rows| poly_in_ring(r.degree, mv, x) implies poly_in_ring(r.degree, mv, #[trigger] f(x)) by {
        crate::ring::poly::lemma_unary_ops_stay_in_ring(r, x, t);
    }
    assert forall|x: Rows, y: Rows|
        poly_in_ring(r.degree, mv, x) && poly_in_ring(r.degree, mv, y) implies #[trigger] f(poly_add(x, y, mv))
        == poly_add(f(x), f(y), mv) by {
        lemma_scale_distributes_over_add(r, x, y, t);
    }
    lemma_scale_of_zero(r, t, Seq::empty());
    lemma_sum_of_additive_map(r, xs, f);
    assert(Seq::new(xs.len(), |i: int| f(xs[i])) =~= Seq::new(xs.len(), |i: int| poly_scale(xs[i], t, mv)));
}

/// The sum of rowwise scalings by `c` is the rowwise scaling of the sum.
pub proof fn lemma_sum_of_scaled_rows(r: RingView, xs: Seq<Rows>, c: Seq<u64>)
    requires
        ring_valid(r),
        forall|i: int| 0 <= i < xs.len() ==> poly_in_ring(r.degree, r.moduli, #[trigger] xs[i]),
    ensures
        poly_sum(Seq::new(xs.len(), |i: int| poly_scale_rows(xs[i], c, r.moduli)), r) == poly_scale_rows(
            poly_sum(xs, r),
            c,
            r.moduli,
        ),
{
    let mv = r.moduli;
    let f = |x: Rows| poly_scale_rows(x, c, mv);
    assert forall|x: Rows| poly_in_ring(r.degree, mv, x) implies poly_in_ring(r.degree, mv, #[trigger] f(x)) by {
        crate::ring::poly::lemma_scale_rows_stay_in_ring(r, x, c);
    }
    assert forall|x: Rows, y: Rows|
        poly_in_ring(r.degree, mv, x) && poly_in_ring(r.degree, mv, y) implies #[trigger] f(poly_add(x, y, mv))
        == poly_add(f(x), f(y), mv) by {
        lemma_scale_rows_distributes_over_add(r, x, y, c);
    }
    lemma_scale_of_zero(r, 0, c);
    lemma_sum_of_additive_map(r, xs, f);
    assert(Seq::new(xs.len(), |i: int| f(xs[i])) =~= Seq::new(xs.len(), |i: int| poly_scale_rows(xs[i], c, mv)));
}

/// The sum of the products `a * xs[i]` is `a` times the sum.
pub proof fn lemma_sum_of_products_right(r: RingView, a: Rows, xs: Seq<Rows>)
    requires
        ring_valid(r),
        poly_in_ring(r.degree, r.moduli, a),
        forall|i: int| 0 <= i < xs.len() ==> poly_in_ring(r.degree, r.moduli, #[trigger] xs[i]),
    ensures
        poly_sum(Seq::new(xs.len(), |i: int| poly_mul(a, xs[i], r.moduli)), r) == poly_mul(
            a,
            poly_sum(xs, r),
            r.moduli,
        ),
{
    let mv = r.moduli;
    let f = |x: Rows| poly_mul(a, x, mv);
    assert forall|x: Rows| poly_in_ring(r.degree, mv, x) implies poly_in_ring(r.degree, mv, #[trigger] f(x)) by {
        crate::ring::poly::lemma_mul_stays_in_ring(r, a, x);
    }
    assert forall|x: Rows, y: Rows|
        poly_in_ring(r.degree, mv, x) && poly_in_ring(r.degree, mv, y) implies #[trigger] f(poly_add(x, y, mv))
        == poly_add(f(x), f(y), mv) by {
        lemma_mul_distributes_over_add(r, a, x, y);
    }
    lemma_mul_by_zero(r, a);
    lemma_sum_of_additive_map(r, xs, f);
    assert(Seq::new(xs.len(), |i: int| f(xs[i])) =~= Seq::new(xs.len(), |i: int| poly_mul(a, xs[i], mv)));
}

/// Addition is associative: `a + (b + c) == (a + b) + c`.
pub proof fn lemma_add_associative(r: RingView, a: Rows, b: Rows, c: Rows)
    requires
        ring_valid(r),
        poly_in_ring(r.degree, r.moduli, a),
        poly_in_ring(r.degree, r.moduli, b),
        poly_in_ring(r.degree, r.moduli, c),
    ensures
        poly_add(a, poly_add(b, c, r.moduli), r.moduli) == poly_add(poly_add(a, b, r.moduli), c, r.moduli),
{
    let mv = r.moduli;
    let lhs = poly_add(a, poly_add(b, c, mv), mv);
    let rhs = poly_add(poly_add(a, b, mv), c, mv);
    assert forall|j: int| 0 <= j < lhs.len() implies #[trigger] lhs[j] =~= rhs[j] by {
        let q = mv[j] as int;
        assert forall|i: int| 0 <= i < lhs[j].len() implies #[trigger] lhs[j][i] == rhs[j][i] by {
            let (x, y, z) = (a[j][i] as int, b[j][i] as int, c[j][i] as int);
            vstd::arithmetic::div_mod::lemma_add_mod_noop_right(x, y + z, q);
            vstd::arithmetic::div_mod::lemma_add_mod_noop(x + y, z, q);
            vstd::arithmetic::div_mod::lemma_small_mod(z as nat, q as nat);
            vstd::arithmetic::div_mod::lemma_mod_bound(y + z, q);
            vstd::arithmetic::div_mod::lemma_mod_bound(x + y, q);
        }
    }
    assert(lhs =~= rhs);
}

/// The automorphism `X -> X^k` keeps ring elements in the ring and fixes
/// zero.
pub proof fn lemma_galois_apply_ring(r: RingView, k: int)
    requires
        ring_valid(r),
    ensures
        forall|x: Rows|
            poly_in_ring(r.degree, r.moduli, x) ==> poly_in_ring(
                r.degree,
                r.moduli,
                #[trigger] galois_apply(x, k, r.degree as int, r.moduli),
            ),
        galois_apply(poly_zero(r.degree, r.moduli.len()), k, r.degree as int, r.moduli) == poly_zero(
            r.degree,
            r.moduli.len(),
        ),
{
    let mv = r.moduli;
    let n = r.degree as int;
    let c = galois_inverse(k, n);
    assert(n > 0);
    assert forall|x: Rows| poly_in_ring(r.degree, mv, x) implies poly_in_ring(
        r.degree,
        mv,
        #[trigger] galois_apply(x, k, n, mv),
    ) by {
        let y = galois_apply(x, k, n, mv);
        assert forall|j: int, t: int| 0 <= j < y.len() && 0 <= t < y[j].len() implies #[trigger] y[j][t]
            < mv[j] by {
            let p = (t * c) % (2 * n);
            vstd::arithmetic::div_mod::lemma_mod_bound(t * c, 2 * n);
            if p >= n {
                vstd::arithmetic::div_mod::lemma_mod_bound(0 - x[j][p - n], mv[j] as int);
            }
        }
    }
    let z = poly_zero(r.degree, mv.len());
    let y = galois_apply(z, k, n, mv);
    assert forall|j: int| 0 <= j < y.len() implies #[trigger] y[j] =~= z[j] by {
        vstd::arithmetic::div_mod::lemma_small_mod(0, mv[j] as nat);
        assert forall|t: int| 0 <= t < n implies #[trigger] y[j][t] == 0 by {
            vstd::arithmetic::div_mod::lemma_mod_bound(t * c, 2 * n);
        }
    }
    assert(y =~= z);
}

/// The sum of the images under `X -> X^k` is the image of the sum.
pub proof fn lemma_sum_of_images(r: RingView, xs: Seq<Rows>, k: int)
    requires
        ring_valid(r),
        forall|i: int| 0 <= i < xs.len() ==> poly_in_ring(r.degree, r.moduli, #[trigger] xs[i]),
    ensures
        poly_sum(Seq::new(xs.len(), |i: int| galois_apply(xs[i], k, r.degree as int, r.moduli)), r)
            == galois_apply(poly_sum(xs, r), k, r.degree as int, r.moduli),
{
    let mv = r.moduli;
    let n = r.degree as int;
    let f = |x: Rows| galois_apply(x, k, n, mv);
    lemma_galois_apply_ring(r, k);
    assert forall|x: Rows, y: Rows|
        poly_in_ring(r.degree, mv, x) && poly_in_ring(r.degree, mv, y) implies #[trigger] f(poly_add(x, y, mv))
        == poly_add(f(x), f(y), mv) by {
        lemma_galois_apply_additive(r, x, y, k);
    }
    lemma_sum_of_additive_map(r, xs, f);
    assert(Seq::new(xs.len(), |i: int| f(xs[i])) =~= Seq::new(xs.len(), |i: int| galois_apply(xs[i], k, n, mv)));
}

/// `nega_sum` of the zero row against anything is zero.
proof fn lemma_nega_sum_zero_left(a: Seq<u64>, b: Seq<u64>, k: int, m: int, n: int)
    requires
        a.len() == n,
        b.len() == n,
        forall|i: int| 0 <= i < n ==> #[trigger] a[i] == 0,
        0 <= k < n,
        0 <= m <= n,
    ensures
        nega_sum(a, b, k, m, n) == 0,
    decreases m,
{
    if m > 0 {
        lemma_nega_sum_zero_left(a, b, k, m - 1, n);
        assert(a[m - 1] == 0);
        assert(nega_term(a, b, k, m - 1, n) == 0);
    }
}

/// The sum of the products `xs[i] * b` is the sum times `b`.
pub proof fn lemma_sum_of_products_left(r: RingView, xs: Seq<Rows>, b: Rows)
    requires
        ring_valid(r),
        poly_in_ring(r.degree, r.moduli, b),
        forall|i: int| 0 <= i < xs.len() ==> poly_in_ring(r.degree, r.moduli, #[trigger] xs[i]),
    ensures
        poly_sum(Seq::new(xs.len(), |i: int| poly_mul(xs[i], b, r.moduli)), r) == poly_mul(
            poly_sum(xs, r),
            b,
            r.moduli,
        ),
{
    let mv = r.moduli;
    let n = r.degree as int;
    let f = |x: Rows| poly_mul(x, b, mv);
    assert forall|x: Rows| poly_in_ring(r.degree, mv, x) implies poly_in_ring(r.degree, mv, #[trigger] f(x)) by {
        crate::ring::poly::lemma_mul_stays_in_ring(r, x, b);
    }
    assert forall|x: Rows, y: Rows|
        poly_in_ring(r.degree, mv, x) && poly_in_ring(r.degree, mv, y) implies #[trigger] f(poly_add(x, y, mv))
        == poly_add(f(x), f(y), mv) by {
        lemma_mul_distributes_over_add_left(r, x, y, b);
    }
    let z = poly_zero(r.degree, mv.len());
    let p = poly_mul(z, b, mv);
    assert forall|j: int| 0 <= j < p.len() implies #[trigger] p[j] =~= z[j] by {
        assert forall|k: int| 0 <= k < n implies #[trigger] p[j][k] == 0 by {
            lemma_nega_sum_zero_left(z[j], b[j], k, n, n);
        }
    }
    assert(p =~= z);
    lemma_sum_of_additive_map(r, xs, f);
    assert(Seq::new(xs.len(), |i: int| f(xs[i])) =~= Seq::new(xs.len(), |i: int| poly_mul(xs[i], b, mv)));
}

/// Multiplication is commutative: `a * b == b * a`.
pub proof fn lemma_mul_commutative(r: RingView, a: Rows, b: Rows)
    requires
        ring_valid(r),
        poly_in_ring(r.degree, r.moduli, a),
        poly_in_ring(r.degree, r.moduli, b),
    ensures
        poly_mul(a, b, r.moduli) == poly_mul(b, a, r.moduli),
{
    let mv = r.moduli;
    let lhs = poly_mul(a, b, mv);
    let rhs = poly_mul(b, a, mv);
    assert(r.degree > 0);
    assert forall|j: int| 0 <= j < lhs.len() implies #[trigger] lhs[j] =~= rhs[j] by {
        let q = mv[j];
        assert forall|k: int| 0 <= k < lhs[j].len() implies #[trigger] lhs[j][k] == rhs[j][k] by {
            lemma_row_mul_is_conv(a[j], b[j], q, k);
            lemma_row_mul_is_conv(b[j], a[j], q, k);
            lemma_conv_commutes(a[j], b[j], k);
        }
    }
    assert(lhs =~= rhs);
}

/// Multiplication is associative: `(a * b) * c == a * (b * c)`.
pub proof fn lemma_mul_associative(r: RingView, a: Rows, b: Rows, c: Rows)
    requires
        ring_valid(r),
        poly_in_ring(r.degree, r.moduli, a),
        poly_in_ring(r.degree, r.moduli, b),
        poly_in_ring(r.degree, r.moduli, c),
    ensures
        poly_mul(poly_mul(a, b, r.moduli), c, r.moduli) == poly_mul(a, poly_mul(b, c, r.moduli), r.moduli),
{
    let mv = r.moduli;
    let ab = poly_mul(a, b, mv);
    let bc = poly_mul(b, c, mv);
    let lhs = poly_mul(ab, c, mv);
    let rhs = poly_mul(a, bc, mv);
    assert(r.degree > 0);
    assert forall|j: int| 0 <= j < lhs.len() implies #[trigger] lhs[j] =~= rhs[j] by {
        let q = mv[j];
        assert(ab[j] == row_mul(a[j], b[j], q));
        assert(bc[j] == row_mul(b[j], c[j], q));
        assert forall|k: int| 0 <= k < lhs[j].len() implies #[trigger] lhs[j][k] == rhs[j][k] by {
            lemma_row_mul_is_conv(ab[j], c[j], q, k);
            lemma_row_mul_is_conv(a[j], bc[j], q, k);
            lemma_conv_associates(a[j], b[j], c[j], q, k);
        }
    }
    assert(lhs =~= rhs);
}

/// Negation moves out of a product: `(-x) * u == -(x * u)`.
pub proof fn lemma_mul_neg_left(r: RingView, x: Rows, u: Rows)
    requires
        ring_valid(r),
        poly_in_ring(r.degree, r.moduli, x),
        poly_in_ring(r.degree, r.moduli, u),
    ensures
        poly_mul(poly_neg(x, r.moduli), u, r.moduli) == poly_neg(poly_mul(x, u, r.moduli), r.moduli),
{
    let mv = r.moduli;
    let n = r.degree as int;
    let nx = poly_neg(x, mv);
    let lhs = poly_mul(nx, u, mv);
    let rhs = poly_neg(poly_mul(x, u, mv), mv);
    assert forall|j: int| 0 <= j < lhs.len() implies #[trigger] lhs[j] =~= rhs[j] by {
        let q = mv[j];
        let qi = q as int;
        assert forall|k: int| 0 <= k < lhs[j].len() implies #[trigger] lhs[j][k] == rhs[j][k] by {
            lemma_row_mul_is_conv(nx[j], u[j], q, k);
            lemma_row_mul_is_conv(x[j], u[j], q, k);
            let f = |i: int| x[j][i] * nega_ext(u[j], k - i);
            assert forall|i: int| 0 <= i < n implies #[trigger] (nx[j][i] * nega_ext(u[j], k - i)) % qi == (-1
                * f(i)) % qi by {
                let (w, v) = (x[j][i] as int, nega_ext(u[j], k - i));
                vstd::arithmetic::div_mod::lemma_mul_mod_noop_left(0 - w, v, qi);
                assert((0 - w) * v == -1 * (w * v)) by (nonlinear_arith);
            }
            lemma_sum_congruent(|i: int| nx[j][i] * nega_ext(u[j], k - i), |i: int| -1 * f(i), qi, 0, n);
            lemma_sum_scale(f, -1, 0, n);
            vstd::arithmetic::div_mod::lemma_sub_mod_noop_right(0, conv(x[j], u[j], k), qi);
        }
    }
    assert(lhs =~= rhs);
}

/// Scaling a row factor by `t` scales the product: coefficient `k` of
/// `(t*x) * y` is `t` times that of `x * y`, modulo `q`.
proof fn lemma_row_mul_scale_left(x: Seq<u64>, y: Seq<u64>, t: u64, q: u64, k: int)
    requires
        x.len() == y.len(),
        x.len() > 0,
        q > 0,
        0 <= k < x.len(),
    ensures
        row_mul(row_scale(x, t, q), y, q)[k] == row_scale(row_mul(x, y, q), t, q)[k],
{
    let n = x.len() as int;
    let qi = q as int;
    let sx = row_scale(x, t, q);
    lemma_row_mul_is_conv(sx, y, q, k);
    lemma_row_mul_is_conv(x, y, q, k);
    let f = |i: int| x[i] * nega_ext(y, k - i);
    assert forall|i: int| 0 <= i < n implies #[trigger] (sx[i] * nega_ext(y, k - i)) % qi == ((t as int) * f(
        i,
    )) % qi by {
        let (w, v) = (x[i] as int, nega_ext(y, k - i));
        vstd::arithmetic::div_mod::lemma_mul_mod_noop_left(w * t, v, qi);
        assert((w * t) * v == (t as int) * (w * v)) by (nonlinear_arith);
    }
    lemma_sum_congruent(|i: int| sx[i] * nega_ext(y, k - i), |i: int| (t as int) * f(i), qi, 0, n);
    lemma_sum_scale(f, t as int, 0, n);
    let c = conv(x, y, k);
    vstd::arithmetic::div_mod::lemma_mul_mod_noop_left(c, t as int, qi);
    assert((t as int) * c == c * t) by (nonlinear_arith);
}

/// Scaling a factor by an integer scales the product:
/// `(t*x) * y == t*(x * y)`, and likewise row by row with per-row
/// constants.
pub proof fn lemma_mul_scale_left(r: RingView, x: Rows, y: Rows, t: u64, c: Seq<u64>)
    requires
        ring_valid(r),
        poly_in_ring(r.degree, r.moduli, x),
        poly_in_ring(r.degree, r.moduli, y),
    ensures
        poly_mul(poly_scale(x, t, r.moduli), y, r.moduli) == poly_scale(poly_mul(x, y, r.moduli), t, r.moduli),
        poly_mul(poly_scale_rows(x, c, r.moduli), y, r.moduli) == poly_scale_rows(
            poly_mul(x, y, r.moduli),
            c,
            r.moduli,
        ),
{
    let mv = r.moduli;
    let l1 = poly_mul(poly_scale(x, t, mv), y, mv);
    let r1 = poly_scale(poly_mul(x, y, mv), t, mv);
    let l2 = poly_mul(poly_scale_rows(x, c, mv), y, mv);
    let r2 = poly_scale_rows(poly_mul(x, y, mv), c, mv);
    assert(r.degree > 0);
    assert forall|j: int| 0 <= j < mv.len() implies #[trigger] l1[j] =~= r1[j] by {
        assert forall|k: int| 0 <= k < r.degree implies #[trigger] l1[j][k] == r1[j][k] by {
            lemma_row_mul_scale_left(x[j], y[j], t, mv[j], k);
        }
    }
    assert forall|j: int| 0 <= j < mv.len() implies #[trigger] l2[j] =~= r2[j] by {
        assert forall|k: int| 0 <= k < r.degree implies #[trigger] l2[j][k] == r2[j][k] by {
            lemma_row_mul_scale_left(x[j], y[j], c[j], mv[j], k);
        }
    }
    assert(l1 =~= r1);
    assert(l2 =~= r2);
}

/// Subtraction is addition of the negation.
pub proof fn lemma_sub_is_add_neg(r: RingView, x: Rows, y: Rows)
    requires
        ring_valid(r),
        poly_in_ring(r.degree, r.moduli, x),
        poly_in_ring(r.degree, r.moduli, y),
    ensures
        poly_sub(x, y, r.moduli) == poly_add(x, poly_neg(y, r.moduli), r.moduli),
{
    let mv = r.moduli;
    let lhs = poly_sub(x, y, mv);
    let rhs = poly_add(x, poly_neg(y, mv), mv);
    assert forall|j: int| 0 <= j < lhs.len() implies #[trigger] lhs[j] =~= rhs[j] by {
        let q = mv[j] as int;
        assert forall|i: int| 0 <= i < lhs[j].len() implies #[trigger] lhs[j][i] == rhs[j][i] by {
            let (u, v) = (x[j][i] as int, y[j][i] as int);
            vstd::arithmetic::div_mod::lemma_add_mod_noop_right(u, 0 - v, q);
            vstd::arithmetic::div_mod::lemma_mod_bound(0 - v, q);
        }
    }
    assert(lhs =~= rhs);
}

/// Multiplication distributes over subtraction on the left:
/// `(x - y) * u == x*u - y*u`.
pub proof fn lemma_mul_distributes_over_sub_left(r: RingView, x: Rows, y: Rows, u: Rows)
    requires
        ring_valid(r),
        poly_in_ring(r.degree, r.moduli, x),
        poly_in_ring(r.degree, r.moduli, y),
        poly_in_ring(r.degree, r.moduli, u),
    ensures
        poly_mul(poly_sub(x, y, r.moduli), u, r.moduli) == poly_sub(
            poly_mul(x, u, r.moduli),
            poly_mul(y, u, r.moduli),
            r.moduli,
        ),
{
    let mv = r.moduli;
    crate::ring::poly::lemma_unary_ops_stay_in_ring(r, y, 0);
    lemma_sub_is_add_neg(r, x, y);
    lemma_mul_distributes_over_add_left(r, x, poly_neg(y, mv), u);
    lemma_mul_neg_left(r, y, u);
    crate::ring::poly::lemma_mul_stays_in_ring(r, x, u);
    crate::ring::poly::lemma_mul_stays_in_ring(r, y, u);
    lemma_sub_is_add_neg(r, poly_mul(x, u, mv), poly_mul(y, u, mv));
}

/// Multiplication distributes over subtraction on the right:
/// `u * (x - y) == u*x - u*y`.
pub proof fn lemma_mul_distributes_over_sub(r: RingView, u: Rows, x: Rows, y: Rows)
    requires
        ring_valid(r),
        poly_in_ring(r.degree, r.moduli, x),
        poly_in_ring(r.degree, r.moduli, y),
        poly_in_ring(r.degree, r.moduli, u),
    ensures
        poly_mul(u, poly_sub(x, y, r.moduli), r.moduli) == poly_sub(
            poly_mul(u, x, r.moduli),
            poly_mul(u, y, r.moduli),
            r.moduli,
        ),
{
    let mv = r.moduli;
    crate::ring::poly::lemma_ring_ops_stay_in_ring(r, x, y);
    lemma_mul_commutative(r, u, poly_sub(x, y, mv));
    lemma_mul_distributes_over_sub_left(r, x, y, u);
    lemma_mul_commutative(r, x, u);
    lemma_mul_commutative(r, y, u);
}

/// Scaling by one leaves a ring element unchanged.
pub proof fn lemma_scale_by_one(r: RingView, a: Rows)
    requires
        poly_in_ring(r.degree, r.moduli, a),
    ensures
        crate::ring::poly::poly_scale(a, 1, r.moduli) == a,
{
    let m = r.moduli;
    let scaled = crate::ring::poly::poly_scale(a, 1, m);
    assert forall|j: int| 0 <= j < a.len() implies #[trigger] scaled[j] =~= a[j] by {
        assert forall|i: int| 0 <= i < a[j].len() implies #[trigger] scaled[j][i] == a[j][i] by {
            vstd::arithmetic::div_mod::lemma_small_mod(a[j][i] as nat, m[j] as nat);
        }
    }
    assert(scaled =~= a);
}

/// Addition of ring elements commutes.
pub proof fn lemma_add_commutative(r: RingView, a: Rows, b: Rows)
    requires
        poly_in_ring(r.degree, r.moduli, a),
        poly_in_ring(r.degree, r.moduli, b),
    ensures
        poly_add(a, b, r.moduli) == poly_add(b, a, r.moduli),
{
    let (x, y) = (poly_add(a, b, r.moduli), poly_add(b, a, r.moduli));
    assert forall|j: int| 0 <= j < x.len() implies #[trigger] x[j] =~= y[j] by {}
    assert(x =~= y);
}

/// Adding zero leaves a ring element unchanged.
pub proof fn lemma_add_zero(r: RingView, a: Rows)
    requires
        poly_in_ring(r.degree, r.moduli, a),
    ensures
        poly_add(a, poly_zero(r.degree, r.moduli.len()), r.moduli) == a,
{
    let mv = r.moduli;
    let x = poly_add(a, poly_zero(r.degree, mv.len()), mv);
    assert forall|j: int| 0 <= j < x.len() implies #[trigger] x[j] =~= a[j] by {
        assert forall|i: int| 0 <= i < x[j].len() implies #[trigger] x[j][i] == a[j][i] by {
            vstd::arithmetic::div_mod::lemma_small_mod(a[j][i] as nat, mv[j] as nat);
        }
    }
    assert(x =~= a);
}

} // verus!
