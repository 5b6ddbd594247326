//! How decryption noise grows through the evaluator's additions and
//! subtractions, measured coefficient by coefficient as the distance from
//! zero modulo each row's modulus.

use vstd::prelude::*;

use crate::lattice::rlwe::ciphertext::{ciphertext_add, ciphertext_sub, components_in_ring};
use crate::lattice::rlwe::decryptor::{phase, poly_pow};
use crate::lattice::rlwe::homomorphism::{lemma_phase_in_ring, lemma_phase_of_sum, lemma_pow_in_ring};
use crate::lattice::noise::{spec_mul_noise_bound, spec_ring_product_bound};
use crate::lattice::rlwe::evaluator::ciphertext_mul;
use crate::lattice::rlwe::homomorphism::lemma_phase_of_product;
use crate::lattice::rlwe::encryptor::{lemma_pk_encryption_phase, lemma_sk_encryption_phase, pk_encryption, sk_encryption};
use crate::lattice::rlwe::keygen::public_key_of;
use crate::ring::algebra::{
    lemma_add_associative, lemma_add_sub_interchange, lemma_mul_distributes_over_add, lemma_mul_distributes_over_add_left,
    lemma_mul_distributes_over_sub_left, lemma_sub_add_cancel,
};
use crate::ring::poly::{
    lemma_mul_stays_in_ring, lemma_ring_ops_stay_in_ring, nega_sum, nega_term, poly_add, poly_in_ring, poly_mul, poly_sub,
    ring_valid, RingView, Rows,
};

verus! {

/// The distance of `v` from zero modulo `q`: `min(v mod q, q - v mod q)`.
pub open spec fn centered_distance(v: int, q: int) -> int {
    let w = v % q;
    if w <= q - w {
        w
    } else {
        q - w
    }
}

/// Every coefficient of `p` is within `bound` of the matching coefficient
/// of `m`, modulo its row's modulus.
pub open spec fn within(p: Rows, m: Rows, bound: int, moduli: Seq<u64>) -> bool {
    forall|j: int, i: int|
        0 <= j < moduli.len() && 0 <= i < p[j].len() ==> #[trigger] centered_distance(p[j][i] - m[j][i], moduli[j] as int)
            <= bound
}

/// Distances modulo `q` obey the triangle inequality, for sums and for
/// differences.
proof fn lemma_distance_triangle(a: int, b: int, q: int)
    requires
        q > 0,
    ensures
        centered_distance(a + b, q) <= centered_distance(a, q) + centered_distance(b, q),
        centered_distance(a - b, q) <= centered_distance(a, q) + centered_distance(b, q),
{
    let (u, v) = (a % q, b % q);
    vstd::arithmetic::div_mod::lemma_mod_bound(a, q);
    vstd::arithmetic::div_mod::lemma_mod_bound(b, q);
    vstd::arithmetic::div_mod::lemma_add_mod_noop(a, b, q);
    vstd::arithmetic::div_mod::lemma_sub_mod_noop(a, b, q);
    if u + v < q {
        vstd::arithmetic::div_mod::lemma_small_mod((u + v) as nat, q as nat);
    } else {
        vstd::arithmetic::div_mod::lemma_mod_sub_multiples_vanish(u + v, q);
        vstd::arithmetic::div_mod::lemma_small_mod((u + v - q) as nat, q as nat);
    }
    if u - v >= 0 {
        vstd::arithmetic::div_mod::lemma_small_mod((u - v) as nat, q as nat);
    } else {
        vstd::arithmetic::div_mod::lemma_mod_add_multiples_vanish(u - v, q);
        vstd::arithmetic::div_mod::lemma_small_mod((u - v + q) as nat, q as nat);
    }
}

/// Residues whose differences are congruent have the same distance.
proof fn lemma_distance_of_residues(x: int, y: int, q: int)
    requires
        q > 0,
        x % q == y % q,
    ensures
        centered_distance(x, q) == centered_distance(y, q),
{
}

/// Decryption is subtractive: the phase of the componentwise difference of
/// two ciphertexts of the same size is the difference of their phases.
pub proof fn lemma_phase_of_difference(r: RingView, c: Seq<Rows>, d: Seq<Rows>, s: Rows, m: nat)
    requires
        ring_valid(r),
        c.len() == d.len(),
        1 <= m <= c.len(),
        components_in_ring(r, c),
        components_in_ring(r, d),
        poly_in_ring(r.degree, r.moduli, s),
    ensures
        phase(ciphertext_sub(c, d, r.moduli), s, r.moduli, m) == poly_sub(
            phase(c, s, r.moduli, m),
            phase(d, s, r.moduli, m),
            r.moduli,
        ),
    decreases m,
{
    let mv = r.moduli;
    let diff = ciphertext_sub(c, d, mv);
    if m > 1 {
        let k = (m - 1) as nat;
        lemma_phase_of_difference(r, c, d, s, k);
        let pw = poly_pow(s, k, mv);
        lemma_pow_in_ring(r, s, k);
        lemma_mul_distributes_over_sub_left(r, c[m - 1], d[m - 1], pw);
        lemma_phase_in_ring(r, c, s, k);
        lemma_phase_in_ring(r, d, s, k);
        lemma_mul_stays_in_ring(r, c[m - 1], pw);
        lemma_mul_stays_in_ring(r, d[m - 1], pw);
        lemma_add_sub_interchange(
            r,
            phase(c, s, mv, k),
            phase(d, s, mv, k),
            poly_mul(c[m - 1], pw, mv),
            poly_mul(d[m - 1], pw, mv),
        );
        assert(diff[m - 1] == poly_sub(c[m - 1], d[m - 1], mv));
    } else {
        assert(diff[0] == poly_sub(c[0], d[0], mv));
    }
}

/// Noise adds up under addition and subtraction of ring elements: when `x`
/// is within `bx` of `mx` and `y` within `by` of `my`, `x + y` is within
/// `bound_x + bound_y` of `mx + my`, and `x - y` of `mx - my`.
pub proof fn lemma_within_sum_and_difference(
    r: RingView,
    x: Rows,
    mx: Rows,
    bound_x: int,
    y: Rows,
    my: Rows,
    bound_y: int,
)
    requires
        ring_valid(r),
        poly_in_ring(r.degree, r.moduli, x),
        poly_in_ring(r.degree, r.moduli, mx),
        poly_in_ring(r.degree, r.moduli, y),
        poly_in_ring(r.degree, r.moduli, my),
        within(x, mx, bound_x, r.moduli),
        within(y, my, bound_y, r.moduli),
    ensures
        within(poly_add(x, y, r.moduli), poly_add(mx, my, r.moduli), bound_x + bound_y, r.moduli),
        within(poly_sub(x, y, r.moduli), poly_sub(mx, my, r.moduli), bound_x + bound_y, r.moduli),
{
    let m = r.moduli;
    let (s, ms) = (poly_add(x, y, m), poly_add(mx, my, m));
    let (d, md) = (poly_sub(x, y, m), poly_sub(mx, my, m));
    assert forall|j: int, i: int| 0 <= j < m.len() && 0 <= i < s[j].len() implies #[trigger] centered_distance(
        s[j][i] - ms[j][i],
        m[j] as int,
    ) <= bound_x + bound_y by {
        let q = m[j] as int;
        assert(crate::ring::arith::modulus_in_range(q));
        let (a, b) = (x[j][i] - mx[j][i], y[j][i] - my[j][i]);
        assert(centered_distance(a, q) <= bound_x);
        assert(centered_distance(b, q) <= bound_y);
        lemma_distance_triangle(a, b, q);
        let (xs, ys) = (x[j][i] + y[j][i], mx[j][i] + my[j][i]);
        vstd::arithmetic::div_mod::lemma_sub_mod_noop(xs, ys, q);
        vstd::arithmetic::div_mod::lemma_mod_twice(xs - ys, q);
        assert(s[j][i] == xs % q);
        assert(ms[j][i] == ys % q);
        assert((s[j][i] - ms[j][i]) % q == (xs - ys) % q);
        assert(xs - ys == a + b);
        lemma_distance_of_residues(s[j][i] - ms[j][i], a + b, q);
    }
    assert forall|j: int, i: int| 0 <= j < m.len() && 0 <= i < d[j].len() implies #[trigger] centered_distance(
        d[j][i] - md[j][i],
        m[j] as int,
    ) <= bound_x + bound_y by {
        let q = m[j] as int;
        assert(crate::ring::arith::modulus_in_range(q));
        let (a, b) = (x[j][i] - mx[j][i], y[j][i] - my[j][i]);
        assert(centered_distance(a, q) <= bound_x);
        assert(centered_distance(b, q) <= bound_y);
        lemma_distance_triangle(a, b, q);
        let (xs, ys) = (x[j][i] - y[j][i], mx[j][i] - my[j][i]);
        vstd::arithmetic::div_mod::lemma_sub_mod_noop(xs, ys, q);
        assert(d[j][i] == xs % q);
        assert(md[j][i] == ys % q);
        assert((d[j][i] - md[j][i]) % q == (xs - ys) % q);
        assert(xs - ys == a - b);
        lemma_distance_of_residues(d[j][i] - md[j][i], a - b, q);
    }
}

/// Homomorphic addition and subtraction add the noise bounds: when `c`
/// decrypts under `s` to within `bc` of `mc` and `d` to within `bd` of
/// `md`, their componentwise sum decrypts to within `bc + bd` of `mc + md`
/// and their difference to within `bc + bd` of `mc - md`.
pub proof fn lemma_evaluator_noise_adds(
    r: RingView,
    c: Seq<Rows>,
    d: Seq<Rows>,
    s: Rows,
    mc: Rows,
    md: Rows,
    bc: int,
    bd: int,
)
    requires
        ring_valid(r),
        c.len() == d.len(),
        c.len() >= 1,
        components_in_ring(r, c),
        components_in_ring(r, d),
        poly_in_ring(r.degree, r.moduli, s),
        poly_in_ring(r.degree, r.moduli, mc),
        poly_in_ring(r.degree, r.moduli, md),
        within(phase(c, s, r.moduli, c.len()), mc, bc, r.moduli),
        within(phase(d, s, r.moduli, d.len()), md, bd, r.moduli),
    ensures
        within(
            phase(ciphertext_add(c, d, r.moduli), s, r.moduli, c.len()),
            poly_add(mc, md, r.moduli),
            bc + bd,
            r.moduli,
        ),
        within(
            phase(ciphertext_sub(c, d, r.moduli), s, r.moduli, c.len()),
            poly_sub(mc, md, r.moduli),
            bc + bd,
            r.moduli,
        ),
{
    let m = r.moduli;
    lemma_phase_of_sum(r, c, d, s, c.len());
    lemma_phase_of_difference(r, c, d, s, c.len());
    lemma_phase_in_ring(r, c, s, c.len());
    lemma_phase_in_ring(r, d, s, d.len());
    lemma_within_sum_and_difference(r, phase(c, s, m, c.len()), mc, bc, phase(d, s, m, d.len()), md, bd);
}

/// Adding an error whose every coefficient is within `bound` of zero moves
/// a ring element by at most `bound`: `pt + e` is within `bound` of `pt`.
pub proof fn lemma_within_after_adding(r: RingView, pt: Rows, e: Rows, bound: int)
    requires
        ring_valid(r),
        poly_in_ring(r.degree, r.moduli, pt),
        poly_in_ring(r.degree, r.moduli, e),
        forall|j: int, i: int|
            0 <= j < r.moduli.len() && 0 <= i < r.degree ==> #[trigger] centered_distance(e[j][i] as int, r.moduli[j] as int)
                <= bound,
    ensures
        within(poly_add(pt, e, r.moduli), pt, bound, r.moduli),
{
    let m = r.moduli;
    let x = poly_add(pt, e, m);
    assert forall|j: int, i: int| 0 <= j < m.len() && 0 <= i < x[j].len() implies #[trigger] centered_distance(
        x[j][i] - pt[j][i],
        m[j] as int,
    ) <= bound by {
        let q = m[j] as int;
        assert(crate::ring::arith::modulus_in_range(q));
        let (a, b) = (pt[j][i] as int, e[j][i] as int);
        assert(x[j][i] == (a + b) % q);
        vstd::arithmetic::div_mod::lemma_sub_mod_noop(a + b, a, q);
        vstd::arithmetic::div_mod::lemma_small_mod(a as nat, q as nat);
        vstd::arithmetic::div_mod::lemma_mod_twice(a + b, q);
        assert((x[j][i] - a) % q == b % q);
        assert(centered_distance(e[j][i] as int, q) <= bound);
    }
}

/// Every coefficient of `p` is within `bound` of zero modulo its row's
/// modulus.
pub open spec fn coefficients_within(p: Rows, bound: int, moduli: Seq<u64>) -> bool {
    forall|j: int, i: int|
        0 <= j < moduli.len() && 0 <= i < p[j].len() ==> #[trigger] centered_distance(p[j][i] as int, moduli[j] as int)
            <= bound
}

/// The distance from zero is at most the absolute value, and at most half
/// the modulus.
proof fn lemma_distance_at_most_abs(z: int, q: int)
    requires
        q > 0,
    ensures
        0 <= centered_distance(z, q) <= (if z >= 0 { z } else { -z }),
        2 * centered_distance(z, q) <= q,
{
    vstd::arithmetic::div_mod::lemma_mod_bound(z, q);
    if 0 <= z < q {
        vstd::arithmetic::div_mod::lemma_small_mod(z as nat, q as nat);
    } else if -q < z < 0 {
        vstd::arithmetic::div_mod::lemma_mod_add_multiples_vanish(z, q);
        vstd::arithmetic::div_mod::lemma_small_mod((z + q) as nat, q as nat);
    }
}

/// The distance of a product is at most the product of the distances.
proof fn lemma_distance_of_product(x: int, y: int, q: int)
    requires
        q > 0,
    ensures
        centered_distance(x * y, q) <= centered_distance(x, q) * centered_distance(y, q),
        centered_distance(-x, q) == centered_distance(x, q),
{
    vstd::arithmetic::div_mod::lemma_mod_bound(x, q);
    vstd::arithmetic::div_mod::lemma_mod_bound(y, q);
    let (u, v) = (x % q, y % q);
    let xr = if u <= q - u { u } else { u - q };
    let yr = if v <= q - v { v } else { v - q };
    assert(xr % q == x % q) by {
        vstd::arithmetic::div_mod::lemma_mod_twice(x, q);
        if u > q - u {
            vstd::arithmetic::div_mod::lemma_mod_sub_multiples_vanish(u, q);
        }
    }
    assert(yr % q == y % q) by {
        vstd::arithmetic::div_mod::lemma_mod_twice(y, q);
        if v > q - v {
            vstd::arithmetic::div_mod::lemma_mod_sub_multiples_vanish(v, q);
        }
    }
    vstd::arithmetic::div_mod::lemma_mul_mod_noop(x, y, q);
    vstd::arithmetic::div_mod::lemma_mul_mod_noop(xr, yr, q);
    assert((x * y) % q == (xr * yr) % q);
    lemma_distance_at_most_abs(xr * yr, q);
    let (cx, cy) = (centered_distance(x, q), centered_distance(y, q));
    assert(cx == (if xr >= 0 { xr } else { -xr }));
    assert(cy == (if yr >= 0 { yr } else { -yr }));
    assert((if xr * yr >= 0 { xr * yr } else { -(xr * yr) }) == cx * cy) by (nonlinear_arith)
        requires
            cx == (if xr >= 0 { xr } else { -xr }),
            cy == (if yr >= 0 { yr } else { -yr }),
    ;
    // negation
    lemma_distance_triangle(0, x, q);
    lemma_distance_triangle(0, -x, q);
    assert(0 - x == -x);
    assert(0 - (-x) == x);
    assert(centered_distance(0, q) == 0) by {
        vstd::arithmetic::div_mod::lemma_small_mod(0, q as nat);
    }
}

/// The first `m` terms of a negacyclic product coefficient are within
/// `m * bound_a * bound_b` of zero.
proof fn lemma_nega_sum_within(a: Seq<u64>, b: Seq<u64>, k: int, m: int, n: int, q: int, bound_a: int, bound_b: int)
    requires
        q > 0,
        0 <= k < n,
        0 <= m <= n,
        a.len() == n,
        b.len() == n,
        bound_a >= 0,
        bound_b >= 0,
        forall|i: int| 0 <= i < n ==> #[trigger] centered_distance(a[i] as int, q) <= bound_a,
        forall|i: int| 0 <= i < n ==> #[trigger] centered_distance(b[i] as int, q) <= bound_b,
    ensures
        centered_distance(nega_sum(a, b, k, m, n), q) <= m * bound_a * bound_b,
    decreases m,
{
    if m <= 0 {
        vstd::arithmetic::div_mod::lemma_small_mod(0, q as nat);
    } else {
        lemma_nega_sum_within(a, b, k, m - 1, n, q, bound_a, bound_b);
        let i = m - 1;
        let bj = if i <= k { k - i } else { k + n - i };
        let prod = a[i] * b[bj];
        lemma_distance_of_product(a[i] as int, b[bj] as int, q);
        let (ca, cb) = (centered_distance(a[i] as int, q), centered_distance(b[bj] as int, q));
        lemma_distance_at_most_abs(a[i] as int, q);
        lemma_distance_at_most_abs(b[bj] as int, q);
        assert(ca * cb <= bound_a * bound_b) by (nonlinear_arith)
            requires
                0 <= ca <= bound_a,
                0 <= cb <= bound_b,
        ;
        assert(centered_distance(nega_term(a, b, k, i, n), q) <= bound_a * bound_b) by {
            if i <= k {
                assert(nega_term(a, b, k, i, n) == prod);
            } else {
                assert(nega_term(a, b, k, i, n) == -prod);
                lemma_distance_of_product(prod, 1, q);
            }
        }
        lemma_distance_triangle(nega_sum(a, b, k, m - 1, n), nega_term(a, b, k, i, n), q);
        assert((m - 1) * bound_a * bound_b + bound_a * bound_b == m * bound_a * bound_b) by (nonlinear_arith);
    }
}

/// The coefficients of a ring product are within `degree * bound_a *
/// bound_b` of zero when those of its factors are within `bound_a` and
/// `bound_b`.
pub proof fn lemma_product_within(r: RingView, x: Rows, y: Rows, bound_a: int, bound_b: int)
    requires
        ring_valid(r),
        poly_in_ring(r.degree, r.moduli, x),
        poly_in_ring(r.degree, r.moduli, y),
        bound_a >= 0,
        bound_b >= 0,
        coefficients_within(x, bound_a, r.moduli),
        coefficients_within(y, bound_b, r.moduli),
    ensures
        coefficients_within(poly_mul(x, y, r.moduli), spec_ring_product_bound(r.degree as int, bound_a, bound_b), r.moduli),
{
    let m = r.moduli;
    let p = poly_mul(x, y, m);
    let n = r.degree as int;
    assert forall|j: int, k: int| 0 <= j < m.len() && 0 <= k < p[j].len() implies #[trigger] centered_distance(
        p[j][k] as int,
        m[j] as int,
    ) <= spec_ring_product_bound(n, bound_a, bound_b) by {
        let q = m[j] as int;
        assert(crate::ring::arith::modulus_in_range(q));
        assert forall|i: int| 0 <= i < n implies #[trigger] centered_distance(x[j][i] as int, q) <= bound_a by {}
        assert forall|i: int| 0 <= i < n implies #[trigger] centered_distance(y[j][i] as int, q) <= bound_b by {}
        lemma_nega_sum_within(x[j], y[j], k, n, n, q, bound_a, bound_b);
        let t = nega_sum(x[j], y[j], k, n, n);
        assert(p[j][k] == (t % q) as u64);
        vstd::arithmetic::div_mod::lemma_mod_bound(t, q);
        vstd::arithmetic::div_mod::lemma_mod_twice(t, q);
        assert(n * bound_a * bound_b == spec_ring_product_bound(n, bound_a, bound_b));
    }
}

/// The coefficients of sums and differences of ring elements are within the
/// sum of the bounds.
pub proof fn lemma_sum_within(r: RingView, x: Rows, y: Rows, bound_x: int, bound_y: int)
    requires
        ring_valid(r),
        poly_in_ring(r.degree, r.moduli, x),
        poly_in_ring(r.degree, r.moduli, y),
        coefficients_within(x, bound_x, r.moduli),
        coefficients_within(y, bound_y, r.moduli),
    ensures
        coefficients_within(poly_add(x, y, r.moduli), bound_x + bound_y, r.moduli),
        coefficients_within(poly_sub(x, y, r.moduli), bound_x + bound_y, r.moduli),
{
    let m = r.moduli;
    let (s, d) = (poly_add(x, y, m), poly_sub(x, y, m));
    assert forall|j: int, i: int| 0 <= j < m.len() && 0 <= i < s[j].len() implies #[trigger] centered_distance(
        s[j][i] as int,
        m[j] as int,
    ) <= bound_x + bound_y by {
        let q = m[j] as int;
        assert(crate::ring::arith::modulus_in_range(q));
        lemma_distance_triangle(x[j][i] as int, y[j][i] as int, q);
        vstd::arithmetic::div_mod::lemma_mod_twice(x[j][i] + y[j][i], q);
    }
    assert forall|j: int, i: int| 0 <= j < m.len() && 0 <= i < d[j].len() implies #[trigger] centered_distance(
        d[j][i] as int,
        m[j] as int,
    ) <= bound_x + bound_y by {
        let q = m[j] as int;
        assert(crate::ring::arith::modulus_in_range(q));
        lemma_distance_triangle(x[j][i] as int, y[j][i] as int, q);
        vstd::arithmetic::div_mod::lemma_mod_twice(x[j][i] - y[j][i], q);
    }
}

/// A fresh secret-key encryption decrypts to within its error's bound of
/// the plaintext.
pub proof fn lemma_sk_encryption_decrypts_within(r: RingView, pt: Rows, s: Rows, a: Rows, e: Rows, bound: int)
    requires
        ring_valid(r),
        poly_in_ring(r.degree, r.moduli, pt),
        poly_in_ring(r.degree, r.moduli, s),
        poly_in_ring(r.degree, r.moduli, a),
        poly_in_ring(r.degree, r.moduli, e),
        coefficients_within(e, bound, r.moduli),
    ensures
        within(phase(sk_encryption(pt, s, a, e, r.moduli), s, r.moduli, 2), pt, bound, r.moduli),
{
    lemma_sk_encryption_phase(r, pt, s, a, e);
    assert forall|j: int, i: int| 0 <= j < r.moduli.len() && 0 <= i < r.degree implies #[trigger] centered_distance(
        e[j][i] as int,
        r.moduli[j] as int,
    ) <= bound by {}
    lemma_within_after_adding(r, pt, e, bound);
}

/// A fresh public-key encryption decrypts to within
/// `degree*e + e + degree*e` of the plaintext, for ternary secret and mask
/// and errors within `e`: the noise `e1 + (e2*s - e_pk*u)`.
pub proof fn lemma_pk_encryption_decrypts_within(
    r: RingView,
    pt: Rows,
    s: Rows,
    a: Rows,
    e: Rows,
    u: Rows,
    e1: Rows,
    e2: Rows,
    bound: int,
)
    requires
        ring_valid(r),
        bound >= 0,
        poly_in_ring(r.degree, r.moduli, pt),
        poly_in_ring(r.degree, r.moduli, s),
        poly_in_ring(r.degree, r.moduli, a),
        poly_in_ring(r.degree, r.moduli, e),
        poly_in_ring(r.degree, r.moduli, u),
        poly_in_ring(r.degree, r.moduli, e1),
        poly_in_ring(r.degree, r.moduli, e2),
        coefficients_within(s, 1, r.moduli),
        coefficients_within(u, 1, r.moduli),
        coefficients_within(e, bound, r.moduli),
        coefficients_within(e1, bound, r.moduli),
        coefficients_within(e2, bound, r.moduli),
    ensures
        ({
            let m = r.moduli;
            let (b, a_pk) = public_key_of(s, a, e, m);
            within(
                phase(pk_encryption(pt, b, a_pk, u, e1, e2, m), s, m, 2),
                pt,
                spec_ring_product_bound(r.degree as int, 1, bound) + bound + spec_ring_product_bound(
                    r.degree as int,
                    1,
                    bound,
                ),
                m,
            )
        }),
{
    let m = r.moduli;
    let n = r.degree as int;
    lemma_pk_encryption_phase(r, pt, s, a, e, u, e1, e2);
    let z = poly_mul(e2, s, m);
    let y = poly_mul(e, u, m);
    lemma_mul_stays_in_ring(r, e2, s);
    lemma_mul_stays_in_ring(r, e, u);
    lemma_product_within(r, e2, s, bound, 1);
    lemma_product_within(r, e, u, bound, 1);
    assert(spec_ring_product_bound(n, bound, 1) == spec_ring_product_bound(n, 1, bound)) by (nonlinear_arith);
    let zy = poly_sub(z, y, m);
    lemma_sum_within(r, z, y, spec_ring_product_bound(n, 1, bound), spec_ring_product_bound(n, 1, bound));
    lemma_ring_ops_stay_in_ring(r, z, y);
    lemma_sum_within(r, e1, zy, bound, 2 * spec_ring_product_bound(n, 1, bound));
    lemma_ring_ops_stay_in_ring(r, e1, zy);
    let noise = poly_add(e1, zy, m);
    lemma_add_associative(r, pt, e1, zy);
    let total = spec_ring_product_bound(n, 1, bound) + bound + spec_ring_product_bound(n, 1, bound);
    assert(coefficients_within(noise, total, m));
    assert forall|j: int, i: int| 0 <= j < m.len() && 0 <= i < r.degree implies #[trigger] centered_distance(
        noise[j][i] as int,
        m[j] as int,
    ) <= total by {}
    lemma_within_after_adding(r, pt, noise, total);
}

/// Being within `bound` of `m` puts every coefficient of `x - m` within
/// `bound` of zero.
pub proof fn lemma_difference_within(r: RingView, x: Rows, m: Rows, bound: int)
    requires
        poly_in_ring(r.degree, r.moduli, x),
        poly_in_ring(r.degree, r.moduli, m),
        within(x, m, bound, r.moduli),
    ensures
        coefficients_within(poly_sub(x, m, r.moduli), bound, r.moduli),
{
    let mv = r.moduli;
    let d = poly_sub(x, m, mv);
    assert forall|j: int, i: int| 0 <= j < mv.len() && 0 <= i < d[j].len() implies #[trigger] centered_distance(
        d[j][i] as int,
        mv[j] as int,
    ) <= bound by {
        let q = mv[j] as int;
        assert(x[j].len() == r.degree);
        assert(centered_distance(x[j][i] - m[j][i], q) <= bound);
        vstd::arithmetic::div_mod::lemma_mod_twice(x[j][i] - m[j][i], q);
    }
}

/// Homomorphic multiplication bounds the noise of the product: when `a`
/// and `b` decrypt under `s` to within `noise_bound` of plaintexts `ma` and
/// `mb` whose coefficients are within `plaintext_bound` of zero, their
/// tensor product decrypts to within
/// `2*degree*plaintext_bound*noise_bound + degree*noise_bound^2` of
/// `ma * mb`: the noise `ma*eb + ea*mb + ea*eb`.
pub proof fn lemma_evaluator_mul_noise(
    r: RingView,
    a: Seq<Rows>,
    b: Seq<Rows>,
    s: Rows,
    ma: Rows,
    mb: Rows,
    plaintext_bound: int,
    noise_bound: int,
)
    requires
        ring_valid(r),
        a.len() == 2,
        b.len() == 2,
        components_in_ring(r, a),
        components_in_ring(r, b),
        poly_in_ring(r.degree, r.moduli, s),
        poly_in_ring(r.degree, r.moduli, ma),
        poly_in_ring(r.degree, r.moduli, mb),
        plaintext_bound >= 0,
        noise_bound >= 0,
        coefficients_within(ma, plaintext_bound, r.moduli),
        coefficients_within(mb, plaintext_bound, r.moduli),
        within(phase(a, s, r.moduli, 2), ma, noise_bound, r.moduli),
        within(phase(b, s, r.moduli, 2), mb, noise_bound, r.moduli),
    ensures
        within(
            phase(ciphertext_mul(a, b, r), s, r.moduli, 3),
            poly_mul(ma, mb, r.moduli),
            spec_mul_noise_bound(r.degree as int, plaintext_bound, noise_bound),
            r.moduli,
        ),
{
    let m = r.moduli;
    let n = r.degree as int;
    let (pa, pb) = (phase(a, s, m, 2), phase(b, s, m, 2));
    lemma_phase_of_product(r, a, b, s);
    lemma_phase_in_ring(r, a, s, 2);
    lemma_phase_in_ring(r, b, s, 2);
    let (ea, eb) = (poly_sub(pa, ma, m), poly_sub(pb, mb, m));
    lemma_ring_ops_stay_in_ring(r, pa, ma);
    lemma_ring_ops_stay_in_ring(r, pb, mb);
    lemma_difference_within(r, pa, ma, noise_bound);
    lemma_difference_within(r, pb, mb, noise_bound);
    // pa == ma + ea, pb == mb + eb
    lemma_sub_add_cancel(r, pa, ma);
    lemma_sub_add_cancel(r, pb, mb);
    assert(poly_add(ea, ma, m) =~= poly_add(ma, ea, m)) by {
        assert forall|j: int| 0 <= j < m.len() implies #[trigger] poly_add(ea, ma, m)[j] =~= poly_add(ma, ea, m)[j] by {}
    }
    assert(poly_add(eb, mb, m) =~= poly_add(mb, eb, m)) by {
        assert forall|j: int| 0 <= j < m.len() implies #[trigger] poly_add(eb, mb, m)[j] =~= poly_add(mb, eb, m)[j] by {}
    }
    // (ma + ea) * (mb + eb) == (ma*mb + ma*eb) + (ea*mb + ea*eb)
    lemma_mul_distributes_over_add_left(r, ma, ea, pb);
    lemma_mul_distributes_over_add(r, ma, mb, eb);
    lemma_mul_distributes_over_add(r, ea, mb, eb);
    let (mm, me, em, ee) = (poly_mul(ma, mb, m), poly_mul(ma, eb, m), poly_mul(ea, mb, m), poly_mul(ea, eb, m));
    lemma_mul_stays_in_ring(r, ma, mb);
    lemma_mul_stays_in_ring(r, ma, eb);
    lemma_mul_stays_in_ring(r, ea, mb);
    lemma_mul_stays_in_ring(r, ea, eb);
    lemma_ring_ops_stay_in_ring(r, em, ee);
    lemma_add_associative(r, mm, me, poly_add(em, ee, m));
    let noise = poly_add(me, poly_add(em, ee, m), m);
    assert(poly_mul(pa, pb, m) == poly_add(mm, noise, m));
    // the bounds
    lemma_product_within(r, ma, eb, plaintext_bound, noise_bound);
    lemma_product_within(r, ea, mb, noise_bound, plaintext_bound);
    lemma_product_within(r, ea, eb, noise_bound, noise_bound);
    let (bpe, bep, bee) = (
        spec_ring_product_bound(n, plaintext_bound, noise_bound),
        spec_ring_product_bound(n, noise_bound, plaintext_bound),
        spec_ring_product_bound(n, noise_bound, noise_bound),
    );
    assert(bpe == bep) by (nonlinear_arith)
        requires
            bpe == n * plaintext_bound * noise_bound,
            bep == n * noise_bound * plaintext_bound,
    ;
    lemma_sum_within(r, em, ee, bep, bee);
    lemma_ring_ops_stay_in_ring(r, me, poly_add(em, ee, m));
    lemma_sum_within(r, me, poly_add(em, ee, m), bpe, bep + bee);
    let total = spec_mul_noise_bound(n, plaintext_bound, noise_bound);
    assert(bpe + (bep + bee) == total);
    assert forall|j: int, i: int| 0 <= j < m.len() && 0 <= i < r.degree implies #[trigger] centered_distance(
        noise[j][i] as int,
        m[j] as int,
    ) <= total by {}
    lemma_ring_ops_stay_in_ring(r, me, poly_add(em, ee, m));
    lemma_within_after_adding(r, mm, noise, total);
}

} // verus!
