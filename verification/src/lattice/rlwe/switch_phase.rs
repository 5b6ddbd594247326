//! What the hybrid key switch accumulates, before its division by `P`.
//!
//! Each key row `j` is `(b_j, a_j)` over `QP` with
//! `b_j + a_j*s_new = P*(Q/q_j)*s_old + e_j`. Multiplying row `j` by the
//! lifted digit `d_j` of `c1` and summing gives a pair whose phase under
//! `s_new` is `sum_j d_j*P*(Q/q_j)*s_old + sum_j d_j*e_j`.

use vstd::prelude::*;

use crate::lattice::rlwe::keyswitch::{
    extended_ring, generated_key_switch_key, key_switch_result, key_switch_row, lifted_digit, qp_scale, rebased,
    samples_check, switch_check, switch_sum,
};
use crate::ring::conversion::{convert_sum, convert_term, fast_convert, hat_inverse, mod_down_rows, product_inverse};
use crate::lattice::rlwe::keyswitch::key_switched;
use crate::lattice::rlwe::decryptor::{phase, poly_pow};
use crate::ring::rescale::{keep_moduli, lemma_keep_moduli_ops};
use crate::ring::algebra::{lemma_add_associative, lemma_add_commutative, lemma_add_zero, lemma_sub_add_cancel};
use crate::ring::rns::{crt_lift, prod_except};
use crate::ring::poly::{row_mul, row_scale};
use crate::ring::algebra::{
    lemma_mul_scale_left,
    lemma_add_interchange, lemma_mul_associative, lemma_mul_by_zero, lemma_mul_commutative,
    lemma_mul_distributes_over_add, lemma_mul_distributes_over_add_left,
};
use crate::ring::poly::{
    lemma_mul_stays_in_ring, lemma_ring_ops_stay_in_ring, lemma_scale_rows_stay_in_ring, poly_add, poly_in_ring,
    poly_mul, poly_scale_rows, poly_sub, poly_zero, ring_valid, RingView, Rows,
};

verus! {

/// `sum_{j < n} d_j * P*(Q/q_j)*s_old` over `qp`, `d_j` the lifted digits
/// of `c1`.
pub open spec fn switch_target(c1: Rows, q: Seq<u64>, qp: RingView, s_old: Rows, n: int) -> Rows
    decreases n,
{
    if n <= 0 {
        poly_zero(qp.degree, qp.moduli.len())
    } else {
        poly_add(
            switch_target(c1, q, qp, s_old, n - 1),
            poly_mul(
                lifted_digit(c1, q, qp.moduli, n - 1),
                poly_scale_rows(s_old, qp_scale(qp.moduli, n - 1), qp.moduli),
                qp.moduli,
            ),
            qp.moduli,
        )
    }
}

/// `sum_{j < n} d_j * e_j` over `qp`: the key rows' errors as the digits
/// weight them.
pub open spec fn switch_noise(c1: Rows, q: Seq<u64>, qp: RingView, es: Seq<Rows>, n: int) -> Rows
    decreases n,
{
    if n <= 0 {
        poly_zero(qp.degree, qp.moduli.len())
    } else {
        poly_add(
            switch_noise(c1, q, qp, es, n - 1),
            poly_mul(lifted_digit(c1, q, qp.moduli, n - 1), es[n - 1], qp.moduli),
            qp.moduli,
        )
    }
}

/// Row `j` of a key satisfies the key equation for `s_old`, `s_new` and
/// error `e`: `b_j + a_j*s_new = P*(Q/q_j)*s_old + e`.
pub open spec fn key_row_equation(qp: RingView, row: Seq<Rows>, s_old: Rows, s_new: Rows, e: Rows, j: int) -> bool {
    let m = qp.moduli;
    poly_add(row[0], poly_mul(row[1], s_new, m), m) == poly_add(poly_scale_rows(s_old, qp_scale(m, j), m), e, m)
}

/// The zero polynomial of a valid ring is one of its elements.
proof fn lemma_zero_in_ring(r: RingView)
    requires
        ring_valid(r),
    ensures
        poly_in_ring(r.degree, r.moduli, poly_zero(r.degree, r.moduli.len())),
{
    let z = poly_zero(r.degree, r.moduli.len());
    assert forall|j: int, i: int| 0 <= j < z.len() && 0 <= i < z[j].len() implies #[trigger] z[j][i]
        < r.moduli[j] by {
        assert(crate::ring::arith::modulus_in_range(r.moduli[j] as int));
    }
}

/// The accumulated pair of the first `n` rows: the phase under `s_new` of
/// `(sum_j d_j*b_j, sum_j d_j*a_j)` is the digits' target plus their noise,
/// wherever the first `n` products pass the ring checks and every row
/// satisfies the key equation.
pub proof fn lemma_switch_accumulators_phase(
    c1: Rows,
    rows: Seq<Seq<Rows>>,
    q: Seq<u64>,
    qp: RingView,
    s_old: Rows,
    s_new: Rows,
    es: Seq<Rows>,
    n: int,
)
    requires
        ring_valid(qp),
        0 <= n <= rows.len(),
        n <= es.len(),
        switch_check(c1, rows, q, qp, n) is Ok,
        poly_in_ring(qp.degree, qp.moduli, s_old),
        poly_in_ring(qp.degree, qp.moduli, s_new),
        forall|j: int| 0 <= j < n ==> poly_in_ring(qp.degree, qp.moduli, #[trigger] es[j]),
        forall|j: int| 0 <= j < n ==> key_row_equation(qp, #[trigger] rows[j], s_old, s_new, es[j], j),
    ensures
        ({
            let m = qp.moduli;
            let acc_b = switch_sum(c1, rows, q, qp, 0, n);
            let acc_a = switch_sum(c1, rows, q, qp, 1, n);
            &&& poly_in_ring(qp.degree, m, acc_b)
            &&& poly_in_ring(qp.degree, m, acc_a)
            &&& poly_in_ring(qp.degree, m, switch_target(c1, q, qp, s_old, n))
            &&& poly_in_ring(qp.degree, m, switch_noise(c1, q, qp, es, n))
            &&& poly_add(acc_b, poly_mul(acc_a, s_new, m), m) == poly_add(
                switch_target(c1, q, qp, s_old, n),
                switch_noise(c1, q, qp, es, n),
                m,
            )
        }),
    decreases n,
{
    let m = qp.moduli;
    let r = qp;
    if n <= 0 {
        let z = poly_zero(qp.degree, m.len());
        lemma_zero_in_ring(r);
        lemma_mul_by_zero(r, s_new);
        lemma_mul_commutative(r, z, s_new);
    } else {
        let k = n - 1;
        assert(switch_check(c1, rows, q, qp, k) is Ok);
        lemma_switch_accumulators_phase(c1, rows, q, qp, s_old, s_new, es, k);
        let d = lifted_digit(c1, q, m, k);
        let b = rows[k][0];
        let a = rows[k][1];
        assert(poly_in_ring(r.degree, m, d) && poly_in_ring(r.degree, m, b) && poly_in_ring(r.degree, m, a));
        let big_a = switch_sum(c1, rows, q, qp, 0, k);
        let big_b = switch_sum(c1, rows, q, qp, 1, k);
        let t = switch_target(c1, q, qp, s_old, k);
        let nz = switch_noise(c1, q, qp, es, k);
        let kk = poly_scale_rows(s_old, qp_scale(m, k), m);
        let e = es[k];
        let db = poly_mul(d, b, m);
        let da = poly_mul(d, a, m);
        let bs = poly_mul(big_b, s_new, m);
        let das = poly_mul(da, s_new, m);
        let as_ = poly_mul(a, s_new, m);
        lemma_mul_stays_in_ring(r, d, b);
        lemma_mul_stays_in_ring(r, d, a);
        lemma_mul_stays_in_ring(r, big_b, s_new);
        lemma_mul_stays_in_ring(r, da, s_new);
        lemma_mul_stays_in_ring(r, a, s_new);
        lemma_scale_rows_stay_in_ring(r, s_old, qp_scale(m, k));
        lemma_mul_stays_in_ring(r, d, kk);
        lemma_mul_stays_in_ring(r, d, e);
        lemma_ring_ops_stay_in_ring(r, big_a, db);
        lemma_ring_ops_stay_in_ring(r, big_b, da);
        lemma_ring_ops_stay_in_ring(r, t, poly_mul(d, kk, m));
        lemma_ring_ops_stay_in_ring(r, nz, poly_mul(d, e, m));
        // (B + d*a)*s = B*s + (d*a)*s
        lemma_mul_distributes_over_add_left(r, big_b, da, s_new);
        // (A + d*b) + (B*s + (d*a)*s) = (A + B*s) + (d*b + (d*a)*s)
        lemma_add_interchange(r, big_a, db, bs, das);
        // (d*a)*s = d*(a*s), and d*b + d*(a*s) = d*(b + a*s)
        lemma_mul_associative(r, d, a, s_new);
        lemma_mul_distributes_over_add(r, d, b, as_);
        assert(key_row_equation(qp, rows[k], s_old, s_new, es[k], k));
        // d*(K + e) = d*K + d*e
        lemma_mul_distributes_over_add(r, d, kk, e);
        // (T + N) + (d*K + d*e) = (T + d*K) + (N + d*e)
        lemma_add_interchange(r, t, nz, poly_mul(d, kk, m), poly_mul(d, e, m));
    }
}

/// Key switching keeps the phase, up to the division by `P`: when
/// `key_switch` succeeds on `ct` with a key over `QP` whose every row `j`
/// satisfies `b_j + a_j*s_new = P*(Q/q_j)*s_old + e_j`, the two sums that it
/// divides by `P` (over `QP`, before the division) have phase under `s_new`
/// equal to `sum_j d_j*P*(Q/q_j)*s_old + sum_j d_j*e_j`, with `d_j` the
/// lifted hybrid digits of `c1`.
pub proof fn lemma_key_switch_phase(
    ct: Seq<Rows>,
    key: (RingView, Seq<Seq<Rows>>),
    q_ring: RingView,
    s_old: Rows,
    s_new: Rows,
    es: Seq<Rows>,
)
    requires
        ring_valid(key.0),
        ct.len() >= 2,
        key_switch_result(ct, key, q_ring) is Ok,
        es.len() == q_ring.moduli.len(),
        poly_in_ring(key.0.degree, key.0.moduli, s_old),
        poly_in_ring(key.0.degree, key.0.moduli, s_new),
        forall|j: int| 0 <= j < es.len() ==> poly_in_ring(key.0.degree, key.0.moduli, #[trigger] es[j]),
        forall|j: int|
            0 <= j < key.1.len() ==> key_row_equation(key.0, #[trigger] key.1[j], s_old, s_new, es[j], j),
    ensures
        ({
            let (qp, rows, q) = (key.0, key.1, q_ring.moduli);
            let n = q.len() as int;
            poly_add(
                switch_sum(ct[1], rows, q, qp, 0, n),
                poly_mul(switch_sum(ct[1], rows, q, qp, 1, n), s_new, qp.moduli),
                qp.moduli,
            ) == poly_add(switch_target(ct[1], q, qp, s_old, n), switch_noise(ct[1], q, qp, es, n), qp.moduli)
        }),
{
    let (qp, rows, q) = (key.0, key.1, q_ring.moduli);
    let n = q.len() as int;
    assert(rows.len() == n);
    assert(switch_check(ct[1], rows, q, qp, n) is Ok);
    lemma_switch_accumulators_phase(ct[1], rows, q, qp, s_old, s_new, es, n);
}

/// The residue identity behind a key row: `((-x + e) + k) + x == k + e`.
proof fn lemma_key_row_residues(x: int, e: int, k: int, q: int)
    requires
        q > 0,
    ensures
        ((((0 - x) % q + e) % q + k) % q + x) % q == (k + e) % q,
{
    let l1 = 0 - x;
    let l2 = l1 % q + e;
    let l3 = l2 % q + k;
    let l4 = l3 % q + x;
    let rhs = k + e;
    vstd::arithmetic::div_mod::lemma_fundamental_div_mod(l1, q);
    vstd::arithmetic::div_mod::lemma_fundamental_div_mod(l2, q);
    vstd::arithmetic::div_mod::lemma_fundamental_div_mod(l3, q);
    let (c1, c2, c3) = (l1 / q, l2 / q, l3 / q);
    assert(l4 == rhs - q * c1 - q * c2 - q * c3);
    let d = c1 + c2 + c3;
    assert(q * d == q * c1 + q * c2 + q * c3) by (nonlinear_arith)
        requires
            d == c1 + c2 + c3,
    ;
    vstd::arithmetic::div_mod::lemma_mod_multiples_vanish(-d, rhs, q);
    assert(q * (-d) + rhs == l4) by (nonlinear_arith)
        requires
            l4 == rhs - q * d,
    ;
}

/// A generated key row satisfies the key equation: the row
/// `(-a*s_new + e + P*(Q/q_j)*s_old, a)` has
/// `b + a*s_new == P*(Q/q_j)*s_old + e`.
pub proof fn lemma_key_switch_row_equation(qp: RingView, s_old: Rows, s_new: Rows, a: Rows, e: Rows, j: int)
    requires
        ring_valid(qp),
        poly_in_ring(qp.degree, qp.moduli, s_old),
        poly_in_ring(qp.degree, qp.moduli, s_new),
        poly_in_ring(qp.degree, qp.moduli, a),
        poly_in_ring(qp.degree, qp.moduli, e),
    ensures
        key_row_equation(qp, key_switch_row(qp, s_old, s_new, a, e, j), s_old, s_new, e, j),
{
    let m = qp.moduli;
    let row = key_switch_row(qp, s_old, s_new, a, e, j);
    let x = poly_mul(a, s_new, m);
    let kk = poly_scale_rows(s_old, qp_scale(m, j), m);
    lemma_mul_stays_in_ring(qp, a, s_new);
    lemma_scale_rows_stay_in_ring(qp, s_old, qp_scale(m, j));
    let lhs = poly_add(row[0], poly_mul(row[1], s_new, m), m);
    let rhs = poly_add(kk, e, m);
    assert forall|jj: int| 0 <= jj < m.len() implies #[trigger] lhs[jj] =~= rhs[jj] by {
        let q = m[jj] as int;
        assert(crate::ring::arith::modulus_in_range(q));
        assert forall|i: int| 0 <= i < qp.degree implies #[trigger] lhs[jj][i] == rhs[jj][i] by {
            lemma_key_row_residues(x[jj][i] as int, e[jj][i] as int, kk[jj][i] as int, q);
        }
    }
    assert(lhs =~= rhs);
}

/// Passing the sample checks of the first `n` rows puts their masks, their
/// errors and the secret in the ring.
proof fn lemma_samples_in_ring(qp: RingView, s: Rows, masks: Seq<Rows>, errors: Seq<Rows>, n: int)
    requires
        samples_check(qp, s, masks, errors, n) is Ok,
    ensures
        n > 0 ==> poly_in_ring(qp.degree, qp.moduli, s),
        forall|j: int| 0 <= j < n ==> poly_in_ring(qp.degree, qp.moduli, #[trigger] masks[j]),
        forall|j: int| 0 <= j < n ==> poly_in_ring(qp.degree, qp.moduli, #[trigger] errors[j]),
    decreases n,
{
    if n > 0 {
        lemma_samples_in_ring(qp, s, masks, errors, n - 1);
    }
}

/// Key switching with a generated key keeps the phase, up to the division
/// by `P`: for the key that `generate_key_switch_key` makes from `s_old`,
/// `s_new`, masks and errors, every row satisfies the key equation for the
/// rebased `s_new` and its error, so a successful switch accumulates, before
/// the division, `sum_j d_j*P*(Q/q_j)*s_old + sum_j d_j*e_j` as its phase
/// under the rebased `s_new`.
pub proof fn lemma_generated_key_switch_phase(
    ct: Seq<Rows>,
    q_ring: RingView,
    p: Seq<u64>,
    s_old: Rows,
    s_new: Rows,
    masks: Seq<Rows>,
    errors: Seq<Rows>,
)
    requires
        ring_valid(extended_ring(q_ring, p)),
        ct.len() >= 2,
        q_ring.moduli.len() > 0,
        masks.len() == q_ring.moduli.len(),
        errors.len() == q_ring.moduli.len(),
        generated_key_switch_key(q_ring, p, s_old, s_new, masks, errors) is Ok,
        key_switch_result(ct, generated_key_switch_key(q_ring, p, s_old, s_new, masks, errors)->Ok_0, q_ring) is Ok,
    ensures
        ({
            let key = generated_key_switch_key(q_ring, p, s_old, s_new, masks, errors)->Ok_0;
            let (qp, rows, q) = (key.0, key.1, q_ring.moduli);
            let n = q.len() as int;
            let s = rebased(s_new[0], q[0], qp.moduli);
            poly_add(
                switch_sum(ct[1], rows, q, qp, 0, n),
                poly_mul(switch_sum(ct[1], rows, q, qp, 1, n), s, qp.moduli),
                qp.moduli,
            ) == poly_add(switch_target(ct[1], q, qp, s_old, n), switch_noise(ct[1], q, qp, errors, n), qp.moduli)
        }),
{
    let qp = extended_ring(q_ring, p);
    let q = q_ring.moduli;
    let n = q.len() as int;
    let s = rebased(s_new[0], q[0], qp.moduli);
    let key = generated_key_switch_key(q_ring, p, s_old, s_new, masks, errors)->Ok_0;
    assert(samples_check(qp, s, masks, errors, n) is Ok);
    lemma_samples_in_ring(qp, s, masks, errors, n);
    assert(key.0 == qp);
    assert forall|j: int| 0 <= j < key.1.len() implies key_row_equation(qp, #[trigger] key.1[j], s_old, s, errors[j], j) by {
        lemma_key_switch_row_equation(qp, s_old, s, masks[j], errors[j], j);
    }
    lemma_key_switch_phase(ct, key, q_ring, s_old, s, errors);
}

/// `P * (c1 * s_old)` on the rows of `Q`, zero on the rows of `P`, for `P`
/// the product of the moduli of `qp` after the first `q.len()`.
pub open spec fn scaled_product(c1: Rows, s_old: Rows, q: Seq<u64>, qp: RingView) -> Rows {
    let p = qp.moduli.subrange(q.len() as int, qp.moduli.len() as int);
    let big_p = prod_except(p, p.len() as int, p.len() as int);
    Seq::new(
        qp.moduli.len(),
        |m: int|
            if m < q.len() {
                row_scale(row_mul(c1[m], s_old[m], q[m]), (big_p % (q[m] as int)) as u64, q[m])
            } else {
                Seq::new(qp.degree, |i: int| 0u64)
            },
    )
}

/// Over a prefix, the extended product is the product of the prefix.
proof fn lemma_prod_except_prefix(q: Seq<u64>, p: Seq<u64>, j: int, m: int)
    requires
        0 <= m <= q.len(),
    ensures
        prod_except(q + p, j, m) == prod_except(q, j, m),
    decreases m,
{
    if m > 0 {
        lemma_prod_except_prefix(q, p, j, m - 1);
        assert((q + p)[m - 1] == q[m - 1]);
    }
}

/// `(P*Q) / q_j` is `(Q / q_j) * P`.
proof fn lemma_prod_except_extended(q: Seq<u64>, p: Seq<u64>, j: int, k: int)
    requires
        0 <= j < q.len(),
        0 <= k <= p.len(),
    ensures
        prod_except(q + p, j, q.len() + k) == prod_except(q, j, q.len() as int) * prod_except(
            p,
            p.len() as int,
            k,
        ),
    decreases k,
{
    if k == 0 {
        lemma_prod_except_prefix(q, p, j, q.len() as int);
    } else {
        lemma_prod_except_extended(q, p, j, k - 1);
        assert((q + p)[q.len() + k - 1] == p[k - 1]);
        let (a, b, c) = (prod_except(q, j, q.len() as int), prod_except(p, p.len() as int, k - 1), p[k - 1] as int);
        assert((a * b) * c == a * (b * c)) by (nonlinear_arith);
    }
}

/// A product of moduli is not negative.
proof fn lemma_prod_except_nonnegative(moduli: Seq<u64>, j: int, n: int)
    ensures
        prod_except(moduli, j, n) >= 0,
    decreases n,
{
    if n > 0 {
        lemma_prod_except_nonnegative(moduli, j, n - 1);
        let a = prod_except(moduli, j, n - 1);
        let b = moduli[n - 1] as int;
        assert(a * b >= 0) by (nonlinear_arith)
            requires
                a >= 0,
                b >= 0,
        ;
    }
}

/// Every modulus but `j` divides `prod_except(moduli, j, n)` once it is
/// among the first `n`.
proof fn lemma_prod_except_divisible(moduli: Seq<u64>, j: int, m: int, n: int)
    requires
        0 <= m < n <= moduli.len(),
        m != j,
        moduli[m] > 0,
    ensures
        prod_except(moduli, j, n) % (moduli[m] as int) == 0,
    decreases n,
{
    let q = moduli[m] as int;
    let a = prod_except(moduli, j, n - 1);
    if n - 1 == m {
        assert(prod_except(moduli, j, n) == a * q);
        vstd::arithmetic::div_mod::lemma_mod_multiples_basic(a, q);
    } else {
        lemma_prod_except_divisible(moduli, j, m, n - 1);
        if n - 1 != j {
            let b = moduli[n - 1] as int;
            assert(prod_except(moduli, j, n) == a * b);
            vstd::arithmetic::div_mod::lemma_mul_mod_noop_left(a, b, q);
            assert((a % q) * b == 0);
            vstd::arithmetic::div_mod::lemma_small_mod(0, q as nat);
        }
    }
}

/// Converting a single row over one modulus `qj` leaves each value, reduced
/// modulo the target.
proof fn lemma_single_convert(x: Seq<u64>, qj: u64, targets: Seq<u64>, m: int, k: int)
    requires
        qj > 1,
        0 <= m < targets.len(),
        targets[m] > 1,
        0 <= k < x.len(),
        forall|i: int| 0 <= i < x.len() ==> #[trigger] x[i] < qj,
    ensures
        fast_convert(seq![x], seq![qj], targets)[m][k] == x[k] % targets[m],
{
    let src = seq![qj];
    let xs = seq![x];
    assert(prod_except(src, 0, 0) == 1);
    assert(prod_except(src, 0, 1) == 1);
    vstd::arithmetic::power::lemma1_pow((qj - 2) as nat);
    vstd::arithmetic::div_mod::lemma_small_mod(1, qj as nat);
    vstd::arithmetic::div_mod::lemma_small_mod(1, targets[m] as nat);
    assert(hat_inverse(src, 0) == 1);
    vstd::arithmetic::div_mod::lemma_small_mod(x[k] as nat, qj as nat);
    assert(convert_term(xs, src, 0, k, targets[m]) == x[k]);
    assert(convert_sum(xs, src, k, targets[m], 0) == 0);
    assert(convert_sum(xs, src, k, targets[m], 1) == convert_sum(xs, src, k, targets[m], 0) + convert_term(
        xs,
        src,
        0,
        k,
        targets[m],
    ));
    assert(src.len() == 1);
}

/// The hybrid scaling of digit `m` gives `P` back: with
/// `h = (Q/q_m)^-1 mod q_m` and `c = ((Q/q_m) * P) mod q_m`,
/// `((c1 * h) * s) * c == (c1 * s) * P` modulo `q_m`.
proof fn lemma_digit_row(degree: nat, qm: u64, c1: Seq<u64>, s: Seq<u64>, h: int, hat: int, big_p: int)
    requires
        crate::ring::poly::is_power_of_two(degree),
        crate::ring::arith::modulus_in_range(qm as int),
        c1.len() == degree,
        s.len() == degree,
        forall|i: int| 0 <= i < degree ==> #[trigger] c1[i] < qm,
        forall|i: int| 0 <= i < degree ==> #[trigger] s[i] < qm,
        0 <= h < qm,
        hat >= 0,
        big_p >= 0,
        (h * (hat % (qm as int))) % (qm as int) == 1,
    ensures
        row_scale(row_mul(s, row_scale(c1, h as u64, qm), qm), ((hat * big_p) % (qm as int)) as u64, qm)
            == row_scale(row_mul(c1, s, qm), (big_p % (qm as int)) as u64, qm),
{
    let q = qm as int;
    let rm = RingView { degree, moduli: seq![qm] };
    let x = row_scale(c1, h as u64, qm);
    assert(poly_in_ring(degree, rm.moduli, seq![s]));
    assert(poly_in_ring(degree, rm.moduli, seq![c1]));
    lemma_scale_rows_stay_in_ring(rm, seq![c1], seq![h as u64]);
    assert(crate::ring::poly::poly_scale_rows(seq![c1], seq![h as u64], rm.moduli) =~= seq![x]);
    lemma_mul_commutative(rm, seq![s], seq![x]);
    lemma_mul_scale_left(rm, seq![c1], seq![s], 0, seq![h as u64]);
    assert(poly_mul(seq![s], seq![x], rm.moduli)[0] == row_mul(s, x, qm));
    assert(poly_mul(seq![x], seq![s], rm.moduli)[0] == row_mul(x, s, qm));
    let y = row_mul(c1, s, qm);
    assert(row_mul(s, x, qm) == row_scale(y, h as u64, qm)) by {
        assert(crate::ring::poly::poly_scale_rows(poly_mul(seq![c1], seq![s], rm.moduli), seq![h as u64], rm.moduli)[0]
            == row_scale(y, h as u64, qm));
    }
    let c = (hat * big_p) % q;
    // (h * c) % q == big_p % q
    assert((h * c) % q == big_p % q) by {
        vstd::arithmetic::div_mod::lemma_mul_mod_noop_right(h, hat * big_p, q);
        assert((h * c) % q == (h * (hat * big_p)) % q);
        assert(h * (hat * big_p) == (h * hat) * big_p) by (nonlinear_arith);
        vstd::arithmetic::div_mod::lemma_mul_mod_noop_right(h, hat, q);
        assert((h * hat) % q == 1);
        vstd::arithmetic::div_mod::lemma_mul_mod_noop_left(h * hat, big_p, q);
        assert(((h * hat) % q) * big_p == big_p);
    }
    let lhs = row_scale(row_scale(y, h as u64, qm), c as u64, qm);
    let rhs = row_scale(y, (big_p % q) as u64, qm);
    assert forall|i: int| 0 <= i < y.len() implies #[trigger] lhs[i] == rhs[i] by {
        let v = y[i] as int;
        vstd::arithmetic::div_mod::lemma_mul_mod_noop_left(v * h, c, q);
        assert((v * h) * c == v * (h * c)) by (nonlinear_arith);
        vstd::arithmetic::div_mod::lemma_mul_mod_noop_right(v, h * c, q);
        vstd::arithmetic::div_mod::lemma_mul_mod_noop_right(v, big_p, q);
        vstd::arithmetic::div_mod::lemma_mod_bound(v * h, q);
        vstd::arithmetic::div_mod::lemma_mod_bound(big_p, q);
    }
    assert(row_mul(s, x, qm).len() == y.len());
    assert(lhs =~= rhs);
}

/// The first `n` rows of [`scaled_product`], zero below.
spec fn scaled_prefix(c1: Rows, s_old: Rows, q: Seq<u64>, qp: RingView, n: int) -> Rows {
    Seq::new(
        qp.moduli.len(),
        |m: int|
            if m < n {
                scaled_product(c1, s_old, q, qp)[m]
            } else {
                Seq::new(qp.degree, |i: int| 0u64)
            },
    )
}

/// Term `k` of the target touches row `k` only, where it is row `k` of
/// [`scaled_product`].
proof fn lemma_target_term(c1: Rows, q: Seq<u64>, qp: RingView, s_old: Rows, k: int)
    requires
        ring_valid(qp),
        0 <= k < q.len() < qp.moduli.len(),
        qp.moduli.subrange(0, q.len() as int) == q,
        poly_in_ring(qp.degree, q, c1),
        poly_in_ring(qp.degree, qp.moduli, s_old),
        crt_lift(q, k, q[k]) == 1,
    ensures
        ({
            let m = qp.moduli;
            let term = poly_mul(lifted_digit(c1, q, m, k), poly_scale_rows(s_old, qp_scale(m, k), m), m);
            &&& poly_in_ring(qp.degree, m, lifted_digit(c1, q, m, k))
            &&& term.len() == m.len()
            &&& term[k] == scaled_product(c1, s_old, q, qp)[k]
            &&& forall|j: int| 0 <= j < m.len() && j != k ==> #[trigger] term[j] == Seq::new(qp.degree, |i: int| 0u64)
        }),
{
    let m = qp.moduli;
    let l = m.len() as int;
    let p = m.subrange(q.len() as int, l);
    assert(m =~= q + p);
    let big_p = prod_except(p, p.len() as int, p.len() as int);
    let qk = q[k];
    assert(m[k] == qk);
    assert(crate::ring::arith::modulus_in_range(qk as int));
    let hat = prod_except(q, k, q.len() as int);
    let h = hat_inverse(q, k);
    let dig = row_scale(c1[k], h as u64, qk);
    assert(dig == crate::lattice::rlwe::keyswitch::switch_digit(c1, q, k));
    let d = lifted_digit(c1, q, m, k);
    assert(d == fast_convert(seq![dig], seq![qk], m));
    assert(c1[k].len() == qp.degree);
    assert forall|i: int| 0 <= i < dig.len() implies #[trigger] dig[i] < qk by {
        vstd::arithmetic::div_mod::lemma_mod_bound(c1[k][i] * (h as u64), qk as int);
    }
    // the lifted digit is a ring element, equal to the digit in row k
    assert forall|j: int, i: int| 0 <= j < d.len() && 0 <= i < d[j].len() implies #[trigger] d[j][i] < m[j] by {
        assert(crate::ring::arith::modulus_in_range(m[j] as int));
        lemma_single_convert(dig, qk, m, j, i);
        vstd::arithmetic::div_mod::lemma_mod_bound(dig[i] as int, m[j] as int);
    }
    assert forall|j: int| 0 <= j < d.len() implies (#[trigger] d[j]).len() == qp.degree by {}
    assert(poly_in_ring(qp.degree, m, d));
    assert(d[k] =~= dig) by {
        assert forall|i: int| 0 <= i < dig.len() implies #[trigger] d[k][i] == dig[i] by {
            lemma_single_convert(dig, qk, m, k, i);
            vstd::arithmetic::div_mod::lemma_small_mod(dig[i] as nat, qk as nat);
        }
    }
    // term = (s_old * d) scaled rowwise by qp_scale
    let cv = qp_scale(m, k);
    let sc = poly_scale_rows(s_old, cv, m);
    lemma_scale_rows_stay_in_ring(qp, s_old, cv);
    lemma_mul_commutative(qp, d, sc);
    lemma_mul_scale_left(qp, s_old, d, 0, cv);
    let term = poly_mul(d, sc, m);
    assert(term == poly_scale_rows(poly_mul(s_old, d, m), cv, m));
    // other rows vanish
    assert forall|j: int| 0 <= j < l && j != k implies #[trigger] term[j] == Seq::new(qp.degree, |i: int| 0u64) by {
        assert(crate::ring::arith::modulus_in_range(m[j] as int));
        lemma_prod_except_divisible(m, k, j, l);
        assert(cv[j] == 0);
        assert(term[j] =~= Seq::new(qp.degree, |i: int| 0u64)) by {
            assert forall|i: int| 0 <= i < qp.degree implies #[trigger] term[j][i] == 0u64 by {
                vstd::arithmetic::div_mod::lemma_small_mod(0, m[j] as nat);
            }
        }
    }
    // row k is P * (c1 * s_old)
    lemma_prod_except_extended(q, p, k, p.len() as int);
    assert(prod_except(m, k, l) == hat * big_p);
    assert(cv[k] == ((hat * big_p) % (qk as int)) as u64);
    vstd::arithmetic::div_mod::lemma_mod_bound(vstd::arithmetic::power::pow(hat % (qk as int), (qk - 2) as nat), qk as int);
    assert(0 <= h < qk);
    assert(crt_lift(q, k, qk) == ((((hat % (qk as int)) * h) % (qk as int)) as u64));
    assert((hat % (qk as int)) * h == h * (hat % (qk as int))) by (nonlinear_arith);
    assert(hat >= 0) by {
        lemma_prod_except_nonnegative(q, k, q.len() as int);
    }
    assert(big_p >= 0) by {
        lemma_prod_except_nonnegative(p, p.len() as int, p.len() as int);
    }
    assert forall|i: int| 0 <= i < qp.degree implies #[trigger] s_old[k][i] < qk by {
        assert(s_old[k][i] < m[k]);
    }
    assert forall|i: int| 0 <= i < qp.degree implies #[trigger] c1[k][i] < qk by {}
    lemma_digit_row(qp.degree, qk, c1[k], s_old[k], h, hat, big_p);
    assert(term[k] == row_scale(row_mul(s_old[k], d[k], qk), cv[k], qk));
}

/// The first `n` terms of the target make the first `n` rows of
/// [`scaled_product`].
proof fn lemma_switch_target_prefix(c1: Rows, q: Seq<u64>, qp: RingView, s_old: Rows, n: int)
    requires
        ring_valid(qp),
        0 <= n <= q.len() < qp.moduli.len(),
        qp.moduli.subrange(0, q.len() as int) == q,
        poly_in_ring(qp.degree, q, c1),
        poly_in_ring(qp.degree, qp.moduli, s_old),
        forall|k: int| 0 <= k < q.len() ==> #[trigger] crt_lift(q, k, q[k]) == 1,
    ensures
        switch_target(c1, q, qp, s_old, n) == scaled_prefix(c1, s_old, q, qp, n),
    decreases n,
{
    let m = qp.moduli;
    let sp = scaled_product(c1, s_old, q, qp);
    let zero_row = Seq::new(qp.degree, |i: int| 0u64);
    if n == 0 {
        assert(switch_target(c1, q, qp, s_old, 0) =~= scaled_prefix(c1, s_old, q, qp, 0));
    } else {
        let k = n - 1;
        lemma_switch_target_prefix(c1, q, qp, s_old, k);
        assert(crt_lift(q, k, q[k]) == 1);
        lemma_target_term(c1, q, qp, s_old, k);
        let term = poly_mul(lifted_digit(c1, q, m, k), poly_scale_rows(s_old, qp_scale(m, k), m), m);
        let before = scaled_prefix(c1, s_old, q, qp, k);
        let after = scaled_prefix(c1, s_old, q, qp, n);
        let sum = poly_add(before, term, m);
        assert(switch_target(c1, q, qp, s_old, n) == sum);
        assert forall|j: int| 0 <= j < m.len() implies #[trigger] sum[j] =~= after[j] by {
            let qj = m[j] as int;
            assert(crate::ring::arith::modulus_in_range(qj));
            if j < q.len() {
                assert(q[j] == m[j]);
                assert(c1[j].len() == qp.degree);
            }
            assert forall|i: int| 0 <= i < qp.degree implies #[trigger] sum[j][i] == after[j][i] by {
                if j < q.len() {
                    vstd::arithmetic::div_mod::lemma_mod_bound(
                        row_mul(c1[j], s_old[j], q[j])[i] * ((prod_except(
                            m.subrange(q.len() as int, m.len() as int),
                            (m.len() - q.len()) as int,
                            (m.len() - q.len()) as int,
                        ) % (q[j] as int)) as u64),
                        qj,
                    );
                }
                if j < k {
                    assert(term[j] == zero_row);
                    vstd::arithmetic::div_mod::lemma_small_mod(sp[j][i] as nat, qj as nat);
                } else if j == k {
                    vstd::arithmetic::div_mod::lemma_small_mod(sp[j][i] as nat, qj as nat);
                } else {
                    assert(term[j] == zero_row);
                    vstd::arithmetic::div_mod::lemma_small_mod(0, qj as nat);
                }
            }
        }
        assert(sum =~= after);
    }
}

/// The key switch targets `c1 * s_old`: when the moduli of `Q` open those of
/// `QP` and each modulus's CRT constant inverts
/// (`crt_lift(q, k, q_k) == 1`, as for pairwise coprime primes), the
/// digit-weighted sum `sum_j d_j * P*(Q/q_j) * s_old` is `P * (c1 * s_old)`
/// on the rows of `Q` and zero on the rows of `P`.
pub proof fn lemma_switch_target_is_scaled_product(c1: Rows, q: Seq<u64>, qp: RingView, s_old: Rows)
    requires
        ring_valid(qp),
        q.len() < qp.moduli.len(),
        qp.moduli.subrange(0, q.len() as int) == q,
        poly_in_ring(qp.degree, q, c1),
        poly_in_ring(qp.degree, qp.moduli, s_old),
        forall|k: int| 0 <= k < q.len() ==> #[trigger] crt_lift(q, k, q[k]) == 1,
    ensures
        switch_target(c1, q, qp, s_old, q.len() as int) == scaled_product(c1, s_old, q, qp),
{
    lemma_switch_target_prefix(c1, q, qp, s_old, q.len() as int);
    assert(scaled_prefix(c1, s_old, q, qp, q.len() as int) =~= scaled_product(c1, s_old, q, qp));
}

/// Key switching keeps the phase, up to the division by `P`: when
/// `key_switch` succeeds on `ct` over `Q` with a key over `QP` (the moduli
/// of `Q`, then those of `P`) whose rows satisfy
/// `b_j + a_j*s_new = P*(Q/q_j)*s_old + e_j`, and each modulus's CRT
/// constant inverts, the two sums that it divides by `P` have phase under
/// `s_new` equal to `P * (c1 * s_old)` on the rows of `Q`, zero on the rows
/// of `P`, plus the digit-weighted errors `sum_j d_j * e_j`.
pub proof fn lemma_key_switch_targets_the_old_secret(
    ct: Seq<Rows>,
    key: (RingView, Seq<Seq<Rows>>),
    q_ring: RingView,
    s_old: Rows,
    s_new: Rows,
    es: Seq<Rows>,
)
    requires
        ring_valid(key.0),
        ct.len() >= 2,
        key_switch_result(ct, key, q_ring) is Ok,
        key.0.degree == q_ring.degree,
        q_ring.moduli.len() <= key.0.moduli.len(),
        key.0.moduli.subrange(0, q_ring.moduli.len() as int) == q_ring.moduli,
        forall|k: int| 0 <= k < q_ring.moduli.len() ==> #[trigger] crt_lift(q_ring.moduli, k, q_ring.moduli[k]) == 1,
        es.len() == q_ring.moduli.len(),
        poly_in_ring(key.0.degree, key.0.moduli, s_old),
        poly_in_ring(key.0.degree, key.0.moduli, s_new),
        forall|j: int| 0 <= j < es.len() ==> poly_in_ring(key.0.degree, key.0.moduli, #[trigger] es[j]),
        forall|j: int|
            0 <= j < key.1.len() ==> key_row_equation(key.0, #[trigger] key.1[j], s_old, s_new, es[j], j),
    ensures
        ({
            let (qp, rows, q) = (key.0, key.1, q_ring.moduli);
            let n = q.len() as int;
            poly_add(
                switch_sum(ct[1], rows, q, qp, 0, n),
                poly_mul(switch_sum(ct[1], rows, q, qp, 1, n), s_new, qp.moduli),
                qp.moduli,
            ) == poly_add(scaled_product(ct[1], s_old, q, qp), switch_noise(ct[1], q, qp, es, n), qp.moduli)
        }),
{
    let (qp, q) = (key.0, q_ring.moduli);
    lemma_key_switch_phase(ct, key, q_ring, s_old, s_new, es);
    assert(crate::ring::poly::poly_check(q_ring, ct[1]) is Ok);
    assert(key.0.moduli.len() != q.len());
    lemma_switch_target_is_scaled_product(ct[1], q, qp, s_old);
}

/// The residue identity behind dividing `P*Y + N` by `P`:
/// `(((P*Y + N) - C) * P^-1) == Y + (N - C) * P^-1` modulo `q`.
proof fn lemma_mod_down_residues(y: int, pm: int, n: int, c: int, v: int, q: int)
    requires
        q > 0,
        0 <= y < q,
        (pm * v) % q == 1,
    ensures
        ((((((y * pm) % q + n) % q) - c) % q) * v) % q == (y + (((n - c) % q) * v) % q) % q,
{
    use_div_mod_facts(y * pm, q);
    let t1 = (y * pm) % q;
    let t2 = (t1 + n) % q;
    let t3 = (t2 - c) % q;
    let u = ((n - c) % q) * v;
    let w = u % q;
    use_div_mod_facts(t1 + n, q);
    use_div_mod_facts(t2 - c, q);
    use_div_mod_facts(n - c, q);
    use_div_mod_facts(u, q);
    use_div_mod_facts(pm * v, q);
    let (a1, a2, a3, a4, a5, b) = ((y * pm) / q, (t1 + n) / q, (t2 - c) / q, (n - c) / q, u / q, (pm * v) / q);
    assert(t3 == y * pm + n - c - q * (a1 + a2 + a3)) by (nonlinear_arith)
        requires
            t1 == y * pm - q * a1,
            t2 == t1 + n - q * a2,
            t3 == t2 - c - q * a3,
    ;
    let k = y * b - (a1 + a2 + a3) * v + a4 * v + a5;
    assert(t3 * v == q * k + (y + w)) by (nonlinear_arith)
        requires
            t3 == y * pm + n - c - q * (a1 + a2 + a3),
            pm * v == q * b + 1,
            u == ((n - c) - q * a4) * v,
            w == u - q * a5,
            k == y * b - (a1 + a2 + a3) * v + a4 * v + a5,
    ;
    vstd::arithmetic::div_mod::lemma_mod_multiples_vanish(k, y + w, q);
}

/// `x == q * (x / q) + x % q`, with the remainder in `[0, q)`.
proof fn use_div_mod_facts(x: int, q: int)
    requires
        q > 0,
    ensures
        x == q * (x / q) + x % q,
        0 <= x % q < q,
{
    vstd::arithmetic::div_mod::lemma_fundamental_div_mod(x, q);
    vstd::arithmetic::div_mod::lemma_mod_bound(x, q);
}

/// The division by `P` of a polynomial over `QP` is a ring element over `Q`.
proof fn lemma_mod_down_in_ring(x: Rows, q_ring: RingView, p: Seq<u64>)
    requires
        ring_valid(q_ring),
        x.len() >= q_ring.moduli.len(),
        forall|i: int| 0 <= i < q_ring.moduli.len() ==> (#[trigger] x[i]).len() == q_ring.degree,
    ensures
        poly_in_ring(q_ring.degree, q_ring.moduli, mod_down_rows(x, q_ring.moduli, p)),
{
    let q = q_ring.moduli;
    let md = mod_down_rows(x, q, p);
    assert forall|i: int, k: int| 0 <= i < md.len() && 0 <= k < md[i].len() implies #[trigger] md[i][k] < q[i] by {
        assert(crate::ring::arith::modulus_in_range(q[i] as int));
        let conv = fast_convert(x.subrange(q.len() as int, (q.len() + p.len()) as int), p, q);
        vstd::arithmetic::div_mod::lemma_mod_bound(
            ((x[i][k] - conv[i][k]) % (q[i] as int)) * product_inverse(p, q[i]),
            q[i] as int,
        );
    }
}

/// Dividing `P * Y` (zero over `P`) plus a ring element `N` of `QP` by `P`
/// gives `Y` plus the division of `N`, where `P` inverts modulo each `q_i`.
proof fn lemma_mod_down_of_scaled(c1: Rows, s_old: Rows, q_ring: RingView, qp: RingView, n: Rows)
    requires
        ring_valid(qp),
        ring_valid(q_ring),
        qp.degree == q_ring.degree,
        q_ring.moduli.len() < qp.moduli.len(),
        qp.moduli.subrange(0, q_ring.moduli.len() as int) == q_ring.moduli,
        poly_in_ring(qp.degree, q_ring.moduli, c1),
        poly_in_ring(qp.degree, qp.moduli, s_old),
        poly_in_ring(qp.degree, qp.moduli, n),
        forall|i: int|
            0 <= i < q_ring.moduli.len() ==> (#[trigger] product_inverse(
                qp.moduli.subrange(q_ring.moduli.len() as int, qp.moduli.len() as int),
                q_ring.moduli[i],
            ) * (prod_except(
                qp.moduli.subrange(q_ring.moduli.len() as int, qp.moduli.len() as int),
                (qp.moduli.len() - q_ring.moduli.len()) as int,
                (qp.moduli.len() - q_ring.moduli.len()) as int,
            ) % (q_ring.moduli[i] as int))) % (q_ring.moduli[i] as int) == 1,
    ensures
        ({
            let q = q_ring.moduli;
            let p = qp.moduli.subrange(q.len() as int, qp.moduli.len() as int);
            mod_down_rows(poly_add(scaled_product(c1, s_old, q, qp), n, qp.moduli), q, p) == poly_add(
                poly_mul(c1, keep_moduli(s_old, q.len()), q),
                mod_down_rows(n, q, p),
                q,
            )
        }),
{
    let q = q_ring.moduli;
    let m = qp.moduli;
    let l = m.len() as int;
    let ql = q.len() as int;
    let p = m.subrange(ql, l);
    let big_p = prod_except(p, p.len() as int, p.len() as int);
    let sp = scaled_product(c1, s_old, q, qp);
    let x = poly_add(sp, n, m);
    let sq = keep_moduli(s_old, q.len());
    assert(sq =~= s_old.subrange(0, ql));
    // the rows over P agree, so the conversions agree
    let xp = x.subrange(ql, l);
    let np = n.subrange(ql, l);
    assert(xp =~= np) by {
        assert forall|j: int| 0 <= j < xp.len() implies #[trigger] xp[j] =~= np[j] by {
            let jj = j + ql;
            assert(crate::ring::arith::modulus_in_range(m[jj] as int));
            assert(sp[jj] == Seq::new(qp.degree, |i: int| 0u64));
            assert forall|i: int| 0 <= i < np[j].len() implies #[trigger] xp[j][i] == np[j][i] by {
                vstd::arithmetic::div_mod::lemma_small_mod(n[jj][i] as nat, m[jj] as nat);
            }
        }
    }
    assert(ql + p.len() == l);
    let conv = fast_convert(np, p, q);
    let lhs = mod_down_rows(x, q, p);
    let y = poly_mul(c1, sq, q);
    let md_n = mod_down_rows(n, q, p);
    let rhs = poly_add(y, md_n, q);
    assert forall|i: int| 0 <= i < ql implies #[trigger] lhs[i] =~= rhs[i] by {
        let qi = q[i] as int;
        assert(m[i] == q[i]);
        assert(crate::ring::arith::modulus_in_range(qi));
        assert(sq[i] == s_old[i]);
        let v = product_inverse(p, q[i]);
        let pm = big_p % qi;
        assert((v * pm) % qi == 1);
        assert((pm * v) % qi == 1) by {
            assert(v * pm == pm * v) by (nonlinear_arith);
        }
        assert forall|k: int| 0 <= k < qp.degree implies #[trigger] lhs[i][k] == rhs[i][k] by {
            let yv = y[i][k] as int;
            vstd::arithmetic::div_mod::lemma_mod_bound(
                (nega_sum_at(c1[i], s_old[i], k)) ,
                qi,
            );
            assert(0 <= yv < qi);
            assert(sp[i][k] == ((yv * (pm as u64)) % qi) as u64);
            lemma_mod_down_residues(yv, pm, n[i][k] as int, conv[i][k] as int, v, qi);
        }
    }
    assert(lhs =~= rhs);
}

/// `sum_{i < n} a[i] * b[k - i]` with the negacyclic wrap, as the product row
/// computes it before reduction.
spec fn nega_sum_at(a: Seq<u64>, b: Seq<u64>, k: int) -> int {
    crate::ring::poly::nega_sum(a, b, k, a.len() as int, a.len() as int)
}

/// What the division by `P` does not carry through the product with the
/// secret: `ModDown(acc_b) + ModDown(acc_a) * s - ModDown(acc_b + acc_a * s)`
/// over `Q`, with `s` read on the rows of `Q`.
pub open spec fn mod_down_rounding(acc_b: Rows, acc_a: Rows, s: Rows, q: Seq<u64>, qp: RingView) -> Rows {
    let p = qp.moduli.subrange(q.len() as int, qp.moduli.len() as int);
    let sq = keep_moduli(s, q.len());
    poly_sub(
        poly_add(mod_down_rows(acc_b, q, p), poly_mul(mod_down_rows(acc_a, q, p), sq, q), q),
        mod_down_rows(poly_add(acc_b, poly_mul(acc_a, s, qp.moduli), qp.moduli), q, p),
        q,
    )
}

/// Key switching decrypts under the new secret to the old phase: when
/// `key_switch` succeeds on `(c0, c1)` over `Q` with a key over `QP` (the
/// moduli of `Q`, then those of `P`) whose rows satisfy
/// `b_j + a_j*s_new = P*(Q/q_j)*s_old + e_j`, each modulus's CRT constant
/// inverts and `P` inverts modulo each `q_i`, the switched ciphertext has,
/// under `s_new` read over `Q`, the phase `c0 + c1*s_old` of the input under
/// `s_old` (read over `Q`), plus the division by `P` of the digit-weighted
/// errors `sum_j d_j*e_j`, plus the rounding that the division leaves
/// between the accumulated pair and its phase ([`mod_down_rounding`]).
pub proof fn lemma_key_switch_decrypts(
    ct: Seq<Rows>,
    key: (RingView, Seq<Seq<Rows>>),
    q_ring: RingView,
    s_old: Rows,
    s_new: Rows,
    es: Seq<Rows>,
)
    requires
        ring_valid(key.0),
        ring_valid(q_ring),
        ct.len() >= 2,
        key_switch_result(ct, key, q_ring) is Ok,
        key.0.degree == q_ring.degree,
        q_ring.moduli.len() <= key.0.moduli.len(),
        key.0.moduli.subrange(0, q_ring.moduli.len() as int) == q_ring.moduli,
        forall|k: int| 0 <= k < q_ring.moduli.len() ==> #[trigger] crt_lift(q_ring.moduli, k, q_ring.moduli[k]) == 1,
        forall|i: int|
            0 <= i < q_ring.moduli.len() ==> (#[trigger] product_inverse(
                key.0.moduli.subrange(q_ring.moduli.len() as int, key.0.moduli.len() as int),
                q_ring.moduli[i],
            ) * (prod_except(
                key.0.moduli.subrange(q_ring.moduli.len() as int, key.0.moduli.len() as int),
                (key.0.moduli.len() - q_ring.moduli.len()) as int,
                (key.0.moduli.len() - q_ring.moduli.len()) as int,
            ) % (q_ring.moduli[i] as int))) % (q_ring.moduli[i] as int) == 1,
        es.len() == q_ring.moduli.len(),
        poly_in_ring(key.0.degree, key.0.moduli, s_old),
        poly_in_ring(key.0.degree, key.0.moduli, s_new),
        forall|j: int| 0 <= j < es.len() ==> poly_in_ring(key.0.degree, key.0.moduli, #[trigger] es[j]),
        forall|j: int|
            0 <= j < key.1.len() ==> key_row_equation(key.0, #[trigger] key.1[j], s_old, s_new, es[j], j),
    ensures
        ({
            let (qp, rows, q) = (key.0, key.1, q_ring.moduli);
            let n = q.len() as int;
            let p = qp.moduli.subrange(n, qp.moduli.len() as int);
            let out = key_switch_result(ct, key, q_ring)->Ok_0;
            let md = mod_down_rows(switch_noise(ct[1], q, qp, es, n), q, p);
            let rd = mod_down_rounding(
                switch_sum(ct[1], rows, q, qp, 0, n),
                switch_sum(ct[1], rows, q, qp, 1, n),
                s_new,
                q,
                qp,
            );
            &&& out.len() == 2
            &&& poly_in_ring(q_ring.degree, q, out[0])
            &&& poly_in_ring(q_ring.degree, q, out[1])
            &&& poly_in_ring(q_ring.degree, q, md)
            &&& poly_in_ring(q_ring.degree, q, rd)
            &&& phase(out, keep_moduli(s_new, q.len()), q, 2) == poly_add(
                poly_add(phase(seq![ct[0], ct[1]], keep_moduli(s_old, q.len()), q, 2), md, q),
                rd,
                q,
            )
        }),
{
    let (qp, rows, q) = (key.0, key.1, q_ring.moduli);
    let n = q.len() as int;
    let ql = q.len() as int;
    let m = qp.moduli;
    let p = m.subrange(ql, m.len() as int);
    let (c0, c1) = (ct[0], ct[1]);
    assert(crate::ring::poly::poly_check(q_ring, c0) is Ok);
    assert(crate::ring::poly::poly_check(q_ring, c1) is Ok);
    assert(m.len() != ql);
    lemma_key_switch_targets_the_old_secret(ct, key, q_ring, s_old, s_new, es);
    lemma_key_switch_phase(ct, key, q_ring, s_old, s_new, es);
    assert(rows.len() == n);
    assert(switch_check(c1, rows, q, qp, n) is Ok);
    lemma_switch_accumulators_phase(c1, rows, q, qp, s_old, s_new, es, n);
    let acc_b = switch_sum(c1, rows, q, qp, 0, n);
    let acc_a = switch_sum(c1, rows, q, qp, 1, n);
    let noise = switch_noise(c1, q, qp, es, n);
    let x = poly_add(acc_b, poly_mul(acc_a, s_new, m), m);
    assert(x == poly_add(scaled_product(c1, s_old, q, qp), noise, m));
    lemma_mod_down_of_scaled(c1, s_old, q_ring, qp, noise);
    let sq = keep_moduli(s_new, q.len());
    let sq_old = keep_moduli(s_old, q.len());
    assert(sq =~= s_new.subrange(0, ql));
    assert(sq_old =~= s_old.subrange(0, ql));
    assert(poly_in_ring(q_ring.degree, q, sq)) by {
        assert forall|j: int, i: int| 0 <= j < sq.len() && 0 <= i < sq[j].len() implies #[trigger] sq[j][i] < q[j] by {
            assert(m[j] == q[j]);
        }
    }
    assert(poly_in_ring(q_ring.degree, q, sq_old)) by {
        assert forall|j: int, i: int| 0 <= j < sq_old.len() && 0 <= i < sq_old[j].len() implies #[trigger] sq_old[j][i]
            < q[j] by {
            assert(m[j] == q[j]);
        }
    }
    lemma_mul_stays_in_ring(qp, acc_a, s_new);
    lemma_ring_ops_stay_in_ring(qp, acc_b, poly_mul(acc_a, s_new, m));
    assert(ql + p.len() == m.len());
    lemma_mod_down_in_ring(acc_b, q_ring, p);
    lemma_mod_down_in_ring(acc_a, q_ring, p);
    lemma_mod_down_in_ring(x, q_ring, p);
    lemma_mod_down_in_ring(noise, q_ring, p);
    let md_b = mod_down_rows(acc_b, q, p);
    let md_a = mod_down_rows(acc_a, q, p);
    let md_x = mod_down_rows(x, q, p);
    let md_n = mod_down_rows(noise, q, p);
    let y = poly_mul(c1, sq_old, q);
    lemma_mul_stays_in_ring(q_ring, md_a, sq);
    lemma_mul_stays_in_ring(q_ring, c1, sq_old);
    let b = poly_mul(md_a, sq, q);
    let ab = poly_add(md_b, b, q);
    lemma_ring_ops_stay_in_ring(q_ring, md_b, b);
    let r = mod_down_rounding(acc_b, acc_a, s_new, q, qp);
    assert(r == poly_sub(ab, md_x, q));
    lemma_ring_ops_stay_in_ring(q_ring, ab, md_x);
    lemma_sub_add_cancel(q_ring, ab, md_x);
    // ab == r + md_x == (y + md_n) + r
    assert(md_x == poly_add(y, md_n, q));
    lemma_ring_ops_stay_in_ring(q_ring, y, md_n);
    lemma_add_commutative(q_ring, r, md_x);
    // phase(out) == (c0 + md_b) + md_a * sq == c0 + ab
    let out = key_switched(ct, qp, rows, q_ring);
    assert(out == seq![poly_add(c0, md_b, q), md_a]);
    lemma_ring_ops_stay_in_ring(q_ring, c0, md_b);
    assert(poly_pow(sq, 1, q) == sq);
    assert(phase(out, sq, q, 1) == out[0]);
    assert(phase(out, sq, q, 2) == poly_add(poly_add(c0, md_b, q), b, q));
    lemma_add_associative(q_ring, c0, md_b, b);
    // c0 + ((y + md_n) + r) == ((c0 + y) + md_n) + r
    lemma_add_associative(q_ring, c0, poly_add(y, md_n, q), r);
    lemma_add_associative(q_ring, c0, y, md_n);
    assert(poly_pow(sq_old, 1, q) == sq_old);
    assert(phase(seq![c0, c1], sq_old, q, 1) == c0);
    assert(phase(seq![c0, c1], sq_old, q, 2) == poly_add(c0, y, q));
}

/// Key switching with a generated key decrypts under the new secret to the
/// old phase: for the key that `generate_key_switch_key` makes from `s_old`
/// (over `QP`), ternary `s_new`, masks and errors, a successful switch of
/// `(c0, c1)` has, under `s_new` read over `Q`, the phase `c0 + c1*s_old`
/// (read over `Q`), plus the division by `P` of the digit-weighted errors,
/// plus the rounding of that division, wherever each modulus's CRT constant
/// and `P` invert modulo the moduli of `Q`.
pub proof fn lemma_generated_key_switch_decrypts(
    ct: Seq<Rows>,
    q_ring: RingView,
    p: Seq<u64>,
    s_old: Rows,
    s_new: Rows,
    masks: Seq<Rows>,
    errors: Seq<Rows>,
)
    requires
        ring_valid(extended_ring(q_ring, p)),
        ring_valid(q_ring),
        ct.len() >= 2,
        masks.len() == q_ring.moduli.len(),
        errors.len() == q_ring.moduli.len(),
        forall|k: int| 0 <= k < q_ring.moduli.len() ==> #[trigger] crt_lift(q_ring.moduli, k, q_ring.moduli[k]) == 1,
        forall|i: int|
            0 <= i < q_ring.moduli.len() ==> (#[trigger] product_inverse(p, q_ring.moduli[i]) * (prod_except(
                p,
                p.len() as int,
                p.len() as int,
            ) % (q_ring.moduli[i] as int))) % (q_ring.moduli[i] as int) == 1,
        generated_key_switch_key(q_ring, p, s_old, s_new, masks, errors) is Ok,
        key_switch_result(ct, generated_key_switch_key(q_ring, p, s_old, s_new, masks, errors)->Ok_0, q_ring) is Ok,
    ensures
        ({
            let key = generated_key_switch_key(q_ring, p, s_old, s_new, masks, errors)->Ok_0;
            let (qp, rows, q) = (key.0, key.1, q_ring.moduli);
            let n = q.len() as int;
            let s = rebased(s_new[0], q[0], qp.moduli);
            let out = key_switch_result(ct, key, q_ring)->Ok_0;
            phase(out, keep_moduli(s, q.len()), q, 2) == poly_add(
                poly_add(
                    phase(seq![ct[0], ct[1]], keep_moduli(s_old, q.len()), q, 2),
                    mod_down_rows(switch_noise(ct[1], q, qp, errors, n), q, p),
                    q,
                ),
                mod_down_rounding(
                    switch_sum(ct[1], rows, q, qp, 0, n),
                    switch_sum(ct[1], rows, q, qp, 1, n),
                    s,
                    q,
                    qp,
                ),
                q,
            )
        }),
{
    let qp = extended_ring(q_ring, p);
    let q = q_ring.moduli;
    let n = q.len() as int;
    let s = rebased(s_new[0], q[0], qp.moduli);
    let key = generated_key_switch_key(q_ring, p, s_old, s_new, masks, errors)->Ok_0;
    assert(samples_check(qp, s, masks, errors, n) is Ok);
    lemma_samples_in_ring(qp, s, masks, errors, n);
    assert(crate::ring::poly::poly_check(qp, s_old) is Ok);
    assert(key.0 == qp);
    assert(qp.moduli.subrange(0, n) =~= q);
    assert(qp.moduli.subrange(n, qp.moduli.len() as int) =~= p);
    assert forall|j: int| 0 <= j < key.1.len() implies key_row_equation(qp, #[trigger] key.1[j], s_old, s, errors[j], j) by {
        lemma_key_switch_row_equation(qp, s_old, s, masks[j], errors[j], j);
    }
    lemma_key_switch_decrypts(ct, key, q_ring, s_old, s, errors);
}


/// Relinearization keeps the phase: for a key over `QP` whose rows switch
/// from `s^2` to `s` (`b_j + a_j*s = P*(Q/q_j)*s^2 + e_j`), the pair
/// `(c0 + d0, c1 + d1)` that `relinearize` makes from `(c0, c1, c2)`, with
/// `(d0, d1)` the switch of `(0, c2)`, has under `s` read over `Q` the phase
/// `c0 + c1*s + c2*s^2` of the input, plus the division by `P` of the
/// digit-weighted errors and the rounding of that division, wherever each
/// modulus's CRT constant and `P` invert modulo the moduli of `Q`.
pub proof fn lemma_relinearize_decrypts(
    ct: Seq<Rows>,
    key: (RingView, Seq<Seq<Rows>>),
    q_ring: RingView,
    s: Rows,
    es: Seq<Rows>,
)
    requires
        ring_valid(key.0),
        ring_valid(q_ring),
        ct.len() == 3,
        crate::lattice::rlwe::ciphertext::components_in_ring(q_ring, ct),
        key_switch_result(seq![poly_zero(q_ring.degree, q_ring.moduli.len()), ct[2]], key, q_ring) is Ok,
        key.0.degree == q_ring.degree,
        q_ring.moduli.len() <= key.0.moduli.len(),
        key.0.moduli.subrange(0, q_ring.moduli.len() as int) == q_ring.moduli,
        forall|k: int| 0 <= k < q_ring.moduli.len() ==> #[trigger] crt_lift(q_ring.moduli, k, q_ring.moduli[k]) == 1,
        forall|i: int|
            0 <= i < q_ring.moduli.len() ==> (#[trigger] product_inverse(
                key.0.moduli.subrange(q_ring.moduli.len() as int, key.0.moduli.len() as int),
                q_ring.moduli[i],
            ) * (prod_except(
                key.0.moduli.subrange(q_ring.moduli.len() as int, key.0.moduli.len() as int),
                (key.0.moduli.len() - q_ring.moduli.len()) as int,
                (key.0.moduli.len() - q_ring.moduli.len()) as int,
            ) % (q_ring.moduli[i] as int))) % (q_ring.moduli[i] as int) == 1,
        es.len() == q_ring.moduli.len(),
        poly_in_ring(key.0.degree, key.0.moduli, s),
        forall|j: int| 0 <= j < es.len() ==> poly_in_ring(key.0.degree, key.0.moduli, #[trigger] es[j]),
        forall|j: int|
            0 <= j < key.1.len() ==> key_row_equation(
                key.0,
                #[trigger] key.1[j],
                poly_mul(s, s, key.0.moduli),
                s,
                es[j],
                j,
            ),
    ensures
        ({
            let (qp, rows, q) = (key.0, key.1, q_ring.moduli);
            let n = q.len() as int;
            let p = qp.moduli.subrange(n, qp.moduli.len() as int);
            let v = key_switch_result(seq![poly_zero(q_ring.degree, q.len()), ct[2]], key, q_ring)->Ok_0;
            let out = seq![poly_add(ct[0], v[0], q), poly_add(ct[1], v[1], q)];
            let sq = keep_moduli(s, q.len());
            phase(out, sq, q, 2) == poly_add(
                phase(ct, sq, q, 3),
                poly_add(
                    mod_down_rows(switch_noise(ct[2], q, qp, es, n), q, p),
                    mod_down_rounding(
                        switch_sum(ct[2], rows, q, qp, 0, n),
                        switch_sum(ct[2], rows, q, qp, 1, n),
                        s,
                        q,
                        qp,
                    ),
                    q,
                ),
                q,
            )
        }),
{
    let (qp, rows, q) = (key.0, key.1, q_ring.moduli);
    let n = q.len() as int;
    let m = qp.moduli;
    let p = m.subrange(n, m.len() as int);
    let z = poly_zero(q_ring.degree, q.len());
    let c2 = ct[2];
    let pair = seq![z, c2];
    assert(poly_in_ring(q_ring.degree, q, ct[0]) && poly_in_ring(q_ring.degree, q, ct[1]));
    assert(poly_in_ring(q_ring.degree, q, c2));
    let s2 = poly_mul(s, s, m);
    lemma_mul_stays_in_ring(qp, s, s);
    lemma_key_switch_decrypts(pair, key, q_ring, s2, s, es);
    assert(pair[1] == c2);
    let v = key_switch_result(pair, key, q_ring)->Ok_0;
    let md = mod_down_rows(switch_noise(c2, q, qp, es, n), q, p);
    let rd = mod_down_rounding(switch_sum(c2, rows, q, qp, 0, n), switch_sum(c2, rows, q, qp, 1, n), s, q, qp);
    // s^2 read over Q is the square of s read over Q
    let sq = keep_moduli(s, q.len());
    assert(sq =~= s.subrange(0, n));
    assert(poly_in_ring(q_ring.degree, q, sq)) by {
        assert forall|j: int, i: int| 0 <= j < sq.len() && 0 <= i < sq[j].len() implies #[trigger] sq[j][i] < q[j] by {
            assert(m[j] == q[j]);
        }
    }
    lemma_keep_moduli_ops(qp, s, s, q.len());
    let s2q = poly_mul(sq, sq, q);
    assert(keep_moduli(s2, q.len()) == s2q);
    lemma_mul_stays_in_ring(q_ring, sq, sq);
    // the phase of (0, c2) under s^2 is c2*s^2
    let c2s2 = poly_mul(c2, s2q, q);
    lemma_mul_stays_in_ring(q_ring, c2, s2q);
    lemma_zero_in_ring(q_ring);
    assert(seq![pair[0], pair[1]] =~= pair);
    assert(phase(pair, s2q, q, 1) == z);
    assert(poly_pow(s2q, 1, q) == s2q);
    assert(phase(pair, s2q, q, 2) == poly_add(z, c2s2, q));
    lemma_add_commutative(q_ring, z, c2s2);
    lemma_add_zero(q_ring, c2s2);
    // phase(out) == (c0 + c1*s) + (v0 + v1*s)
    let out = seq![poly_add(ct[0], v[0], q), poly_add(ct[1], v[1], q)];
    assert(poly_pow(sq, 1, q) == sq);
    assert(phase(out, sq, q, 1) == out[0]);
    assert(phase(v, sq, q, 1) == v[0]);
    assert(phase(ct, sq, q, 1) == ct[0]);
    lemma_mul_distributes_over_add_left(q_ring, ct[1], v[1], sq);
    let c1s = poly_mul(ct[1], sq, q);
    let v1s = poly_mul(v[1], sq, q);
    lemma_mul_stays_in_ring(q_ring, ct[1], sq);
    lemma_mul_stays_in_ring(q_ring, v[1], sq);
    lemma_add_interchange(q_ring, ct[0], v[0], c1s, v1s);
    let ph2 = poly_add(ct[0], c1s, q);
    lemma_ring_ops_stay_in_ring(q_ring, ct[0], c1s);
    assert(phase(ct, sq, q, 2) == ph2);
    assert(poly_pow(sq, 2, q) == s2q);
    assert(phase(ct, sq, q, 3) == poly_add(ph2, c2s2, q));
    // ph2 + ((c2s2 + md) + rd) == (ph2 + c2s2) + (md + rd)
    lemma_add_associative(q_ring, c2s2, md, rd);
    lemma_ring_ops_stay_in_ring(q_ring, md, rd);
    lemma_add_associative(q_ring, ph2, c2s2, poly_add(md, rd, q));
}

} // verus!
