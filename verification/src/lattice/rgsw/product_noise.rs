//! What the external product decrypts to.
//!
//! Row `k = m*levels + l` of an RGSW block has phase `e_k + g_k*x`, with
//! `e_k` the error of its encryption of zero and `g_k` the gadget scales of
//! digit `(m, l)`. Weighting the rows by the digits `d_k` of a component `c`
//! gives `sum_k d_k*e_k + (sum_k g_k*d_k)*x`, and the gadget-weighted digits
//! sum back to `c`. Over the two blocks, with `x = msg` and `x = s*msg`, the
//! phase of the product is `(c0 + c1*s)*msg` plus the digit-weighted errors.

use vstd::arithmetic::power2::pow2;
use vstd::prelude::*;

use crate::lattice::rgsw::ciphertext::{gadget_row, scale_vector};
use crate::lattice::noise::{spec_digit_bound, spec_external_product_noise_bound, spec_ring_product_bound};
use crate::lattice::rgsw::decomposition::{
    decomposition_of, digit_scale, gadget_digit, level_sum, modulus_sum, recompose_term, recomposition,
};
use crate::lattice::rgsw::external_product::{block_products, external_product_of, gadget_digits, poly_fold};
use crate::lattice::rgsw::recomposition::lemma_digit_value;
use crate::lattice::rlwe::noise_growth::{
    centered_distance, coefficients_within, lemma_difference_within, lemma_product_within, lemma_sum_within,
    lemma_within_after_adding, within,
};
use crate::lattice::security::spec_fresh_error_bound;
use crate::lattice::rlwe::ciphertext::components_in_ring;
use crate::lattice::rlwe::decryptor::{phase, poly_pow};
use crate::ring::algebra::{
    lemma_add_associative, lemma_add_commutative, lemma_add_interchange, lemma_add_zero, lemma_mul_associative, lemma_mul_by_zero, lemma_mul_commutative,
    lemma_mul_distributes_over_add, lemma_mul_distributes_over_add_left, lemma_mul_scale_left, lemma_sub_add_cancel,
};
use crate::lattice::rgsw::recomposition::lemma_recompose_decompose;
use crate::ring::poly::{
    lemma_mul_stays_in_ring, lemma_ring_ops_stay_in_ring, lemma_scale_rows_stay_in_ring, poly_add, poly_in_ring,
    poly_mul, poly_scale_rows, poly_sub, poly_zero, ring_valid, RingView, Rows,
};
use crate::ring::rns::crt_lift;

verus! {

/// `sum_{k < n} g_k * d_k`: the digits scaled row by row by the gadget
/// scales of digit `k = m*levels + l`.
pub open spec fn gadget_sum(d: Seq<Rows>, r: RingView, levels: int, b: u32, n: int) -> Rows
    decreases n,
{
    if n <= 0 {
        poly_zero(r.degree, r.moduli.len())
    } else {
        poly_add(
            gadget_sum(d, r, levels, b, n - 1),
            poly_scale_rows(d[n - 1], scale_vector(r.moduli, (n - 1) / levels, (n - 1) % levels, b), r.moduli),
            r.moduli,
        )
    }
}

/// `sum_{k < n} d_k * e_k`, with `e_k` the phase of `masks[k]` under `s`.
pub open spec fn mask_noise(d: Seq<Rows>, masks: Seq<Seq<Rows>>, s: Rows, r: RingView, n: int) -> Rows
    decreases n,
{
    if n <= 0 {
        poly_zero(r.degree, r.moduli.len())
    } else {
        poly_add(
            mask_noise(d, masks, s, r, n - 1),
            poly_mul(d[n - 1], phase(masks[n - 1], s, r.moduli, 2), r.moduli),
            r.moduli,
        )
    }
}

/// The phase of a two-component ciphertext is `c0 + c1*s`, a ring element.
proof fn lemma_phase_of_pair(r: RingView, c: Seq<Rows>, s: Rows)
    requires
        ring_valid(r),
        c.len() >= 2,
        poly_in_ring(r.degree, r.moduli, c[0]),
        poly_in_ring(r.degree, r.moduli, c[1]),
        poly_in_ring(r.degree, r.moduli, s),
    ensures
        phase(c, s, r.moduli, 2) == poly_add(c[0], poly_mul(c[1], s, r.moduli), r.moduli),
        poly_in_ring(r.degree, r.moduli, phase(c, s, r.moduli, 2)),
{
    let mv = r.moduli;
    assert(phase(c, s, mv, 1) == c[0]);
    assert(poly_pow(s, 1, mv) == s);
    lemma_mul_stays_in_ring(r, c[1], s);
    lemma_ring_ops_stay_in_ring(r, c[0], poly_mul(c[1], s, mv));
}

/// The zero polynomial of a valid ring is one of its elements.
proof fn lemma_zero_is_element(r: RingView)
    requires
        ring_valid(r),
    ensures
        poly_in_ring(r.degree, r.moduli, poly_zero(r.degree, r.moduli.len())),
{
    let z = poly_zero(r.degree, r.moduli.len());
    assert forall|j: int, i: int| 0 <= j < z.len() && 0 <= i < z[j].len() implies #[trigger] z[j][i]
        < r.moduli[j] by {
        assert(crate::ring::arith::modulus_in_range(r.moduli[j] as int));
    }
}

/// Coefficient `(j, i)` of the first `t = m*levels + l` gadget terms is the
/// recomposition sum over the first `m` moduli and the first `l` levels of
/// modulus `m`, reduced modulo `q_j`.
proof fn lemma_gadget_sum_at(
    d: Seq<Rows>,
    r: RingView,
    levels: int,
    b: u32,
    t: int,
    m: int,
    l: int,
    j: int,
    i: int,
)
    requires
        ring_valid(r),
        levels > 0,
        forall|k: int| 0 <= k < d.len() ==> poly_in_ring(r.degree, r.moduli, #[trigger] d[k]),
        0 <= t <= d.len(),
        0 <= m,
        0 <= l < levels,
        t == m * levels + l,
        0 <= j < r.moduli.len(),
        0 <= i < r.degree,
    ensures
        poly_in_ring(r.degree, r.moduli, gadget_sum(d, r, levels, b, t)),
        gadget_sum(d, r, levels, b, t)[j][i] == (modulus_sum(d, levels, r.moduli, b, j, i, m) + level_sum(
            d,
            levels,
            r.moduli,
            b,
            m,
            j,
            i,
            l,
        )) % (r.moduli[j] as int),
    decreases t,
{
    let mv = r.moduli;
    let q = mv[j] as int;
    assert(crate::ring::arith::modulus_in_range(q));
    if t == 0 {
        assert(m == 0 && l == 0) by (nonlinear_arith)
            requires
                0 == m * levels + l,
                0 <= m,
                0 <= l,
                levels > 0,
        ;
        lemma_zero_is_element(r);
        vstd::arithmetic::div_mod::lemma_small_mod(0, q as nat);
    } else {
        let (pm, pl) = if l > 0 {
            (m, l - 1)
        } else {
            (m - 1, levels - 1)
        };
        if l == 0 {
            assert(m > 0) by (nonlinear_arith)
                requires
                    t == m * levels,
                    t != 0,
                    m >= 0,
            ;
            assert((m - 1) * levels == m * levels - levels) by (nonlinear_arith);
        }
        assert(t - 1 == pm * levels + pl);
        lemma_gadget_sum_at(d, r, levels, b, t - 1, pm, pl, j, i);
        vstd::arithmetic::div_mod::lemma_fundamental_div_mod_converse(t - 1, levels, pm, pl);
        let prev = gadget_sum(d, r, levels, b, t - 1);
        let sv = scale_vector(mv, pm, pl, b);
        let term = poly_scale_rows(d[t - 1], sv, mv);
        lemma_scale_rows_stay_in_ring(r, d[t - 1], sv);
        lemma_ring_ops_stay_in_ring(r, prev, term);
        let ds = digit_scale(mv, pm, pl, b, j);
        vstd::arithmetic::div_mod::lemma_mod_bound(
            crate::lattice::rgsw::decomposition::level_weight(pl, b, mv[j]) as int * crt_lift(mv, pm, mv[j]) as int,
            q,
        );
        assert(sv[j] == ds);
        let tr = recompose_term(d, levels, mv, b, pm, pl, j, i);
        assert(term[j][i] == tr);
        let x = modulus_sum(d, levels, mv, b, j, i, pm) + level_sum(d, levels, mv, b, pm, j, i, pl);
        vstd::arithmetic::div_mod::lemma_mod_bound(d[t - 1][j][i] * ds, q);
        vstd::arithmetic::div_mod::lemma_mod_twice(d[t - 1][j][i] * ds, q);
        vstd::arithmetic::div_mod::lemma_add_mod_noop(x, tr, q);
        vstd::arithmetic::div_mod::lemma_mod_twice(x, q);
        vstd::arithmetic::div_mod::lemma_mod_bound(x + tr, q);
        assert(gadget_sum(d, r, levels, b, t)[j][i] == (x + tr) % q);
        if l == 0 {
            assert(level_sum(d, levels, mv, b, m, j, i, 0) == 0);
            assert(modulus_sum(d, levels, mv, b, j, i, m) == modulus_sum(d, levels, mv, b, j, i, pm) + level_sum(
                d,
                levels,
                mv,
                b,
                pm,
                j,
                i,
                levels,
            ));
        }
    }
}

/// One block of the external product, over its first `n` rows, added onto
/// `(i0, i1)`: row `k` is the encryption of zero `masks[k]` with the gadget
/// multiple of `x` for digit `k` added to its first component, so the phase
/// under `s` of what the digits `d` accumulate is that of `(i0, i1)` plus
/// `sum_k d_k*e_k + (sum_k g_k*d_k)*x`.
proof fn lemma_block_phase(
    r: RingView,
    d: Seq<Rows>,
    rows: Seq<Seq<Rows>>,
    masks: Seq<Seq<Rows>>,
    x: Rows,
    s: Rows,
    levels: int,
    b: u32,
    i0: Rows,
    i1: Rows,
    n: int,
)
    requires
        ring_valid(r),
        levels > 0,
        0 <= n <= d.len(),
        n <= rows.len(),
        n <= masks.len(),
        forall|k: int| 0 <= k < d.len() ==> poly_in_ring(r.degree, r.moduli, #[trigger] d[k]),
        forall|k: int| 0 <= k < n ==> (#[trigger] masks[k]).len() == 2 && components_in_ring(r, masks[k]),
        forall|k: int|
            0 <= k < n ==> #[trigger] rows[k] == gadget_row(masks[k], x, r.moduli, k / levels, k % levels, b),
        poly_in_ring(r.degree, r.moduli, x),
        poly_in_ring(r.degree, r.moduli, s),
        poly_in_ring(r.degree, r.moduli, i0),
        poly_in_ring(r.degree, r.moduli, i1),
    ensures
        ({
            let mv = r.moduli;
            let f0 = poly_fold(i0, block_products(d, rows, 0, mv).take(n), mv);
            let f1 = poly_fold(i1, block_products(d, rows, 1, mv).take(n), mv);
            &&& poly_in_ring(r.degree, mv, f0)
            &&& poly_in_ring(r.degree, mv, f1)
            &&& poly_in_ring(r.degree, mv, mask_noise(d, masks, s, r, n))
            &&& poly_in_ring(r.degree, mv, gadget_sum(d, r, levels, b, n))
            &&& poly_add(f0, poly_mul(f1, s, mv), mv) == poly_add(
                poly_add(i0, poly_mul(i1, s, mv), mv),
                poly_add(mask_noise(d, masks, s, r, n), poly_mul(gadget_sum(d, r, levels, b, n), x, mv), mv),
                mv,
            )
        }),
    decreases n,
{
    let mv = r.moduli;
    let z = poly_zero(r.degree, mv.len());
    lemma_zero_is_element(r);
    lemma_mul_stays_in_ring(r, i1, s);
    lemma_ring_ops_stay_in_ring(r, i0, poly_mul(i1, s, mv));
    let w = poly_add(i0, poly_mul(i1, s, mv), mv);
    let bp0 = block_products(d, rows, 0, mv);
    let bp1 = block_products(d, rows, 1, mv);
    if n == 0 {
        assert(bp0.take(0).len() == 0);
        assert(bp1.take(0).len() == 0);
        lemma_mul_by_zero(r, x);
        lemma_mul_commutative(r, z, x);
        lemma_add_zero(r, z);
        lemma_add_zero(r, w);
    } else {
        let k = n - 1;
        lemma_block_phase(r, d, rows, masks, x, s, levels, b, i0, i1, k);
        assert(bp0.take(n).drop_last() =~= bp0.take(k));
        assert(bp1.take(n).drop_last() =~= bp1.take(k));
        let f0p = poly_fold(i0, bp0.take(k), mv);
        let f1p = poly_fold(i1, bp1.take(k), mv);
        let dk = d[k];
        let mk = masks[k];
        let sv = scale_vector(mv, k / levels, k % levels, b);
        let sx = poly_scale_rows(x, sv, mv);
        assert(rows[k] == gadget_row(mk, x, mv, k / levels, k % levels, b));
        let r0 = rows[k][0];
        let r1 = rows[k][1];
        assert(r0 == poly_add(mk[0], sx, mv));
        assert(r1 == mk[1]);
        assert(bp0.take(n).last() == poly_mul(dk, r0, mv));
        assert(bp1.take(n).last() == poly_mul(dk, r1, mv));
        assert(poly_in_ring(r.degree, mv, mk[0]));
        assert(poly_in_ring(r.degree, mv, mk[1]));
        lemma_scale_rows_stay_in_ring(r, x, sv);
        lemma_ring_ops_stay_in_ring(r, mk[0], sx);
        lemma_phase_of_pair(r, mk, s);
        let ph = phase(mk, s, mv, 2);
        let m1s = poly_mul(mk[1], s, mv);
        lemma_mul_stays_in_ring(r, mk[1], s);
        let dr0 = poly_mul(dk, r0, mv);
        let dr1 = poly_mul(dk, r1, mv);
        lemma_mul_stays_in_ring(r, dk, r0);
        lemma_mul_stays_in_ring(r, dk, r1);
        lemma_ring_ops_stay_in_ring(r, f0p, dr0);
        lemma_ring_ops_stay_in_ring(r, f1p, dr1);
        let f1ps = poly_mul(f1p, s, mv);
        let dr1s = poly_mul(dr1, s, mv);
        lemma_mul_stays_in_ring(r, f1p, s);
        lemma_mul_stays_in_ring(r, dr1, s);
        // (f1p + dr1)*s == f1p*s + dr1*s
        lemma_mul_distributes_over_add_left(r, f1p, dr1, s);
        // (f0p + dr0) + (f1ps + dr1s) == (f0p + f1ps) + (dr0 + dr1s)
        lemma_add_interchange(r, f0p, dr0, f1ps, dr1s);
        // dr1*s == dk*(r1*s), and dk*r0 + dk*(r1*s) == dk*(r0 + r1*s)
        lemma_mul_associative(r, dk, r1, s);
        lemma_mul_distributes_over_add(r, dk, r0, m1s);
        // r0 + r1*s == (mk0 + sx) + m1s == ph + sx
        lemma_add_associative(r, mk[0], sx, m1s);
        lemma_add_commutative(r, sx, m1s);
        lemma_add_associative(r, mk[0], m1s, sx);
        // dk*(ph + sx) == dk*ph + dk*sx
        lemma_mul_distributes_over_add(r, dk, ph, sx);
        // dk*sx == (g_k*dk)*x
        let sd = poly_scale_rows(dk, sv, mv);
        lemma_scale_rows_stay_in_ring(r, dk, sv);
        lemma_mul_commutative(r, dk, sx);
        lemma_mul_scale_left(r, x, dk, 0, sv);
        lemma_mul_commutative(r, x, dk);
        lemma_mul_scale_left(r, dk, x, 0, sv);
        let nz = mask_noise(d, masks, s, r, k);
        let g = gadget_sum(d, r, levels, b, k);
        let gx = poly_mul(g, x, mv);
        let dph = poly_mul(dk, ph, mv);
        let sdx = poly_mul(sd, x, mv);
        lemma_mul_stays_in_ring(r, g, x);
        lemma_mul_stays_in_ring(r, dk, ph);
        lemma_mul_stays_in_ring(r, sd, x);
        lemma_ring_ops_stay_in_ring(r, nz, gx);
        lemma_ring_ops_stay_in_ring(r, dph, sdx);
        lemma_ring_ops_stay_in_ring(r, nz, dph);
        lemma_ring_ops_stay_in_ring(r, g, sd);
        // (w + (nz + gx)) + (dph + sdx) == w + ((nz + gx) + (dph + sdx))
        lemma_add_associative(r, w, poly_add(nz, gx, mv), poly_add(dph, sdx, mv));
        // (nz + gx) + (dph + sdx) == (nz + dph) + (gx + sdx)
        lemma_add_interchange(r, nz, gx, dph, sdx);
        // (g + sd)*x == gx + sdx
        lemma_mul_distributes_over_add_left(r, g, sd, x);
    }
}

/// The gadget-weighted digits of a full decomposition sum to its
/// recomposition.
proof fn lemma_gadget_sum_is_recomposition(d: Seq<Rows>, r: RingView, levels: int, b: u32)
    requires
        ring_valid(r),
        levels > 0,
        d.len() == r.moduli.len() * levels,
        forall|k: int| 0 <= k < d.len() ==> poly_in_ring(r.degree, r.moduli, #[trigger] d[k]),
    ensures
        gadget_sum(d, r, levels, b, d.len() as int) == recomposition(d, levels, r.moduli, b, r.degree),
{
    let mv = r.moduli;
    let t = d.len() as int;
    let g = gadget_sum(d, r, levels, b, t);
    let rc = recomposition(d, levels, mv, b, r.degree);
    assert(t == mv.len() * levels + 0);
    assert(r.degree > 0);
    lemma_gadget_sum_at(d, r, levels, b, t, mv.len() as int, 0, 0, 0);
    assert forall|j: int| 0 <= j < mv.len() implies #[trigger] g[j] =~= rc[j] by {
        assert forall|i: int| 0 <= i < r.degree implies #[trigger] g[j][i] == rc[j][i] by {
            lemma_gadget_sum_at(d, r, levels, b, t, mv.len() as int, 0, j, i);
            let q = mv[j] as int;
            vstd::arithmetic::div_mod::lemma_mod_bound(modulus_sum(d, levels, mv, b, j, i, mv.len() as int), q);
        }
    }
    assert(g =~= rc);
}

/// The digits of a ring element are a decomposition of it.
proof fn lemma_digits_are_decomposition(p: Rows, b: u32, levels: int, moduli: Seq<u64>)
    requires
        levels > 0,
    ensures
        decomposition_of(p, b, levels, moduli, gadget_digits(p, b, levels, moduli)),
{
    let d = gadget_digits(p, b, levels, moduli);
    assert forall|m: int, l: int| 0 <= m < p.len() && 0 <= l < levels implies #[trigger] d[m * levels + l]
        == crate::lattice::rgsw::decomposition::digit_poly(p[m], l, b, moduli) by {
        let k = m * levels + l;
        assert(0 <= k < p.len() * levels) by (nonlinear_arith)
            requires
                k == m * levels + l,
                0 <= m < p.len(),
                0 <= l < levels,
        ;
        vstd::arithmetic::div_mod::lemma_fundamental_div_mod_converse(k, levels, m, l);
    }
}

/// The gadget-weighted digits of a ring element sum back to it, when the
/// digits cover every residue and each CRT lift constant reduces to one
/// modulo its own modulus.
pub proof fn lemma_gadget_sum_of_digits(p: Rows, r: RingView, levels: int, b: u32)
    requires
        ring_valid(r),
        1 <= b < 63,
        levels > 0,
        (levels - 1) * b < 64,
        poly_in_ring(r.degree, r.moduli, p),
        forall|k: int| 0 <= k < r.moduli.len() ==> #[trigger] r.moduli[k] <= pow2((levels * b) as nat),
        forall|k: int| 0 <= k < r.moduli.len() ==> #[trigger] crt_lift(r.moduli, k, r.moduli[k]) == 1,
    ensures
        gadget_sum(gadget_digits(p, b, levels, r.moduli), r, levels, b, r.moduli.len() * levels) == p,
{
    let mv = r.moduli;
    let d = gadget_digits(p, b, levels, mv);
    crate::lattice::rgsw::external_product::lemma_digits_in_ring(p, b, levels, r, d);
    lemma_digits_are_decomposition(p, b, levels, mv);
    assert forall|k: int| 0 <= k < mv.len() implies #[trigger] mv[k] > 0 by {
        assert(crate::ring::arith::modulus_in_range(mv[k] as int));
    }
    assert(p[0].len() == r.degree);
    lemma_recompose_decompose(p, b, levels, mv, d);
    lemma_gadget_sum_is_recomposition(d, r, levels, b);
}

/// Every gadget digit of a ring element is within `2^b - 1` of zero.
proof fn lemma_digits_within(p: Rows, b: u32, levels: int, r: RingView)
    requires
        ring_valid(r),
        1 <= b < 63,
        levels > 0,
        (levels - 1) * b < 64,
        poly_in_ring(r.degree, r.moduli, p),
    ensures
        forall|k: int|
            0 <= k < p.len() * levels ==> coefficients_within(
                #[trigger] gadget_digits(p, b, levels, r.moduli)[k],
                spec_digit_bound(b),
                r.moduli,
            ),
{
    let mv = r.moduli;
    let d = gadget_digits(p, b, levels, mv);
    vstd::arithmetic::power2::lemma_pow2_pos(b as nat);
    assert forall|k: int| 0 <= k < p.len() * levels implies coefficients_within(
        #[trigger] d[k],
        spec_digit_bound(b),
        mv,
    ) by {
        let m = k / levels;
        let l = k % levels;
        vstd::arithmetic::div_mod::lemma_fundamental_div_mod(k, levels);
        vstd::arithmetic::div_mod::lemma_div_pos_is_pos(k, levels);
        vstd::arithmetic::div_mod::lemma_mod_bound(k, levels);
        assert(m < p.len()) by (nonlinear_arith)
            requires
                k == levels * m + l,
                0 <= l,
                k < p.len() * levels,
                levels > 0,
        ;
        assert(0 <= l * b < 64) by (nonlinear_arith)
            requires
                0 <= l < levels,
                (levels - 1) * b < 64,
                b >= 1,
        ;
        assert forall|j: int, i: int| 0 <= j < mv.len() && 0 <= i < d[k][j].len() implies #[trigger] centered_distance(
            d[k][j][i] as int,
            mv[j] as int,
        ) <= spec_digit_bound(b) by {
            let q = mv[j] as int;
            assert(crate::ring::arith::modulus_in_range(q));
            let c = p[m][i];
            lemma_digit_value(c, l, b);
            let gd = gadget_digit(c, l, b);
            let y = pow2((l * b) as nat);
            vstd::arithmetic::power2::lemma_pow2_pos((l * b) as nat);
            vstd::arithmetic::div_mod::lemma_mod_bound((c as nat / y) as int, pow2(b as nat) as int);
            vstd::arithmetic::div_mod::lemma_mod_decreases(gd as nat, q as nat);
            vstd::arithmetic::div_mod::lemma_mod_bound(gd as int, q);
            let v = d[k][j][i];
            assert(v == gd % (q as u64));
            vstd::arithmetic::div_mod::lemma_small_mod(v as nat, q as nat);
        }
    }
}

/// The digit-weighted errors of the first `n` rows are within
/// `n * degree * digit_bound * error_bound` of zero.
proof fn lemma_mask_noise_within(
    r: RingView,
    d: Seq<Rows>,
    masks: Seq<Seq<Rows>>,
    s: Rows,
    n: int,
    digit_bound: int,
    error_bound: int,
)
    requires
        ring_valid(r),
        digit_bound >= 0,
        error_bound >= 0,
        0 <= n <= d.len(),
        n <= masks.len(),
        forall|k: int|
            0 <= k < d.len() ==> poly_in_ring(r.degree, r.moduli, #[trigger] d[k]) && coefficients_within(
                d[k],
                digit_bound,
                r.moduli,
            ),
        forall|k: int|
            0 <= k < n ==> (#[trigger] masks[k]).len() == 2 && components_in_ring(r, masks[k]) && coefficients_within(
                phase(masks[k], s, r.moduli, 2),
                error_bound,
                r.moduli,
            ),
        poly_in_ring(r.degree, r.moduli, s),
    ensures
        poly_in_ring(r.degree, r.moduli, mask_noise(d, masks, s, r, n)),
        coefficients_within(
            mask_noise(d, masks, s, r, n),
            n * spec_ring_product_bound(r.degree as int, digit_bound, error_bound),
            r.moduli,
        ),
    decreases n,
{
    let mv = r.moduli;
    let rb = spec_ring_product_bound(r.degree as int, digit_bound, error_bound);
    if n == 0 {
        lemma_zero_is_element(r);
        let z = poly_zero(r.degree, mv.len());
        assert forall|j: int, i: int| 0 <= j < mv.len() && 0 <= i < z[j].len() implies #[trigger] centered_distance(
            z[j][i] as int,
            mv[j] as int,
        ) <= 0 * rb by {
            assert(crate::ring::arith::modulus_in_range(mv[j] as int));
            vstd::arithmetic::div_mod::lemma_small_mod(0, mv[j] as nat);
        }
    } else {
        let k = n - 1;
        lemma_mask_noise_within(r, d, masks, s, k, digit_bound, error_bound);
        let mk = masks[k];
        assert(poly_in_ring(r.degree, mv, mk[0]) && poly_in_ring(r.degree, mv, mk[1]));
        lemma_phase_of_pair(r, mk, s);
        let ph = phase(mk, s, mv, 2);
        let prev = mask_noise(d, masks, s, r, k);
        let term = poly_mul(d[k], ph, mv);
        lemma_mul_stays_in_ring(r, d[k], ph);
        lemma_product_within(r, d[k], ph, digit_bound, error_bound);
        lemma_sum_within(r, prev, term, k * rb, rb);
        lemma_ring_ops_stay_in_ring(r, prev, term);
        assert(k * rb + rb == n * rb) by (nonlinear_arith)
            requires
                k == n - 1,
        ;
    }
}

/// The external product decrypts to the product of the plaintexts. Let
/// `rgsw` be an RGSW encryption of `msg` under `s` (its rows are the
/// gadget rows of `msg` and of `s*msg` over encryptions of zero that
/// decrypt under `s` to within the fresh error bound of zero), and let
/// `c0 + c1*s` be within `ct_bound` of `mu`, with the coefficients of `msg`
/// within `msg_bound` of zero. Then the product's phase under `s` is
/// exactly `(c0 + c1*s)*msg` plus the rows' errors weighted by the digits
/// of `c0` and `c1`, and it is within
/// `degree*msg_bound*ct_bound + 2*total*degree*(2^b - 1)*e` of `mu*msg`,
/// for `total = moduli * levels` digits per component. The digits
/// recompose exactly when every modulus is at most `2^(levels*b)` and each
/// CRT lift constant reduces to one modulo its own modulus.
pub proof fn lemma_external_product_decrypts(
    r: RingView,
    ct: Seq<Rows>,
    rgsw: (Seq<Seq<Rows>>, Seq<Seq<Rows>>),
    msg: Rows,
    s: Rows,
    m_masks: Seq<Seq<Rows>>,
    sm_masks: Seq<Seq<Rows>>,
    mu: Rows,
    b: u32,
    levels: int,
    msg_bound: int,
    ct_bound: int,
)
    requires
        ring_valid(r),
        1 <= b < 63,
        levels > 0,
        (levels - 1) * b < 64,
        forall|k: int| 0 <= k < r.moduli.len() ==> #[trigger] r.moduli[k] <= pow2((levels * b) as nat),
        forall|k: int| 0 <= k < r.moduli.len() ==> #[trigger] crt_lift(r.moduli, k, r.moduli[k]) == 1,
        ct.len() >= 2,
        poly_in_ring(r.degree, r.moduli, ct[0]),
        poly_in_ring(r.degree, r.moduli, ct[1]),
        poly_in_ring(r.degree, r.moduli, msg),
        poly_in_ring(r.degree, r.moduli, s),
        poly_in_ring(r.degree, r.moduli, mu),
        msg_bound >= 0,
        ct_bound >= 0,
        coefficients_within(msg, msg_bound, r.moduli),
        within(phase(ct, s, r.moduli, 2), mu, ct_bound, r.moduli),
        m_masks.len() == r.moduli.len() * levels,
        sm_masks.len() == r.moduli.len() * levels,
        forall|k: int|
            0 <= k < m_masks.len() ==> (#[trigger] m_masks[k]).len() == 2 && components_in_ring(r, m_masks[k])
                && coefficients_within(phase(m_masks[k], s, r.moduli, 2), spec_fresh_error_bound() as int, r.moduli),
        forall|k: int|
            0 <= k < sm_masks.len() ==> (#[trigger] sm_masks[k]).len() == 2 && components_in_ring(r, sm_masks[k])
                && coefficients_within(phase(sm_masks[k], s, r.moduli, 2), spec_fresh_error_bound() as int, r.moduli),
        rgsw.0.len() == r.moduli.len() * levels,
        rgsw.1.len() == r.moduli.len() * levels,
        forall|m: int, l: int|
            0 <= m < r.moduli.len() && 0 <= l < levels ==> #[trigger] rgsw.0[m * levels + l] == gadget_row(
                m_masks[m * levels + l],
                msg,
                r.moduli,
                m,
                l,
                b,
            ) && rgsw.1[m * levels + l] == gadget_row(
                sm_masks[m * levels + l],
                poly_mul(s, msg, r.moduli),
                r.moduli,
                m,
                l,
                b,
            ),
    ensures
        ({
            let mv = r.moduli;
            let total = mv.len() * levels;
            let out = external_product_of(ct, rgsw.0, rgsw.1, r, b, levels);
            let d0 = gadget_digits(ct[0], b, levels, mv);
            let d1 = gadget_digits(ct[1], b, levels, mv);
            &&& phase(out, s, mv, 2) == poly_add(
                poly_add(mask_noise(d0, m_masks, s, r, total), mask_noise(d1, sm_masks, s, r, total), mv),
                poly_mul(phase(ct, s, mv, 2), msg, mv),
                mv,
            )
            &&& within(
                phase(out, s, mv, 2),
                poly_mul(mu, msg, mv),
                spec_external_product_noise_bound(r.degree as int, msg_bound, ct_bound, total, b),
                mv,
            )
        }),
{
    let mv = r.moduli;
    let total = mv.len() * levels;
    let n = r.degree as int;
    let (b0, b1) = rgsw;
    let (c0, c1) = (ct[0], ct[1]);
    let d0 = gadget_digits(c0, b, levels, mv);
    let d1 = gadget_digits(c1, b, levels, mv);
    let sm = poly_mul(s, msg, mv);
    lemma_mul_stays_in_ring(r, s, msg);
    crate::lattice::rgsw::external_product::lemma_digits_in_ring(c0, b, levels, r, d0);
    crate::lattice::rgsw::external_product::lemma_digits_in_ring(c1, b, levels, r, d1);
    assert forall|k: int| #![trigger b0[k]] #![trigger b1[k]] 0 <= k < total implies b0[k] == gadget_row(
        m_masks[k],
        msg,
        mv,
        k / levels,
        k % levels,
        b,
    ) && b1[k] == gadget_row(sm_masks[k], sm, mv, k / levels, k % levels, b) by {
        let m = k / levels;
        let l = k % levels;
        vstd::arithmetic::div_mod::lemma_fundamental_div_mod(k, levels);
        vstd::arithmetic::div_mod::lemma_div_pos_is_pos(k, levels);
        vstd::arithmetic::div_mod::lemma_mod_bound(k, levels);
        assert(m < mv.len()) by (nonlinear_arith)
            requires
                k == levels * m + l,
                0 <= l,
                k < mv.len() * levels,
                levels > 0,
        ;
        assert(k == m * levels + l) by (nonlinear_arith)
            requires
                k == levels * m + l,
        ;
        assert(rgsw.0[m * levels + l] == gadget_row(m_masks[m * levels + l], msg, mv, m, l, b));
    }
    assert forall|k: int| 0 <= k < total implies (#[trigger] m_masks[k]).len() == 2 && components_in_ring(
        r,
        m_masks[k],
    ) by {}
    assert forall|k: int| 0 <= k < total implies (#[trigger] sm_masks[k]).len() == 2 && components_in_ring(
        r,
        sm_masks[k],
    ) by {}
    // the first block, onto zero
    let z = poly_zero(r.degree, mv.len());
    lemma_zero_is_element(r);
    lemma_block_phase(r, d0, b0, m_masks, msg, s, levels, b, z, z, total);
    let p00 = block_products(d0, b0, 0, mv);
    let p01 = block_products(d0, b0, 1, mv);
    assert(p00.take(total) =~= p00);
    assert(p01.take(total) =~= p01);
    let a0 = poly_fold(z, p00, mv);
    let a1 = poly_fold(z, p01, mv);
    // the second block, onto the first
    lemma_block_phase(r, d1, b1, sm_masks, sm, s, levels, b, a0, a1, total);
    let p10 = block_products(d1, b1, 0, mv);
    let p11 = block_products(d1, b1, 1, mv);
    assert(p10.take(total) =~= p10);
    assert(p11.take(total) =~= p11);
    let out = external_product_of(ct, b0, b1, r, b, levels);
    assert(out[0] == poly_fold(a0, p10, mv));
    assert(out[1] == poly_fold(a1, p11, mv));
    lemma_phase_of_pair(r, out, s);
    // the digits recompose the components
    lemma_gadget_sum_of_digits(c0, r, levels, b);
    lemma_gadget_sum_of_digits(c1, r, levels, b);
    let n0 = mask_noise(d0, m_masks, s, r, total);
    let n1 = mask_noise(d1, sm_masks, s, r, total);
    let c0m = poly_mul(c0, msg, mv);
    let c1sm = poly_mul(c1, sm, mv);
    lemma_mul_stays_in_ring(r, c0, msg);
    lemma_mul_stays_in_ring(r, c1, sm);
    let y0 = poly_add(n0, c0m, mv);
    lemma_ring_ops_stay_in_ring(r, n0, c0m);
    // zero + zero*s + y0 == y0
    lemma_mul_by_zero(r, s);
    lemma_mul_commutative(r, z, s);
    lemma_add_zero(r, z);
    lemma_add_commutative(r, z, y0);
    lemma_add_zero(r, y0);
    // (n0 + c0*msg) + (n1 + c1*(s*msg)) == (n0 + n1) + (c0*msg + c1*(s*msg))
    lemma_add_interchange(r, n0, c0m, n1, c1sm);
    // c1*(s*msg) == (c1*s)*msg, and c0*msg + (c1*s)*msg == (c0 + c1*s)*msg
    lemma_mul_associative(r, c1, s, msg);
    let c1s = poly_mul(c1, s, mv);
    lemma_mul_stays_in_ring(r, c1, s);
    lemma_mul_distributes_over_add_left(r, c0, c1s, msg);
    lemma_phase_of_pair(r, ct, s);
    let ph = phase(ct, s, mv, 2);
    let nn = poly_add(n0, n1, mv);
    lemma_ring_ops_stay_in_ring(r, n0, n1);
    assert(phase(out, s, mv, 2) == poly_add(nn, poly_mul(ph, msg, mv), mv));
    // ph == e + mu, so ph*msg == e*msg + mu*msg
    let e = poly_sub(ph, mu, mv);
    lemma_ring_ops_stay_in_ring(r, ph, mu);
    lemma_sub_add_cancel(r, ph, mu);
    lemma_mul_distributes_over_add_left(r, e, mu, msg);
    let em = poly_mul(e, msg, mv);
    let mum = poly_mul(mu, msg, mv);
    lemma_mul_stays_in_ring(r, e, msg);
    lemma_mul_stays_in_ring(r, mu, msg);
    lemma_add_associative(r, nn, em, mum);
    lemma_ring_ops_stay_in_ring(r, nn, em);
    let noise = poly_add(nn, em, mv);
    lemma_add_commutative(r, noise, mum);
    assert(phase(out, s, mv, 2) == poly_add(mum, noise, mv));
    // the bounds
    let fe = spec_fresh_error_bound() as int;
    let db = spec_digit_bound(b);
    vstd::arithmetic::power2::lemma_pow2_pos(b as nat);
    lemma_digits_within(c0, b, levels, r);
    lemma_digits_within(c1, b, levels, r);
    lemma_mask_noise_within(r, d0, m_masks, s, total, db, fe);
    lemma_mask_noise_within(r, d1, sm_masks, s, total, db, fe);
    let rb = spec_ring_product_bound(n, db, fe);
    lemma_sum_within(r, n0, n1, total * rb, total * rb);
    lemma_difference_within(r, ph, mu, ct_bound);
    lemma_product_within(r, e, msg, ct_bound, msg_bound);
    let eb = spec_ring_product_bound(n, ct_bound, msg_bound);
    lemma_sum_within(r, nn, em, total * rb + total * rb, eb);
    let bound = spec_external_product_noise_bound(n, msg_bound, ct_bound, total, b);
    assert(total * rb + total * rb + eb == bound) by (nonlinear_arith)
        requires
            eb == n * ct_bound * msg_bound,
            bound == n * msg_bound * ct_bound + 2 * total * rb,
    ;
    assert forall|j: int, i: int| 0 <= j < mv.len() && 0 <= i < r.degree implies #[trigger] centered_distance(
        noise[j][i] as int,
        mv[j] as int,
    ) <= bound by {}
    lemma_within_after_adding(r, mum, noise, bound);
}

} // verus!
