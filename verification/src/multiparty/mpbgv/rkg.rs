//! Collective relinearization-key generation for BGV, in two rounds.
//!
//! Relinearization needs the square of the collective secret,
//! `s^2 = sum_p sum_q s_p*s_q`, whose cross terms no participant can form
//! alone. The protocol uses the collective public key `(b, a)`, for which
//! `b + a*s = t*e`:
//!
//! - Round 1: for each gadget row `k = (m, level)` participant `p` publishes
//!   `(b*u + t*e0 + B^level * L_m * s_p, a*u + t*e1)` with a fresh ternary
//!   `u` and errors `e0`, `e1`. The sums over all participants encrypt
//!   `B^level * L_m * s` under the collective key.
//! - Round 2: from the round-1 sums `(H0, H1)`, participant `p` publishes
//!   `(s_p*H0 + b*v + t*e2, s_p*H1 + a*v + t*e3)`. The sums decrypt under
//!   `s` to `B^level * L_m * s^2` plus noise: a relinearization-key row.

use vstd::prelude::*;

use crate::lattice::rgsw::decomposition::GadgetDecompositionParams;
use crate::lattice::rlwe::ciphertext::polys_view;
use crate::lattice::rlwe::keys::{PublicKey, SecretKey};
use crate::multiparty::common::participant::ParticipantId;
use crate::multiparty::common::session::{SessionState, SessionView};
use crate::multiparty::common::shares::{share_for, Share, ShareAggregator, ShareKind};
use crate::multiparty::error::MultipartyError;
use crate::multiparty::mpbgv::accumulate::{rows_agree, sum_share_rows, summed_rows};
use crate::multiparty::mpbgv::gkg::{pair_ciphertexts, rows_to_ciphertexts};
use crate::multiparty::mpbgv::params::BgvParams;
use crate::multiparty::mpbgv::relinearization_key::{
    base_power_scale, lift_constants, scale_by_base_power_and_lift, BgvRelinearizationKey,
};
use crate::multiparty::mpbgv::wire::{encode_poly_rows, pairs_view, rows_bytes};
use crate::ring::encoding::{lemma_index_bound, lemma_index_split};
use crate::multiparty::mpbgv::ckg::ckg_contribution;
use crate::ring::algebra::{
    lemma_mul_associative, lemma_mul_commutative, lemma_mul_distributes_over_add,
    lemma_mul_distributes_over_add_left, lemma_mul_distributes_over_sub, lemma_mul_distributes_over_sub_left,
    lemma_mul_scale_left, lemma_scale_distributes_over_add, lemma_sum_of_products_left, lemma_sum_of_products_right,
    lemma_sum_of_scaled, lemma_sum_of_scaled_rows, lemma_sum_of_sums,
};
use crate::ring::poly::{
    lemma_mul_stays_in_ring, lemma_ring_ops_stay_in_ring, lemma_scale_rows_stay_in_ring, lemma_unary_ops_stay_in_ring,
    poly_add, poly_in_ring, poly_mul, poly_scale, poly_scale_rows, poly_sub, poly_sum, ring_valid, Poly, Ring,
    RingView, Rows,
};
use crate::ring::rns::crt_lift_constant;

verus! {

/// `p` is an element of the ring `r`.
pub open spec fn in_ring(r: RingView, p: Rows) -> bool {
    poly_in_ring(r.degree, r.moduli, p)
}

/// The session one round on: the round after `v`'s, saturating.
pub open spec fn next_round(v: SessionView) -> SessionView {
    SessionView {
        round: if v.round < u64::MAX {
            (v.round + 1) as u64
        } else {
            u64::MAX
        },
        ..v
    }
}

/// Participant contribution to round-1 row `k = m * levels + level`:
/// `(b*u + t*e0 + B^level * L_m * s, a*u + t*e1)`.
pub open spec fn round1_row(
    r: RingView,
    t: u64,
    base_log: u32,
    levels: int,
    s: Rows,
    key: (Rows, Rows),
    k: int,
    u: Rows,
    e0: Rows,
    e1: Rows,
) -> (Rows, Rows) {
    let m = r.moduli;
    let scaled = poly_scale_rows(s, base_power_scale(m, base_log, k % levels, lift_constants(m, k / levels)), m);
    (
        poly_add(poly_add(poly_mul(key.0, u, m), poly_scale(e0, t, m), m), scaled, m),
        poly_add(poly_mul(key.1, u, m), poly_scale(e1, t, m), m),
    )
}

/// Participant contribution to round-2 row `k` from the round-1 sum `h`:
/// `(s*h.0 + b*v + t*e2, s*h.1 + a*v + t*e3)`.
pub open spec fn round2_row(
    r: RingView,
    t: u64,
    s: Rows,
    key: (Rows, Rows),
    h: (Rows, Rows),
    v: Rows,
    e2: Rows,
    e3: Rows,
) -> (Rows, Rows) {
    let m = r.moduli;
    (
        poly_add(poly_add(poly_mul(s, h.0, m), poly_mul(key.0, v, m), m), poly_scale(e2, t, m), m),
        poly_add(poly_add(poly_mul(s, h.1, m), poly_mul(key.1, v, m), m), poly_scale(e3, t, m), m),
    )
}

/// The inputs of the first component of round-1 row `k` are ring elements.
pub open spec fn round1_first_ok(r: RingView, key: (Rows, Rows), us: Seq<Rows>, e0s: Seq<Rows>, k: int) -> bool {
    in_ring(r, key.0) && in_ring(r, us[k]) && in_ring(r, e0s[k])
}

/// The inputs of the second component of round-1 row `k` are ring elements.
pub open spec fn round1_second_ok(r: RingView, key: (Rows, Rows), us: Seq<Rows>, e1s: Seq<Rows>, k: int) -> bool {
    in_ring(r, key.1) && in_ring(r, us[k]) && in_ring(r, e1s[k])
}

/// Every input of round-1 row `k` is a ring element.
pub open spec fn round1_row_ok(
    r: RingView,
    key: (Rows, Rows),
    us: Seq<Rows>,
    e0s: Seq<Rows>,
    e1s: Seq<Rows>,
    k: int,
) -> bool {
    round1_first_ok(r, key, us, e0s, k) && round1_second_ok(r, key, us, e1s, k)
}

/// The inputs of the first component of round-2 row `k` are ring elements.
pub open spec fn round2_first_ok(
    r: RingView,
    s: Rows,
    key: (Rows, Rows),
    h: Seq<(Rows, Rows)>,
    vs: Seq<Rows>,
    e2s: Seq<Rows>,
    k: int,
) -> bool {
    in_ring(r, s) && in_ring(r, h[k].0) && in_ring(r, key.0) && in_ring(r, vs[k]) && in_ring(r, e2s[k])
}

/// The inputs of the second component of round-2 row `k` are ring elements.
pub open spec fn round2_second_ok(
    r: RingView,
    s: Rows,
    key: (Rows, Rows),
    h: Seq<(Rows, Rows)>,
    vs: Seq<Rows>,
    e3s: Seq<Rows>,
    k: int,
) -> bool {
    in_ring(r, s) && in_ring(r, h[k].1) && in_ring(r, key.1) && in_ring(r, vs[k]) && in_ring(r, e3s[k])
}

/// `key * u + t*e`; `None` unless all three are ring elements.
fn masked(ring: &Ring, key: &Poly, u: &Poly, e: &Poly, t: u64) -> (r: Option<Poly>)
    ensures
        r is Some <==> in_ring(ring@, key@) && in_ring(ring@, u@) && in_ring(ring@, e@),
        r matches Some(p) ==> p@ == poly_add(poly_mul(key@, u@, ring@.moduli), poly_scale(e@, t, ring@.moduli), ring@.moduli)
            && in_ring(ring@, p@),
{
    let prod = match ring.mul(key, u) {
        Ok(p) => p,
        Err(_) => {
            return None;
        },
    };
    let te = match ring.scalar_mul(e, t) {
        Ok(p) => p,
        Err(_) => {
            return None;
        },
    };
    match ring.add(&prod, &te) {
        Ok(p) => Some(p),
        Err(_) => None,
    }
}

/// `s*h + key*v + t*e`; `None` unless all five are ring elements.
fn folded(ring: &Ring, s: &Poly, h: &Poly, key: &Poly, v: &Poly, e: &Poly, t: u64) -> (r: Option<Poly>)
    ensures
        r is Some <==> in_ring(ring@, s@) && in_ring(ring@, h@) && in_ring(ring@, key@) && in_ring(ring@, v@)
            && in_ring(ring@, e@),
        r matches Some(p) ==> p@ == poly_add(
            poly_add(poly_mul(s@, h@, ring@.moduli), poly_mul(key@, v@, ring@.moduli), ring@.moduli),
            poly_scale(e@, t, ring@.moduli),
            ring@.moduli,
        ),
{
    let sh = match ring.mul(s, h) {
        Ok(p) => p,
        Err(_) => {
            return None;
        },
    };
    let kv = match ring.mul(key, v) {
        Ok(p) => p,
        Err(_) => {
            return None;
        },
    };
    let sum = match ring.add(&sh, &kv) {
        Ok(p) => p,
        Err(_) => {
            return None;
        },
    };
    let te = match ring.scalar_mul(e, t) {
        Ok(p) => p,
        Err(_) => {
            return None;
        },
    };
    match ring.add(&sum, &te) {
        Ok(p) => Some(p),
        Err(_) => None,
    }
}

/// Round 1 is linear in each participant's inputs: the participants'
/// round-1 rows `k` sum to the row built from the sums of their secrets,
/// ternary masks and errors.
pub proof fn lemma_round1_rows_combine(
    r: RingView,
    t: u64,
    base_log: u32,
    levels: int,
    key: (Rows, Rows),
    k: int,
    ss: Seq<Rows>,
    us: Seq<Rows>,
    e0s: Seq<Rows>,
    e1s: Seq<Rows>,
)
    requires
        ring_valid(r),
        us.len() == ss.len(),
        e0s.len() == ss.len(),
        e1s.len() == ss.len(),
        in_ring(r, key.0),
        in_ring(r, key.1),
        forall|i: int| 0 <= i < ss.len() ==> in_ring(r, #[trigger] ss[i]),
        forall|i: int| 0 <= i < us.len() ==> in_ring(r, #[trigger] us[i]),
        forall|i: int| 0 <= i < e0s.len() ==> in_ring(r, #[trigger] e0s[i]),
        forall|i: int| 0 <= i < e1s.len() ==> in_ring(r, #[trigger] e1s[i]),
    ensures
        ({
            let n = ss.len();
            let row = |i: int| round1_row(r, t, base_log, levels, ss[i], key, k, us[i], e0s[i], e1s[i]);
            let total = round1_row(
                r,
                t,
                base_log,
                levels,
                poly_sum(ss, r),
                key,
                k,
                poly_sum(us, r),
                poly_sum(e0s, r),
                poly_sum(e1s, r),
            );
            &&& poly_sum(Seq::new(n, |i: int| row(i).0), r) == total.0
            &&& poly_sum(Seq::new(n, |i: int| row(i).1), r) == total.1
        }),
{
    let m = r.moduli;
    let n = ss.len();
    let c = base_power_scale(m, base_log, k % levels, lift_constants(m, k / levels));
    let bu = Seq::new(n, |i: int| poly_mul(key.0, us[i], m));
    let au = Seq::new(n, |i: int| poly_mul(key.1, us[i], m));
    let te0 = Seq::new(n, |i: int| poly_scale(e0s[i], t, m));
    let te1 = Seq::new(n, |i: int| poly_scale(e1s[i], t, m));
    let sc = Seq::new(n, |i: int| poly_scale_rows(ss[i], c, m));
    let first = Seq::new(n, |i: int| poly_add(bu[i], te0[i], m));
    assert forall|i: int| 0 <= i < n implies in_ring(r, #[trigger] bu[i]) && in_ring(r, au[i]) && in_ring(r, te0[i])
        && in_ring(r, te1[i]) && in_ring(r, sc[i]) && in_ring(r, first[i]) by {
        lemma_mul_stays_in_ring(r, key.0, us[i]);
        lemma_mul_stays_in_ring(r, key.1, us[i]);
        lemma_unary_ops_stay_in_ring(r, e0s[i], t);
        lemma_unary_ops_stay_in_ring(r, e1s[i], t);
        lemma_scale_rows_stay_in_ring(r, ss[i], c);
        lemma_ring_ops_stay_in_ring(r, bu[i], te0[i]);
    }
    let row = |i: int| round1_row(r, t, base_log, levels, ss[i], key, k, us[i], e0s[i], e1s[i]);
    assert(Seq::new(n, |i: int| row(i).0) =~= Seq::new(n, |i: int| poly_add(first[i], sc[i], m)));
    assert(Seq::new(n, |i: int| row(i).1) =~= Seq::new(n, |i: int| poly_add(au[i], te1[i], m)));
    lemma_sum_of_sums(r, first, sc);
    lemma_sum_of_sums(r, bu, te0);
    lemma_sum_of_sums(r, au, te1);
    lemma_sum_of_products_right(r, key.0, us);
    lemma_sum_of_products_right(r, key.1, us);
    lemma_sum_of_scaled(r, e0s, t);
    lemma_sum_of_scaled(r, e1s, t);
    lemma_sum_of_scaled_rows(r, ss, c);
}

/// Round 2 is linear in each participant's inputs: against the round-1
/// sums `h`, the participants' round-2 rows sum to the row built from the
/// sums of their secrets, ternary masks and errors.
pub proof fn lemma_round2_rows_combine(
    r: RingView,
    t: u64,
    key: (Rows, Rows),
    h: (Rows, Rows),
    ss: Seq<Rows>,
    vs: Seq<Rows>,
    e2s: Seq<Rows>,
    e3s: Seq<Rows>,
)
    requires
        ring_valid(r),
        vs.len() == ss.len(),
        e2s.len() == ss.len(),
        e3s.len() == ss.len(),
        in_ring(r, key.0),
        in_ring(r, key.1),
        in_ring(r, h.0),
        in_ring(r, h.1),
        forall|i: int| 0 <= i < ss.len() ==> in_ring(r, #[trigger] ss[i]),
        forall|i: int| 0 <= i < vs.len() ==> in_ring(r, #[trigger] vs[i]),
        forall|i: int| 0 <= i < e2s.len() ==> in_ring(r, #[trigger] e2s[i]),
        forall|i: int| 0 <= i < e3s.len() ==> in_ring(r, #[trigger] e3s[i]),
    ensures
        ({
            let n = ss.len();
            let row = |i: int| round2_row(r, t, ss[i], key, h, vs[i], e2s[i], e3s[i]);
            let total = round2_row(r, t, poly_sum(ss, r), key, h, poly_sum(vs, r), poly_sum(e2s, r), poly_sum(e3s, r));
            &&& poly_sum(Seq::new(n, |i: int| row(i).0), r) == total.0
            &&& poly_sum(Seq::new(n, |i: int| row(i).1), r) == total.1
        }),
{
    let m = r.moduli;
    let n = ss.len();
    let sh0 = Seq::new(n, |i: int| poly_mul(ss[i], h.0, m));
    let sh1 = Seq::new(n, |i: int| poly_mul(ss[i], h.1, m));
    let bv = Seq::new(n, |i: int| poly_mul(key.0, vs[i], m));
    let av = Seq::new(n, |i: int| poly_mul(key.1, vs[i], m));
    let te2 = Seq::new(n, |i: int| poly_scale(e2s[i], t, m));
    let te3 = Seq::new(n, |i: int| poly_scale(e3s[i], t, m));
    let first = Seq::new(n, |i: int| poly_add(sh0[i], bv[i], m));
    let second = Seq::new(n, |i: int| poly_add(sh1[i], av[i], m));
    assert forall|i: int| 0 <= i < n implies in_ring(r, #[trigger] sh0[i]) && in_ring(r, sh1[i]) && in_ring(r, bv[i])
        && in_ring(r, av[i]) && in_ring(r, te2[i]) && in_ring(r, te3[i]) && in_ring(r, first[i]) && in_ring(
        r,
        second[i],
    ) by {
        lemma_mul_stays_in_ring(r, ss[i], h.0);
        lemma_mul_stays_in_ring(r, ss[i], h.1);
        lemma_mul_stays_in_ring(r, key.0, vs[i]);
        lemma_mul_stays_in_ring(r, key.1, vs[i]);
        lemma_unary_ops_stay_in_ring(r, e2s[i], t);
        lemma_unary_ops_stay_in_ring(r, e3s[i], t);
        lemma_ring_ops_stay_in_ring(r, sh0[i], bv[i]);
        lemma_ring_ops_stay_in_ring(r, sh1[i], av[i]);
    }
    let row = |i: int| round2_row(r, t, ss[i], key, h, vs[i], e2s[i], e3s[i]);
    assert(Seq::new(n, |i: int| row(i).0) =~= Seq::new(n, |i: int| poly_add(first[i], te2[i], m)));
    assert(Seq::new(n, |i: int| row(i).1) =~= Seq::new(n, |i: int| poly_add(second[i], te3[i], m)));
    lemma_sum_of_sums(r, first, te2);
    lemma_sum_of_sums(r, second, te3);
    lemma_sum_of_sums(r, sh0, bv);
    lemma_sum_of_sums(r, sh1, av);
    lemma_sum_of_products_left(r, ss, h.0);
    lemma_sum_of_products_left(r, ss, h.1);
    lemma_sum_of_products_right(r, key.0, vs);
    lemma_sum_of_products_right(r, key.1, vs);
    lemma_sum_of_scaled(r, e2s, t);
    lemma_sum_of_scaled(r, e3s, t);
}

/// The residue identity behind a relinearization-key row: the terms `x`
/// and `y` cancel between the two components.
pub(crate) proof fn lemma_key_row_residues(
    a1: int,
    x: int,
    p2: int,
    p3: int,
    a2: int,
    y: int,
    t2: int,
    q2: int,
    q4: int,
    q: int,
)
    requires
        q > 0,
    ensures
        ((((((a1 - x) % q + p2) % q + p3) % q + (a2 - y) % q) % q + t2) % q + (((x + q2) % q + y) % q + q4) % q) % q
            == (p3 + (((((a1 + a2) % q + p2) % q + q2) % q + t2) % q + q4) % q) % q,
{
    let l1 = a1 - x;
    let l2 = l1 % q + p2;
    let l3 = l2 % q + p3;
    let l4 = a2 - y;
    let l5 = l3 % q + l4 % q;
    let k0 = l5 % q + t2;
    let m1 = x + q2;
    let m2 = m1 % q + y;
    let m3 = m2 % q + q4;
    let lhs = k0 % q + m3 % q;
    let n1 = a1 + a2;
    let n2 = n1 % q + p2;
    let n3 = n2 % q + q2;
    let n4 = n3 % q + t2;
    let n5 = n4 % q + q4;
    let rhs = p3 + n5 % q;
    vstd::arithmetic::div_mod::lemma_fundamental_div_mod(l1, q);
    vstd::arithmetic::div_mod::lemma_fundamental_div_mod(l2, q);
    vstd::arithmetic::div_mod::lemma_fundamental_div_mod(l3, q);
    vstd::arithmetic::div_mod::lemma_fundamental_div_mod(l4, q);
    vstd::arithmetic::div_mod::lemma_fundamental_div_mod(l5, q);
    vstd::arithmetic::div_mod::lemma_fundamental_div_mod(k0, q);
    vstd::arithmetic::div_mod::lemma_fundamental_div_mod(m1, q);
    vstd::arithmetic::div_mod::lemma_fundamental_div_mod(m2, q);
    vstd::arithmetic::div_mod::lemma_fundamental_div_mod(m3, q);
    vstd::arithmetic::div_mod::lemma_fundamental_div_mod(n1, q);
    vstd::arithmetic::div_mod::lemma_fundamental_div_mod(n2, q);
    vstd::arithmetic::div_mod::lemma_fundamental_div_mod(n3, q);
    vstd::arithmetic::div_mod::lemma_fundamental_div_mod(n4, q);
    vstd::arithmetic::div_mod::lemma_fundamental_div_mod(n5, q);
    let (c1, c2, c3, c4, c5, c6, c7, c8, c9) = (l1 / q, l2 / q, l3 / q, l4 / q, l5 / q, k0 / q, m1 / q, m2 / q, m3 / q);
    let (g1, g2, g3, g4, g5) = (n1 / q, n2 / q, n3 / q, n4 / q, n5 / q);
    let d = (c1 + c2 + c3 + c4 + c5 + c6 + c7 + c8 + c9) - (g1 + g2 + g3 + g4 + g5);
    assert(q * d == (q * c1 + q * c2 + q * c3 + q * c4 + q * c5 + q * c6 + q * c7 + q * c8 + q * c9) - (q * g1 + q * g2
        + q * g3 + q * g4 + q * g5)) by (nonlinear_arith)
        requires
            d == (c1 + c2 + c3 + c4 + c5 + c6 + c7 + c8 + c9) - (g1 + g2 + g3 + g4 + g5),
    ;
    assert(lhs == rhs - q * d);
    vstd::arithmetic::div_mod::lemma_mod_multiples_vanish(-d, rhs, q);
    assert(q * (-d) + rhs == lhs) by (nonlinear_arith)
        requires
            lhs == rhs - q * d,
    ;
}

/// The noise of a collective relinearization-key row, before its scaling
/// by `t`: `s*(e*u) + e*v + s*e0 + (s*e1)*s + e2 + e3*s`, for the
/// collective secret `s`, the collective key's error `e`, the summed round-1
/// masks `u` and errors `e0`, `e1`, and the summed round-2 masks `v` and
/// errors `e2`, `e3`.
pub open spec fn key_row_noise(
    s: Rows,
    e: Rows,
    u: Rows,
    v: Rows,
    e0: Rows,
    e1: Rows,
    e2: Rows,
    e3: Rows,
    m: Seq<u64>,
) -> Rows {
    poly_add(
        poly_add(
            poly_add(
                poly_add(poly_add(poly_mul(s, poly_mul(e, u, m), m), poly_mul(e, v, m), m), poly_mul(s, e0, m), m),
                poly_mul(poly_mul(s, e1, m), s, m),
                m,
            ),
            e2,
            m,
        ),
        poly_mul(e3, s, m),
        m,
    )
}

/// The collective relinearization key encrypts the gadget-scaled square of
/// the collective secret: against the collective public key
/// `(t*e - a*s, a)`, the round-2 row `k` built from the round-1 row `h`
/// decrypts under `s` to `B^level * L_m * s^2` plus `t` times
/// [`key_row_noise`].
pub proof fn lemma_relinearization_key_row(
    r: RingView,
    t: u64,
    base_log: u32,
    levels: int,
    k: int,
    a: Rows,
    s: Rows,
    e: Rows,
    u: Rows,
    v: Rows,
    e0: Rows,
    e1: Rows,
    e2: Rows,
    e3: Rows,
)
    requires
        ring_valid(r),
        in_ring(r, a),
        in_ring(r, s),
        in_ring(r, e),
        in_ring(r, u),
        in_ring(r, v),
        in_ring(r, e0),
        in_ring(r, e1),
        in_ring(r, e2),
        in_ring(r, e3),
    ensures
        ({
            let m = r.moduli;
            let c = base_power_scale(m, base_log, k % levels, lift_constants(m, k / levels));
            let key = (ckg_contribution(e, s, a, t, m), a);
            let h = round1_row(r, t, base_log, levels, s, key, k, u, e0, e1);
            let row = round2_row(r, t, s, key, h, v, e2, e3);
            poly_add(row.0, poly_mul(row.1, s, m), m) == poly_add(
                poly_scale_rows(poly_mul(s, s, m), c, m),
                poly_scale(key_row_noise(s, e, u, v, e0, e1, e2, e3, m), t, m),
                m,
            )
        }),
{
    let m = r.moduli;
    let c = base_power_scale(m, base_log, k % levels, lift_constants(m, k / levels));
    let te = poly_scale(e, t, m);
    let as_ = poly_mul(a, s, m);
    let b = poly_sub(te, as_, m);
    let key = (b, a);
    let te0 = poly_scale(e0, t, m);
    let te1 = poly_scale(e1, t, m);
    let te2 = poly_scale(e2, t, m);
    let te3 = poly_scale(e3, t, m);
    let cs = poly_scale_rows(s, c, m);
    let bu = poly_mul(b, u, m);
    let au = poly_mul(a, u, m);
    let h0 = poly_add(poly_add(bu, te0, m), cs, m);
    let h1 = poly_add(au, te1, m);
    let h = round1_row(r, t, base_log, levels, s, key, k, u, e0, e1);
    assert(h == (h0, h1));
    let bv = poly_mul(b, v, m);
    let av = poly_mul(a, v, m);
    let k0 = poly_add(poly_add(poly_mul(s, h0, m), bv, m), te2, m);
    let k1 = poly_add(poly_add(poly_mul(s, h1, m), av, m), te3, m);
    // Every intermediate is a ring element.
    lemma_unary_ops_stay_in_ring(r, e, t);
    lemma_unary_ops_stay_in_ring(r, e0, t);
    lemma_unary_ops_stay_in_ring(r, e1, t);
    lemma_unary_ops_stay_in_ring(r, e2, t);
    lemma_unary_ops_stay_in_ring(r, e3, t);
    lemma_scale_rows_stay_in_ring(r, s, c);
    lemma_mul_stays_in_ring(r, a, s);
    lemma_ring_ops_stay_in_ring(r, te, as_);
    lemma_mul_stays_in_ring(r, b, u);
    lemma_mul_stays_in_ring(r, a, u);
    lemma_ring_ops_stay_in_ring(r, bu, te0);
    lemma_ring_ops_stay_in_ring(r, poly_add(bu, te0, m), cs);
    lemma_ring_ops_stay_in_ring(r, au, te1);
    lemma_mul_stays_in_ring(r, b, v);
    lemma_mul_stays_in_ring(r, a, v);
    lemma_mul_stays_in_ring(r, s, h0);
    lemma_mul_stays_in_ring(r, s, h1);
    lemma_ring_ops_stay_in_ring(r, poly_mul(s, h1, m), av);
    // The atoms.
    let tu = poly_mul(te, u, m);
    let asu = poly_mul(as_, u, m);
    let a1 = poly_mul(s, tu, m);
    let x = poly_mul(s, asu, m);
    let p2 = poly_mul(s, te0, m);
    let p3 = poly_mul(s, cs, m);
    let a2 = poly_mul(te, v, m);
    let y = poly_mul(as_, v, m);
    let q2 = poly_mul(poly_mul(s, te1, m), s, m);
    let q4 = poly_mul(te3, s, m);
    lemma_mul_stays_in_ring(r, te, u);
    lemma_mul_stays_in_ring(r, as_, u);
    lemma_mul_stays_in_ring(r, s, te0);
    lemma_mul_stays_in_ring(r, s, te1);
    lemma_mul_stays_in_ring(r, s, cs);
    lemma_mul_stays_in_ring(r, s, au);
    // s*h0 == ((a1 - x) + p2) + p3
    lemma_mul_distributes_over_sub_left(r, te, as_, u);
    lemma_mul_distributes_over_sub(r, s, tu, asu);
    lemma_mul_distributes_over_add(r, s, poly_add(bu, te0, m), cs);
    lemma_mul_distributes_over_add(r, s, bu, te0);
    // b*v == a2 - y
    lemma_mul_distributes_over_sub_left(r, te, as_, v);
    // k1*s == ((x + q2) + y) + q4
    lemma_mul_distributes_over_add_left(r, poly_add(poly_mul(s, h1, m), av, m), te3, s);
    lemma_mul_distributes_over_add_left(r, poly_mul(s, h1, m), av, s);
    lemma_mul_distributes_over_add(r, s, au, te1);
    lemma_mul_stays_in_ring(r, s, au);
    lemma_mul_distributes_over_add_left(r, poly_mul(s, au, m), poly_mul(s, te1, m), s);
    // (s*(a*u))*s == s*((a*s)*u) and (a*v)*s == (a*s)*v.
    lemma_mul_associative(r, s, au, s);
    lemma_mul_associative(r, a, u, s);
    lemma_mul_commutative(r, u, s);
    lemma_mul_associative(r, a, s, u);
    lemma_mul_stays_in_ring(r, u, s);
    assert(poly_mul(poly_mul(s, au, m), s, m) == x);
    lemma_mul_associative(r, a, v, s);
    lemma_mul_commutative(r, v, s);
    lemma_mul_associative(r, a, s, v);
    assert(poly_mul(av, s, m) == y);
    // The noise, scaled by t, splits into the atoms.
    let eu = poly_mul(e, u, m);
    let n1 = poly_mul(s, eu, m);
    let n2 = poly_mul(e, v, m);
    let n3 = poly_mul(s, e0, m);
    let n4 = poly_mul(poly_mul(s, e1, m), s, m);
    let n6 = poly_mul(e3, s, m);
    lemma_mul_stays_in_ring(r, e, u);
    lemma_mul_stays_in_ring(r, s, eu);
    lemma_mul_stays_in_ring(r, e, v);
    lemma_mul_stays_in_ring(r, s, e0);
    lemma_mul_stays_in_ring(r, s, e1);
    lemma_mul_stays_in_ring(r, poly_mul(s, e1, m), s);
    lemma_mul_stays_in_ring(r, e3, s);
    lemma_mul_scale_left(r, e, u, t, c);
    lemma_mul_commutative(r, s, tu);
    lemma_mul_scale_left(r, eu, s, t, c);
    lemma_mul_commutative(r, eu, s);
    assert(a1 == poly_scale(n1, t, m));
    lemma_mul_scale_left(r, e, v, t, c);
    assert(a2 == poly_scale(n2, t, m));
    lemma_mul_commutative(r, s, te0);
    lemma_mul_scale_left(r, e0, s, t, c);
    lemma_mul_commutative(r, e0, s);
    assert(p2 == poly_scale(n3, t, m));
    lemma_mul_commutative(r, s, te1);
    lemma_mul_scale_left(r, e1, s, t, c);
    lemma_mul_commutative(r, e1, s);
    lemma_mul_scale_left(r, poly_mul(s, e1, m), s, t, c);
    assert(q2 == poly_scale(n4, t, m));
    lemma_mul_scale_left(r, e3, s, t, c);
    assert(q4 == poly_scale(n6, t, m));
    lemma_mul_commutative(r, s, cs);
    lemma_mul_scale_left(r, s, s, t, c);
    assert(p3 == poly_scale_rows(poly_mul(s, s, m), c, m));
    let s1 = poly_add(n1, n2, m);
    let s2 = poly_add(s1, n3, m);
    let s3 = poly_add(s2, n4, m);
    let s4 = poly_add(s3, e2, m);
    lemma_ring_ops_stay_in_ring(r, n1, n2);
    lemma_ring_ops_stay_in_ring(r, s1, n3);
    lemma_ring_ops_stay_in_ring(r, s2, n4);
    lemma_ring_ops_stay_in_ring(r, s3, e2);
    lemma_scale_distributes_over_add(r, s4, n6, t);
    lemma_scale_distributes_over_add(r, s3, e2, t);
    lemma_scale_distributes_over_add(r, s2, n4, t);
    lemma_scale_distributes_over_add(r, s1, n3, t);
    lemma_scale_distributes_over_add(r, n1, n2, t);
    // Coefficient by coefficient, the residues agree.
    let row = round2_row(r, t, s, key, h, v, e2, e3);
    assert(row == (k0, k1));
    let lhs = poly_add(k0, poly_mul(k1, s, m), m);
    let rhs = poly_add(p3, poly_scale(key_row_noise(s, e, u, v, e0, e1, e2, e3, m), t, m), m);
    assert forall|j: int| 0 <= j < m.len() implies #[trigger] lhs[j] =~= rhs[j] by {
        let q = m[j] as int;
        assert forall|i: int| 0 <= i < r.degree implies #[trigger] lhs[j][i] == rhs[j][i] by {
            lemma_key_row_residues(
                a1[j][i] as int,
                x[j][i] as int,
                p2[j][i] as int,
                p3[j][i] as int,
                a2[j][i] as int,
                y[j][i] as int,
                te2[j][i] as int,
                q2[j][i] as int,
                q4[j][i] as int,
                q,
            );
        }
    }
    assert(lhs =~= rhs);
}

/// Collective relinearization-key generation: round 1 in `session`, round
/// 2 in the next round, against the collective public key.
#[derive(Debug)]
pub struct RelinearizationKeyGen {
    params: BgvParams,
    session: SessionState,
    collective_public_key: PublicKey,
    decomposition_params: GadgetDecompositionParams,
}

/// The view of a relinearization-key generation.
pub struct RelinearizationKeyGenView {
    pub params: (RingView, u64),
    pub session: SessionView,
    pub key: (Rows, Rows),
    pub gadget: (u32, usize),
}

impl View for RelinearizationKeyGen {
    type V = RelinearizationKeyGenView;

    closed spec fn view(&self) -> RelinearizationKeyGenView {
        RelinearizationKeyGenView {
            params: self.params@,
            session: self.session@,
            key: self.collective_public_key@,
            gadget: self.decomposition_params@,
        }
    }
}

impl RelinearizationKeyGen {
    /// Creates the protocol; `session` is round 1's session.
    pub fn new(
        params: BgvParams,
        session: SessionState,
        collective_public_key: PublicKey,
        decomposition_params: GadgetDecompositionParams,
    ) -> (r: Self)
        ensures
            r@ == (RelinearizationKeyGenView {
                params: params@,
                session: session@,
                key: collective_public_key@,
                gadget: decomposition_params@,
            }),
    {
        RelinearizationKeyGen { params, session, collective_public_key, decomposition_params }
    }

    /// The scheme parameters the key is generated under.
    pub fn params(&self) -> (r: &BgvParams)
        ensures
            r@ == self@.params,
    {
        &self.params
    }

    /// The gadget parameters every participant's round-1 share is laid out
    /// by.
    pub fn decomposition_params(&self) -> (r: GadgetDecompositionParams)
        ensures
            r@ == self@.gadget,
    {
        self.decomposition_params
    }

    /// The session round 2 runs against: round 1's, one round on.
    pub fn round2_session(&self) -> (r: SessionState)
        ensures
            r@ == next_round(self@.session),
    {
        let mut session = self.session.clone();
        session.advance_round();
        session
    }

    /// Creates participant `participant`'s round-1 share: row
    /// `k = m * levels + level` from the ternary `us[k]` and the errors
    /// `e0s[k]`, `e1s[k]`. A secret that is not a ring element fails first;
    /// then the first row with an input that is not, naming the component.
    pub fn create_share_round1(
        &self,
        participant: ParticipantId,
        local_secret_share: &SecretKey,
        us: &[Poly],
        e0s: &[Poly],
        e1s: &[Poly],
    ) -> (r: Result<Share, MultipartyError>)
        requires
            us@.len() == self@.params.0.moduli.len() * self@.gadget.1,
            e0s@.len() == us@.len(),
            e1s@.len() == us@.len(),
        ensures
            ({
                let ring = self@.params.0;
                let s = local_secret_share@;
                let key = self@.key;
                let uv = polys_view(us@);
                let e0v = polys_view(e0s@);
                let e1v = polys_view(e1s@);
                let n = uv.len();
                &&& !in_ring(ring, s) ==> r == Err::<Share, _>(
                    MultipartyError::InvalidParameters(
                        "create_share_round1: scale_by_base_power_and_lift failed",
                    ),
                )
                &&& in_ring(ring, s) ==> forall|k: int|
                    0 <= k < n && (forall|j: int| 0 <= j < k ==> #[trigger] round1_row_ok(ring, key, uv, e0v, e1v, j))
                        && !round1_row_ok(ring, key, uv, e0v, e1v, k) ==> r == Err::<Share, _>(
                        MultipartyError::InvalidParameters(
                            if !round1_first_ok(ring, key, uv, e0v, k) {
                                "create_share_round1: h0 failed"
                            } else {
                                "create_share_round1: h1 failed"
                            },
                        ),
                    )
                &&& in_ring(ring, s) && (forall|k: int| 0 <= k < n ==> #[trigger] round1_row_ok(ring, key, uv, e0v, e1v, k))
                    ==> (!self@.session.participants.contains(participant@) ==> r == Err::<Share, _>(
                    MultipartyError::UnknownParticipant,
                )) && (self@.session.participants.contains(participant@) ==> (r matches Ok(share) && share@
                    == share_for(
                    self@.session,
                    participant@,
                    ShareKind::RelinearizationKeyGen,
                    rows_bytes(
                        Seq::new(
                            n,
                            |k: int|
                                round1_row(
                                    ring,
                                    self@.params.1,
                                    self@.gadget.0,
                                    self@.gadget.1 as int,
                                    s,
                                    key,
                                    k,
                                    uv[k],
                                    e0v[k],
                                    e1v[k],
                                ),
                        ),
                    ),
                )))
            }),
    {
        let ring = self.params.ring();
        ring.check_valid();
        let t = self.params.plaintext_modulus();
        let moduli = ring.moduli();
        let levels = self.decomposition_params.levels();
        let base_log = self.decomposition_params.base_log();
        let keys = self.collective_public_key.value();
        let ghost rv = ring@;
        let ghost s = local_secret_share@;
        let ghost key = self@.key;
        let ghost uv = polys_view(us@);
        let ghost e0v = polys_view(e0s@);
        let ghost e1v = polys_view(e1s@);
        let ghost want = Seq::new(
            uv.len(),
            |k: int| round1_row(rv, t, base_log, levels as int, s, key, k, uv[k], e0v[k], e1v[k]),
        );
        let count = us.len();
        let mut rows: Vec<(Poly, Poly)> = Vec::with_capacity(count);
        let mut m: usize = 0;
        while m < moduli.len()
            invariant
                rv == ring@,
                rv == self@.params.0,
                t == self@.params.1,
                crate::ring::poly::modulus_values(moduli@) == rv.moduli,
                levels == self@.gadget.1,
                levels > 0,
                base_log == self@.gadget.0,
                1 <= base_log < 63,
                s == local_secret_share@,
                key == self@.key,
                keys@[0]@ == key.0,
                keys@[1]@ == key.1,
                uv == polys_view(us@),
                e0v == polys_view(e0s@),
                e1v == polys_view(e1s@),
                count == uv.len(),
                uv.len() == rv.moduli.len() * levels,
                e0v.len() == uv.len(),
                e1v.len() == uv.len(),
                want == Seq::new(
                    uv.len(),
                    |k: int| round1_row(rv, t, base_log, levels as int, s, key, k, uv[k], e0v[k], e1v[k]),
                ),
                m <= moduli@.len(),
                m > 0 ==> in_ring(rv, s),
                rows@.len() == m * levels,
                forall|j: int| 0 <= j < m * levels ==> #[trigger] round1_row_ok(rv, key, uv, e0v, e1v, j),
                forall|j: int| 0 <= j < m * levels ==> #[trigger] pairs_view(rows@)[j] == want[j],
            decreases moduli@.len() - m,
        {
            let lift = crt_lift_constant(moduli, m, moduli);
            proof {
                assert(lift@ =~= lift_constants(rv.moduli, m as int));
            }
            let mut level: usize = 0;
            while level < levels
                invariant
                    rv == ring@,
                    rv == self@.params.0,
                    t == self@.params.1,
                    crate::ring::poly::modulus_values(moduli@) == rv.moduli,
                    levels == self@.gadget.1,
                    levels > 0,
                    base_log == self@.gadget.0,
                    1 <= base_log < 63,
                    s == local_secret_share@,
                    key == self@.key,
                    keys@[0]@ == key.0,
                    keys@[1]@ == key.1,
                    uv == polys_view(us@),
                    e0v == polys_view(e0s@),
                    e1v == polys_view(e1s@),
                    count == uv.len(),
                    uv.len() == rv.moduli.len() * levels,
                    e0v.len() == uv.len(),
                    e1v.len() == uv.len(),
                    want == Seq::new(
                        uv.len(),
                        |k: int| round1_row(rv, t, base_log, levels as int, s, key, k, uv[k], e0v[k], e1v[k]),
                    ),
                    m < moduli@.len(),
                    lift@ == lift_constants(rv.moduli, m as int),
                    level <= levels,
                    m > 0 || level > 0 ==> in_ring(rv, s),
                    rows@.len() == m * levels + level,
                    forall|j: int| 0 <= j < m * levels + level ==> #[trigger] round1_row_ok(rv, key, uv, e0v, e1v, j),
                    forall|j: int| 0 <= j < m * levels + level ==> #[trigger] pairs_view(rows@)[j] == want[j],
                decreases levels - level,
            {
                proof {
                    lemma_index_bound(m as int, level as int, moduli@.len() as int, levels as int);
                    lemma_index_split(m as int, level as int, levels as int);
                }
                let idx = m * levels + level;
                let scaled = match scale_by_base_power_and_lift(
                    ring,
                    local_secret_share.value(),
                    base_log,
                    level,
                    lift.as_slice(),
                ) {
                    Ok(p) => p,
                    Err(_) => {
                        return Err(
                            MultipartyError::InvalidParameters(
                                "create_share_round1: scale_by_base_power_and_lift failed",
                            ),
                        );
                    },
                };
                assert(us@[idx as int]@ == uv[idx as int]);
                assert(e0s@[idx as int]@ == e0v[idx as int]);
                assert(e1s@[idx as int]@ == e1v[idx as int]);
                let first_part = match masked(ring, &keys[0], &us[idx], &e0s[idx], t) {
                    Some(p) => p,
                    None => {
                        proof {
                            assert(!round1_row_ok(rv, key, uv, e0v, e1v, idx as int));
                            assert forall|k: int|
                                0 <= k < uv.len() && (forall|j: int|
                                    0 <= j < k ==> #[trigger] round1_row_ok(rv, key, uv, e0v, e1v, j))
                                    && !round1_row_ok(rv, key, uv, e0v, e1v, k) implies k == idx by {
                                if k > idx {
                                    assert(round1_row_ok(rv, key, uv, e0v, e1v, idx as int));
                                }
                            }
                        }
                        return Err(MultipartyError::InvalidParameters("create_share_round1: h0 failed"));
                    },
                };
                let h0 = match ring.add(&first_part, &scaled) {
                    Ok(p) => p,
                    Err(_) => {
                        assert(false);
                        return Err(MultipartyError::InvalidParameters("create_share_round1: h0 failed"));
                    },
                };
                let h1 = match masked(ring, &keys[1], &us[idx], &e1s[idx], t) {
                    Some(p) => p,
                    None => {
                        proof {
                            assert(!round1_row_ok(rv, key, uv, e0v, e1v, idx as int));
                            assert forall|k: int|
                                0 <= k < uv.len() && (forall|j: int|
                                    0 <= j < k ==> #[trigger] round1_row_ok(rv, key, uv, e0v, e1v, j))
                                    && !round1_row_ok(rv, key, uv, e0v, e1v, k) implies k == idx by {
                                if k > idx {
                                    assert(round1_row_ok(rv, key, uv, e0v, e1v, idx as int));
                                }
                            }
                        }
                        return Err(MultipartyError::InvalidParameters("create_share_round1: h1 failed"));
                    },
                };
                let ghost old_rows = rows@;
                rows.push((h0, h1));
                proof {
                    assert(idx / levels == m && idx % levels == level);
                    assert forall|j: int| 0 <= j < idx + 1 implies #[trigger] pairs_view(rows@)[j] == want[j] by {
                        assert(pairs_view(rows@)[j] == (rows@[j].0@, rows@[j].1@));
                        if j < idx {
                            assert(rows@[j] == old_rows[j]);
                            assert(pairs_view(old_rows)[j] == (old_rows[j].0@, old_rows[j].1@));
                        }
                    }
                    assert(round1_row_ok(rv, key, uv, e0v, e1v, idx as int));
                }
                level = level + 1;
            }
            proof {
                vstd::arithmetic::mul::lemma_mul_is_distributive_add_other_way(levels as int, m as int, 1);
            }
            m = m + 1;
        }
        proof {
            assert(pairs_view(rows@) =~= want);
        }
        let payload = encode_poly_rows(rows.as_slice());
        Share::new(&self.session, participant, ShareKind::RelinearizationKeyGen, payload)
    }

    /// Aggregates every collected round-1 share into the public round-1 sums,
    /// row by row and component by component.
    pub fn aggregate_round1(&self, aggregator: &ShareAggregator) -> (r: Result<Vec<(Poly, Poly)>, MultipartyError>)
        ensures
            ({
                let ring = self@.params.0;
                let shares = aggregator.shares_view();
                &&& shares.len() < aggregator.session_view().threshold ==> r == Err::<Vec<(Poly, Poly)>, _>(
                    MultipartyError::ThresholdNotMet,
                )
                &&& shares.len() >= aggregator.session_view().threshold && !rows_agree(ring, shares, false) ==> r
                    == Err::<Vec<(Poly, Poly)>, _>(MultipartyError::MalformedMessage)
                &&& shares.len() >= aggregator.session_view().threshold && rows_agree(ring, shares, false)
                    && shares.len() == 0 ==> r == Err::<Vec<(Poly, Poly)>, _>(MultipartyError::MissingShare)
                &&& shares.len() >= aggregator.session_view().threshold && rows_agree(ring, shares, false)
                    && shares.len() > 0 ==> (r matches Ok(v) && pairs_view(v@) == summed_rows(ring, shares, false))
            }),
    {
        let shares = aggregator.all_shares()?;
        sum_share_rows(self.params.ring(), shares.as_slice(), false)
    }

    /// Creates participant `participant`'s round-2 share from the round-1
    /// sums: row `k` from the ternary `vs[k]` and the errors `e2s[k]`,
    /// `e3s[k]`. The first row with an input that is not a ring element
    /// fails, naming the component.
    pub fn create_share_round2(
        &self,
        participant: ParticipantId,
        local_secret_share: &SecretKey,
        round1_aggregate: &[(Poly, Poly)],
        vs: &[Poly],
        e2s: &[Poly],
        e3s: &[Poly],
    ) -> (r: Result<Share, MultipartyError>)
        requires
            vs@.len() == round1_aggregate@.len(),
            e2s@.len() == round1_aggregate@.len(),
            e3s@.len() == round1_aggregate@.len(),
        ensures
            ({
                let ring = self@.params.0;
                let s = local_secret_share@;
                let key = self@.key;
                let h = pairs_view(round1_aggregate@);
                let vv = polys_view(vs@);
                let e2v = polys_view(e2s@);
                let e3v = polys_view(e3s@);
                let n = h.len();
                let session = next_round(self@.session);
                &&& forall|k: int|
                    0 <= k < n && (forall|j: int|
                        0 <= j < k ==> #[trigger] round2_first_ok(ring, s, key, h, vv, e2v, j) && round2_second_ok(
                            ring,
                            s,
                            key,
                            h,
                            vv,
                            e3v,
                            j,
                        )) && !(round2_first_ok(ring, s, key, h, vv, e2v, k) && round2_second_ok(ring, s, key, h, vv, e3v, k))
                        ==> r == Err::<Share, _>(
                        MultipartyError::InvalidParameters(
                            if !round2_first_ok(ring, s, key, h, vv, e2v, k) {
                                "create_share_round2: h0' failed"
                            } else {
                                "create_share_round2: h1' failed"
                            },
                        ),
                    )
                &&& (forall|k: int|
                    0 <= k < n ==> #[trigger] round2_first_ok(ring, s, key, h, vv, e2v, k) && round2_second_ok(
                        ring,
                        s,
                        key,
                        h,
                        vv,
                        e3v,
                        k,
                    )) ==> (!session.participants.contains(participant@) ==> r == Err::<Share, _>(
                    MultipartyError::UnknownParticipant,
                )) && (session.participants.contains(participant@) ==> (r matches Ok(share) && share@
                    == share_for(
                    session,
                    participant@,
                    ShareKind::RelinearizationKeyGen,
                    rows_bytes(
                        Seq::new(n, |k: int| round2_row(ring, self@.params.1, s, key, h[k], vv[k], e2v[k], e3v[k])),
                    ),
                )))
            }),
    {
        let ring = self.params.ring();
        let t = self.params.plaintext_modulus();
        let keys = self.collective_public_key.value();
        let ghost rv = ring@;
        let ghost s = local_secret_share@;
        let ghost key = self@.key;
        let ghost h = pairs_view(round1_aggregate@);
        let ghost vv = polys_view(vs@);
        let ghost e2v = polys_view(e2s@);
        let ghost e3v = polys_view(e3s@);
        let ghost want = Seq::new(h.len(), |k: int| round2_row(rv, t, s, key, h[k], vv[k], e2v[k], e3v[k]));
        let mut rows: Vec<(Poly, Poly)> = Vec::with_capacity(round1_aggregate.len());
        let mut k: usize = 0;
        while k < round1_aggregate.len()
            invariant
                rv == ring@,
                rv == self@.params.0,
                t == self@.params.1,
                s == local_secret_share@,
                key == self@.key,
                keys@[0]@ == key.0,
                keys@[1]@ == key.1,
                h == pairs_view(round1_aggregate@),
                vv == polys_view(vs@),
                e2v == polys_view(e2s@),
                e3v == polys_view(e3s@),
                vv.len() == h.len(),
                e2v.len() == h.len(),
                e3v.len() == h.len(),
                want == Seq::new(h.len(), |k: int| round2_row(rv, t, s, key, h[k], vv[k], e2v[k], e3v[k])),
                k <= h.len(),
                rows@.len() == k,
                forall|j: int|
                    0 <= j < k ==> #[trigger] round2_first_ok(rv, s, key, h, vv, e2v, j) && round2_second_ok(
                        rv,
                        s,
                        key,
                        h,
                        vv,
                        e3v,
                        j,
                    ),
                forall|j: int| 0 <= j < k ==> #[trigger] pairs_view(rows@)[j] == want[j],
            decreases h.len() - k,
        {
            let pair = &round1_aggregate[k];
            assert(h[k as int] == (pair.0@, pair.1@));
            assert(vs@[k as int]@ == vv[k as int]);
            assert(e2s@[k as int]@ == e2v[k as int]);
            assert(e3s@[k as int]@ == e3v[k as int]);
            let h0p = match folded(ring, local_secret_share.value(), &pair.0, &keys[0], &vs[k], &e2s[k], t) {
                Some(p) => p,
                None => {
                    proof {
                        assert(!(round2_first_ok(rv, s, key, h, vv, e2v, k as int) && round2_second_ok(rv, s, key, h, vv, e3v, k as int)));
                        assert forall|x: int|
                            0 <= x < h.len() && (forall|j: int|
                                0 <= j < x ==> #[trigger] round2_first_ok(rv, s, key, h, vv, e2v, j) && round2_second_ok(
                                    rv,
                                    s,
                                    key,
                                    h,
                                    vv,
                                    e3v,
                                    j,
                                )) && !(round2_first_ok(rv, s, key, h, vv, e2v, x) && round2_second_ok(rv, s, key, h, vv, e3v, x))
                                implies x == k by {
                            if x > k {
                                assert(round2_first_ok(rv, s, key, h, vv, e2v, k as int));
                            }
                        }
                    }
                    return Err(MultipartyError::InvalidParameters("create_share_round2: h0' failed"));
                },
            };
            assert(round2_first_ok(rv, s, key, h, vv, e2v, k as int));
            let h1p = match folded(ring, local_secret_share.value(), &pair.1, &keys[1], &vs[k], &e3s[k], t) {
                Some(p) => p,
                None => {
                    proof {
                        assert(!(round2_first_ok(rv, s, key, h, vv, e2v, k as int) && round2_second_ok(rv, s, key, h, vv, e3v, k as int)));
                        assert forall|x: int|
                            0 <= x < h.len() && (forall|j: int|
                                0 <= j < x ==> #[trigger] round2_first_ok(rv, s, key, h, vv, e2v, j) && round2_second_ok(
                                    rv,
                                    s,
                                    key,
                                    h,
                                    vv,
                                    e3v,
                                    j,
                                )) && !(round2_first_ok(rv, s, key, h, vv, e2v, x) && round2_second_ok(rv, s, key, h, vv, e3v, x))
                                implies x == k by {
                            if x > k {
                                assert(round2_first_ok(rv, s, key, h, vv, e2v, k as int));
                            }
                        }
                    }
                    return Err(MultipartyError::InvalidParameters("create_share_round2: h1' failed"));
                },
            };
            assert(round2_second_ok(rv, s, key, h, vv, e3v, k as int));
            let ghost old_rows = rows@;
            rows.push((h0p, h1p));
            proof {
                assert forall|j: int| 0 <= j < k + 1 implies #[trigger] round2_first_ok(rv, s, key, h, vv, e2v, j)
                    && round2_second_ok(rv, s, key, h, vv, e3v, j) by {
                    if j < k {
                        assert(round2_first_ok(rv, s, key, h, vv, e2v, j));
                    }
                }
                assert forall|j: int| 0 <= j < k + 1 implies #[trigger] pairs_view(rows@)[j] == want[j] by {
                    assert(pairs_view(rows@)[j] == (rows@[j].0@, rows@[j].1@));
                    if j < k {
                        assert(rows@[j] == old_rows[j]);
                        assert(pairs_view(old_rows)[j] == (old_rows[j].0@, old_rows[j].1@));
                    }
                }
            }
            k = k + 1;
        }
        proof {
            assert(pairs_view(rows@) =~= want);
        }
        let payload = encode_poly_rows(rows.as_slice());
        let session = self.round2_session();
        Share::new(&session, participant, ShareKind::RelinearizationKeyGen, payload)
    }

    /// Aggregates every collected round-2 share into the collective
    /// relinearization key: each row summed across the shares, component by
    /// component.
    pub fn aggregate_key(&self, aggregator: &ShareAggregator) -> (r: Result<BgvRelinearizationKey, MultipartyError>)
        ensures
            ({
                let ring = self@.params.0;
                let shares = aggregator.shares_view();
                &&& shares.len() < aggregator.session_view().threshold ==> r == Err::<BgvRelinearizationKey, _>(
                    MultipartyError::ThresholdNotMet,
                )
                &&& shares.len() >= aggregator.session_view().threshold && !rows_agree(ring, shares, false) ==> r
                    == Err::<BgvRelinearizationKey, _>(MultipartyError::MalformedMessage)
                &&& shares.len() >= aggregator.session_view().threshold && rows_agree(ring, shares, false)
                    && shares.len() == 0 ==> r == Err::<BgvRelinearizationKey, _>(MultipartyError::MissingShare)
                &&& shares.len() >= aggregator.session_view().threshold && rows_agree(ring, shares, false)
                    && shares.len() > 0 ==> (r matches Ok(key) && key@ == (
                    self@.gadget,
                    pair_ciphertexts(summed_rows(ring, shares, false)),
                ))
            }),
    {
        let shares = aggregator.all_shares()?;
        let rows = sum_share_rows(self.params.ring(), shares.as_slice(), false)?;
        let cts = rows_to_ciphertexts(rows.as_slice());
        Ok(BgvRelinearizationKey::from_rows(self.decomposition_params, cts))
    }
}

} // verus!
