//! Collective construction of hybrid key-switching keys over the extended
//! ring `QP`, ring-generic: each participant's row arithmetic for Galois and
//! relinearization keys, and a collective public key over `QP`.
//!
//! A single-party hybrid row `j` (one per modulus `q_j` of `Q`) is
//! `b_j = P * (Q / q_j) * s_old + e_j - a_j * s_new` over `QP`.
//!
//! - Galois keys (`s_old = sigma(s)`, linear): each participant contributes
//!   `P * (Q / q_j) * sigma(s_p) + e_j - a_j * s_p` with the common `a_j`;
//!   the contributions sum to the single-party row for `s = sum_p s_p`.
//! - Relinearization keys (`s_old = s^2`, quadratic): two rounds against a
//!   collective public key over `QP`. Round 1 row `j`:
//!   `(b*u + e0 + P * (Q / q_j) * s_p, a*u + e1)`; round 2 from the round-1
//!   sums `(H0, H1)`: `(s_p*H0 + b*v + e2, s_p*H1 + a*v + e3)`.
//!
//! Each participant's ternary secret is re-expressed in `QP` coefficient by
//! coefficient; the automorphism is applied before that.

use vstd::prelude::*;

use crate::codec::{labelled_purpose, slash_numbers};
use crate::lattice::rlwe::ciphertext::polys_view;
use crate::lattice::rlwe::keys::{PublicKey, SecretKey};
use crate::lattice::rlwe::keyswitch::{
    extended_ring, lemma_rebased_in_ring, qp_scale, rebase_ternary_secret, rebased, row_is_ternary,
    scale_poly_per_component,
};
use crate::lattice::rlwe::params::RlweParams;
use crate::multiparty::common::randomness::{common_element, derive_common_ring_element};
use crate::multiparty::common::session::{SessionState, SessionView};
use crate::multiparty::error::MultipartyError;
use crate::multiparty::mpbgv::wire::pairs_view;
use crate::ring::automorphism::{galois_apply, galois_invertible};
use crate::ring::conversion::concat_moduli;
use crate::multiparty::mpbgv::rkg::lemma_key_row_residues;
use crate::ring::algebra::{
    lemma_mul_associative, lemma_mul_commutative, lemma_mul_distributes_over_add,
    lemma_mul_distributes_over_add_left, lemma_mul_distributes_over_sub, lemma_mul_distributes_over_sub_left,
    lemma_mul_scale_left, lemma_sub_add_cancel, lemma_sum_in_ring, lemma_sum_of_differences,
    lemma_sum_of_products_left, lemma_sum_of_products_right, lemma_sum_of_scaled_rows, lemma_sum_of_sums,
};
use crate::ring::poly::{
    lemma_mul_stays_in_ring, lemma_ring_ops_stay_in_ring, lemma_scale_rows_stay_in_ring, modulus_values, poly_add,
    poly_in_ring, poly_mul, poly_scale_rows, poly_sub, poly_sum, ring_valid, Degree, Modulus, Poly, Ring, RingView,
    Rows,
};
use crate::ring::rns::crt_basis_constant;

verus! {

/// The purpose under which the common element of the collective public key
/// over `QP` is derived.
pub const QP_CKG_A_PURPOSE: &'static str = "phantom-fhe/common/hybrid/qp_ckg/a/v1";

/// The prefix of the purposes of the Galois rows' common elements:
/// `prefix/element/row`.
pub const GKG_A_PURPOSE_PREFIX: &'static str = "phantom-fhe/common/hybrid/gkg/a/v1";

/// The common element of the collective public key over `QP`: every
/// participant of the session derives the same.
pub open spec fn qp_common_a(qp: RingView, session: SessionView) -> Rows {
    common_element(qp, session.id, vstd::string::StringSliceAdditionalSpecFns::spec_bytes(QP_CKG_A_PURPOSE))
}

/// The common elements of the Galois rows of rotation `element`, row `j`
/// under the purpose `prefix/element/j`.
pub open spec fn hybrid_gkg_common_a(qp: RingView, session: SessionView, element: usize, rows: nat) -> Seq<Rows> {
    Seq::new(
        rows,
        |j: int|
            common_element(
                qp,
                session.id,
                vstd::string::StringSliceAdditionalSpecFns::spec_bytes(GKG_A_PURPOSE_PREFIX) + slash_numbers(
                    seq![element as u64, j as u64],
                ),
            ),
    )
}

/// `p` is an element of the ring `r`.
pub open spec fn in_qp(r: RingView, p: Rows) -> bool {
    poly_in_ring(r.degree, r.moduli, p)
}

/// The parameters of the extended ring `QP`: the working moduli of
/// `q_params` followed by `p_moduli`, same degree. `InvalidParameters`
/// without auxiliary moduli.
pub fn qp_params(q_params: &RlweParams, p_moduli: &[Modulus]) -> (r: Result<RlweParams, MultipartyError>)
    ensures
        p_moduli@.len() == 0 ==> r == Err::<RlweParams, _>(
            MultipartyError::InvalidParameters("qp_params: p_moduli must be non-empty"),
        ),
        p_moduli@.len() > 0 ==> (r matches Ok(p) && p@ == extended_ring(q_params@, modulus_values(p_moduli@))),
        r matches Ok(p) ==> crate::ring::poly::ring_valid(p@),
{
    if p_moduli.len() == 0 {
        return Err(MultipartyError::InvalidParameters("qp_params: p_moduli must be non-empty"));
    }
    let q_ring = q_params.ring();
    q_ring.check_valid();
    let qp_moduli = concat_moduli(q_ring.moduli(), p_moduli);
    let degree = match Degree::new(q_ring.degree()) {
        Ok(d) => d,
        Err(_) => {
            assert(false);
            return Err(MultipartyError::InvalidParameters("qp_params: invalid degree"));
        },
    };
    let qp_ring = match Ring::new(degree, qp_moduli) {
        Ok(ring) => ring,
        Err(_) => {
            assert(false);
            return Err(MultipartyError::InvalidParameters("qp_params: invalid QP ring"));
        },
    };
    qp_ring.check_valid();
    Ok(RlweParams::new(qp_ring))
}

/// A participant's contribution to the collective public key over `QP`:
/// `e_i - a * s_qp`, with `s_qp` the ternary secret share re-expressed in
/// `QP`, `a` the common element and `e_i` the sampled error.
pub fn qp_ckg_contribution(
    q_params: &RlweParams,
    p_moduli: &[Modulus],
    session: &SessionState,
    local_secret_share: &SecretKey,
    e_i: &Poly,
) -> (r: Result<Poly, MultipartyError>)
    ensures
        ({
            let q = q_params@;
            let qp = extended_ring(q, modulus_values(p_moduli@));
            let s = local_secret_share@;
            let s_qp = rebased(s[0], q.moduli[0], qp.moduli);
            &&& p_moduli@.len() == 0 ==> r == Err::<Poly, _>(
                MultipartyError::InvalidParameters("qp_params: p_moduli must be non-empty"),
            )
            &&& p_moduli@.len() > 0 && !row_is_ternary(s[0], q.moduli[0]) ==> r == Err::<Poly, _>(
                MultipartyError::InvalidParameters("qp_ckg_contribution: rebase failed"),
            )
            &&& p_moduli@.len() > 0 && row_is_ternary(s[0], q.moduli[0]) && !in_qp(qp, s_qp) ==> r == Err::<
                Poly,
                _,
            >(MultipartyError::InvalidParameters("qp_ckg_contribution: a*s_i failed"))
            &&& p_moduli@.len() > 0 && row_is_ternary(s[0], q.moduli[0]) && in_qp(qp, s_qp) && !in_qp(qp, e_i@)
                ==> r == Err::<Poly, _>(
                MultipartyError::InvalidParameters("qp_ckg_contribution: e_i - a*s_i failed"),
            )
            &&& p_moduli@.len() > 0 && row_is_ternary(s[0], q.moduli[0]) && in_qp(qp, s_qp) && in_qp(qp, e_i@)
                ==> (r matches Ok(b) && b@ == poly_sub(e_i@, poly_mul(qp_common_a(qp, session@), s_qp, qp.moduli), qp.moduli))
        }),
{
    let params = qp_params(q_params, p_moduli)?;
    let qp_ring = params.ring();
    let q0 = q_params.ring().moduli()[0];
    let s_qp = match rebase_ternary_secret(local_secret_share, q0, qp_ring) {
        Ok(p) => p,
        Err(_) => {
            return Err(MultipartyError::InvalidParameters("qp_ckg_contribution: rebase failed"));
        },
    };
    let a = derive_common_ring_element(qp_ring, session, QP_CKG_A_PURPOSE.as_bytes());
    let a_s = match qp_ring.mul(&a, &s_qp) {
        Ok(p) => p,
        Err(_) => {
            return Err(MultipartyError::InvalidParameters("qp_ckg_contribution: a*s_i failed"));
        },
    };
    match qp_ring.sub(e_i, &a_s) {
        Ok(p) => Ok(p),
        Err(_) => Err(MultipartyError::InvalidParameters("qp_ckg_contribution: e_i - a*s_i failed")),
    }
}

/// Sums every participant's contribution into the collective public key
/// over `QP`, `(sum_i b_i, a)`; `InvalidParameters` unless every
/// contribution is an element of `QP`.
pub fn aggregate_qp_public_key(
    q_params: &RlweParams,
    p_moduli: &[Modulus],
    session: &SessionState,
    contributions: &[Poly],
) -> (r: Result<PublicKey, MultipartyError>)
    ensures
        ({
            let qp = extended_ring(q_params@, modulus_values(p_moduli@));
            let cs = polys_view(contributions@);
            &&& p_moduli@.len() == 0 ==> r == Err::<PublicKey, _>(
                MultipartyError::InvalidParameters("qp_params: p_moduli must be non-empty"),
            )
            &&& p_moduli@.len() > 0 && !(forall|i: int| 0 <= i < cs.len() ==> in_qp(qp, #[trigger] cs[i])) ==> r
                == Err::<PublicKey, _>(MultipartyError::InvalidParameters("aggregate_qp_public_key: sum failed"))
            &&& p_moduli@.len() > 0 && (forall|i: int| 0 <= i < cs.len() ==> in_qp(qp, #[trigger] cs[i])) ==> (r matches Ok(
                pk,
            ) && pk@.0 == poly_sum(cs, qp) && pk@.1 == qp_common_a(qp, session@))
        }),
{
    let params = qp_params(q_params, p_moduli)?;
    let qp_ring = params.ring();
    let ghost qp = qp_ring@;
    let ghost cs = polys_view(contributions@);
    let mut b_sum = qp_ring.zero();
    let mut i: usize = 0;
    while i < contributions.len()
        invariant
            qp == qp_ring@,
            qp == extended_ring(q_params@, modulus_values(p_moduli@)),
            p_moduli@.len() > 0,
            crate::ring::poly::ring_valid(qp),
            cs == polys_view(contributions@),
            i <= cs.len(),
            forall|t: int| 0 <= t < i ==> in_qp(qp, #[trigger] cs[t]),
            b_sum@ == poly_sum(cs.take(i as int), qp),
            in_qp(qp, b_sum@),
        decreases cs.len() - i,
    {
        assert(contributions@[i as int]@ == cs[i as int]);
        b_sum = match qp_ring.add(&b_sum, &contributions[i]) {
            Ok(p) => p,
            Err(_) => {
                return Err(MultipartyError::InvalidParameters("aggregate_qp_public_key: sum failed"));
            },
        };
        proof {
            assert(cs.take(i + 1).drop_last() =~= cs.take(i as int));
        }
        i = i + 1;
    }
    assert(cs.take(cs.len() as int) =~= cs);
    let a = derive_common_ring_element(qp_ring, session, QP_CKG_A_PURPOSE.as_bytes());
    Ok(PublicKey::new(b_sum, a))
}

/// A participant's Galois row `j`: `P * (Q / q_j) * sigma_qp + e - a * s_qp`.
pub open spec fn gkg_row(qp: RingView, sigma_qp: Rows, s_qp: Rows, j: int, e: Rows, a: Rows) -> Rows {
    let m = qp.moduli;
    poly_sub(poly_add(poly_scale_rows(sigma_qp, qp_scale(m, j), m), e, m), poly_mul(a, s_qp, m), m)
}

/// The Galois rows of a participant given the common elements `a`.
pub open spec fn gkg_rows(qp: RingView, sigma_qp: Rows, s_qp: Rows, errors: Seq<Rows>, a: Seq<Rows>) -> Seq<
    (Rows, Rows),
> {
    Seq::new(a.len(), |j: int| (gkg_row(qp, sigma_qp, s_qp, j, errors[j], a[j]), a[j]))
}

/// A participant's Galois-key rows for rotation `element`, one per modulus
/// of `Q`, each `(b_j, a_j)` with the common `a_j` and the sampled error
/// `errors[j]`. Aggregation sums the `b_j` and checks that the `a_j` agree.
pub fn gkg_row_contributions(
    q_params: &RlweParams,
    p_moduli: &[Modulus],
    session: &SessionState,
    element: usize,
    local_secret_share: &SecretKey,
    errors: &[Poly],
) -> (r: Result<Vec<(Poly, Poly)>, MultipartyError>)
    requires
        errors@.len() == q_params@.moduli.len(),
    ensures
        ({
            let q = q_params@;
            let qp = extended_ring(q, modulus_values(p_moduli@));
            let s = local_secret_share@;
            let q0 = q.moduli[0];
            let sigma = galois_apply(s, element as int, q.degree as int, q.moduli);
            let ev = polys_view(errors@);
            let usable = poly_in_ring(q.degree, q.moduli, s) && galois_invertible(element as int, q.degree as int);
            &&& p_moduli@.len() == 0 ==> r == Err::<Vec<(Poly, Poly)>, _>(
                MultipartyError::InvalidParameters("qp_params: p_moduli must be non-empty"),
            )
            &&& p_moduli@.len() > 0 && !usable ==> r == Err::<Vec<(Poly, Poly)>, _>(
                MultipartyError::InvalidParameters("gkg_row_contributions: automorphism failed"),
            )
            &&& p_moduli@.len() > 0 && usable && !row_is_ternary(sigma[0], q0) ==> r == Err::<Vec<(Poly, Poly)>, _>(
                MultipartyError::InvalidParameters("gkg_row_contributions: rebase sigma_s failed"),
            )
            &&& p_moduli@.len() > 0 && usable && row_is_ternary(sigma[0], q0) && !row_is_ternary(s[0], q0) ==> r
                == Err::<Vec<(Poly, Poly)>, _>(
                MultipartyError::InvalidParameters("gkg_row_contributions: rebase s_p failed"),
            )
            &&& p_moduli@.len() > 0 && usable && row_is_ternary(sigma[0], q0) && row_is_ternary(s[0], q0) && !(forall|
                j: int,
            | 0 <= j < ev.len() ==> in_qp(qp, #[trigger] ev[j])) ==> r == Err::<Vec<(Poly, Poly)>, _>(
                MultipartyError::InvalidParameters("gkg_row_contributions: b_j failed"),
            )
            &&& p_moduli@.len() > 0 && usable && row_is_ternary(sigma[0], q0) && row_is_ternary(s[0], q0) && (forall|
                j: int,
            | 0 <= j < ev.len() ==> in_qp(qp, #[trigger] ev[j])) ==> (r matches Ok(rows) && pairs_view(rows@) == gkg_rows(
                qp,
                rebased(sigma[0], q0, qp.moduli),
                rebased(s[0], q0, qp.moduli),
                ev,
                hybrid_gkg_common_a(qp, session@, element, ev.len()),
            ))
        }),
{
    let params = qp_params(q_params, p_moduli)?;
    let qp_ring = params.ring();
    let q_ring = q_params.ring();
    q_ring.check_valid();
    let q_moduli = q_ring.moduli();
    let q_len = q_moduli.len();
    let qp_moduli = qp_ring.moduli();
    let sigma_s = match q_ring.apply_automorphism(local_secret_share.value(), element) {
        Ok(p) => p,
        Err(_) => {
            return Err(MultipartyError::InvalidParameters("gkg_row_contributions: automorphism failed"));
        },
    };
    let sigma_key = SecretKey::new(sigma_s);
    let sigma_qp = match rebase_ternary_secret(&sigma_key, q_moduli[0], qp_ring) {
        Ok(p) => p,
        Err(_) => {
            return Err(MultipartyError::InvalidParameters("gkg_row_contributions: rebase sigma_s failed"));
        },
    };
    let s_qp = match rebase_ternary_secret(local_secret_share, q_moduli[0], qp_ring) {
        Ok(p) => p,
        Err(_) => {
            return Err(MultipartyError::InvalidParameters("gkg_row_contributions: rebase s_p failed"));
        },
    };
    let ghost qp = qp_ring@;
    let ghost ev = polys_view(errors@);
    proof {
        lemma_rebased_in_ring(sigma_key@[0], q_ring@.moduli[0], qp);
        lemma_rebased_in_ring(local_secret_share@[0], q_ring@.moduli[0], qp);
    }
    let prefix = GKG_A_PURPOSE_PREFIX.as_bytes();
    let mut rows: Vec<(Poly, Poly)> = Vec::with_capacity(q_len);
    let ghost mut av: Seq<Rows> = Seq::empty();
    let mut j: usize = 0;
    while j < q_len
        invariant
            qp == qp_ring@,
            qp == extended_ring(q_params@, modulus_values(p_moduli@)),
            p_moduli@.len() > 0,
            poly_in_ring(q_params@.degree, q_params@.moduli, local_secret_share@),
            galois_invertible(element as int, q_params@.degree as int),
            row_is_ternary(galois_apply(local_secret_share@, element as int, q_params@.degree as int, q_params@.moduli)[0], q_params@.moduli[0]),
            row_is_ternary(local_secret_share@[0], q_params@.moduli[0]),
            sigma_qp@ == rebased(galois_apply(local_secret_share@, element as int, q_params@.degree as int, q_params@.moduli)[0], q_params@.moduli[0], qp.moduli),
            s_qp@ == rebased(local_secret_share@[0], q_params@.moduli[0], qp.moduli),
            crate::ring::poly::ring_valid(qp),
            modulus_values(qp_moduli@) == qp.moduli,
            q_len == ev.len(),
            ev == polys_view(errors@),
            in_qp(qp, sigma_qp@),
            in_qp(qp, s_qp@),
            j <= q_len,
            rows@.len() == j,
            av.len() == j,
            forall|x: int| 0 <= x < j ==> in_qp(qp, #[trigger] av[x]),
            forall|x: int| 0 <= x < j ==> #[trigger] av[x] == hybrid_gkg_common_a(qp, session@, element, q_len as nat)[x],
            prefix@ == vstd::string::StringSliceAdditionalSpecFns::spec_bytes(GKG_A_PURPOSE_PREFIX),
            forall|x: int| 0 <= x < j ==> in_qp(qp, #[trigger] ev[x]),
            pairs_view(rows@) == gkg_rows(qp, sigma_qp@, s_qp@, ev.take(j as int), av),
        decreases q_len - j,
    {
        let mut numbers: Vec<u64> = Vec::with_capacity(2);
        numbers.push(element as u64);
        numbers.push(j as u64);
        let purpose = labelled_purpose(prefix, numbers.as_slice());
        let a_j = derive_common_ring_element(qp_ring, session, purpose.as_slice());
        let scale_j = crt_basis_constant(qp_moduli, j, qp_moduli);
        assert(scale_j@ =~= qp_scale(qp.moduli, j as int));
        let scaled = match scale_poly_per_component(qp_ring, &sigma_qp, scale_j.as_slice()) {
            Ok(p) => p,
            Err(_) => {
                assert(false);
                return Err(MultipartyError::InvalidParameters("scale_poly_per_component: failed"));
            },
        };
        let a_s = match qp_ring.mul(&a_j, &s_qp) {
            Ok(p) => p,
            Err(_) => {
                assert(false);
                return Err(MultipartyError::InvalidParameters("gkg_row_contributions: a_j*s_p failed"));
            },
        };
        assert(errors@[j as int]@ == ev[j as int]);
        let with_error = match qp_ring.add(&scaled, &errors[j]) {
            Ok(p) => p,
            Err(_) => {
                return Err(MultipartyError::InvalidParameters("gkg_row_contributions: b_j failed"));
            },
        };
        let b_j = match qp_ring.sub(&with_error, &a_s) {
            Ok(p) => p,
            Err(_) => {
                assert(false);
                return Err(MultipartyError::InvalidParameters("gkg_row_contributions: b_j failed"));
            },
        };
        let ghost old_rows = rows@;
        let ghost old_av = av;
        proof {
            assert(numbers@ =~= seq![element as u64, j as u64]);
            av = av.push(a_j@);
        }
        rows.push((b_j, a_j));
        proof {
            let want = gkg_rows(qp, sigma_qp@, s_qp@, ev.take(j + 1), av);
            assert forall|x: int| 0 <= x < j + 1 implies #[trigger] pairs_view(rows@)[x] == want[x] by {
                assert(pairs_view(rows@)[x] == (rows@[x].0@, rows@[x].1@));
                if x < j {
                    assert(rows@[x] == old_rows[x]);
                    assert(pairs_view(old_rows)[x] == (old_rows[x].0@, old_rows[x].1@));
                }
            }
            assert(pairs_view(rows@) =~= want);
        }
        j = j + 1;
    }
    assert(ev.take(q_len as int) =~= ev);
    assert(av =~= hybrid_gkg_common_a(qp, session@, element, q_len as nat));
    Ok(rows)
}

/// `x * y + e`; `None` unless all three are ring elements.
fn mul_add(ring: &Ring, x: &Poly, y: &Poly, e: &Poly) -> (r: Option<Poly>)
    ensures
        r is Some <==> in_qp(ring@, x@) && in_qp(ring@, y@) && in_qp(ring@, e@),
        r matches Some(p) ==> p@ == poly_add(poly_mul(x@, y@, ring@.moduli), e@, ring@.moduli) && in_qp(ring@, p@),
{
    let prod = match ring.mul(x, y) {
        Ok(p) => p,
        Err(_) => {
            return None;
        },
    };
    match ring.add(&prod, e) {
        Ok(p) => Some(p),
        Err(_) => None,
    }
}

/// The relinearization round-1 row `j` of a participant:
/// `(b*u + e0 + P * (Q / q_j) * s_qp, a*u + e1)`.
pub open spec fn rkg_round1_row(qp: RingView, key: (Rows, Rows), s_qp: Rows, j: int, u: Rows, e0: Rows, e1: Rows) -> (
    Rows,
    Rows,
) {
    let m = qp.moduli;
    (
        poly_add(poly_add(poly_mul(key.0, u, m), e0, m), poly_scale_rows(s_qp, qp_scale(m, j), m), m),
        poly_add(poly_mul(key.1, u, m), e1, m),
    )
}

/// The inputs of round-1 row `j` that its first component uses.
pub open spec fn rkg_round1_first_ok(qp: RingView, key: (Rows, Rows), us: Seq<Rows>, e0s: Seq<Rows>, j: int) -> bool {
    in_qp(qp, key.0) && in_qp(qp, us[j]) && in_qp(qp, e0s[j])
}

/// Every input of round-1 row `j` is an element of `QP`.
pub open spec fn rkg_round1_ok(
    qp: RingView,
    key: (Rows, Rows),
    us: Seq<Rows>,
    e0s: Seq<Rows>,
    e1s: Seq<Rows>,
    j: int,
) -> bool {
    rkg_round1_first_ok(qp, key, us, e0s, j) && in_qp(qp, key.1) && in_qp(qp, e1s[j])
}

/// A participant's relinearization round-1 rows, one per modulus of `Q`,
/// from the ternary `us[j]` and the errors `e0s[j]`, `e1s[j]`, against the
/// collective public key over `QP`.
pub fn rkg_round1_row_contributions(
    q_params: &RlweParams,
    p_moduli: &[Modulus],
    collective_public_key_qp: &PublicKey,
    local_secret_share: &SecretKey,
    us: &[Poly],
    e0s: &[Poly],
    e1s: &[Poly],
) -> (r: Result<Vec<(Poly, Poly)>, MultipartyError>)
    requires
        us@.len() == q_params@.moduli.len(),
        e0s@.len() == us@.len(),
        e1s@.len() == us@.len(),
    ensures
        ({
            let q = q_params@;
            let qp = extended_ring(q, modulus_values(p_moduli@));
            let s = local_secret_share@;
            let q0 = q.moduli[0];
            let s_qp = rebased(s[0], q0, qp.moduli);
            let key = collective_public_key_qp@;
            let uv = polys_view(us@);
            let e0v = polys_view(e0s@);
            let e1v = polys_view(e1s@);
            let ready = p_moduli@.len() > 0 && row_is_ternary(s[0], q0) && in_qp(qp, s_qp);
            &&& p_moduli@.len() == 0 ==> r == Err::<Vec<(Poly, Poly)>, _>(
                MultipartyError::InvalidParameters("qp_params: p_moduli must be non-empty"),
            )
            &&& p_moduli@.len() > 0 && !row_is_ternary(s[0], q0) ==> r == Err::<Vec<(Poly, Poly)>, _>(
                MultipartyError::InvalidParameters("rkg_round1: rebase failed"),
            )
            &&& p_moduli@.len() > 0 && row_is_ternary(s[0], q0) && !in_qp(qp, s_qp) ==> r == Err::<
                Vec<(Poly, Poly)>,
                _,
            >(MultipartyError::InvalidParameters("scale_poly_per_component: failed"))
            &&& ready ==> forall|j: int|
                0 <= j < uv.len() && (forall|x: int| 0 <= x < j ==> #[trigger] rkg_round1_ok(qp, key, uv, e0v, e1v, x))
                    && !rkg_round1_ok(qp, key, uv, e0v, e1v, j) ==> r == Err::<Vec<(Poly, Poly)>, _>(
                    MultipartyError::InvalidParameters(
                        if !rkg_round1_first_ok(qp, key, uv, e0v, j) {
                            "rkg_round1: h0 failed"
                        } else {
                            "rkg_round1: h1 failed"
                        },
                    ),
                )
            &&& ready && (forall|j: int| 0 <= j < uv.len() ==> #[trigger] rkg_round1_ok(qp, key, uv, e0v, e1v, j))
                ==> (r matches Ok(rows) && pairs_view(rows@) == Seq::new(
                uv.len(),
                |j: int| rkg_round1_row(qp, key, s_qp, j, uv[j], e0v[j], e1v[j]),
            ))
        }),
{
    let params = qp_params(q_params, p_moduli)?;
    let qp_ring = params.ring();
    let q_ring = q_params.ring();
    let q_moduli = q_ring.moduli();
    let q_len = q_moduli.len();
    let qp_moduli = qp_ring.moduli();
    let s_qp = match rebase_ternary_secret(local_secret_share, q_moduli[0], qp_ring) {
        Ok(p) => p,
        Err(_) => {
            return Err(MultipartyError::InvalidParameters("rkg_round1: rebase failed"));
        },
    };
    let keys = collective_public_key_qp.value();
    let ghost qp = qp_ring@;
    let ghost key = collective_public_key_qp@;
    let ghost uv = polys_view(us@);
    let ghost e0v = polys_view(e0s@);
    let ghost e1v = polys_view(e1s@);
    let ghost want = Seq::new(uv.len(), |j: int| rkg_round1_row(qp, key, s_qp@, j, uv[j], e0v[j], e1v[j]));
    let mut rows: Vec<(Poly, Poly)> = Vec::with_capacity(q_len);
    let mut j: usize = 0;
    while j < q_len
        invariant
            qp == qp_ring@,
            qp == extended_ring(q_params@, modulus_values(p_moduli@)),
            p_moduli@.len() > 0,
            row_is_ternary(local_secret_share@[0], q_params@.moduli[0]),
            s_qp@ == rebased(local_secret_share@[0], q_params@.moduli[0], qp.moduli),
            crate::ring::poly::ring_valid(qp),
            modulus_values(qp_moduli@) == qp.moduli,
            key == collective_public_key_qp@,
            keys@[0]@ == key.0,
            keys@[1]@ == key.1,
            uv == polys_view(us@),
            e0v == polys_view(e0s@),
            e1v == polys_view(e1s@),
            q_len == uv.len(),
            e0v.len() == uv.len(),
            e1v.len() == uv.len(),
            want == Seq::new(uv.len(), |j: int| rkg_round1_row(qp, key, s_qp@, j, uv[j], e0v[j], e1v[j])),
            j > 0 ==> in_qp(qp, s_qp@),
            j <= q_len,
            rows@.len() == j,
            forall|x: int| 0 <= x < j ==> #[trigger] rkg_round1_ok(qp, key, uv, e0v, e1v, x),
            forall|x: int| 0 <= x < j ==> #[trigger] pairs_view(rows@)[x] == want[x],
        decreases q_len - j,
    {
        let scale_j = crt_basis_constant(qp_moduli, j, qp_moduli);
        assert(scale_j@ =~= qp_scale(qp.moduli, j as int));
        let scaled = match scale_poly_per_component(qp_ring, &s_qp, scale_j.as_slice()) {
            Ok(p) => p,
            Err(_) => {
                return Err(MultipartyError::InvalidParameters("scale_poly_per_component: failed"));
            },
        };
        assert(us@[j as int]@ == uv[j as int]);
        assert(e0s@[j as int]@ == e0v[j as int]);
        assert(e1s@[j as int]@ == e1v[j as int]);
        let first_part = match mul_add(qp_ring, &keys[0], &us[j], &e0s[j]) {
            Some(p) => p,
            None => {
                proof {
                    assert(!rkg_round1_ok(qp, key, uv, e0v, e1v, j as int));
                    assert forall|x: int|
                        0 <= x < uv.len() && (forall|y: int|
                            0 <= y < x ==> #[trigger] rkg_round1_ok(qp, key, uv, e0v, e1v, y))
                            && !rkg_round1_ok(qp, key, uv, e0v, e1v, x) implies x == j by {
                        if x > j {
                            assert(rkg_round1_ok(qp, key, uv, e0v, e1v, j as int));
                        }
                    }
                }
                return Err(MultipartyError::InvalidParameters("rkg_round1: h0 failed"));
            },
        };
        let h0 = match qp_ring.add(&first_part, &scaled) {
            Ok(p) => p,
            Err(_) => {
                assert(false);
                return Err(MultipartyError::InvalidParameters("rkg_round1: h0 failed"));
            },
        };
        let h1 = match mul_add(qp_ring, &keys[1], &us[j], &e1s[j]) {
            Some(p) => p,
            None => {
                proof {
                    assert(rkg_round1_first_ok(qp, key, uv, e0v, j as int));
                    assert(!rkg_round1_ok(qp, key, uv, e0v, e1v, j as int));
                    assert forall|x: int|
                        0 <= x < uv.len() && (forall|y: int|
                            0 <= y < x ==> #[trigger] rkg_round1_ok(qp, key, uv, e0v, e1v, y))
                            && !rkg_round1_ok(qp, key, uv, e0v, e1v, x) implies x == j by {
                        if x > j {
                            assert(rkg_round1_ok(qp, key, uv, e0v, e1v, j as int));
                        }
                    }
                }
                return Err(MultipartyError::InvalidParameters("rkg_round1: h1 failed"));
            },
        };
        assert(rkg_round1_ok(qp, key, uv, e0v, e1v, j as int));
        let ghost old_rows = rows@;
        rows.push((h0, h1));
        proof {
            assert forall|x: int| 0 <= x < j + 1 implies #[trigger] rkg_round1_ok(qp, key, uv, e0v, e1v, x) by {
                if x < j {
                    assert(rkg_round1_ok(qp, key, uv, e0v, e1v, x));
                }
            }
            assert forall|x: int| 0 <= x < j + 1 implies #[trigger] pairs_view(rows@)[x] == want[x] by {
                assert(pairs_view(rows@)[x] == (rows@[x].0@, rows@[x].1@));
                if x < j {
                    assert(rows@[x] == old_rows[x]);
                    assert(pairs_view(old_rows)[x] == (old_rows[x].0@, old_rows[x].1@));
                }
            }
        }
        j = j + 1;
    }
    assert(pairs_view(rows@) =~= want);
    Ok(rows)
}

/// `s * h + key * v + e`; `None` unless all five are ring elements.
fn fold_in(ring: &Ring, s: &Poly, h: &Poly, key: &Poly, v: &Poly, e: &Poly) -> (r: Option<Poly>)
    ensures
        r is Some <==> in_qp(ring@, s@) && in_qp(ring@, h@) && in_qp(ring@, key@) && in_qp(ring@, v@) && in_qp(
            ring@,
            e@,
        ),
        r matches Some(p) ==> p@ == poly_add(
            poly_add(poly_mul(s@, h@, ring@.moduli), poly_mul(key@, v@, ring@.moduli), ring@.moduli),
            e@,
            ring@.moduli,
        ),
{
    let sh = match ring.mul(s, h) {
        Ok(p) => p,
        Err(_) => {
            return None;
        },
    };
    let kv = match ring.mul(key, v) {
        Ok(p) => p,
        Err(_) => {
            return None;
        },
    };
    let sum = match ring.add(&sh, &kv) {
        Ok(p) => p,
        Err(_) => {
            return None;
        },
    };
    match ring.add(&sum, e) {
        Ok(p) => Some(p),
        Err(_) => None,
    }
}

/// The relinearization round-2 row of a participant from the round-1 sum
/// `h`: `(s_qp*h.0 + b*v + e2, s_qp*h.1 + a*v + e3)`.
pub open spec fn rkg_round2_row(qp: RingView, key: (Rows, Rows), s_qp: Rows, h: (Rows, Rows), v: Rows, e2: Rows, e3: Rows) -> (
    Rows,
    Rows,
) {
    let m = qp.moduli;
    (
        poly_add(poly_add(poly_mul(s_qp, h.0, m), poly_mul(key.0, v, m), m), e2, m),
        poly_add(poly_add(poly_mul(s_qp, h.1, m), poly_mul(key.1, v, m), m), e3, m),
    )
}

/// The inputs of the first component of round-2 row `k`.
pub open spec fn rkg_round2_first_ok(
    qp: RingView,
    s_qp: Rows,
    key: (Rows, Rows),
    h: Seq<(Rows, Rows)>,
    vs: Seq<Rows>,
    e2s: Seq<Rows>,
    k: int,
) -> bool {
    in_qp(qp, s_qp) && in_qp(qp, h[k].0) && in_qp(qp, key.0) && in_qp(qp, vs[k]) && in_qp(qp, e2s[k])
}

/// Every input of round-2 row `k` is an element of `QP`.
pub open spec fn rkg_round2_ok(
    qp: RingView,
    s_qp: Rows,
    key: (Rows, Rows),
    h: Seq<(Rows, Rows)>,
    vs: Seq<Rows>,
    e2s: Seq<Rows>,
    e3s: Seq<Rows>,
    k: int,
) -> bool {
    rkg_round2_first_ok(qp, s_qp, key, h, vs, e2s, k) && in_qp(qp, h[k].1) && in_qp(qp, key.1) && in_qp(qp, e3s[k])
}

/// A participant's relinearization round-2 rows from the round-1 sums,
/// from the ternary `vs[k]` and the errors `e2s[k]`, `e3s[k]`.
pub fn rkg_round2_row_contributions(
    q_params: &RlweParams,
    p_moduli: &[Modulus],
    collective_public_key_qp: &PublicKey,
    round1_aggregate: &[(Poly, Poly)],
    local_secret_share: &SecretKey,
    vs: &[Poly],
    e2s: &[Poly],
    e3s: &[Poly],
) -> (r: Result<Vec<(Poly, Poly)>, MultipartyError>)
    requires
        vs@.len() == round1_aggregate@.len(),
        e2s@.len() == round1_aggregate@.len(),
        e3s@.len() == round1_aggregate@.len(),
    ensures
        ({
            let q = q_params@;
            let qp = extended_ring(q, modulus_values(p_moduli@));
            let s = local_secret_share@;
            let q0 = q.moduli[0];
            let s_qp = rebased(s[0], q0, qp.moduli);
            let key = collective_public_key_qp@;
            let h = pairs_view(round1_aggregate@);
            let vv = polys_view(vs@);
            let e2v = polys_view(e2s@);
            let e3v = polys_view(e3s@);
            let ready = p_moduli@.len() > 0 && row_is_ternary(s[0], q0);
            &&& p_moduli@.len() == 0 ==> r == Err::<Vec<(Poly, Poly)>, _>(
                MultipartyError::InvalidParameters("qp_params: p_moduli must be non-empty"),
            )
            &&& p_moduli@.len() > 0 && !row_is_ternary(s[0], q0) ==> r == Err::<Vec<(Poly, Poly)>, _>(
                MultipartyError::InvalidParameters("rkg_round2: rebase failed"),
            )
            &&& ready ==> forall|k: int|
                0 <= k < h.len() && (forall|x: int|
                    0 <= x < k ==> #[trigger] rkg_round2_ok(qp, s_qp, key, h, vv, e2v, e3v, x)) && !rkg_round2_ok(
                    qp,
                    s_qp,
                    key,
                    h,
                    vv,
                    e2v,
                    e3v,
                    k,
                ) ==> r == Err::<Vec<(Poly, Poly)>, _>(
                    MultipartyError::InvalidParameters(
                        if !rkg_round2_first_ok(qp, s_qp, key, h, vv, e2v, k) {
                            "rkg_round2: h0' failed"
                        } else {
                            "rkg_round2: h1' failed"
                        },
                    ),
                )
            &&& ready && (forall|k: int| 0 <= k < h.len() ==> #[trigger] rkg_round2_ok(qp, s_qp, key, h, vv, e2v, e3v, k))
                ==> (r matches Ok(rows) && pairs_view(rows@) == Seq::new(
                h.len(),
                |k: int| rkg_round2_row(qp, key, s_qp, h[k], vv[k], e2v[k], e3v[k]),
            ))
        }),
{
    let params = qp_params(q_params, p_moduli)?;
    let qp_ring = params.ring();
    let q_moduli = q_params.ring().moduli();
    let s_qp = match rebase_ternary_secret(local_secret_share, q_moduli[0], qp_ring) {
        Ok(p) => p,
        Err(_) => {
            return Err(MultipartyError::InvalidParameters("rkg_round2: rebase failed"));
        },
    };
    let keys = collective_public_key_qp.value();
    let ghost qp = qp_ring@;
    let ghost key = collective_public_key_qp@;
    let ghost h = pairs_view(round1_aggregate@);
    let ghost vv = polys_view(vs@);
    let ghost e2v = polys_view(e2s@);
    let ghost e3v = polys_view(e3s@);
    let ghost want = Seq::new(h.len(), |k: int| rkg_round2_row(qp, key, s_qp@, h[k], vv[k], e2v[k], e3v[k]));
    let mut rows: Vec<(Poly, Poly)> = Vec::with_capacity(round1_aggregate.len());
    let mut k: usize = 0;
    while k < round1_aggregate.len()
        invariant
            qp == qp_ring@,
            qp == extended_ring(q_params@, modulus_values(p_moduli@)),
            p_moduli@.len() > 0,
            row_is_ternary(local_secret_share@[0], q_params@.moduli[0]),
            s_qp@ == rebased(local_secret_share@[0], q_params@.moduli[0], qp.moduli),
            key == collective_public_key_qp@,
            keys@[0]@ == key.0,
            keys@[1]@ == key.1,
            h == pairs_view(round1_aggregate@),
            vv == polys_view(vs@),
            e2v == polys_view(e2s@),
            e3v == polys_view(e3s@),
            vv.len() == h.len(),
            e2v.len() == h.len(),
            e3v.len() == h.len(),
            want == Seq::new(h.len(), |k: int| rkg_round2_row(qp, key, s_qp@, h[k], vv[k], e2v[k], e3v[k])),
            k <= h.len(),
            rows@.len() == k,
            forall|x: int| 0 <= x < k ==> #[trigger] rkg_round2_ok(qp, s_qp@, key, h, vv, e2v, e3v, x),
            forall|x: int| 0 <= x < k ==> #[trigger] pairs_view(rows@)[x] == want[x],
        decreases h.len() - k,
    {
        let pair = &round1_aggregate[k];
        assert(h[k as int] == (pair.0@, pair.1@));
        assert(vs@[k as int]@ == vv[k as int]);
        assert(e2s@[k as int]@ == e2v[k as int]);
        assert(e3s@[k as int]@ == e3v[k as int]);
        let h0p = match fold_in(qp_ring, &s_qp, &pair.0, &keys[0], &vs[k], &e2s[k]) {
            Some(p) => p,
            None => {
                proof {
                    assert(!rkg_round2_ok(qp, s_qp@, key, h, vv, e2v, e3v, k as int));
                    assert forall|x: int|
                        0 <= x < h.len() && (forall|y: int|
                            0 <= y < x ==> #[trigger] rkg_round2_ok(qp, s_qp@, key, h, vv, e2v, e3v, y))
                            && !rkg_round2_ok(qp, s_qp@, key, h, vv, e2v, e3v, x) implies x == k by {
                        if x > k {
                            assert(rkg_round2_ok(qp, s_qp@, key, h, vv, e2v, e3v, k as int));
                        }
                    }
                }
                return Err(MultipartyError::InvalidParameters("rkg_round2: h0' failed"));
            },
        };
        assert(rkg_round2_first_ok(qp, s_qp@, key, h, vv, e2v, k as int));
        let h1p = match fold_in(qp_ring, &s_qp, &pair.1, &keys[1], &vs[k], &e3s[k]) {
            Some(p) => p,
            None => {
                proof {
                    assert(!rkg_round2_ok(qp, s_qp@, key, h, vv, e2v, e3v, k as int));
                    assert forall|x: int|
                        0 <= x < h.len() && (forall|y: int|
                            0 <= y < x ==> #[trigger] rkg_round2_ok(qp, s_qp@, key, h, vv, e2v, e3v, y))
                            && !rkg_round2_ok(qp, s_qp@, key, h, vv, e2v, e3v, x) implies x == k by {
                        if x > k {
                            assert(rkg_round2_ok(qp, s_qp@, key, h, vv, e2v, e3v, k as int));
                        }
                    }
                }
                return Err(MultipartyError::InvalidParameters("rkg_round2: h1' failed"));
            },
        };
        assert(rkg_round2_ok(qp, s_qp@, key, h, vv, e2v, e3v, k as int));
        let ghost old_rows = rows@;
        rows.push((h0p, h1p));
        proof {
            assert forall|x: int| 0 <= x < k + 1 implies #[trigger] rkg_round2_ok(qp, s_qp@, key, h, vv, e2v, e3v, x) by {
                if x < k {
                    assert(rkg_round2_ok(qp, s_qp@, key, h, vv, e2v, e3v, x));
                }
            }
            assert forall|x: int| 0 <= x < k + 1 implies #[trigger] pairs_view(rows@)[x] == want[x] by {
                assert(pairs_view(rows@)[x] == (rows@[x].0@, rows@[x].1@));
                if x < k {
                    assert(rows@[x] == old_rows[x]);
                    assert(pairs_view(old_rows)[x] == (old_rows[x].0@, old_rows[x].1@));
                }
            }
        }
        k = k + 1;
    }
    assert(pairs_view(rows@) =~= want);
    Ok(rows)
}

/// The collective public key over `QP` is an RLWE key of the collective
/// secret: with the common `a`, the contributions `e_i - a*s_i` sum to
/// `e - a*s` for `e = sum_i e_i` and `s = sum_i s_i`, so `b + a*s == e`.
pub proof fn lemma_qp_key_equation(qp: RingView, a: Rows, ss: Seq<Rows>, es: Seq<Rows>)
    requires
        ring_valid(qp),
        ss.len() == es.len(),
        in_qp(qp, a),
        forall|i: int| 0 <= i < ss.len() ==> in_qp(qp, #[trigger] ss[i]),
        forall|i: int| 0 <= i < es.len() ==> in_qp(qp, #[trigger] es[i]),
    ensures
        ({
            let m = qp.moduli;
            let b = poly_sum(Seq::new(ss.len(), |i: int| poly_sub(es[i], poly_mul(a, ss[i], m), m)), qp);
            &&& b == poly_sub(poly_sum(es, qp), poly_mul(a, poly_sum(ss, qp), m), m)
            &&& poly_add(b, poly_mul(a, poly_sum(ss, qp), m), m) == poly_sum(es, qp)
        }),
{
    let m = qp.moduli;
    let n = ss.len();
    let products = Seq::new(n, |i: int| poly_mul(a, ss[i], m));
    assert forall|i: int| 0 <= i < n implies in_qp(qp, #[trigger] products[i]) by {
        lemma_mul_stays_in_ring(qp, a, ss[i]);
    }
    assert(Seq::new(n, |i: int| poly_sub(es[i], poly_mul(a, ss[i], m), m)) =~= Seq::new(
        n,
        |i: int| poly_sub(es[i], products[i], m),
    ));
    lemma_sum_of_differences(qp, es, products);
    lemma_sum_of_products_right(qp, a, ss);
    lemma_sum_in_ring(qp, es);
    lemma_sum_in_ring(qp, ss);
    lemma_mul_stays_in_ring(qp, a, poly_sum(ss, qp));
    lemma_sub_add_cancel(qp, poly_sum(es, qp), poly_mul(a, poly_sum(ss, qp), m));
}

/// The collective hybrid Galois row `j` is the single-party row of the
/// collective secret: with the common `a`, the participants' rows
/// `P * (Q / q_j) * sigma_p + e_p - a*s_p` sum to the row built from
/// `sum_p sigma_p`, `sum_p s_p` and `sum_p e_p`.
pub proof fn lemma_hybrid_galois_rows_combine(
    qp: RingView,
    j: int,
    a: Rows,
    sigmas: Seq<Rows>,
    ss: Seq<Rows>,
    es: Seq<Rows>,
)
    requires
        ring_valid(qp),
        sigmas.len() == ss.len(),
        ss.len() == es.len(),
        in_qp(qp, a),
        forall|i: int| 0 <= i < sigmas.len() ==> in_qp(qp, #[trigger] sigmas[i]),
        forall|i: int| 0 <= i < ss.len() ==> in_qp(qp, #[trigger] ss[i]),
        forall|i: int| 0 <= i < es.len() ==> in_qp(qp, #[trigger] es[i]),
    ensures
        ({
            let m = qp.moduli;
            let sum = poly_sum(Seq::new(ss.len(), |i: int| gkg_row(qp, sigmas[i], ss[i], j, es[i], a)), qp);
            &&& sum == gkg_row(qp, poly_sum(sigmas, qp), poly_sum(ss, qp), j, poly_sum(es, qp), a)
            &&& poly_add(sum, poly_mul(a, poly_sum(ss, qp), m), m) == poly_add(
                poly_scale_rows(poly_sum(sigmas, qp), qp_scale(m, j), m),
                poly_sum(es, qp),
                m,
            )
        }),
{
    let m = qp.moduli;
    let n = ss.len();
    let c = qp_scale(m, j);
    let x = Seq::new(n, |i: int| poly_scale_rows(sigmas[i], c, m));
    let z = Seq::new(n, |i: int| poly_mul(a, ss[i], m));
    let w = Seq::new(n, |i: int| poly_add(x[i], es[i], m));
    assert forall|i: int| 0 <= i < n implies in_qp(qp, #[trigger] x[i]) && in_qp(qp, z[i]) && in_qp(qp, w[i]) by {
        lemma_scale_rows_stay_in_ring(qp, sigmas[i], c);
        lemma_mul_stays_in_ring(qp, a, ss[i]);
        lemma_ring_ops_stay_in_ring(qp, x[i], es[i]);
    }
    assert(Seq::new(n, |i: int| gkg_row(qp, sigmas[i], ss[i], j, es[i], a)) =~= Seq::new(
        n,
        |i: int| poly_sub(w[i], z[i], m),
    ));
    lemma_sum_of_differences(qp, w, z);
    lemma_sum_of_sums(qp, x, es);
    lemma_sum_of_scaled_rows(qp, sigmas, c);
    lemma_sum_of_products_right(qp, a, ss);
    let (sum_g, sum_s, sum_e) = (poly_sum(sigmas, qp), poly_sum(ss, qp), poly_sum(es, qp));
    lemma_sum_in_ring(qp, sigmas);
    lemma_sum_in_ring(qp, ss);
    lemma_sum_in_ring(qp, es);
    lemma_scale_rows_stay_in_ring(qp, sum_g, c);
    lemma_ring_ops_stay_in_ring(qp, poly_scale_rows(sum_g, c, m), sum_e);
    lemma_mul_stays_in_ring(qp, a, sum_s);
    lemma_sub_add_cancel(qp, poly_add(poly_scale_rows(sum_g, c, m), sum_e, m), poly_mul(a, sum_s, m));
}

/// Round 1 of the collective relinearization key is linear in each
/// participant's inputs: the participants' round-1 rows `j` sum to the row
/// built from the sums of their secrets, ternary masks and errors.
pub proof fn lemma_round1_rows_combine(
    qp: RingView,
    key: (Rows, Rows),
    j: int,
    ss: Seq<Rows>,
    us: Seq<Rows>,
    e0s: Seq<Rows>,
    e1s: Seq<Rows>,
)
    requires
        ring_valid(qp),
        us.len() == ss.len(),
        e0s.len() == ss.len(),
        e1s.len() == ss.len(),
        in_qp(qp, key.0),
        in_qp(qp, key.1),
        forall|i: int| 0 <= i < ss.len() ==> in_qp(qp, #[trigger] ss[i]),
        forall|i: int| 0 <= i < us.len() ==> in_qp(qp, #[trigger] us[i]),
        forall|i: int| 0 <= i < e0s.len() ==> in_qp(qp, #[trigger] e0s[i]),
        forall|i: int| 0 <= i < e1s.len() ==> in_qp(qp, #[trigger] e1s[i]),
    ensures
        ({
            let n = ss.len();
            let total = rkg_round1_row(
                qp,
                key,
                poly_sum(ss, qp),
                j,
                poly_sum(us, qp),
                poly_sum(e0s, qp),
                poly_sum(e1s, qp),
            );
            &&& poly_sum(Seq::new(n, |i: int| rkg_round1_row(qp, key, ss[i], j, us[i], e0s[i], e1s[i]).0), qp)
                == total.0
            &&& poly_sum(Seq::new(n, |i: int| rkg_round1_row(qp, key, ss[i], j, us[i], e0s[i], e1s[i]).1), qp)
                == total.1
        }),
{
    let m = qp.moduli;
    let n = ss.len();
    let c = qp_scale(m, j);
    let bu = Seq::new(n, |i: int| poly_mul(key.0, us[i], m));
    let au = Seq::new(n, |i: int| poly_mul(key.1, us[i], m));
    let sc = Seq::new(n, |i: int| poly_scale_rows(ss[i], c, m));
    let first = Seq::new(n, |i: int| poly_add(bu[i], e0s[i], m));
    assert forall|i: int| 0 <= i < n implies in_qp(qp, #[trigger] bu[i]) && in_qp(qp, au[i]) && in_qp(qp, sc[i])
        && in_qp(qp, first[i]) by {
        lemma_mul_stays_in_ring(qp, key.0, us[i]);
        lemma_mul_stays_in_ring(qp, key.1, us[i]);
        lemma_scale_rows_stay_in_ring(qp, ss[i], c);
        lemma_ring_ops_stay_in_ring(qp, bu[i], e0s[i]);
    }
    assert(Seq::new(n, |i: int| rkg_round1_row(qp, key, ss[i], j, us[i], e0s[i], e1s[i]).0) =~= Seq::new(
        n,
        |i: int| poly_add(first[i], sc[i], m),
    ));
    assert(Seq::new(n, |i: int| rkg_round1_row(qp, key, ss[i], j, us[i], e0s[i], e1s[i]).1) =~= Seq::new(
        n,
        |i: int| poly_add(au[i], e1s[i], m),
    ));
    lemma_sum_of_sums(qp, first, sc);
    lemma_sum_of_sums(qp, bu, e0s);
    lemma_sum_of_sums(qp, au, e1s);
    lemma_sum_of_products_right(qp, key.0, us);
    lemma_sum_of_products_right(qp, key.1, us);
    lemma_sum_of_scaled_rows(qp, ss, c);
}

/// Round 2 of the collective relinearization key is linear in each
/// participant's inputs: against the round-1 sums `h`, the participants'
/// round-2 rows sum to the row built from the sums of their secrets,
/// ternary masks and errors.
pub proof fn lemma_round2_rows_combine(
    qp: RingView,
    key: (Rows, Rows),
    h: (Rows, Rows),
    ss: Seq<Rows>,
    vs: Seq<Rows>,
    e2s: Seq<Rows>,
    e3s: Seq<Rows>,
)
    requires
        ring_valid(qp),
        vs.len() == ss.len(),
        e2s.len() == ss.len(),
        e3s.len() == ss.len(),
        in_qp(qp, key.0),
        in_qp(qp, key.1),
        in_qp(qp, h.0),
        in_qp(qp, h.1),
        forall|i: int| 0 <= i < ss.len() ==> in_qp(qp, #[trigger] ss[i]),
        forall|i: int| 0 <= i < vs.len() ==> in_qp(qp, #[trigger] vs[i]),
        forall|i: int| 0 <= i < e2s.len() ==> in_qp(qp, #[trigger] e2s[i]),
        forall|i: int| 0 <= i < e3s.len() ==> in_qp(qp, #[trigger] e3s[i]),
    ensures
        ({
            let n = ss.len();
            let total = rkg_round2_row(
                qp,
                key,
                poly_sum(ss, qp),
                h,
                poly_sum(vs, qp),
                poly_sum(e2s, qp),
                poly_sum(e3s, qp),
            );
            &&& poly_sum(Seq::new(n, |i: int| rkg_round2_row(qp, key, ss[i], h, vs[i], e2s[i], e3s[i]).0), qp)
                == total.0
            &&& poly_sum(Seq::new(n, |i: int| rkg_round2_row(qp, key, ss[i], h, vs[i], e2s[i], e3s[i]).1), qp)
                == total.1
        }),
{
    let m = qp.moduli;
    let n = ss.len();
    let sh0 = Seq::new(n, |i: int| poly_mul(ss[i], h.0, m));
    let sh1 = Seq::new(n, |i: int| poly_mul(ss[i], h.1, m));
    let bv = Seq::new(n, |i: int| poly_mul(key.0, vs[i], m));
    let av = Seq::new(n, |i: int| poly_mul(key.1, vs[i], m));
    let first = Seq::new(n, |i: int| poly_add(sh0[i], bv[i], m));
    let second = Seq::new(n, |i: int| poly_add(sh1[i], av[i], m));
    assert forall|i: int| 0 <= i < n implies in_qp(qp, #[trigger] sh0[i]) && in_qp(qp, sh1[i]) && in_qp(qp, bv[i])
        && in_qp(qp, av[i]) && in_qp(qp, first[i]) && in_qp(qp, second[i]) by {
        lemma_mul_stays_in_ring(qp, ss[i], h.0);
        lemma_mul_stays_in_ring(qp, ss[i], h.1);
        lemma_mul_stays_in_ring(qp, key.0, vs[i]);
        lemma_mul_stays_in_ring(qp, key.1, vs[i]);
        lemma_ring_ops_stay_in_ring(qp, sh0[i], bv[i]);
        lemma_ring_ops_stay_in_ring(qp, sh1[i], av[i]);
    }
    assert(Seq::new(n, |i: int| rkg_round2_row(qp, key, ss[i], h, vs[i], e2s[i], e3s[i]).0) =~= Seq::new(
        n,
        |i: int| poly_add(first[i], e2s[i], m),
    ));
    assert(Seq::new(n, |i: int| rkg_round2_row(qp, key, ss[i], h, vs[i], e2s[i], e3s[i]).1) =~= Seq::new(
        n,
        |i: int| poly_add(second[i], e3s[i], m),
    ));
    lemma_sum_of_sums(qp, first, e2s);
    lemma_sum_of_sums(qp, second, e3s);
    lemma_sum_of_sums(qp, sh0, bv);
    lemma_sum_of_sums(qp, sh1, av);
    lemma_sum_of_products_left(qp, ss, h.0);
    lemma_sum_of_products_left(qp, ss, h.1);
    lemma_sum_of_products_right(qp, key.0, vs);
    lemma_sum_of_products_right(qp, key.1, vs);
}

/// The noise of a collective hybrid relinearization row:
/// `s*(e*u) + e*v + s*e0 + (s*e1)*s + e2 + e3*s`, for the collective
/// secret `s`, the collective key's error `e`, the summed round-1 masks `u`
/// and errors `e0`, `e1`, and the summed round-2 masks `v` and errors `e2`,
/// `e3`.
pub open spec fn hybrid_key_row_noise(
    s: Rows,
    e: Rows,
    u: Rows,
    v: Rows,
    e0: Rows,
    e1: Rows,
    e2: Rows,
    e3: Rows,
    m: Seq<u64>,
) -> Rows {
    poly_add(
        poly_add(
            poly_add(
                poly_add(poly_add(poly_mul(s, poly_mul(e, u, m), m), poly_mul(e, v, m), m), poly_mul(s, e0, m), m),
                poly_mul(poly_mul(s, e1, m), s, m),
                m,
            ),
            e2,
            m,
        ),
        poly_mul(e3, s, m),
        m,
    )
}

/// The collective hybrid relinearization key encrypts `P * (Q / q_j) * s^2`
/// under the collective secret: against the collective key `(e - a*s, a)`
/// over `QP`, the round-2 row built from round-1 row `j` decrypts under `s`
/// to `P * (Q / q_j) * s^2` plus [`hybrid_key_row_noise`].
pub proof fn lemma_hybrid_relinearization_key_row(
    qp: RingView,
    j: int,
    a: Rows,
    s: Rows,
    e: Rows,
    u: Rows,
    v: Rows,
    e0: Rows,
    e1: Rows,
    e2: Rows,
    e3: Rows,
)
    requires
        ring_valid(qp),
        in_qp(qp, a),
        in_qp(qp, s),
        in_qp(qp, e),
        in_qp(qp, u),
        in_qp(qp, v),
        in_qp(qp, e0),
        in_qp(qp, e1),
        in_qp(qp, e2),
        in_qp(qp, e3),
    ensures
        ({
            let m = qp.moduli;
            let key = (poly_sub(e, poly_mul(a, s, m), m), a);
            let h = rkg_round1_row(qp, key, s, j, u, e0, e1);
            let row = rkg_round2_row(qp, key, s, h, v, e2, e3);
            poly_add(row.0, poly_mul(row.1, s, m), m) == poly_add(
                poly_scale_rows(poly_mul(s, s, m), qp_scale(m, j), m),
                hybrid_key_row_noise(s, e, u, v, e0, e1, e2, e3, m),
                m,
            )
        }),
{
    let r = qp;
    let m = qp.moduli;
    let c = qp_scale(m, j);
    let as_ = poly_mul(a, s, m);
    let b = poly_sub(e, as_, m);
    let key = (b, a);
    let cs = poly_scale_rows(s, c, m);
    let bu = poly_mul(b, u, m);
    let au = poly_mul(a, u, m);
    let h0 = poly_add(poly_add(bu, e0, m), cs, m);
    let h1 = poly_add(au, e1, m);
    let h = rkg_round1_row(qp, key, s, j, u, e0, e1);
    assert(h == (h0, h1));
    let bv = poly_mul(b, v, m);
    let av = poly_mul(a, v, m);
    let k0 = poly_add(poly_add(poly_mul(s, h0, m), bv, m), e2, m);
    let k1 = poly_add(poly_add(poly_mul(s, h1, m), av, m), e3, m);
    lemma_scale_rows_stay_in_ring(r, s, c);
    lemma_mul_stays_in_ring(r, a, s);
    lemma_ring_ops_stay_in_ring(r, e, as_);
    lemma_mul_stays_in_ring(r, b, u);
    lemma_mul_stays_in_ring(r, a, u);
    lemma_ring_ops_stay_in_ring(r, bu, e0);
    lemma_ring_ops_stay_in_ring(r, poly_add(bu, e0, m), cs);
    lemma_ring_ops_stay_in_ring(r, au, e1);
    lemma_mul_stays_in_ring(r, b, v);
    lemma_mul_stays_in_ring(r, a, v);
    lemma_mul_stays_in_ring(r, s, h0);
    lemma_mul_stays_in_ring(r, s, h1);
    lemma_ring_ops_stay_in_ring(r, poly_mul(s, h1, m), av);
    let eu = poly_mul(e, u, m);
    let asu = poly_mul(as_, u, m);
    let a1 = poly_mul(s, eu, m);
    let x = poly_mul(s, asu, m);
    let p2 = poly_mul(s, e0, m);
    let p3 = poly_mul(s, cs, m);
    let a2 = poly_mul(e, v, m);
    let y = poly_mul(as_, v, m);
    let q2 = poly_mul(poly_mul(s, e1, m), s, m);
    let q4 = poly_mul(e3, s, m);
    lemma_mul_stays_in_ring(r, e, u);
    lemma_mul_stays_in_ring(r, as_, u);
    lemma_mul_stays_in_ring(r, s, e0);
    lemma_mul_stays_in_ring(r, s, e1);
    lemma_mul_stays_in_ring(r, s, cs);
    lemma_mul_stays_in_ring(r, s, au);
    lemma_mul_distributes_over_sub_left(r, e, as_, u);
    lemma_mul_distributes_over_sub(r, s, eu, asu);
    lemma_mul_distributes_over_add(r, s, poly_add(bu, e0, m), cs);
    lemma_mul_distributes_over_add(r, s, bu, e0);
    lemma_mul_distributes_over_sub_left(r, e, as_, v);
    lemma_mul_distributes_over_add_left(r, poly_add(poly_mul(s, h1, m), av, m), e3, s);
    lemma_mul_distributes_over_add_left(r, poly_mul(s, h1, m), av, s);
    lemma_mul_distributes_over_add(r, s, au, e1);
    lemma_mul_distributes_over_add_left(r, poly_mul(s, au, m), poly_mul(s, e1, m), s);
    lemma_mul_associative(r, s, au, s);
    lemma_mul_associative(r, a, u, s);
    lemma_mul_commutative(r, u, s);
    lemma_mul_associative(r, a, s, u);
    lemma_mul_stays_in_ring(r, u, s);
    assert(poly_mul(poly_mul(s, au, m), s, m) == x);
    lemma_mul_associative(r, a, v, s);
    lemma_mul_commutative(r, v, s);
    lemma_mul_associative(r, a, s, v);
    assert(poly_mul(av, s, m) == y);
    lemma_mul_commutative(r, s, cs);
    lemma_mul_scale_left(r, s, s, 0, c);
    assert(p3 == poly_scale_rows(poly_mul(s, s, m), c, m));
    let row = rkg_round2_row(qp, key, s, h, v, e2, e3);
    assert(row == (k0, k1));
    let lhs = poly_add(k0, poly_mul(k1, s, m), m);
    let rhs = poly_add(p3, hybrid_key_row_noise(s, e, u, v, e0, e1, e2, e3, m), m);
    assert forall|jj: int| 0 <= jj < m.len() implies #[trigger] lhs[jj] =~= rhs[jj] by {
        let q = m[jj] as int;
        assert forall|i: int| 0 <= i < qp.degree implies #[trigger] lhs[jj][i] == rhs[jj][i] by {
            lemma_key_row_residues(
                a1[jj][i] as int,
                x[jj][i] as int,
                p2[jj][i] as int,
                p3[jj][i] as int,
                a2[jj][i] as int,
                y[jj][i] as int,
                e2[jj][i] as int,
                q2[jj][i] as int,
                q4[jj][i] as int,
                q,
            );
        }
    }
    assert(lhs =~= rhs);
}

} // verus!
