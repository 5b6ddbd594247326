//! Collective public-key generation.
//!
//! Every participant `i` holds an additive share `s_i` of the collective
//! secret `s = sum_i s_i`. All derive the same common element `a` from the
//! session; participant `i` publishes `b_i = t*e_i - a*s_i`, and the
//! collective public key is `(sum_i b_i, a)`.

use vstd::prelude::*;

use crate::lattice::rlwe::keys::{PublicKey, SecretKey};
use crate::multiparty::common::participant::ParticipantId;
use crate::multiparty::common::randomness::{common_element, derive_common_ring_element, lemma_common_element_in_ring};
use crate::multiparty::common::replay_guard::{view_replay_key, ReplayGuard};
use crate::multiparty::common::session::{SessionState, SessionView};
use crate::multiparty::common::shares::{share_for, Share, ShareAggregator, ShareKind, ShareView};
use crate::multiparty::error::MultipartyError;
use crate::multiparty::mpbgv::accumulate::{polys_carried, share_polys, sum_share_polys};
use crate::multiparty::mpbgv::wire::{lemma_poly_bytes_round_trip, payload_poly, poly_payload_ok};
use crate::multiparty::mpbgv::params::BgvParams;
use crate::ring::encoding::{encode_poly, poly_bytes};
use crate::ring::algebra::{
    lemma_sub_add_cancel, lemma_sum_in_ring, lemma_sum_of_differences, lemma_sum_of_products_right,
    lemma_sum_of_scaled,
};
use crate::ring::poly::{
    lemma_mul_stays_in_ring, lemma_ring_ops_stay_in_ring, lemma_unary_ops_stay_in_ring, poly_add, poly_in_ring,
    poly_mul, poly_scale, poly_sub, poly_sum, ring_valid, Poly, RingView, Rows,
};

verus! {

/// The purpose under which the common element `a` is derived.
pub const CKG_COMMON_A_PURPOSE: &'static str = "phantom-fhe/mpbgv/ckg/a/v1";

/// The common element `a` of a session: every participant derives the same.
pub open spec fn ckg_common_a(r: RingView, session: SessionView) -> Rows {
    common_element(r, session.id, vstd::string::StringSliceAdditionalSpecFns::spec_bytes(CKG_COMMON_A_PURPOSE))
}

/// Participant `i`'s contribution `t*e_i - a*s_i`.
pub open spec fn ckg_contribution(e: Rows, s: Rows, a: Rows, t: u64, moduli: Seq<u64>) -> Rows {
    poly_sub(poly_scale(e, t, moduli), poly_mul(a, s, moduli), moduli)
}

/// The collective public key is an RLWE key of the collective secret: when
/// every participant uses the same common `a`, the contributions
/// `t*e_i - a*s_i` sum to `t*e - a*s` for the collective error
/// `e = sum_i e_i` and secret `s = sum_i s_i`, so that `b + a*s == t*e`.
pub proof fn lemma_collective_key_equation(r: RingView, t: u64, a: Rows, es: Seq<Rows>, ss: Seq<Rows>)
    requires
        ring_valid(r),
        es.len() == ss.len(),
        poly_in_ring(r.degree, r.moduli, a),
        forall|i: int| 0 <= i < es.len() ==> poly_in_ring(r.degree, r.moduli, #[trigger] es[i]),
        forall|i: int| 0 <= i < ss.len() ==> poly_in_ring(r.degree, r.moduli, #[trigger] ss[i]),
    ensures
        ({
            let m = r.moduli;
            let b = poly_sum(Seq::new(es.len(), |i: int| ckg_contribution(es[i], ss[i], a, t, m)), r);
            &&& b == ckg_contribution(poly_sum(es, r), poly_sum(ss, r), a, t, m)
            &&& poly_add(b, poly_mul(a, poly_sum(ss, r), m), m) == poly_scale(poly_sum(es, r), t, m)
        }),
{
    let m = r.moduli;
    let n = es.len();
    let scaled = Seq::new(n, |i: int| poly_scale(es[i], t, m));
    let products = Seq::new(n, |i: int| poly_mul(a, ss[i], m));
    assert forall|i: int| 0 <= i < n implies poly_in_ring(r.degree, m, #[trigger] scaled[i]) && poly_in_ring(
        r.degree,
        m,
        products[i],
    ) by {
        lemma_unary_ops_stay_in_ring(r, es[i], t);
        lemma_mul_stays_in_ring(r, a, ss[i]);
    }
    lemma_sum_of_differences(r, scaled, products);
    assert(Seq::new(n, |i: int| ckg_contribution(es[i], ss[i], a, t, m)) =~= Seq::new(
        n,
        |i: int| poly_sub(scaled[i], products[i], m),
    ));
    lemma_sum_of_scaled(r, es, t);
    lemma_sum_of_products_right(r, a, ss);
    lemma_sum_in_ring(r, es);
    lemma_sum_in_ring(r, ss);
    lemma_unary_ops_stay_in_ring(r, poly_sum(es, r), t);
    lemma_mul_stays_in_ring(r, a, poly_sum(ss, r));
    lemma_sub_add_cancel(r, poly_scale(poly_sum(es, r), t, m), poly_mul(a, poly_sum(ss, r), m));
}

/// Aggregating honest shares gives a key of the collective secret: when
/// share `i` carries `t*e_i - a*s_i` for the session's common `a`, every
/// share carries a ring element, and their sum `b` satisfies
/// `b + a*s == t*e` for `s = sum_i s_i` and `e = sum_i e_i`.
pub proof fn lemma_collective_key_from_shares(
    r: RingView,
    t: u64,
    session: SessionView,
    shares: Seq<ShareView>,
    es: Seq<Rows>,
    ss: Seq<Rows>,
)
    requires
        ring_valid(r),
        r.moduli.len() <= u64::MAX,
        r.degree <= u64::MAX,
        shares.len() == es.len(),
        es.len() == ss.len(),
        forall|i: int| 0 <= i < es.len() ==> poly_in_ring(r.degree, r.moduli, #[trigger] es[i]),
        forall|i: int| 0 <= i < ss.len() ==> poly_in_ring(r.degree, r.moduli, #[trigger] ss[i]),
        forall|i: int|
            0 <= i < shares.len() ==> (#[trigger] shares[i]).payload == poly_bytes(
                ckg_contribution(es[i], ss[i], ckg_common_a(r, session), t, r.moduli),
            ),
    ensures
        polys_carried(r, shares),
        poly_add(
            poly_sum(share_polys(r, shares), r),
            poly_mul(ckg_common_a(r, session), poly_sum(ss, r), r.moduli),
            r.moduli,
        ) == poly_scale(poly_sum(es, r), t, r.moduli),
{
    let m = r.moduli;
    let a = ckg_common_a(r, session);
    let purpose = vstd::string::StringSliceAdditionalSpecFns::spec_bytes(CKG_COMMON_A_PURPOSE);
    lemma_common_element_in_ring(r, session.id, purpose);
    let cs = Seq::new(es.len(), |i: int| ckg_contribution(es[i], ss[i], a, t, m));
    assert forall|i: int| 0 <= i < shares.len() implies poly_payload_ok(r, #[trigger] shares[i].payload)
        && payload_poly(r, shares[i].payload) == cs[i] by {
        lemma_unary_ops_stay_in_ring(r, es[i], t);
        lemma_mul_stays_in_ring(r, a, ss[i]);
        lemma_ring_ops_stay_in_ring(r, poly_scale(es[i], t, m), poly_mul(a, ss[i], m));
        lemma_poly_bytes_round_trip(r, cs[i]);
    }
    assert(share_polys(r, shares) =~= cs);
    lemma_collective_key_equation(r, t, a, es, ss);
}

/// Collective key generation in one session.
#[derive(Debug)]
pub struct CollectiveKeyGen {
    params: BgvParams,
    session: SessionState,
}

impl View for CollectiveKeyGen {
    type V = ((RingView, u64), SessionView);

    closed spec fn view(&self) -> ((RingView, u64), SessionView) {
        (self.params@, self.session@)
    }
}

impl CollectiveKeyGen {
    /// Creates the protocol for `session`.
    pub fn new(params: BgvParams, session: SessionState) -> (r: Self)
        ensures
            r@ == (params@, session@),
    {
        CollectiveKeyGen { params, session }
    }

    /// Returns the session.
    pub fn session(&self) -> (r: &SessionState)
        ensures
            r@ == self@.1,
    {
        &self.session
    }

    /// Creates participant `participant`'s share `b_i = t*e_i - a*s_i`,
    /// with `e_i` its sampled error. The replay guard refuses a second share
    /// for the same session round and participant before anything else.
    pub fn create_share(
        &self,
        participant: ParticipantId,
        local_secret_share: &SecretKey,
        replay_guard: &mut ReplayGuard,
        e_i: &Poly,
    ) -> (r: Result<Share, MultipartyError>)
        ensures
            ({
                let ring = self@.0.0;
                let t = self@.0.1;
                let session = self@.1;
                let key = view_replay_key(session, participant@);
                let fresh = !old(replay_guard)@.contains(key);
                &&& !fresh ==> r == Err::<Share, _>(MultipartyError::ReplayedShare) && final(replay_guard)@
                    == old(replay_guard)@
                &&& fresh ==> final(replay_guard)@ == old(replay_guard)@.insert(key)
                &&& fresh && !poly_in_ring(ring.degree, ring.moduli, e_i@) ==> r == Err::<Share, _>(
                    MultipartyError::InvalidParameters("create_share: t*e_i failed"),
                )
                &&& fresh && poly_in_ring(ring.degree, ring.moduli, e_i@) && !poly_in_ring(
                    ring.degree,
                    ring.moduli,
                    local_secret_share@,
                ) ==> r == Err::<Share, _>(MultipartyError::InvalidParameters("create_share: a*s_i failed"))
                &&& fresh && poly_in_ring(ring.degree, ring.moduli, e_i@) && poly_in_ring(
                    ring.degree,
                    ring.moduli,
                    local_secret_share@,
                ) ==> (!session.participants.contains(participant@) ==> r == Err::<Share, _>(
                    MultipartyError::UnknownParticipant,
                )) && (session.participants.contains(participant@) ==> (r matches Ok(share) && share@
                    == share_for(
                    session,
                    participant@,
                    ShareKind::CollectiveKeyGen,
                    poly_bytes(ckg_contribution(e_i@, local_secret_share@, ckg_common_a(ring, session), t, ring.moduli)),
                )))
            }),
    {
        replay_guard.record_use(&self.session, participant)?;
        let ring = self.params.ring();
        let t = self.params.plaintext_modulus();
        let a = derive_common_ring_element(ring, &self.session, CKG_COMMON_A_PURPOSE.as_bytes());
        let t_e_i = match ring.scalar_mul(e_i, t) {
            Ok(p) => p,
            Err(_) => {
                return Err(MultipartyError::InvalidParameters("create_share: t*e_i failed"));
            },
        };
        let a_s_i = match ring.mul(&a, local_secret_share.value()) {
            Ok(p) => p,
            Err(_) => {
                return Err(MultipartyError::InvalidParameters("create_share: a*s_i failed"));
            },
        };
        let b_i = match ring.sub(&t_e_i, &a_s_i) {
            Ok(p) => p,
            Err(_) => {
                return Err(MultipartyError::InvalidParameters("create_share: t*e_i - a*s_i failed"));
            },
        };
        let ghost av = a@;
        assert(b_i@ == ckg_contribution(e_i@, local_secret_share@, av, t, ring@.moduli));
        Share::new(&self.session, participant, ShareKind::CollectiveKeyGen, encode_poly(&b_i))
    }

    /// Aggregates every collected share into the collective public key
    /// `(sum_i b_i, a)`.
    pub fn aggregate_public_key(&self, aggregator: &ShareAggregator) -> (r: Result<PublicKey, MultipartyError>)
        ensures
            ({
                let ring = self@.0.0;
                let shares = aggregator.shares_view();
                &&& shares.len() < aggregator.session_view().threshold ==> r == Err::<PublicKey, _>(
                    MultipartyError::ThresholdNotMet,
                )
                &&& shares.len() >= aggregator.session_view().threshold && !polys_carried(ring, shares)
                    ==> r == Err::<PublicKey, _>(MultipartyError::MalformedMessage)
                &&& shares.len() >= aggregator.session_view().threshold && polys_carried(ring, shares)
                    ==> (r matches Ok(pk) && pk@.0 == poly_sum(share_polys(ring, shares), ring) && pk@.1
                    == ckg_common_a(ring, self@.1))
            }),
    {
        let ring = self.params.ring();
        let shares = aggregator.all_shares()?;
        let b_sum = sum_share_polys(ring, shares.as_slice())?;
        let a = derive_common_ring_element(ring, &self.session, CKG_COMMON_A_PURPOSE.as_bytes());
        Ok(PublicKey::new(b_sum, a))
    }
}

} // verus!
