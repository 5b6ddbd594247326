//! Collective public-key generation for CKKS, at the full level.
//!
//! Participant `i` publishes `b_i = e_i - a*s_i` for the session's common
//! element `a`; the collective public key is `(sum_i b_i, a)`, with no
//! plaintext-modulus scaling of the error.

use vstd::prelude::*;

use crate::lattice::rlwe::keys::{PublicKey, SecretKey};
use crate::multiparty::common::participant::ParticipantId;
use crate::multiparty::common::randomness::{common_element, derive_common_ring_element};
use crate::multiparty::common::replay_guard::{view_replay_key, ReplayGuard};
use crate::multiparty::common::session::{SessionState, SessionView};
use crate::multiparty::common::shares::{share_for, Share, ShareAggregator, ShareKind};
use crate::multiparty::error::MultipartyError;
use crate::multiparty::mpbgv::accumulate::{polys_carried, share_polys, sum_share_polys};
use crate::multiparty::mpbgv::ckg::{ckg_contribution, lemma_collective_key_equation};
use crate::multiparty::mpckks::params::CkksParams;
use crate::ring::algebra::{lemma_scale_by_one, lemma_sum_in_ring};
use crate::ring::encoding::{encode_poly, poly_bytes};
use crate::ring::poly::{poly_add, poly_in_ring, poly_mul, poly_sub, poly_sum, ring_valid, Poly, RingView, Rows};

verus! {

/// The purpose under which the common element `a` is derived.
pub const CKKS_CKG_COMMON_A_PURPOSE: &'static str = "phantom-fhe/mpckks/ckg/a/v1";

/// The common element `a` of a session: every participant derives the same.
pub open spec fn ckks_ckg_common_a(r: RingView, session: SessionView) -> Rows {
    common_element(r, session.id, vstd::string::StringSliceAdditionalSpecFns::spec_bytes(CKKS_CKG_COMMON_A_PURPOSE))
}

/// Participant `i`'s contribution `e_i - a*s_i`.
pub open spec fn ckks_ckg_contribution(e: Rows, s: Rows, a: Rows, moduli: Seq<u64>) -> Rows {
    poly_sub(e, poly_mul(a, s, moduli), moduli)
}

/// The collective CKKS public key is an RLWE key of the collective secret:
/// the contributions `e_i - a*s_i` sum to `b` with `b + a*s == e` for
/// `s = sum_i s_i` and `e = sum_i e_i`.
pub proof fn lemma_ckks_collective_key_equation(r: RingView, a: Rows, es: Seq<Rows>, ss: Seq<Rows>)
    requires
        ring_valid(r),
        es.len() == ss.len(),
        poly_in_ring(r.degree, r.moduli, a),
        forall|i: int| 0 <= i < es.len() ==> poly_in_ring(r.degree, r.moduli, #[trigger] es[i]),
        forall|i: int| 0 <= i < ss.len() ==> poly_in_ring(r.degree, r.moduli, #[trigger] ss[i]),
    ensures
        ({
            let m = r.moduli;
            let b = poly_sum(Seq::new(es.len(), |i: int| ckks_ckg_contribution(es[i], ss[i], a, m)), r);
            poly_add(b, poly_mul(a, poly_sum(ss, r), m), m) == poly_sum(es, r)
        }),
{
    let m = r.moduli;
    let n = es.len();
    let plain = Seq::new(n, |i: int| ckks_ckg_contribution(es[i], ss[i], a, m));
    let scaled = Seq::new(n, |i: int| ckg_contribution(es[i], ss[i], a, 1, m));
    assert forall|i: int| 0 <= i < n implies #[trigger] plain[i] == scaled[i] by {
        lemma_scale_by_one(r, es[i]);
    }
    assert(plain =~= scaled);
    lemma_collective_key_equation(r, 1, a, es, ss);
    lemma_sum_in_ring(r, es);
    lemma_scale_by_one(r, poly_sum(es, r));
}

/// Collective CKKS key generation in one session.
#[derive(Debug)]
pub struct CollectiveKeyGen {
    params: CkksParams,
    session: SessionState,
}

impl View for CollectiveKeyGen {
    type V = (RingView, SessionView);

    closed spec fn view(&self) -> (RingView, SessionView) {
        (self.params@, self.session@)
    }
}

impl CollectiveKeyGen {
    /// Creates the protocol for `session`.
    pub fn new(params: CkksParams, session: SessionState) -> (r: Self)
        ensures
            r@ == (params@, session@),
    {
        CollectiveKeyGen { params, session }
    }

    /// Returns the session.
    pub fn session(&self) -> (r: &SessionState)
        ensures
            r@ == self@.1,
    {
        &self.session
    }

    /// Creates participant `participant`'s share `b_i = e_i - a*s_i`, with
    /// `e_i` its sampled error. The replay guard refuses a second share for
    /// the same session round and participant before anything else.
    pub fn create_share(
        &self,
        participant: ParticipantId,
        local_secret_share: &SecretKey,
        replay_guard: &mut ReplayGuard,
        e_i: &Poly,
    ) -> (r: Result<Share, MultipartyError>)
        ensures
            ({
                let ring = self@.0;
                let session = self@.1;
                let ok = |p: Rows| poly_in_ring(ring.degree, ring.moduli, p);
                let key = view_replay_key(session, participant@);
                let fresh = !old(replay_guard)@.contains(key);
                &&& !fresh ==> r == Err::<Share, _>(MultipartyError::ReplayedShare) && final(replay_guard)@
                    == old(replay_guard)@
                &&& fresh ==> final(replay_guard)@ == old(replay_guard)@.insert(key)
                &&& fresh && !ok(local_secret_share@) ==> r == Err::<Share, _>(
                    MultipartyError::InvalidParameters("create_share: a*s_i failed"),
                )
                &&& fresh && ok(local_secret_share@) && !ok(e_i@) ==> r == Err::<Share, _>(
                    MultipartyError::InvalidParameters("create_share: e_i - a*s_i failed"),
                )
                &&& fresh && ok(local_secret_share@) && ok(e_i@) ==> (!session.participants.contains(
                    participant@,
                ) ==> r == Err::<Share, _>(MultipartyError::UnknownParticipant)) && (
                session.participants.contains(participant@) ==> (r matches Ok(share) && share@ == share_for(
                    session,
                    participant@,
                    ShareKind::CollectiveKeyGen,
                    poly_bytes(
                        ckks_ckg_contribution(e_i@, local_secret_share@, ckks_ckg_common_a(ring, session), ring.moduli),
                    ),
                )))
            }),
    {
        replay_guard.record_use(&self.session, participant)?;
        let ring = self.params.ring();
        let a = derive_common_ring_element(ring, &self.session, CKKS_CKG_COMMON_A_PURPOSE.as_bytes());
        let a_s_i = match ring.mul(&a, local_secret_share.value()) {
            Ok(p) => p,
            Err(_) => {
                return Err(MultipartyError::InvalidParameters("create_share: a*s_i failed"));
            },
        };
        let b_i = match ring.sub(e_i, &a_s_i) {
            Ok(p) => p,
            Err(_) => {
                return Err(MultipartyError::InvalidParameters("create_share: e_i - a*s_i failed"));
            },
        };
        Share::new(&self.session, participant, ShareKind::CollectiveKeyGen, encode_poly(&b_i))
    }

    /// Aggregates every collected share into the collective public key
    /// `(sum_i b_i, a)`.
    pub fn aggregate_public_key(&self, aggregator: &ShareAggregator) -> (r: Result<PublicKey, MultipartyError>)
        ensures
            ({
                let ring = self@.0;
                let shares = aggregator.shares_view();
                &&& shares.len() < aggregator.session_view().threshold ==> r == Err::<PublicKey, _>(
                    MultipartyError::ThresholdNotMet,
                )
                &&& shares.len() >= aggregator.session_view().threshold && !polys_carried(ring, shares)
                    ==> r == Err::<PublicKey, _>(MultipartyError::MalformedMessage)
                &&& shares.len() >= aggregator.session_view().threshold && polys_carried(ring, shares)
                    ==> (r matches Ok(pk) && pk@.0 == poly_sum(share_polys(ring, shares), ring) && pk@.1
                    == ckks_ckg_common_a(ring, self@.1))
            }),
    {
        let ring = self.params.ring();
        let shares = aggregator.all_shares()?;
        let b_sum = sum_share_polys(ring, shares.as_slice())?;
        let a = derive_common_ring_element(ring, &self.session, CKKS_CKG_COMMON_A_PURPOSE.as_bytes());
        Ok(PublicKey::new(b_sum, a))
    }
}

} // verus!
