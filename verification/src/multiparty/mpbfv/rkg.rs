//! Collective relinearization-key generation for BFV: the hybrid rows over
//! `QP` of the ring-generic construction, in a collective public key over
//! `QP` and two rounds.

use vstd::prelude::*;

use crate::lattice::rlwe::ciphertext::polys_view;
use crate::lattice::rlwe::evaluation_key::RelinearizationKey;
use crate::lattice::rlwe::keys::{PublicKey, SecretKey};
use crate::lattice::rlwe::keyswitch::{extended_ring, rebased, row_is_ternary, KeySwitchKey};
use crate::lattice::rlwe::params::RlweParams;
use crate::multiparty::common::hybrid::{
    in_qp, qp_ckg_contribution, qp_common_a, qp_params, rkg_round1_first_ok, rkg_round1_ok, rkg_round1_row,
    rkg_round1_row_contributions, rkg_round2_first_ok, rkg_round2_ok, rkg_round2_row,
    rkg_round2_row_contributions, QP_CKG_A_PURPOSE,
};
use crate::multiparty::common::participant::ParticipantId;
use crate::multiparty::common::randomness::derive_common_ring_element;
use crate::multiparty::common::replay_guard::{view_replay_key, ReplayGuard};
use crate::multiparty::common::session::{SessionState, SessionView};
use crate::multiparty::common::shares::{share_for, Share, ShareAggregator, ShareKind};
use crate::multiparty::error::MultipartyError;
use crate::multiparty::mpbfv::params::BfvParams;
use crate::multiparty::mpbgv::accumulate::{
    polys_carried, rows_agree, share_polys, sum_share_polys, sum_share_rows, summed_rows,
};
use crate::multiparty::mpbgv::gkg::{pair_ciphertexts, rows_to_ciphertexts};
use crate::multiparty::mpbgv::rkg::next_round;
use crate::multiparty::mpbgv::wire::{encode_poly_rows, pairs_view, rows_bytes};
use crate::ring::encoding::{encode_poly, poly_bytes};
use crate::ring::poly::{modulus_values, poly_mul, poly_sub, poly_sum, Modulus, Poly, RingView};

verus! {

/// Collective relinearization-key generation in one session.
#[derive(Debug)]
pub struct RelinearizationKeyGen {
    params: BfvParams,
    session: SessionState,
    p_moduli: Vec<Modulus>,
}

impl View for RelinearizationKeyGen {
    type V = ((RingView, u64), SessionView, Seq<u64>);

    closed spec fn view(&self) -> ((RingView, u64), SessionView, Seq<u64>) {
        (self.params@, self.session@, modulus_values(self.p_moduli@))
    }
}

impl RelinearizationKeyGen {
    /// Creates the protocol with the auxiliary moduli `p_moduli` that every
    /// participant agreed on.
    pub fn new(params: BfvParams, session: SessionState, p_moduli: Vec<Modulus>) -> (r: Self)
        ensures
            r@ == (params@, session@, modulus_values(p_moduli@)),
    {
        RelinearizationKeyGen { params, session, p_moduli }
    }

    /// The session of round 1: the next round of the protocol's session.
    pub fn round1_session(&self) -> (r: SessionState)
        ensures
            r@ == next_round(self@.1),
    {
        let mut session = self.session.clone();
        session.advance_round();
        session
    }

    /// The session of round 2: the round after round 1.
    pub fn round2_session(&self) -> (r: SessionState)
        ensures
            r@ == next_round(next_round(self@.1)),
    {
        let mut session = self.round1_session();
        session.advance_round();
        session
    }

    /// Creates participant `participant`'s contribution to the collective
    /// public key over `QP` from its error `e_i` over `QP`. The replay guard
    /// refuses a second share for the same session round and participant
    /// first.
    pub fn create_qp_ckg_share(
        &self,
        participant: ParticipantId,
        local_secret_share: &SecretKey,
        replay_guard: &mut ReplayGuard,
        e_i: &Poly,
    ) -> (r: Result<Share, MultipartyError>)
        ensures
            ({
                let session = self@.1;
                let q = self@.0.0;
                let qp = extended_ring(q, self@.2);
                let s = local_secret_share@;
                let s_qp = rebased(s[0], q.moduli[0], qp.moduli);
                let key = view_replay_key(session, participant@);
                let fresh = !old(replay_guard)@.contains(key);
                let has_p = self@.2.len() > 0;
                let ternary = row_is_ternary(s[0], q.moduli[0]);
                &&& !fresh ==> r == Err::<Share, _>(MultipartyError::ReplayedShare) && final(replay_guard)@
                    == old(replay_guard)@
                &&& fresh ==> final(replay_guard)@ == old(replay_guard)@.insert(key)
                &&& fresh && !has_p ==> r == Err::<Share, _>(
                    MultipartyError::InvalidParameters("qp_params: p_moduli must be non-empty"),
                )
                &&& fresh && has_p && !ternary ==> r == Err::<Share, _>(
                    MultipartyError::InvalidParameters("qp_ckg_contribution: rebase failed"),
                )
                &&& fresh && has_p && ternary && !in_qp(qp, s_qp) ==> r == Err::<Share, _>(
                    MultipartyError::InvalidParameters("qp_ckg_contribution: a*s_i failed"),
                )
                &&& fresh && has_p && ternary && in_qp(qp, s_qp) && !in_qp(qp, e_i@) ==> r == Err::<Share, _>(
                    MultipartyError::InvalidParameters("qp_ckg_contribution: e_i - a*s_i failed"),
                )
                &&& fresh && has_p && ternary && in_qp(qp, s_qp) && in_qp(qp, e_i@) ==> (
                !session.participants.contains(participant@) ==> r == Err::<Share, _>(
                    MultipartyError::UnknownParticipant,
                )) && (session.participants.contains(participant@) ==> (r matches Ok(share) && share@
                    == share_for(
                    session,
                    participant@,
                    ShareKind::RelinearizationKeyGen,
                    poly_bytes(poly_sub(e_i@, poly_mul(qp_common_a(qp, session), s_qp, qp.moduli), qp.moduli)),
                )))
            }),
    {
        replay_guard.record_use(&self.session, participant)?;
        let q_params = RlweParams::new(self.params.ring().clone());
        let b_i = qp_ckg_contribution(&q_params, self.p_moduli.as_slice(), &self.session, local_secret_share, e_i)?;
        Share::new(&self.session, participant, ShareKind::RelinearizationKeyGen, encode_poly(&b_i))
    }

    /// Aggregates every collected contribution into the collective public
    /// key over `QP`, `(sum_i b_i, a)`.
    pub fn aggregate_qp_public_key(&self, aggregator: &ShareAggregator) -> (r: Result<PublicKey, MultipartyError>)
        ensures
            ({
                let qp = extended_ring(self@.0.0, self@.2);
                let shares = aggregator.shares_view();
                let ready = shares.len() >= aggregator.session_view().threshold;
                let has_p = self@.2.len() > 0;
                &&& !has_p ==> r == Err::<PublicKey, _>(
                    MultipartyError::InvalidParameters("qp_params: p_moduli must be non-empty"),
                )
                &&& has_p && !ready ==> r == Err::<PublicKey, _>(MultipartyError::ThresholdNotMet)
                &&& has_p && ready && !polys_carried(qp, shares) ==> r == Err::<PublicKey, _>(
                    MultipartyError::MalformedMessage,
                )
                &&& has_p && ready && polys_carried(qp, shares) ==> (r matches Ok(pk) && pk@.0 == poly_sum(
                    share_polys(qp, shares),
                    qp,
                ) && pk@.1 == qp_common_a(qp, self@.1))
            }),
    {
        let q_params = RlweParams::new(self.params.ring().clone());
        let qp = qp_params(&q_params, self.p_moduli.as_slice())?;
        let shares = aggregator.all_shares()?;
        let b_sum = sum_share_polys(qp.ring(), shares.as_slice())?;
        let a = derive_common_ring_element(qp.ring(), &self.session, QP_CKG_A_PURPOSE.as_bytes());
        Ok(PublicKey::new(b_sum, a))
    }

    /// Creates participant `participant`'s round-1 share: row `j` from the
    /// ternary `us[j]` and the errors `e0s[j]`, `e1s[j]` against the
    /// collective public key over `QP`. The replay guard refuses a second
    /// share for round 1 and this participant first; then the first failing
    /// step names the failure.
    pub fn create_share_round1(
        &self,
        participant: ParticipantId,
        local_secret_share: &SecretKey,
        collective_public_key_qp: &PublicKey,
        replay_guard: &mut ReplayGuard,
        us: &[Poly],
        e0s: &[Poly],
        e1s: &[Poly],
    ) -> (r: Result<Share, MultipartyError>)
        requires
            us@.len() == self@.0.0.moduli.len(),
            e0s@.len() == us@.len(),
            e1s@.len() == us@.len(),
        ensures
            ({
                let session = next_round(self@.1);
                let q = self@.0.0;
                let qp = extended_ring(q, self@.2);
                let s = local_secret_share@;
                let q0 = q.moduli[0];
                let s_qp = rebased(s[0], q0, qp.moduli);
                let key = collective_public_key_qp@;
                let (uv, e0v, e1v) = (polys_view(us@), polys_view(e0s@), polys_view(e1s@));
                let rk = view_replay_key(session, participant@);
                let fresh = !old(replay_guard)@.contains(rk);
                let has_p = self@.2.len() > 0;
                let ready = has_p && row_is_ternary(s[0], q0) && in_qp(qp, s_qp);
                &&& !fresh ==> r == Err::<Share, _>(MultipartyError::ReplayedShare) && final(replay_guard)@
                    == old(replay_guard)@
                &&& fresh ==> final(replay_guard)@ == old(replay_guard)@.insert(rk)
                &&& fresh && !has_p ==> r == Err::<Share, _>(
                    MultipartyError::InvalidParameters("qp_params: p_moduli must be non-empty"),
                )
                &&& fresh && has_p && !row_is_ternary(s[0], q0) ==> r == Err::<Share, _>(
                    MultipartyError::InvalidParameters("rkg_round1: rebase failed"),
                )
                &&& fresh && has_p && row_is_ternary(s[0], q0) && !in_qp(qp, s_qp) ==> r == Err::<Share, _>(
                    MultipartyError::InvalidParameters("scale_poly_per_component: failed"),
                )
                &&& fresh && ready ==> forall|j: int|
                    0 <= j < uv.len() && (forall|x: int|
                        0 <= x < j ==> #[trigger] rkg_round1_ok(qp, key, uv, e0v, e1v, x)) && !rkg_round1_ok(
                        qp,
                        key,
                        uv,
                        e0v,
                        e1v,
                        j,
                    ) ==> r == Err::<Share, _>(
                        MultipartyError::InvalidParameters(
                            if !rkg_round1_first_ok(qp, key, uv, e0v, j) {
                                "rkg_round1: h0 failed"
                            } else {
                                "rkg_round1: h1 failed"
                            },
                        ),
                    )
                &&& fresh && ready && (forall|j: int|
                    0 <= j < uv.len() ==> #[trigger] rkg_round1_ok(qp, key, uv, e0v, e1v, j)) ==> (
                !session.participants.contains(participant@) ==> r == Err::<Share, _>(
                    MultipartyError::UnknownParticipant,
                )) && (session.participants.contains(participant@) ==> (r matches Ok(share) && share@
                    == share_for(
                    session,
                    participant@,
                    ShareKind::RelinearizationKeyGen,
                    rows_bytes(Seq::new(uv.len(), |j: int| rkg_round1_row(qp, key, s_qp, j, uv[j], e0v[j], e1v[j]))),
                )))
            }),
    {
        let round1 = self.round1_session();
        replay_guard.record_use(&round1, participant)?;
        let q_params = RlweParams::new(self.params.ring().clone());
        let rows = rkg_round1_row_contributions(
            &q_params,
            self.p_moduli.as_slice(),
            collective_public_key_qp,
            local_secret_share,
            us,
            e0s,
            e1s,
        )?;
        Share::new(&round1, participant, ShareKind::RelinearizationKeyGen, encode_poly_rows(rows.as_slice()))
    }

    /// Sums the round-1 shares row by row, both components.
    pub fn aggregate_round1(&self, aggregator: &ShareAggregator) -> (r: Result<Vec<(Poly, Poly)>, MultipartyError>)
        ensures
            ({
                let qp = extended_ring(self@.0.0, self@.2);
                let shares = aggregator.shares_view();
                let ready = shares.len() >= aggregator.session_view().threshold;
                let has_p = self@.2.len() > 0;
                &&& !has_p ==> r == Err::<Vec<(Poly, Poly)>, _>(
                    MultipartyError::InvalidParameters("qp_params: p_moduli must be non-empty"),
                )
                &&& has_p && !ready ==> r == Err::<Vec<(Poly, Poly)>, _>(MultipartyError::ThresholdNotMet)
                &&& has_p && ready && !rows_agree(qp, shares, false) ==> r == Err::<Vec<(Poly, Poly)>, _>(
                    MultipartyError::MalformedMessage,
                )
                &&& has_p && ready && rows_agree(qp, shares, false) && shares.len() == 0 ==> r == Err::<
                    Vec<(Poly, Poly)>,
                    _,
                >(MultipartyError::MissingShare)
                &&& has_p && ready && rows_agree(qp, shares, false) && shares.len() > 0 ==> (r matches Ok(rows)
                    && pairs_view(rows@) == summed_rows(qp, shares, false))
            }),
    {
        let q_params = RlweParams::new(self.params.ring().clone());
        let qp = qp_params(&q_params, self.p_moduli.as_slice())?;
        let shares = aggregator.all_shares()?;
        sum_share_rows(qp.ring(), shares.as_slice(), false)
    }

    /// Creates participant `participant`'s round-2 share from the round-1
    /// sums, the ternary `vs[k]` and the errors `e2s[k]`, `e3s[k]`. The
    /// replay guard refuses a second share for round 2 and this participant
    /// first; then the first failing step names the failure.
    pub fn create_share_round2(
        &self,
        participant: ParticipantId,
        local_secret_share: &SecretKey,
        collective_public_key_qp: &PublicKey,
        round1_aggregate: &[(Poly, Poly)],
        replay_guard: &mut ReplayGuard,
        vs: &[Poly],
        e2s: &[Poly],
        e3s: &[Poly],
    ) -> (r: Result<Share, MultipartyError>)
        requires
            vs@.len() == round1_aggregate@.len(),
            e2s@.len() == round1_aggregate@.len(),
            e3s@.len() == round1_aggregate@.len(),
        ensures
            ({
                let session = next_round(next_round(self@.1));
                let q = self@.0.0;
                let qp = extended_ring(q, self@.2);
                let s = local_secret_share@;
                let q0 = q.moduli[0];
                let s_qp = rebased(s[0], q0, qp.moduli);
                let key = collective_public_key_qp@;
                let h = pairs_view(round1_aggregate@);
                let (vv, e2v, e3v) = (polys_view(vs@), polys_view(e2s@), polys_view(e3s@));
                let rk = view_replay_key(session, participant@);
                let fresh = !old(replay_guard)@.contains(rk);
                let has_p = self@.2.len() > 0;
                let ready = has_p && row_is_ternary(s[0], q0);
                &&& !fresh ==> r == Err::<Share, _>(MultipartyError::ReplayedShare) && final(replay_guard)@
                    == old(replay_guard)@
                &&& fresh ==> final(replay_guard)@ == old(replay_guard)@.insert(rk)
                &&& fresh && !has_p ==> r == Err::<Share, _>(
                    MultipartyError::InvalidParameters("qp_params: p_moduli must be non-empty"),
                )
                &&& fresh && has_p && !row_is_ternary(s[0], q0) ==> r == Err::<Share, _>(
                    MultipartyError::InvalidParameters("rkg_round2: rebase failed"),
                )
                &&& fresh && ready ==> forall|k: int|
                    0 <= k < h.len() && (forall|x: int|
                        0 <= x < k ==> #[trigger] rkg_round2_ok(qp, s_qp, key, h, vv, e2v, e3v, x))
                        && !rkg_round2_ok(qp, s_qp, key, h, vv, e2v, e3v, k) ==> r == Err::<Share, _>(
                        MultipartyError::InvalidParameters(
                            if !rkg_round2_first_ok(qp, s_qp, key, h, vv, e2v, k) {
                                "rkg_round2: h0' failed"
                            } else {
                                "rkg_round2: h1' failed"
                            },
                        ),
                    )
                &&& fresh && ready && (forall|k: int|
                    0 <= k < h.len() ==> #[trigger] rkg_round2_ok(qp, s_qp, key, h, vv, e2v, e3v, k)) ==> (
                !session.participants.contains(participant@) ==> r == Err::<Share, _>(
                    MultipartyError::UnknownParticipant,
                )) && (session.participants.contains(participant@) ==> (r matches Ok(share) && share@
                    == share_for(
                    session,
                    participant@,
                    ShareKind::RelinearizationKeyGen,
                    rows_bytes(Seq::new(h.len(), |k: int| rkg_round2_row(qp, key, s_qp, h[k], vv[k], e2v[k], e3v[k]))),
                )))
            }),
    {
        let round2 = self.round2_session();
        replay_guard.record_use(&round2, participant)?;
        let q_params = RlweParams::new(self.params.ring().clone());
        let rows = rkg_round2_row_contributions(
            &q_params,
            self.p_moduli.as_slice(),
            collective_public_key_qp,
            round1_aggregate,
            local_secret_share,
            vs,
            e2s,
            e3s,
        )?;
        Share::new(&round2, participant, ShareKind::RelinearizationKeyGen, encode_poly_rows(rows.as_slice()))
    }

    /// Aggregates the round-2 shares into the collective relinearization
    /// key over `QP`: the rows summed, both components.
    pub fn aggregate_key(&self, aggregator: &ShareAggregator) -> (r: Result<RelinearizationKey, MultipartyError>)
        ensures
            ({
                let qp = extended_ring(self@.0.0, self@.2);
                let shares = aggregator.shares_view();
                let ready = shares.len() >= aggregator.session_view().threshold;
                let has_p = self@.2.len() > 0;
                &&& !has_p ==> r == Err::<RelinearizationKey, _>(
                    MultipartyError::InvalidParameters("qp_params: p_moduli must be non-empty"),
                )
                &&& has_p && !ready ==> r == Err::<RelinearizationKey, _>(MultipartyError::ThresholdNotMet)
                &&& has_p && ready && !rows_agree(qp, shares, false) ==> r == Err::<RelinearizationKey, _>(
                    MultipartyError::MalformedMessage,
                )
                &&& has_p && ready && rows_agree(qp, shares, false) && shares.len() == 0 ==> r == Err::<
                    RelinearizationKey,
                    _,
                >(MultipartyError::MissingShare)
                &&& has_p && ready && rows_agree(qp, shares, false) && shares.len() > 0 ==> (r matches Ok(key)
                    && key@ == Some((qp, pair_ciphertexts(summed_rows(qp, shares, false)))))
            }),
    {
        let q_params = RlweParams::new(self.params.ring().clone());
        let qp = qp_params(&q_params, self.p_moduli.as_slice())?;
        let shares = aggregator.all_shares()?;
        let rows = sum_share_rows(qp.ring(), shares.as_slice(), false)?;
        let cts = rows_to_ciphertexts(rows.as_slice());
        Ok(RelinearizationKey::from_key_switch_key(KeySwitchKey::from_rows(qp, cts)))
    }
}

} // verus!
