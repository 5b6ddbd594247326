//! Collective Galois (rotation) key generation for CKKS: the hybrid rows
//! over `QP` of the ring-generic construction, for one rotation per
//! session, at the full level.

use vstd::prelude::*;

use crate::lattice::rlwe::evaluation_key::GaloisKey;
use crate::lattice::rlwe::keys::SecretKey;
use crate::lattice::rlwe::keyswitch::{extended_ring, rebased, row_is_ternary, KeySwitchKey};
use crate::lattice::rlwe::ciphertext::polys_view;
use crate::lattice::rlwe::params::RlweParams;
use crate::multiparty::common::hybrid::{gkg_row_contributions, gkg_rows, hybrid_gkg_common_a, in_qp, qp_params};
use crate::multiparty::common::participant::ParticipantId;
use crate::multiparty::common::replay_guard::{view_replay_key, ReplayGuard};
use crate::multiparty::common::session::{SessionState, SessionView};
use crate::multiparty::common::shares::{share_for, Share, ShareAggregator, ShareKind};
use crate::multiparty::error::MultipartyError;
use crate::multiparty::mpbgv::accumulate::{rows_agree, summed_rows, sum_share_rows};
use crate::multiparty::mpbgv::gkg::{pair_ciphertexts, rows_to_ciphertexts};
use crate::multiparty::mpbgv::wire::{encode_poly_rows, rows_bytes};
use crate::multiparty::mpckks::params::CkksParams;
use crate::ring::automorphism::{galois_apply, galois_invertible};
use crate::ring::poly::{modulus_values, poly_in_ring, Modulus, Poly, RingView, Rows};

verus! {

/// What a participant's hybrid Galois rows come to for secret share `s` and
/// sampled errors `ev`: the first failing step, or the rows.
pub open spec fn galois_rows_outcome(
    q: RingView,
    p: Seq<u64>,
    session: SessionView,
    element: usize,
    s: Rows,
    ev: Seq<Rows>,
) -> Result<Seq<(Rows, Rows)>, MultipartyError> {
    let qp = extended_ring(q, p);
    let q0 = q.moduli[0];
    let sigma = galois_apply(s, element as int, q.degree as int, q.moduli);
    if p.len() == 0 {
        Err(MultipartyError::InvalidParameters("qp_params: p_moduli must be non-empty"))
    } else if !(poly_in_ring(q.degree, q.moduli, s) && galois_invertible(element as int, q.degree as int)) {
        Err(MultipartyError::InvalidParameters("gkg_row_contributions: automorphism failed"))
    } else if !row_is_ternary(sigma[0], q0) {
        Err(MultipartyError::InvalidParameters("gkg_row_contributions: rebase sigma_s failed"))
    } else if !row_is_ternary(s[0], q0) {
        Err(MultipartyError::InvalidParameters("gkg_row_contributions: rebase s_p failed"))
    } else if !(forall|j: int| 0 <= j < ev.len() ==> in_qp(qp, #[trigger] ev[j])) {
        Err(MultipartyError::InvalidParameters("gkg_row_contributions: b_j failed"))
    } else {
        Ok(
            gkg_rows(
                qp,
                rebased(sigma[0], q0, qp.moduli),
                rebased(s[0], q0, qp.moduli),
                ev,
                hybrid_gkg_common_a(qp, session, element, ev.len()),
            ),
        )
    }
}

/// Collective Galois-key generation for one rotation in one session.
#[derive(Debug)]
pub struct GaloisKeyGen {
    params: CkksParams,
    session: SessionState,
    element: usize,
    p_moduli: Vec<Modulus>,
}

impl View for GaloisKeyGen {
    type V = (RingView, SessionView, usize, Seq<u64>);

    closed spec fn view(&self) -> (RingView, SessionView, usize, Seq<u64>) {
        (self.params@, self.session@, self.element, modulus_values(self.p_moduli@))
    }
}

impl GaloisKeyGen {
    /// Creates the protocol for rotation `element`, with the auxiliary
    /// moduli `p_moduli` that every participant agreed on.
    pub fn new(params: CkksParams, session: SessionState, element: usize, p_moduli: Vec<Modulus>) -> (r: Self)
        ensures
            r@ == (params@, session@, element, modulus_values(p_moduli@)),
    {
        GaloisKeyGen { params, session, element, p_moduli }
    }

    /// Returns the session.
    pub fn session(&self) -> (r: &SessionState)
        ensures
            r@ == self@.1,
    {
        &self.session
    }

    /// Creates participant `participant`'s share: its hybrid Galois rows,
    /// one per modulus, from its sampled errors. The replay guard refuses a
    /// second share for the same session round and participant first.
    pub fn create_share(
        &self,
        participant: ParticipantId,
        local_secret_share: &SecretKey,
        replay_guard: &mut ReplayGuard,
        errors: &[Poly],
    ) -> (r: Result<Share, MultipartyError>)
        requires
            errors@.len() == self@.0.moduli.len(),
        ensures
            ({
                let session = self@.1;
                let key = view_replay_key(session, participant@);
                let fresh = !old(replay_guard)@.contains(key);
                let outcome = galois_rows_outcome(
                    self@.0,
                    self@.3,
                    session,
                    self@.2,
                    local_secret_share@,
                    polys_view(errors@),
                );
                &&& !fresh ==> r == Err::<Share, _>(MultipartyError::ReplayedShare) && final(replay_guard)@
                    == old(replay_guard)@
                &&& fresh ==> final(replay_guard)@ == old(replay_guard)@.insert(key)
                &&& fresh ==> match outcome {
                    Err(e) => r == Err::<Share, _>(e),
                    Ok(rows) => (!session.participants.contains(participant@) ==> r == Err::<Share, _>(
                        MultipartyError::UnknownParticipant,
                    )) && (session.participants.contains(participant@) ==> (r matches Ok(share) && share@
                        == share_for(session, participant@, ShareKind::GaloisKeyGen, rows_bytes(rows)))),
                }
            }),
    {
        replay_guard.record_use(&self.session, participant)?;
        let q_params = RlweParams::new(self.params.ring().clone());
        let rows = gkg_row_contributions(
            &q_params,
            self.p_moduli.as_slice(),
            &self.session,
            self.element,
            local_secret_share,
            errors,
        )?;
        Share::new(&self.session, participant, ShareKind::GaloisKeyGen, encode_poly_rows(rows.as_slice()))
    }

    /// Aggregates every collected share into the collective rotation key
    /// over `QP`: each row's first components summed across the shares, its
    /// common `a` kept from the first share, every other share's copy
    /// required to be the same.
    pub fn aggregate_keys(&self, aggregator: &ShareAggregator) -> (r: Result<GaloisKey, MultipartyError>)
        ensures
            ({
                let qp = extended_ring(self@.0, self@.3);
                let shares = aggregator.shares_view();
                let ready = shares.len() >= aggregator.session_view().threshold;
                let has_p = self@.3.len() > 0;
                &&& !has_p ==> r == Err::<GaloisKey, _>(
                    MultipartyError::InvalidParameters("qp_params: p_moduli must be non-empty"),
                )
                &&& has_p && !ready ==> r == Err::<GaloisKey, _>(MultipartyError::ThresholdNotMet)
                &&& has_p && ready && !rows_agree(qp, shares, true) ==> r == Err::<GaloisKey, _>(
                    MultipartyError::MalformedMessage,
                )
                &&& has_p && ready && rows_agree(qp, shares, true) && shares.len() == 0 ==> r == Err::<
                    GaloisKey,
                    _,
                >(MultipartyError::MissingShare)
                &&& has_p && ready && rows_agree(qp, shares, true) && shares.len() > 0 ==> (r matches Ok(key)
                    && key@ == (self@.2, Some((qp, pair_ciphertexts(summed_rows(qp, shares, true))))))
            }),
    {
        let q_params = RlweParams::new(self.params.ring().clone());
        let qp = qp_params(&q_params, self.p_moduli.as_slice())?;
        let shares = aggregator.all_shares()?;
        let rows = sum_share_rows(qp.ring(), shares.as_slice(), true)?;
        let cts = rows_to_ciphertexts(rows.as_slice());
        Ok(GaloisKey::from_key_switch_key(self.element, KeySwitchKey::from_rows(qp, cts)))
    }
}

} // verus!
