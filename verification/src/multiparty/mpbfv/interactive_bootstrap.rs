//! Interactive bootstrapping of a BFV ciphertext.
//!
//! For `(c0, c1)` under `s = sum_i s_i` and the common element `a`,
//! participant `i` with encoded mask `M_i` publishes the unscaled shares
//! `h0_i = c1*s_i + e0_i - M_i` and `h1_i = e1_i - a*s_i + M_i`. The
//! combiner opens the masked plaintext `c0 + sum_i h0_i`, reduces it through
//! the plaintext encoding, and outputs `(unmasked + sum_i h1_i, a)`. The
//! shares sum as `mpckks::interactive_bootstrap` proves them.

use vstd::prelude::*;

use crate::lattice::rlwe::ciphertext::Ciphertext;
use crate::lattice::rlwe::keys::SecretKey;
use crate::multiparty::common::participant::ParticipantId;
use crate::multiparty::common::randomness::{common_element, derive_common_ring_element};
use crate::multiparty::common::replay_guard::{view_replay_key, ReplayGuard};
use crate::multiparty::common::session::{SessionState, SessionView};
use crate::multiparty::common::shares::{share_for, Share, ShareAggregator, ShareKind};
use crate::multiparty::error::MultipartyError;
use crate::multiparty::mpbfv::params::BfvParams;
use crate::multiparty::mpbgv::accumulate::{pairs_carried, share_firsts, share_seconds, sum_share_pairs};
use crate::multiparty::mpbgv::wire::{encode_poly_pair, pair_bytes};
use crate::multiparty::mpckks::interactive_bootstrap::{ckks_refresh_h0, ckks_refresh_h1};
use crate::ring::poly::{poly_add, poly_in_ring, poly_sum, Poly, RingView, Rows};

verus! {

/// The purpose under which the common element `a` is derived.
pub const BFV_IB_COMMON_A_PURPOSE: &'static str = "phantom-fhe/mpbfv/interactive_bootstrap/a/v1";

/// The common element `a` of a session: every participant derives the same.
pub open spec fn bfv_ib_common_a(r: RingView, session: SessionView) -> Rows {
    common_element(r, session.id, vstd::string::StringSliceAdditionalSpecFns::spec_bytes(BFV_IB_COMMON_A_PURPOSE))
}

/// Interactive bootstrapping of BFV ciphertexts in one session.
#[derive(Debug)]
pub struct InteractiveBootstrap {
    params: BfvParams,
    session: SessionState,
    statistical_security_bits: u32,
}

impl View for InteractiveBootstrap {
    type V = ((RingView, u64), SessionView, u32);

    closed spec fn view(&self) -> ((RingView, u64), SessionView, u32) {
        (self.params@, self.session@, self.statistical_security_bits)
    }
}

impl InteractiveBootstrap {
    /// Creates the protocol; `statistical_security_bits` is the security
    /// that the caller sizes its smudging noise for.
    pub fn new(params: BfvParams, session: SessionState, statistical_security_bits: u32) -> (r: Self)
        ensures
            r@ == (params@, session@, statistical_security_bits),
    {
        InteractiveBootstrap { params, session, statistical_security_bits }
    }

    /// Returns the session.
    pub fn session(&self) -> (r: &SessionState)
        ensures
            r@ == self@.1,
    {
        &self.session
    }

    /// Returns the statistical security that the smudging noise is sized for.
    pub fn statistical_security_bits(&self) -> (r: u32)
        ensures
            r == self@.2,
    {
        self.statistical_security_bits
    }

    /// Creates participant `participant`'s share `(h0_i, h1_i)` from its
    /// encoded mask `M_i`, smudging error `e0_i` and error `e1_i`. The
    /// replay guard refuses a second share for the same session round and
    /// participant first; a ciphertext without a valid `c1` is malformed.
    pub fn create_share(
        &self,
        participant: ParticipantId,
        local_secret_share: &SecretKey,
        ciphertext: &Ciphertext,
        replay_guard: &mut ReplayGuard,
        mask_poly: &Poly,
        e0_i: &Poly,
        e1_i: &Poly,
    ) -> (r: Result<Share, MultipartyError>)
        ensures
            ({
                let ring = self@.0.0;
                let session = self@.1;
                let c = ciphertext@;
                let s = local_secret_share@;
                let ok = |p: Rows| poly_in_ring(ring.degree, ring.moduli, p);
                let key = view_replay_key(session, participant@);
                let fresh = !old(replay_guard)@.contains(key);
                let c1_ok = c.len() >= 2 && ok(c[1]);
                &&& !fresh ==> r == Err::<Share, _>(MultipartyError::ReplayedShare) && final(replay_guard)@
                    == old(replay_guard)@
                &&& fresh ==> final(replay_guard)@ == old(replay_guard)@.insert(key)
                &&& fresh && !c1_ok ==> r == Err::<Share, _>(MultipartyError::MalformedMessage)
                &&& fresh && c1_ok && !ok(s) ==> r == Err::<Share, _>(
                    MultipartyError::InvalidParameters("create_share: c1*s_i failed"),
                )
                &&& fresh && c1_ok && ok(s) && !(ok(e0_i@) && ok(mask_poly@)) ==> r == Err::<Share, _>(
                    MultipartyError::InvalidParameters("create_share: h0_i failed"),
                )
                &&& fresh && c1_ok && ok(s) && ok(e0_i@) && ok(mask_poly@) && !ok(e1_i@) ==> r == Err::<
                    Share,
                    _,
                >(MultipartyError::InvalidParameters("create_share: h1_i failed"))
                &&& fresh && c1_ok && ok(s) && ok(e0_i@) && ok(mask_poly@) && ok(e1_i@) ==> (
                !session.participants.contains(participant@) ==> r == Err::<Share, _>(
                    MultipartyError::UnknownParticipant,
                )) && (session.participants.contains(participant@) ==> (r matches Ok(share) && share@
                    == share_for(
                    session,
                    participant@,
                    ShareKind::InteractiveBootstrap,
                    pair_bytes(
                        ckks_refresh_h0(c[1], s, e0_i@, mask_poly@, ring.moduli),
                        ckks_refresh_h1(e1_i@, bfv_ib_common_a(ring, session), s, mask_poly@, ring.moduli),
                    ),
                )))
            }),
    {
        replay_guard.record_use(&self.session, participant)?;
        let ring = self.params.ring();
        let comps = ciphertext.value();
        if comps.len() < 2 {
            return Err(MultipartyError::MalformedMessage);
        }
        let c1 = &comps[1];
        assert(c1@ == ciphertext@[1]);
        if ring.check_poly(c1).is_err() {
            return Err(MultipartyError::MalformedMessage);
        }
        let a = derive_common_ring_element(ring, &self.session, BFV_IB_COMMON_A_PURPOSE.as_bytes());
        let c1_s_i = match ring.mul(c1, local_secret_share.value()) {
            Ok(p) => p,
            Err(_) => {
                return Err(MultipartyError::InvalidParameters("create_share: c1*s_i failed"));
            },
        };
        let noisy = match ring.add(&c1_s_i, e0_i) {
            Ok(p) => p,
            Err(_) => {
                return Err(MultipartyError::InvalidParameters("create_share: h0_i failed"));
            },
        };
        let h0_i = match ring.sub(&noisy, mask_poly) {
            Ok(p) => p,
            Err(_) => {
                return Err(MultipartyError::InvalidParameters("create_share: h0_i failed"));
            },
        };
        let a_s_i = match ring.mul(&a, local_secret_share.value()) {
            Ok(p) => p,
            Err(_) => {
                return Err(MultipartyError::InvalidParameters("create_share: a*s_i failed"));
            },
        };
        let diff = match ring.sub(e1_i, &a_s_i) {
            Ok(p) => p,
            Err(_) => {
                return Err(MultipartyError::InvalidParameters("create_share: h1_i failed"));
            },
        };
        let h1_i = match ring.add(&diff, mask_poly) {
            Ok(p) => p,
            Err(_) => {
                return Err(MultipartyError::InvalidParameters("create_share: h1_i failed"));
            },
        };
        Share::new(
            &self.session,
            participant,
            ShareKind::InteractiveBootstrap,
            encode_poly_pair(&h0_i, &h1_i),
        )
    }

    /// Combines every collected share with `c0`: the masked plaintext
    /// `c0 + sum_i h0_i`, to be reduced through the plaintext encoding, and
    /// `sum_i h1_i`.
    pub fn aggregate_masked(&self, aggregator: &ShareAggregator, ciphertext: &Ciphertext) -> (r: Result<
        (Poly, Poly),
        MultipartyError,
    >)
        ensures
            ({
                let ring = self@.0.0;
                let c = ciphertext@;
                let shares = aggregator.shares_view();
                let ready = shares.len() >= aggregator.session_view().threshold;
                let c0_ok = c.len() >= 1 && poly_in_ring(ring.degree, ring.moduli, c[0]);
                &&& !c0_ok ==> r == Err::<(Poly, Poly), _>(MultipartyError::MalformedMessage)
                &&& c0_ok && !ready ==> r == Err::<(Poly, Poly), _>(MultipartyError::ThresholdNotMet)
                &&& c0_ok && ready && !pairs_carried(ring, shares) ==> r == Err::<(Poly, Poly), _>(
                    MultipartyError::MalformedMessage,
                )
                &&& c0_ok && ready && pairs_carried(ring, shares) ==> (r matches Ok((masked, h1_sum))
                    && masked@ == poly_add(c[0], poly_sum(share_firsts(ring, shares), ring), ring.moduli)
                    && h1_sum@ == poly_sum(share_seconds(ring, shares), ring))
            }),
    {
        let ring = self.params.ring();
        let comps = ciphertext.value();
        if comps.len() < 1 {
            return Err(MultipartyError::MalformedMessage);
        }
        let c0 = &comps[0];
        assert(c0@ == ciphertext@[0]);
        if ring.check_poly(c0).is_err() {
            return Err(MultipartyError::MalformedMessage);
        }
        let shares = aggregator.all_shares()?;
        let (h0_sum, h1_sum) = sum_share_pairs(ring, shares.as_slice())?;
        let masked = match ring.add(c0, &h0_sum) {
            Ok(p) => p,
            Err(_) => {
                return Err(MultipartyError::InvalidParameters("aggregate_refreshed: c0 + h0 failed"));
            },
        };
        Ok((masked, h1_sum))
    }

    /// The refreshed ciphertext `(unmasked + sum_i h1_i, a)`, from the
    /// masked plaintext after its reduction through the plaintext encoding.
    pub fn aggregate_refreshed(&self, unmasked: &Poly, h1_sum: &Poly) -> (r: Result<Ciphertext, MultipartyError>)
        ensures
            ({
                let ring = self@.0.0;
                let both = poly_in_ring(ring.degree, ring.moduli, unmasked@) && poly_in_ring(
                    ring.degree,
                    ring.moduli,
                    h1_sum@,
                );
                &&& !both ==> r == Err::<Ciphertext, _>(
                    MultipartyError::InvalidParameters("aggregate_refreshed: unmasked + h1 failed"),
                )
                &&& both ==> (r matches Ok(ct) && ct@.len() == 2 && ct@[0] == poly_add(
                    unmasked@,
                    h1_sum@,
                    ring.moduli,
                ) && ct@[1] == bfv_ib_common_a(ring, self@.1))
            }),
    {
        let ring = self.params.ring();
        let ct0 = match ring.add(unmasked, h1_sum) {
            Ok(p) => p,
            Err(_) => {
                return Err(MultipartyError::InvalidParameters("aggregate_refreshed: unmasked + h1 failed"));
            },
        };
        let a = derive_common_ring_element(ring, &self.session, BFV_IB_COMMON_A_PURPOSE.as_bytes());
        let mut v: Vec<Poly> = Vec::with_capacity(2);
        v.push(ct0);
        v.push(a);
        Ok(Ciphertext::new(v))
    }
}

} // verus!
