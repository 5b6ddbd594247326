//! Collective public-key switching of a BFV ciphertext.
//!
//! For a ciphertext `(c0, c1)` under `s = sum_i s_i` and a recipient key
//! `(b_r, a_r)`, participant `i` publishes the unscaled shares
//! `h0_i = u_i*b_r + e0_i + s_i*c1` and `h1_i = u_i*a_r + e1_i`; the
//! re-encrypted ciphertext is `(c0 + sum_i h0_i, sum_i h1_i)`. The shares
//! are the unscaled ones of the CKKS protocol over the full ring, so their
//! sums and the phase of the output under the recipient's secret are as
//! `mpckks::reencryption` proves them.

use vstd::prelude::*;

use crate::lattice::rlwe::ciphertext::Ciphertext;
use crate::lattice::rlwe::keys::{PublicKey, SecretKey};
use crate::multiparty::common::participant::ParticipantId;
use crate::multiparty::common::replay_guard::{view_replay_key, ReplayGuard};
use crate::multiparty::common::session::{SessionState, SessionView};
use crate::multiparty::common::shares::{share_for, Share, ShareAggregator, ShareKind};
use crate::multiparty::error::MultipartyError;
use crate::multiparty::mpbfv::params::BfvParams;
use crate::multiparty::mpbgv::accumulate::{pairs_carried, share_firsts, share_seconds, sum_share_pairs};
use crate::multiparty::mpbgv::wire::{encode_poly_pair, pair_bytes};
use crate::multiparty::mpckks::reencryption::{ckks_pcks_h0, ckks_pcks_h1};
use crate::ring::poly::{poly_add, poly_in_ring, poly_sum, Poly, RingView, Rows};

verus! {

/// Re-encryption of BFV ciphertexts in one session.
#[derive(Debug)]
pub struct ReEncryptor {
    params: BfvParams,
    session: SessionState,
    statistical_security_bits: u32,
}

impl View for ReEncryptor {
    type V = ((RingView, u64), SessionView, u32);

    closed spec fn view(&self) -> ((RingView, u64), SessionView, u32) {
        (self.params@, self.session@, self.statistical_security_bits)
    }
}

impl ReEncryptor {
    /// Creates the protocol; `statistical_security_bits` is the security
    /// that the caller sizes its smudging noise for.
    pub fn new(params: BfvParams, session: SessionState, statistical_security_bits: u32) -> (r: Self)
        ensures
            r@ == (params@, session@, statistical_security_bits),
    {
        ReEncryptor { params, session, statistical_security_bits }
    }

    /// Returns the session.
    pub fn session(&self) -> (r: &SessionState)
        ensures
            r@ == self@.1,
    {
        &self.session
    }

    /// Returns the statistical security that the smudging noise is sized for.
    pub fn statistical_security_bits(&self) -> (r: u32)
        ensures
            r == self@.2,
    {
        self.statistical_security_bits
    }

    /// Creates participant `participant`'s share `(h0_i, h1_i)` from its
    /// sampled ternary `u_i` and smudging errors `e0_i`, `e1_i`. The replay
    /// guard refuses a second share for the same session round and
    /// participant first; a ciphertext without a valid `c1` is malformed;
    /// otherwise the first product or sum that fails names the failure.
    pub fn create_share(
        &self,
        participant: ParticipantId,
        local_secret_share: &SecretKey,
        ciphertext: &Ciphertext,
        recipient_public_key: &PublicKey,
        replay_guard: &mut ReplayGuard,
        u_i: &Poly,
        e0_i: &Poly,
        e1_i: &Poly,
    ) -> (r: Result<Share, MultipartyError>)
        ensures
            ({
                let ring = self@.0.0;
                let session = self@.1;
                let c = ciphertext@;
                let ok = |p: Rows| poly_in_ring(ring.degree, ring.moduli, p);
                let key = view_replay_key(session, participant@);
                let fresh = !old(replay_guard)@.contains(key);
                let c1_ok = c.len() >= 2 && ok(c[1]);
                let s = local_secret_share@;
                let (b, a) = recipient_public_key@;
                &&& !fresh ==> r == Err::<Share, _>(MultipartyError::ReplayedShare) && final(replay_guard)@
                    == old(replay_guard)@
                &&& fresh ==> final(replay_guard)@ == old(replay_guard)@.insert(key)
                &&& fresh && !c1_ok ==> r == Err::<Share, _>(MultipartyError::MalformedMessage)
                &&& fresh && c1_ok && !(ok(u_i@) && ok(b)) ==> r == Err::<Share, _>(
                    MultipartyError::InvalidParameters("create_share: u_i*b_r failed"),
                )
                &&& fresh && c1_ok && ok(u_i@) && ok(b) && !ok(s) ==> r == Err::<Share, _>(
                    MultipartyError::InvalidParameters("create_share: s_i*c1 failed"),
                )
                &&& fresh && c1_ok && ok(u_i@) && ok(b) && ok(s) && !ok(e0_i@) ==> r == Err::<Share, _>(
                    MultipartyError::InvalidParameters("create_share: h0_i failed"),
                )
                &&& fresh && c1_ok && ok(u_i@) && ok(b) && ok(s) && ok(e0_i@) && !ok(a) ==> r == Err::<
                    Share,
                    _,
                >(MultipartyError::InvalidParameters("create_share: u_i*a_r failed"))
                &&& fresh && c1_ok && ok(u_i@) && ok(b) && ok(s) && ok(e0_i@) && ok(a) && !ok(e1_i@) ==> r
                    == Err::<Share, _>(MultipartyError::InvalidParameters("create_share: h1_i failed"))
                &&& fresh && c1_ok && ok(u_i@) && ok(b) && ok(s) && ok(e0_i@) && ok(a) && ok(e1_i@) ==> (
                !session.participants.contains(participant@) ==> r == Err::<Share, _>(
                    MultipartyError::UnknownParticipant,
                )) && (session.participants.contains(participant@) ==> (r matches Ok(share) && share@
                    == share_for(
                    session,
                    participant@,
                    ShareKind::ReEncryption,
                    pair_bytes(
                        ckks_pcks_h0(u_i@, b, e0_i@, s, c[1], ring.moduli),
                        ckks_pcks_h1(u_i@, a, e1_i@, ring.moduli),
                    ),
                )))
            }),
    {
        replay_guard.record_use(&self.session, participant)?;
        let ring = self.params.ring();
        let comps = ciphertext.value();
        if comps.len() < 2 {
            return Err(MultipartyError::MalformedMessage);
        }
        let c1 = &comps[1];
        assert(c1@ == ciphertext@[1]);
        if ring.check_poly(c1).is_err() {
            return Err(MultipartyError::MalformedMessage);
        }
        let keys = recipient_public_key.value();
        let u_b_r = match ring.mul(u_i, &keys[0]) {
            Ok(p) => p,
            Err(_) => {
                return Err(MultipartyError::InvalidParameters("create_share: u_i*b_r failed"));
            },
        };
        let s_i_c1 = match ring.mul(local_secret_share.value(), c1) {
            Ok(p) => p,
            Err(_) => {
                return Err(MultipartyError::InvalidParameters("create_share: s_i*c1 failed"));
            },
        };
        let partial = match ring.add(&u_b_r, e0_i) {
            Ok(p) => p,
            Err(_) => {
                return Err(MultipartyError::InvalidParameters("create_share: h0_i failed"));
            },
        };
        let h0_i = match ring.add(&partial, &s_i_c1) {
            Ok(p) => p,
            Err(_) => {
                return Err(MultipartyError::InvalidParameters("create_share: h0_i failed"));
            },
        };
        let u_a_r = match ring.mul(u_i, &keys[1]) {
            Ok(p) => p,
            Err(_) => {
                return Err(MultipartyError::InvalidParameters("create_share: u_i*a_r failed"));
            },
        };
        let h1_i = match ring.add(&u_a_r, e1_i) {
            Ok(p) => p,
            Err(_) => {
                return Err(MultipartyError::InvalidParameters("create_share: h1_i failed"));
            },
        };
        Share::new(&self.session, participant, ShareKind::ReEncryption, encode_poly_pair(&h0_i, &h1_i))
    }

    /// Combines every collected share with `c0` into the re-encrypted
    /// ciphertext `(c0 + sum_i h0_i, sum_i h1_i)`.
    pub fn aggregate_ciphertext(&self, aggregator: &ShareAggregator, ciphertext: &Ciphertext) -> (r: Result<
        Ciphertext,
        MultipartyError,
    >)
        ensures
            ({
                let ring = self@.0.0;
                let c = ciphertext@;
                let shares = aggregator.shares_view();
                let ready = shares.len() >= aggregator.session_view().threshold;
                let c0_ok = c.len() >= 1 && poly_in_ring(ring.degree, ring.moduli, c[0]);
                &&& !c0_ok ==> r == Err::<Ciphertext, _>(MultipartyError::MalformedMessage)
                &&& c0_ok && !ready ==> r == Err::<Ciphertext, _>(MultipartyError::ThresholdNotMet)
                &&& c0_ok && ready && !pairs_carried(ring, shares) ==> r == Err::<Ciphertext, _>(
                    MultipartyError::MalformedMessage,
                )
                &&& c0_ok && ready && pairs_carried(ring, shares) ==> (r matches Ok(out) && out@ == seq![
                    poly_add(c[0], poly_sum(share_firsts(ring, shares), ring), ring.moduli),
                    poly_sum(share_seconds(ring, shares), ring),
                ])
            }),
    {
        let ring = self.params.ring();
        let comps = ciphertext.value();
        if comps.len() < 1 {
            return Err(MultipartyError::MalformedMessage);
        }
        let c0 = &comps[0];
        assert(c0@ == ciphertext@[0]);
        if ring.check_poly(c0).is_err() {
            return Err(MultipartyError::MalformedMessage);
        }
        let shares = aggregator.all_shares()?;
        let (h0_sum, h1_sum) = sum_share_pairs(ring, shares.as_slice())?;
        let out0 = match ring.add(c0, &h0_sum) {
            Ok(p) => p,
            Err(_) => {
                return Err(MultipartyError::InvalidParameters("aggregate_ciphertext: c0 + h0_sum failed"));
            },
        };
        let mut v: Vec<Poly> = Vec::with_capacity(2);
        v.push(out0);
        v.push(h1_sum);
        let out = Ciphertext::new(v);
        assert(out@ =~= seq![
            poly_add(ciphertext@[0], poly_sum(share_firsts(ring@, aggregator.shares_view()), ring@), ring@.moduli),
            poly_sum(share_seconds(ring@, aggregator.shares_view()), ring@),
        ]);
        Ok(out)
    }
}

} // verus!
