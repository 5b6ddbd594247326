//! Additive n-of-n threshold decryption of a CKKS ciphertext at its level.
//!
//! For a ciphertext `(c0, c1)` at level `l` under `s = sum_i s_i`,
//! participant `i` drops its secret share to the `l + 1` moduli of the
//! level and publishes `d_i = c1*s_i + e_i` with smudging noise `e_i`; the
//! combiner recovers the phase `c0 + sum_i d_i`. Nothing rounds the noise
//! away: it stays in the decoded value.

use vstd::prelude::*;

use crate::lattice::rlwe::ciphertext::Plaintext;
use crate::lattice::rlwe::decryptor::phase;
use crate::lattice::rlwe::keys::SecretKey;
use crate::multiparty::common::participant::ParticipantId;
use crate::multiparty::common::replay_guard::{view_replay_key, ReplayGuard};
use crate::multiparty::common::session::{SessionState, SessionView};
use crate::multiparty::common::shares::{share_for, Share, ShareAggregator, ShareKind, ShareView};
use crate::multiparty::error::MultipartyError;
use crate::multiparty::mpbgv::accumulate::{polys_carried, share_polys, sum_share_polys};
use crate::multiparty::mpbgv::partial_decrypt::{
    decryption_share, lemma_threshold_decryption, lemma_threshold_decryption_from_shares,
};
use crate::multiparty::mpckks::ciphertext::CkksCiphertext;
use crate::multiparty::mpckks::params::{level_ring, CkksParams};
use crate::ring::algebra::{lemma_scale_by_one, lemma_sum_in_ring};
use crate::ring::encoding::{encode_poly, poly_bytes};
use crate::ring::poly::{poly_add, poly_in_ring, poly_mul, poly_sum, ring_valid, Poly, RingView, Rows};
use crate::ring::rescale::{keep_first_moduli, keep_moduli};

verus! {

/// Participant `i`'s partial decryption `c1*s_i + e_i`.
pub open spec fn ckks_decryption_share(c1: Rows, s: Rows, e: Rows, moduli: Seq<u64>) -> Rows {
    poly_add(poly_mul(c1, s, moduli), e, moduli)
}

/// A CKKS partial decryption is the scaled one with scale one.
proof fn lemma_share_is_unscaled(r: RingView, c1: Rows, s: Rows, e: Rows)
    requires
        poly_in_ring(r.degree, r.moduli, e),
    ensures
        ckks_decryption_share(c1, s, e, r.moduli) == decryption_share(c1, s, e, 1, r.moduli),
{
    lemma_scale_by_one(r, e);
}

/// Threshold decryption recovers the phase under the collective secret: the
/// shares `c1*s_i + e_i` sum so that `c0` plus their sum is the phase
/// `c0 + c1*s` of `s = sum_i s_i`, plus the summed smudging noise.
pub proof fn lemma_ckks_threshold_decryption(r: RingView, c0: Rows, c1: Rows, ss: Seq<Rows>, es: Seq<Rows>)
    requires
        ring_valid(r),
        ss.len() == es.len(),
        poly_in_ring(r.degree, r.moduli, c0),
        poly_in_ring(r.degree, r.moduli, c1),
        forall|i: int| 0 <= i < ss.len() ==> poly_in_ring(r.degree, r.moduli, #[trigger] ss[i]),
        forall|i: int| 0 <= i < es.len() ==> poly_in_ring(r.degree, r.moduli, #[trigger] es[i]),
    ensures
        ({
            let m = r.moduli;
            let shares = Seq::new(ss.len(), |i: int| ckks_decryption_share(c1, ss[i], es[i], m));
            poly_add(c0, poly_sum(shares, r), m) == poly_add(
                phase(seq![c0, c1], poly_sum(ss, r), m, 2),
                poly_sum(es, r),
                m,
            )
        }),
{
    let m = r.moduli;
    let shares = Seq::new(ss.len(), |i: int| ckks_decryption_share(c1, ss[i], es[i], m));
    let scaled = Seq::new(ss.len(), |i: int| decryption_share(c1, ss[i], es[i], 1, m));
    assert forall|i: int| 0 <= i < ss.len() implies #[trigger] shares[i] == scaled[i] by {
        lemma_share_is_unscaled(r, c1, ss[i], es[i]);
    }
    assert(shares =~= scaled);
    lemma_threshold_decryption(r, 1, c0, c1, ss, es);
    lemma_sum_in_ring(r, es);
    lemma_scale_by_one(r, poly_sum(es, r));
}

/// Combining honest shares decrypts under the collective secret: when share
/// `i` carries `c1*s_i + e_i`, every share carries a ring element, and `c0`
/// plus their sum is the phase `c0 + c1*s` of `s = sum_i s_i` plus the
/// summed noise `sum_i e_i`.
pub proof fn lemma_ckks_threshold_decryption_from_shares(
    r: RingView,
    c0: Rows,
    c1: Rows,
    shares: Seq<ShareView>,
    ss: Seq<Rows>,
    es: Seq<Rows>,
)
    requires
        ring_valid(r),
        r.moduli.len() <= u64::MAX,
        r.degree <= u64::MAX,
        shares.len() == ss.len(),
        ss.len() == es.len(),
        poly_in_ring(r.degree, r.moduli, c0),
        poly_in_ring(r.degree, r.moduli, c1),
        forall|i: int| 0 <= i < ss.len() ==> poly_in_ring(r.degree, r.moduli, #[trigger] ss[i]),
        forall|i: int| 0 <= i < es.len() ==> poly_in_ring(r.degree, r.moduli, #[trigger] es[i]),
        forall|i: int|
            0 <= i < shares.len() ==> (#[trigger] shares[i]).payload == poly_bytes(
                ckks_decryption_share(c1, ss[i], es[i], r.moduli),
            ),
    ensures
        polys_carried(r, shares),
        poly_add(c0, poly_sum(share_polys(r, shares), r), r.moduli) == poly_add(
            phase(seq![c0, c1], poly_sum(ss, r), r.moduli, 2),
            poly_sum(es, r),
            r.moduli,
        ),
{
    assert forall|i: int| 0 <= i < shares.len() implies (#[trigger] shares[i]).payload == poly_bytes(
        decryption_share(c1, ss[i], es[i], 1, r.moduli),
    ) by {
        lemma_share_is_unscaled(r, c1, ss[i], es[i]);
    }
    lemma_threshold_decryption_from_shares(r, 1, c0, c1, shares, ss, es);
    lemma_sum_in_ring(r, es);
    lemma_scale_by_one(r, poly_sum(es, r));
}

/// Threshold decryption of CKKS ciphertexts in one session.
#[derive(Debug)]
pub struct PartialDecryptor {
    params: CkksParams,
    session: SessionState,
    statistical_security_bits: u32,
}

impl View for PartialDecryptor {
    type V = (RingView, SessionView, u32);

    closed spec fn view(&self) -> (RingView, SessionView, u32) {
        (self.params@, self.session@, self.statistical_security_bits)
    }
}

impl PartialDecryptor {
    /// Creates the protocol; `statistical_security_bits` is the security
    /// that the caller sizes its smudging noise for.
    pub fn new(params: CkksParams, session: SessionState, statistical_security_bits: u32) -> (r: Self)
        ensures
            r@ == (params@, session@, statistical_security_bits),
    {
        PartialDecryptor { params, session, statistical_security_bits }
    }

    /// Returns the statistical security that the smudging noise is sized for.
    pub fn statistical_security_bits(&self) -> (r: u32)
        ensures
            r == self@.2,
    {
        self.statistical_security_bits
    }

    /// Returns the session.
    pub fn session(&self) -> (r: &SessionState)
        ensures
            r@ == self@.1,
    {
        &self.session
    }

    /// Creates participant `participant`'s share `d_i = c1*s_i + e_i` at the
    /// ciphertext's level, with `s_i` dropped to the moduli of that level and
    /// `e_i` its sampled smudging noise. The replay guard refuses a second
    /// share for the same session round and participant first; a level above
    /// the parameters' or a ciphertext without a valid `c1` is malformed.
    pub fn create_share(
        &self,
        participant: ParticipantId,
        local_secret_share: &SecretKey,
        ciphertext: &CkksCiphertext,
        replay_guard: &mut ReplayGuard,
        e_i: &Poly,
    ) -> (r: Result<Share, MultipartyError>)
        ensures
            ({
                let session = self@.1;
                let (c, level) = ciphertext@;
                let ring = level_ring(self@.0, level);
                let ok = |p: Rows| poly_in_ring(ring.degree, ring.moduli, p);
                let key = view_replay_key(session, participant@);
                let fresh = !old(replay_guard)@.contains(key);
                let c1_ok = level < self@.0.moduli.len() && c.len() >= 2 && ok(c[1]);
                let s = keep_moduli(local_secret_share@, level + 1 as nat);
                &&& !fresh ==> r == Err::<Share, _>(MultipartyError::ReplayedShare) && final(replay_guard)@
                    == old(replay_guard)@
                &&& fresh ==> final(replay_guard)@ == old(replay_guard)@.insert(key)
                &&& fresh && !c1_ok ==> r == Err::<Share, _>(MultipartyError::MalformedMessage)
                &&& fresh && c1_ok && !ok(s) ==> r == Err::<Share, _>(
                    MultipartyError::InvalidParameters("create_share: c1*s_i failed"),
                )
                &&& fresh && c1_ok && ok(s) && !ok(e_i@) ==> r == Err::<Share, _>(
                    MultipartyError::InvalidParameters("create_share: d_i failed"),
                )
                &&& fresh && c1_ok && ok(s) && ok(e_i@) && !session.participants.contains(participant@) ==> r
                    == Err::<Share, _>(MultipartyError::UnknownParticipant)
                &&& fresh && c1_ok && ok(s) && ok(e_i@) && session.participants.contains(participant@) ==> (
                r matches Ok(share) && share@ == share_for(
                    session,
                    participant@,
                    ShareKind::PartialDecryption,
                    poly_bytes(ckks_decryption_share(c[1], s, e_i@, ring.moduli)),
                ))
            }),
    {
        replay_guard.record_use(&self.session, participant)?;
        let level_params = match self.params.at_level(ciphertext.level()) {
            Some(p) => p,
            None => {
                return Err(MultipartyError::MalformedMessage);
            },
        };
        let ring = level_params.ring();
        let comps = ciphertext.poly().value();
        if comps.len() < 2 {
            return Err(MultipartyError::MalformedMessage);
        }
        let c1 = &comps[1];
        assert(c1@ == ciphertext@.0[1]);
        if ring.check_poly(c1).is_err() {
            return Err(MultipartyError::MalformedMessage);
        }
        let target = ring.moduli().len();
        let sk_value = keep_first_moduli(local_secret_share.value(), target);
        let c1_s_i = match ring.mul(c1, &sk_value) {
            Ok(p) => p,
            Err(_) => {
                return Err(MultipartyError::InvalidParameters("create_share: c1*s_i failed"));
            },
        };
        let d_i = match ring.add(&c1_s_i, e_i) {
            Ok(p) => p,
            Err(_) => {
                return Err(MultipartyError::InvalidParameters("create_share: d_i failed"));
            },
        };
        Share::new(&self.session, participant, ShareKind::PartialDecryption, encode_poly(&d_i))
    }

    /// Combines every collected share with `c0` into the phase
    /// `c0 + sum_i d_i` over the ring of the ciphertext's level.
    pub fn aggregate_plaintext(&self, aggregator: &ShareAggregator, ciphertext: &CkksCiphertext) -> (r: Result<
        Plaintext,
        MultipartyError,
    >)
        ensures
            ({
                let (c, level) = ciphertext@;
                let ring = level_ring(self@.0, level);
                let shares = aggregator.shares_view();
                let ready = shares.len() >= aggregator.session_view().threshold;
                let c0_ok = level < self@.0.moduli.len() && c.len() >= 1 && poly_in_ring(
                    ring.degree,
                    ring.moduli,
                    c[0],
                );
                &&& !c0_ok ==> r == Err::<Plaintext, _>(MultipartyError::MalformedMessage)
                &&& c0_ok && !ready ==> r == Err::<Plaintext, _>(MultipartyError::ThresholdNotMet)
                &&& c0_ok && ready && !polys_carried(ring, shares) ==> r == Err::<Plaintext, _>(
                    MultipartyError::MalformedMessage,
                )
                &&& c0_ok && ready && polys_carried(ring, shares) ==> (r matches Ok(pt) && pt@ == poly_add(
                    c[0],
                    poly_sum(share_polys(ring, shares), ring),
                    ring.moduli,
                ))
            }),
    {
        let level_params = match self.params.at_level(ciphertext.level()) {
            Some(p) => p,
            None => {
                return Err(MultipartyError::MalformedMessage);
            },
        };
        let ring = level_params.ring();
        let comps = ciphertext.poly().value();
        if comps.len() < 1 {
            return Err(MultipartyError::MalformedMessage);
        }
        let c0 = &comps[0];
        assert(c0@ == ciphertext@.0[0]);
        if ring.check_poly(c0).is_err() {
            return Err(MultipartyError::MalformedMessage);
        }
        let shares = aggregator.all_shares()?;
        let d_sum = sum_share_polys(ring, shares.as_slice())?;
        let result = match ring.add(c0, &d_sum) {
            Ok(p) => p,
            Err(_) => {
                return Err(MultipartyError::InvalidParameters("aggregate_plaintext: c0 + d_sum failed"));
            },
        };
        Ok(Plaintext::new(result))
    }
}

} // verus!
