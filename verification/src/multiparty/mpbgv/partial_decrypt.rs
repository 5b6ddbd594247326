//! Additive n-of-n threshold decryption.
//!
//! For a ciphertext `(c0, c1)` under `s = sum_i s_i`, participant `i`
//! publishes `d_i = c1*s_i + t*e_i` with smudging noise `e_i`; the combiner
//! recovers the plaintext phase `c0 + sum_i d_i`.

use vstd::prelude::*;

use crate::lattice::rlwe::ciphertext::{Ciphertext, Plaintext};
use crate::lattice::rlwe::keys::SecretKey;
use crate::multiparty::common::participant::ParticipantId;
use crate::multiparty::common::replay_guard::{view_replay_key, ReplayGuard};
use crate::multiparty::common::session::{SessionState, SessionView};
use crate::multiparty::common::shares::{share_for, Share, ShareAggregator, ShareKind, ShareView};
use crate::multiparty::error::MultipartyError;
use crate::multiparty::mpbgv::accumulate::{polys_carried, share_polys, sum_share_polys};
use crate::multiparty::mpbgv::params::BgvParams;
use crate::multiparty::mpbgv::wire::{lemma_poly_bytes_round_trip, payload_poly, poly_payload_ok};
use crate::ring::encoding::{encode_poly, poly_bytes};
use crate::lattice::rlwe::decryptor::{phase, poly_pow};
use crate::ring::algebra::{
    lemma_add_associative, lemma_sum_in_ring, lemma_sum_of_products_right, lemma_sum_of_scaled, lemma_sum_of_sums,
};
use crate::ring::poly::{
    lemma_mul_stays_in_ring, lemma_ring_ops_stay_in_ring, lemma_unary_ops_stay_in_ring, poly_add, poly_in_ring,
    poly_mul, poly_scale, poly_sum,
    ring_valid, Poly, RingView, Rows,
};

verus! {

/// Participant `i`'s partial decryption `c1*s_i + t*e_i`.
pub open spec fn decryption_share(c1: Rows, s: Rows, e: Rows, t: u64, moduli: Seq<u64>) -> Rows {
    poly_add(poly_mul(c1, s, moduli), poly_scale(e, t, moduli), moduli)
}

/// Threshold decryption recovers the phase under the collective secret: the
/// shares `c1*s_i + t*e_i` sum to `c1*s + t*e`, so `c0` plus their sum is
/// the single-party phase `c0 + c1*s` of the collective secret
/// `s = sum_i s_i`, plus `t` times the collective error `e = sum_i e_i`.
pub proof fn lemma_threshold_decryption(r: RingView, t: u64, c0: Rows, c1: Rows, ss: Seq<Rows>, es: Seq<Rows>)
    requires
        ring_valid(r),
        ss.len() == es.len(),
        poly_in_ring(r.degree, r.moduli, c0),
        poly_in_ring(r.degree, r.moduli, c1),
        forall|i: int| 0 <= i < ss.len() ==> poly_in_ring(r.degree, r.moduli, #[trigger] ss[i]),
        forall|i: int| 0 <= i < es.len() ==> poly_in_ring(r.degree, r.moduli, #[trigger] es[i]),
    ensures
        ({
            let m = r.moduli;
            let shares = Seq::new(ss.len(), |i: int| decryption_share(c1, ss[i], es[i], t, m));
            &&& poly_sum(shares, r) == decryption_share(c1, poly_sum(ss, r), poly_sum(es, r), t, m)
            &&& poly_add(c0, poly_sum(shares, r), m) == poly_add(
                phase(seq![c0, c1], poly_sum(ss, r), m, 2),
                poly_scale(poly_sum(es, r), t, m),
                m,
            )
        }),
{
    let m = r.moduli;
    let n = ss.len();
    let products = Seq::new(n, |i: int| poly_mul(c1, ss[i], m));
    let scaled = Seq::new(n, |i: int| poly_scale(es[i], t, m));
    assert forall|i: int| 0 <= i < n implies poly_in_ring(r.degree, m, #[trigger] scaled[i]) && poly_in_ring(
        r.degree,
        m,
        products[i],
    ) by {
        lemma_unary_ops_stay_in_ring(r, es[i], t);
        lemma_mul_stays_in_ring(r, c1, ss[i]);
    }
    lemma_sum_of_sums(r, products, scaled);
    assert(Seq::new(n, |i: int| decryption_share(c1, ss[i], es[i], t, m)) =~= Seq::new(
        n,
        |i: int| poly_add(products[i], scaled[i], m),
    ));
    lemma_sum_of_products_right(r, c1, ss);
    lemma_sum_of_scaled(r, es, t);
    let s = poly_sum(ss, r);
    let e = poly_sum(es, r);
    lemma_sum_in_ring(r, ss);
    lemma_sum_in_ring(r, es);
    lemma_unary_ops_stay_in_ring(r, e, t);
    lemma_mul_stays_in_ring(r, c1, s);
    lemma_add_associative(r, c0, poly_mul(c1, s, m), poly_scale(e, t, m));
    let c = seq![c0, c1];
    assert(phase(c, s, m, 1) == c0);
    assert(poly_pow(s, 1, m) == s);
    assert(phase(c, s, m, 2) == poly_add(c0, poly_mul(c1, s, m), m));
}

/// Combining honest shares decrypts under the collective secret: when share
/// `i` carries `c1*s_i + t*e_i`, every share carries a ring element, and
/// `c0` plus their sum is the phase `c0 + c1*s` of the collective secret
/// `s = sum_i s_i` plus `t*e` for `e = sum_i e_i`.
pub proof fn lemma_threshold_decryption_from_shares(
    r: RingView,
    t: u64,
    c0: Rows,
    c1: Rows,
    shares: Seq<ShareView>,
    ss: Seq<Rows>,
    es: Seq<Rows>,
)
    requires
        ring_valid(r),
        r.moduli.len() <= u64::MAX,
        r.degree <= u64::MAX,
        shares.len() == ss.len(),
        ss.len() == es.len(),
        poly_in_ring(r.degree, r.moduli, c0),
        poly_in_ring(r.degree, r.moduli, c1),
        forall|i: int| 0 <= i < ss.len() ==> poly_in_ring(r.degree, r.moduli, #[trigger] ss[i]),
        forall|i: int| 0 <= i < es.len() ==> poly_in_ring(r.degree, r.moduli, #[trigger] es[i]),
        forall|i: int|
            0 <= i < shares.len() ==> (#[trigger] shares[i]).payload == poly_bytes(
                decryption_share(c1, ss[i], es[i], t, r.moduli),
            ),
    ensures
        polys_carried(r, shares),
        poly_add(c0, poly_sum(share_polys(r, shares), r), r.moduli) == poly_add(
            phase(seq![c0, c1], poly_sum(ss, r), r.moduli, 2),
            poly_scale(poly_sum(es, r), t, r.moduli),
            r.moduli,
        ),
{
    let m = r.moduli;
    let ds = Seq::new(ss.len(), |i: int| decryption_share(c1, ss[i], es[i], t, m));
    assert forall|i: int| 0 <= i < shares.len() implies poly_payload_ok(r, #[trigger] shares[i].payload)
        && payload_poly(r, shares[i].payload) == ds[i] by {
        lemma_unary_ops_stay_in_ring(r, es[i], t);
        lemma_mul_stays_in_ring(r, c1, ss[i]);
        lemma_ring_ops_stay_in_ring(r, poly_mul(c1, ss[i], m), poly_scale(es[i], t, m));
        lemma_poly_bytes_round_trip(r, ds[i]);
    }
    assert(share_polys(r, shares) =~= ds);
    lemma_threshold_decryption(r, t, c0, c1, ss, es);
}

/// Threshold decryption in one session.
#[derive(Debug)]
pub struct PartialDecryptor {
    params: BgvParams,
    session: SessionState,
    statistical_security_bits: u32,
}

impl View for PartialDecryptor {
    type V = ((RingView, u64), SessionView, u32);

    closed spec fn view(&self) -> ((RingView, u64), SessionView, u32) {
        (self.params@, self.session@, self.statistical_security_bits)
    }
}

impl PartialDecryptor {
    /// Creates the protocol; `statistical_security_bits` is the security
    /// that the caller sizes its smudging noise for.
    pub fn new(params: BgvParams, session: SessionState, statistical_security_bits: u32) -> (r: Self)
        ensures
            r@ == (params@, session@, statistical_security_bits),
    {
        PartialDecryptor { params, session, statistical_security_bits }
    }

    /// Returns the session.
    pub fn session(&self) -> (r: &SessionState)
        ensures
            r@ == self@.1,
    {
        &self.session
    }

    /// Returns the statistical security that the smudging noise is sized for.
    pub fn statistical_security_bits(&self) -> (r: u32)
        ensures
            r == self@.2,
    {
        self.statistical_security_bits
    }

    /// Creates participant `participant`'s share `d_i = c1*s_i + t*e_i`,
    /// with `e_i` its sampled smudging noise. The replay guard refuses a
    /// second share for the same session round and participant first; a
    /// ciphertext without a valid `c1` is malformed.
    pub fn create_share(
        &self,
        participant: ParticipantId,
        local_secret_share: &SecretKey,
        ciphertext: &Ciphertext,
        replay_guard: &mut ReplayGuard,
        e_i: &Poly,
    ) -> (r: Result<Share, MultipartyError>)
        ensures
            ({
                let ring = self@.0.0;
                let t = self@.0.1;
                let session = self@.1;
                let c = ciphertext@;
                let key = view_replay_key(session, participant@);
                let fresh = !old(replay_guard)@.contains(key);
                let c1_ok = c.len() >= 2 && poly_in_ring(ring.degree, ring.moduli, c[1]);
                let s_ok = poly_in_ring(ring.degree, ring.moduli, local_secret_share@);
                let e_ok = poly_in_ring(ring.degree, ring.moduli, e_i@);
                &&& !fresh ==> r == Err::<Share, _>(MultipartyError::ReplayedShare) && final(replay_guard)@
                    == old(replay_guard)@
                &&& fresh ==> final(replay_guard)@ == old(replay_guard)@.insert(key)
                &&& fresh && !c1_ok ==> r == Err::<Share, _>(MultipartyError::MalformedMessage)
                &&& fresh && c1_ok && !s_ok ==> r == Err::<Share, _>(
                    MultipartyError::InvalidParameters("create_share: c1*s_i failed"),
                )
                &&& fresh && c1_ok && s_ok && !e_ok ==> r == Err::<Share, _>(
                    MultipartyError::InvalidParameters("create_share: t*e_i failed"),
                )
                &&& fresh && c1_ok && s_ok && e_ok && !session.participants.contains(participant@) ==> r
                    == Err::<Share, _>(MultipartyError::UnknownParticipant)
                &&& fresh && c1_ok && s_ok && e_ok && session.participants.contains(participant@) ==> (r matches Ok(
                    share,
                ) && share@ == share_for(
                    session,
                    participant@,
                    ShareKind::PartialDecryption,
                    poly_bytes(decryption_share(c[1], local_secret_share@, e_i@, t, ring.moduli)),
                ))
            }),
    {
        replay_guard.record_use(&self.session, participant)?;
        let ring = self.params.ring();
        let t = self.params.plaintext_modulus();
        let comps = ciphertext.value();
        if comps.len() < 2 {
            return Err(MultipartyError::MalformedMessage);
        }
        let c1 = &comps[1];
        assert(c1@ == ciphertext@[1]);
        if ring.check_poly(c1).is_err() {
            return Err(MultipartyError::MalformedMessage);
        }
        let c1_s_i = match ring.mul(c1, local_secret_share.value()) {
            Ok(p) => p,
            Err(_) => {
                return Err(MultipartyError::InvalidParameters("create_share: c1*s_i failed"));
            },
        };
        let t_e_i = match ring.scalar_mul(e_i, t) {
            Ok(p) => p,
            Err(_) => {
                return Err(MultipartyError::InvalidParameters("create_share: t*e_i failed"));
            },
        };
        let d_i = match ring.add(&c1_s_i, &t_e_i) {
            Ok(p) => p,
            Err(_) => {
                return Err(MultipartyError::InvalidParameters("create_share: d_i failed"));
            },
        };
        Share::new(&self.session, participant, ShareKind::PartialDecryption, encode_poly(&d_i))
    }

    /// Combines every collected share with `c0` into the plaintext phase
    /// `c0 + sum_i d_i`.
    pub fn aggregate_plaintext(&self, aggregator: &ShareAggregator, ciphertext: &Ciphertext) -> (r: Result<
        Plaintext,
        MultipartyError,
    >)
        ensures
            ({
                let ring = self@.0.0;
                let c = ciphertext@;
                let shares = aggregator.shares_view();
                let ready = shares.len() >= aggregator.session_view().threshold;
                let c0_ok = c.len() >= 1 && poly_in_ring(ring.degree, ring.moduli, c[0]);
                &&& !c0_ok ==> r == Err::<Plaintext, _>(MultipartyError::MalformedMessage)
                &&& c0_ok && !ready ==> r == Err::<Plaintext, _>(MultipartyError::ThresholdNotMet)
                &&& c0_ok && ready && !polys_carried(ring, shares) ==> r == Err::<Plaintext, _>(
                    MultipartyError::MalformedMessage,
                )
                &&& c0_ok && ready && polys_carried(ring, shares) ==> (r matches Ok(pt) && pt@ == poly_add(
                    c[0],
                    poly_sum(share_polys(ring, shares), ring),
                    ring.moduli,
                ))
            }),
    {
        let ring = self.params.ring();
        let comps = ciphertext.value();
        if comps.len() < 1 {
            return Err(MultipartyError::MalformedMessage);
        }
        let c0 = &comps[0];
        assert(c0@ == ciphertext@[0]);
        if ring.check_poly(c0).is_err() {
            return Err(MultipartyError::MalformedMessage);
        }
        let shares = aggregator.all_shares()?;
        let d_sum = sum_share_polys(ring, shares.as_slice())?;
        let result = match ring.add(c0, &d_sum) {
            Ok(p) => p,
            Err(_) => {
                return Err(MultipartyError::InvalidParameters("aggregate_plaintext: c0 + d_sum failed"));
            },
        };
        Ok(Plaintext::new(result))
    }
}

} // verus!
