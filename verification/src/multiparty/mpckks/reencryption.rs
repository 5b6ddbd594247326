//! Collective public-key switching of a CKKS ciphertext at its level.
//!
//! For a ciphertext `(c0, c1)` at level `l` under `s = sum_i s_i` and a
//! recipient key `(b_r, a_r)`, every key is first dropped to the `l + 1`
//! moduli of the level. Participant `i` publishes
//! `h0_i = u_i*b_r + e0_i + s_i*c1` and `h1_i = u_i*a_r + e1_i`; the
//! re-encrypted ciphertext is `(c0 + sum_i h0_i, sum_i h1_i)` at the same
//! level. The smudging noise is not rounded away: it costs precision.

use vstd::prelude::*;

use crate::lattice::rlwe::ciphertext::Ciphertext;
use crate::lattice::rlwe::decryptor::phase;
use crate::lattice::rlwe::keygen::public_key_of;
use crate::lattice::rlwe::keys::{PublicKey, SecretKey};
use crate::multiparty::common::participant::ParticipantId;
use crate::multiparty::common::replay_guard::{view_replay_key, ReplayGuard};
use crate::multiparty::common::session::{SessionState, SessionView};
use crate::multiparty::common::shares::{share_for, Share, ShareAggregator, ShareKind};
use crate::multiparty::error::MultipartyError;
use crate::multiparty::mpbgv::accumulate::{pairs_carried, share_firsts, share_seconds, sum_share_pairs};
use crate::multiparty::mpbgv::reencryption::{
    lemma_reencryption_phase, lemma_reencryption_shares_combine, pcks_h0, pcks_h1,
};
use crate::multiparty::mpbgv::wire::{encode_poly_pair, pair_bytes};
use crate::multiparty::mpckks::ciphertext::CkksCiphertext;
use crate::multiparty::mpckks::params::{level_ring, CkksParams};
use crate::ring::algebra::{lemma_scale_by_one, lemma_sum_in_ring};
use crate::ring::poly::{
    poly_add, poly_in_ring, poly_mul, poly_sub, poly_sum, ring_valid, Poly, RingView, Rows,
};
use crate::ring::rescale::{keep_first_moduli, keep_moduli};

verus! {

/// `h0_i = u_i*b_r + e0_i + s_i*c1`.
pub open spec fn ckks_pcks_h0(u: Rows, b: Rows, e0: Rows, s: Rows, c1: Rows, moduli: Seq<u64>) -> Rows {
    poly_add(poly_add(poly_mul(u, b, moduli), e0, moduli), poly_mul(s, c1, moduli), moduli)
}

/// `h1_i = u_i*a_r + e1_i`.
pub open spec fn ckks_pcks_h1(u: Rows, a: Rows, e1: Rows, moduli: Seq<u64>) -> Rows {
    poly_add(poly_mul(u, a, moduli), e1, moduli)
}

/// The CKKS shares are the scaled ones with scale one.
proof fn lemma_pcks_unscaled(r: RingView, u: Rows, b: Rows, a: Rows, e0: Rows, e1: Rows, s: Rows, c1: Rows)
    requires
        poly_in_ring(r.degree, r.moduli, e0),
        poly_in_ring(r.degree, r.moduli, e1),
    ensures
        ckks_pcks_h0(u, b, e0, s, c1, r.moduli) == pcks_h0(u, b, e0, s, c1, 1, r.moduli),
        ckks_pcks_h1(u, a, e1, r.moduli) == pcks_h1(u, a, e1, 1, r.moduli),
{
    lemma_scale_by_one(r, e0);
    lemma_scale_by_one(r, e1);
}

/// Re-encryption shares combine into the share of the collective secret:
/// the participants' `h0_i = u_i*b_r + e0_i + s_i*c1` and
/// `h1_i = u_i*a_r + e1_i` sum to `h0` and `h1` built from the sums of their
/// masks, errors and secret shares.
pub proof fn lemma_ckks_reencryption_shares_combine(
    r: RingView,
    recipient: (Rows, Rows),
    c1: Rows,
    us: Seq<Rows>,
    e0s: Seq<Rows>,
    e1s: Seq<Rows>,
    ss: Seq<Rows>,
)
    requires
        ring_valid(r),
        e0s.len() == us.len(),
        e1s.len() == us.len(),
        ss.len() == us.len(),
        poly_in_ring(r.degree, r.moduli, recipient.0),
        poly_in_ring(r.degree, r.moduli, recipient.1),
        poly_in_ring(r.degree, r.moduli, c1),
        forall|i: int| 0 <= i < us.len() ==> poly_in_ring(r.degree, r.moduli, #[trigger] us[i]),
        forall|i: int| 0 <= i < e0s.len() ==> poly_in_ring(r.degree, r.moduli, #[trigger] e0s[i]),
        forall|i: int| 0 <= i < e1s.len() ==> poly_in_ring(r.degree, r.moduli, #[trigger] e1s[i]),
        forall|i: int| 0 <= i < ss.len() ==> poly_in_ring(r.degree, r.moduli, #[trigger] ss[i]),
    ensures
        ({
            let (m, n) = (r.moduli, us.len());
            let (b, a) = recipient;
            &&& poly_sum(Seq::new(n, |i: int| ckks_pcks_h0(us[i], b, e0s[i], ss[i], c1, m)), r) == ckks_pcks_h0(
                poly_sum(us, r),
                b,
                poly_sum(e0s, r),
                poly_sum(ss, r),
                c1,
                m,
            )
            &&& poly_sum(Seq::new(n, |i: int| ckks_pcks_h1(us[i], a, e1s[i], m)), r) == ckks_pcks_h1(
                poly_sum(us, r),
                a,
                poly_sum(e1s, r),
                m,
            )
        }),
{
    let (m, n) = (r.moduli, us.len());
    let (b, a) = recipient;
    let h0s = Seq::new(n, |i: int| ckks_pcks_h0(us[i], b, e0s[i], ss[i], c1, m));
    let h1s = Seq::new(n, |i: int| ckks_pcks_h1(us[i], a, e1s[i], m));
    let g0s = Seq::new(n, |i: int| pcks_h0(us[i], b, e0s[i], ss[i], c1, 1, m));
    let g1s = Seq::new(n, |i: int| pcks_h1(us[i], a, e1s[i], 1, m));
    assert forall|i: int| #![trigger h0s[i]] #![trigger h1s[i]] 0 <= i < n implies h0s[i] == g0s[i] && h1s[i] == g1s[i] by {
        lemma_pcks_unscaled(r, us[i], b, a, e0s[i], e1s[i], ss[i], c1);
    }
    assert(h0s =~= g0s);
    assert(h1s =~= g1s);
    lemma_reencryption_shares_combine(r, 1, recipient, c1, us, e0s, e1s, ss);
    lemma_sum_in_ring(r, e0s);
    lemma_sum_in_ring(r, e1s);
    lemma_pcks_unscaled(r, poly_sum(us, r), b, a, poly_sum(e0s, r), poly_sum(e1s, r), poly_sum(ss, r), c1);
}

/// Re-encryption moves a CKKS ciphertext to the recipient's key: for a
/// recipient key `(-(a*s_r + e_r), a)` and the summed shares, the output
/// `(c0 + h0, h1)` decrypts under `s_r` to the phase `c0 + c1*s` of the
/// input under the collective secret `s`, plus `e0 + e1*s_r - u*e_r`.
pub proof fn lemma_ckks_reencryption_phase(
    r: RingView,
    c0: Rows,
    c1: Rows,
    s: Rows,
    s_r: Rows,
    a: Rows,
    e_r: Rows,
    u: Rows,
    e0: Rows,
    e1: Rows,
)
    requires
        ring_valid(r),
        poly_in_ring(r.degree, r.moduli, c0),
        poly_in_ring(r.degree, r.moduli, c1),
        poly_in_ring(r.degree, r.moduli, s),
        poly_in_ring(r.degree, r.moduli, s_r),
        poly_in_ring(r.degree, r.moduli, a),
        poly_in_ring(r.degree, r.moduli, e_r),
        poly_in_ring(r.degree, r.moduli, u),
        poly_in_ring(r.degree, r.moduli, e0),
        poly_in_ring(r.degree, r.moduli, e1),
    ensures
        ({
            let m = r.moduli;
            let (b, a_r) = public_key_of(s_r, a, e_r, m);
            let out = seq![poly_add(c0, ckks_pcks_h0(u, b, e0, s, c1, m), m), ckks_pcks_h1(u, a_r, e1, m)];
            phase(out, s_r, m, 2) == poly_add(
                phase(seq![c0, c1], s, m, 2),
                poly_sub(poly_add(e0, poly_mul(e1, s_r, m), m), poly_mul(u, e_r, m), m),
                m,
            )
        }),
{
    let m = r.moduli;
    let (b, a_r) = public_key_of(s_r, a, e_r, m);
    lemma_pcks_unscaled(r, u, b, a_r, e0, e1, s, c1);
    lemma_reencryption_phase(r, 1, c0, c1, s, s_r, a, e_r, u, e0, e1);
    lemma_scale_by_one(r, e0);
    lemma_scale_by_one(r, e1);
}

/// Re-encryption of CKKS ciphertexts in one session.
#[derive(Debug)]
pub struct ReEncryptor {
    params: CkksParams,
    session: SessionState,
    statistical_security_bits: u32,
}

impl View for ReEncryptor {
    type V = (RingView, SessionView, u32);

    closed spec fn view(&self) -> (RingView, SessionView, u32) {
        (self.params@, self.session@, self.statistical_security_bits)
    }
}

impl ReEncryptor {
    /// Creates the protocol; `statistical_security_bits` is the security
    /// that the caller sizes its smudging noise for.
    pub fn new(params: CkksParams, session: SessionState, statistical_security_bits: u32) -> (r: Self)
        ensures
            r@ == (params@, session@, statistical_security_bits),
    {
        ReEncryptor { params, session, statistical_security_bits }
    }

    /// Returns the statistical security that the smudging noise is sized for.
    pub fn statistical_security_bits(&self) -> (r: u32)
        ensures
            r == self@.2,
    {
        self.statistical_security_bits
    }

    /// Returns the session.
    pub fn session(&self) -> (r: &SessionState)
        ensures
            r@ == self@.1,
    {
        &self.session
    }

    /// Creates participant `participant`'s share `(h0_i, h1_i)` at the
    /// ciphertext's level from its sampled ternary `u_i` and smudging
    /// errors `e0_i`, `e1_i`, with its secret share and the recipient key
    /// dropped to the moduli of the level. The replay guard refuses a second
    /// share for the same session round and participant first; a level above
    /// the parameters' or a ciphertext without a valid `c1` is malformed;
    /// otherwise the first product or sum that fails names the failure.
    pub fn create_share(
        &self,
        participant: ParticipantId,
        local_secret_share: &SecretKey,
        ciphertext: &CkksCiphertext,
        recipient_public_key: &PublicKey,
        replay_guard: &mut ReplayGuard,
        u_i: &Poly,
        e0_i: &Poly,
        e1_i: &Poly,
    ) -> (r: Result<Share, MultipartyError>)
        ensures
            ({
                let session = self@.1;
                let (c, level) = ciphertext@;
                let ring = level_ring(self@.0, level);
                let ok = |p: Rows| poly_in_ring(ring.degree, ring.moduli, p);
                let key = view_replay_key(session, participant@);
                let fresh = !old(replay_guard)@.contains(key);
                let c1_ok = level < self@.0.moduli.len() && c.len() >= 2 && ok(c[1]);
                let s = keep_moduli(local_secret_share@, level + 1 as nat);
                let b = keep_moduli(recipient_public_key@.0, level + 1 as nat);
                let a = keep_moduli(recipient_public_key@.1, level + 1 as nat);
                &&& !fresh ==> r == Err::<Share, _>(MultipartyError::ReplayedShare) && final(replay_guard)@
                    == old(replay_guard)@
                &&& fresh ==> final(replay_guard)@ == old(replay_guard)@.insert(key)
                &&& fresh && !c1_ok ==> r == Err::<Share, _>(MultipartyError::MalformedMessage)
                &&& fresh && c1_ok && !(ok(u_i@) && ok(b)) ==> r == Err::<Share, _>(
                    MultipartyError::InvalidParameters("create_share: u_i*b_r failed"),
                )
                &&& fresh && c1_ok && ok(u_i@) && ok(b) && !ok(s) ==> r == Err::<Share, _>(
                    MultipartyError::InvalidParameters("create_share: s_i*c1 failed"),
                )
                &&& fresh && c1_ok && ok(u_i@) && ok(b) && ok(s) && !ok(e0_i@) ==> r == Err::<Share, _>(
                    MultipartyError::InvalidParameters("create_share: h0_i failed"),
                )
                &&& fresh && c1_ok && ok(u_i@) && ok(b) && ok(s) && ok(e0_i@) && !ok(a) ==> r == Err::<
                    Share,
                    _,
                >(MultipartyError::InvalidParameters("create_share: u_i*a_r failed"))
                &&& fresh && c1_ok && ok(u_i@) && ok(b) && ok(s) && ok(e0_i@) && ok(a) && !ok(e1_i@) ==> r
                    == Err::<Share, _>(MultipartyError::InvalidParameters("create_share: h1_i failed"))
                &&& fresh && c1_ok && ok(u_i@) && ok(b) && ok(s) && ok(e0_i@) && ok(a) && ok(e1_i@) ==> (
                !session.participants.contains(participant@) ==> r == Err::<Share, _>(
                    MultipartyError::UnknownParticipant,
                )) && (session.participants.contains(participant@) ==> (r matches Ok(share) && share@
                    == share_for(
                    session,
                    participant@,
                    ShareKind::ReEncryption,
                    pair_bytes(
                        ckks_pcks_h0(u_i@, b, e0_i@, s, c[1], ring.moduli),
                        ckks_pcks_h1(u_i@, a, e1_i@, ring.moduli),
                    ),
                )))
            }),
    {
        replay_guard.record_use(&self.session, participant)?;
        let level_params = match self.params.at_level(ciphertext.level()) {
            Some(p) => p,
            None => {
                return Err(MultipartyError::MalformedMessage);
            },
        };
        let ring = level_params.ring();
        let comps = ciphertext.poly().value();
        if comps.len() < 2 {
            return Err(MultipartyError::MalformedMessage);
        }
        let c1 = &comps[1];
        assert(c1@ == ciphertext@.0[1]);
        if ring.check_poly(c1).is_err() {
            return Err(MultipartyError::MalformedMessage);
        }
        let target = ring.moduli().len();
        let sk_value = keep_first_moduli(local_secret_share.value(), target);
        let keys = recipient_public_key.value();
        let b_r = keep_first_moduli(&keys[0], target);
        let a_r = keep_first_moduli(&keys[1], target);
        let u_b_r = match ring.mul(u_i, &b_r) {
            Ok(p) => p,
            Err(_) => {
                return Err(MultipartyError::InvalidParameters("create_share: u_i*b_r failed"));
            },
        };
        let s_i_c1 = match ring.mul(&sk_value, c1) {
            Ok(p) => p,
            Err(_) => {
                return Err(MultipartyError::InvalidParameters("create_share: s_i*c1 failed"));
            },
        };
        let partial = match ring.add(&u_b_r, e0_i) {
            Ok(p) => p,
            Err(_) => {
                return Err(MultipartyError::InvalidParameters("create_share: h0_i failed"));
            },
        };
        let h0_i = match ring.add(&partial, &s_i_c1) {
            Ok(p) => p,
            Err(_) => {
                return Err(MultipartyError::InvalidParameters("create_share: h0_i failed"));
            },
        };
        let u_a_r = match ring.mul(u_i, &a_r) {
            Ok(p) => p,
            Err(_) => {
                return Err(MultipartyError::InvalidParameters("create_share: u_i*a_r failed"));
            },
        };
        let h1_i = match ring.add(&u_a_r, e1_i) {
            Ok(p) => p,
            Err(_) => {
                return Err(MultipartyError::InvalidParameters("create_share: h1_i failed"));
            },
        };
        Share::new(&self.session, participant, ShareKind::ReEncryption, encode_poly_pair(&h0_i, &h1_i))
    }

    /// Combines every collected share with `c0` into the re-encrypted
    /// ciphertext `(c0 + sum_i h0_i, sum_i h1_i)` at the input's level.
    pub fn aggregate_ciphertext(&self, aggregator: &ShareAggregator, ciphertext: &CkksCiphertext) -> (r: Result<
        CkksCiphertext,
        MultipartyError,
    >)
        ensures
            ({
                let (c, level) = ciphertext@;
                let ring = level_ring(self@.0, level);
                let shares = aggregator.shares_view();
                let ready = shares.len() >= aggregator.session_view().threshold;
                let c0_ok = level < self@.0.moduli.len() && c.len() >= 1 && poly_in_ring(
                    ring.degree,
                    ring.moduli,
                    c[0],
                );
                &&& !c0_ok ==> r == Err::<CkksCiphertext, _>(MultipartyError::MalformedMessage)
                &&& c0_ok && !ready ==> r == Err::<CkksCiphertext, _>(MultipartyError::ThresholdNotMet)
                &&& c0_ok && ready && !pairs_carried(ring, shares) ==> r == Err::<CkksCiphertext, _>(
                    MultipartyError::MalformedMessage,
                )
                &&& c0_ok && ready && pairs_carried(ring, shares) ==> (r matches Ok(out) && out@ == (
                seq![
                    poly_add(c[0], poly_sum(share_firsts(ring, shares), ring), ring.moduli),
                    poly_sum(share_seconds(ring, shares), ring),
                ],
                level,
                ))
            }),
    {
        let level_params = match self.params.at_level(ciphertext.level()) {
            Some(p) => p,
            None => {
                return Err(MultipartyError::MalformedMessage);
            },
        };
        let ring = level_params.ring();
        let comps = ciphertext.poly().value();
        if comps.len() < 1 {
            return Err(MultipartyError::MalformedMessage);
        }
        let c0 = &comps[0];
        assert(c0@ == ciphertext@.0[0]);
        if ring.check_poly(c0).is_err() {
            return Err(MultipartyError::MalformedMessage);
        }
        let shares = aggregator.all_shares()?;
        let (h0_sum, h1_sum) = sum_share_pairs(ring, shares.as_slice())?;
        let out0 = match ring.add(c0, &h0_sum) {
            Ok(p) => p,
            Err(_) => {
                return Err(MultipartyError::InvalidParameters("aggregate_ciphertext: c0 + h0_sum failed"));
            },
        };
        let mut v: Vec<Poly> = Vec::with_capacity(2);
        v.push(out0);
        v.push(h1_sum);
        let out = CkksCiphertext::new(Ciphertext::new(v), ciphertext.level());
        assert(out@.0 =~= seq![
            poly_add(ciphertext@.0[0], poly_sum(share_firsts(ring@, aggregator.shares_view()), ring@), ring@.moduli),
            poly_sum(share_seconds(ring@, aggregator.shares_view()), ring@),
        ]);
        Ok(out)
    }
}

} // verus!
