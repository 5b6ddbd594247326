//! Interactive bootstrapping of a CKKS ciphertext at its level.
//!
//! For `(c0, c1)` at level `l` under `s = sum_i s_i` and the common element
//! `a` of the level's ring, participant `i` drops its secret share to the
//! level and, with a mask `M_i` uniform over the whole ring, publishes
//! `h0_i = c1*s_i + e0_i - M_i` and `h1_i = e1_i - a*s_i + M_i`. The
//! combiner outputs `(c0 + sum_i h0_i + sum_i h1_i, a)`: pure ring
//! arithmetic, with no encoding step, so the input's noise stays.

use vstd::prelude::*;

use crate::lattice::rlwe::ciphertext::Ciphertext;
use crate::lattice::rlwe::decryptor::phase;
use crate::lattice::rlwe::keys::SecretKey;
use crate::multiparty::common::participant::ParticipantId;
use crate::multiparty::common::randomness::{common_element, derive_common_ring_element};
use crate::multiparty::common::replay_guard::{view_replay_key, ReplayGuard};
use crate::multiparty::common::session::{SessionState, SessionView};
use crate::multiparty::common::shares::{share_for, Share, ShareAggregator, ShareKind};
use crate::multiparty::error::MultipartyError;
use crate::multiparty::mpbgv::accumulate::{pairs_carried, share_firsts, share_seconds, sum_share_pairs};
use crate::multiparty::mpbgv::interactive_bootstrap::{
    lemma_refresh_phase, lemma_refresh_shares_combine, refresh_h0, refresh_h1,
};
use crate::multiparty::mpbgv::wire::{encode_poly_pair, pair_bytes};
use crate::multiparty::mpckks::ciphertext::CkksCiphertext;
use crate::multiparty::mpckks::params::{level_ring, CkksParams};
use crate::ring::algebra::{lemma_scale_by_one, lemma_sum_in_ring};
use crate::ring::poly::{poly_add, poly_in_ring, poly_mul, poly_sub, poly_sum, ring_valid, Poly, RingView, Rows};
use crate::ring::rescale::{keep_first_moduli, keep_moduli};

verus! {

/// The purpose under which the common element `a` is derived.
pub const CKKS_IB_COMMON_A_PURPOSE: &'static str = "phantom-fhe/mpckks/interactive_bootstrap/a/v1";

/// The common element `a` of a session over a level's ring.
pub open spec fn ckks_ib_common_a(r: RingView, session: SessionView) -> Rows {
    common_element(r, session.id, vstd::string::StringSliceAdditionalSpecFns::spec_bytes(CKKS_IB_COMMON_A_PURPOSE))
}

/// `h0_i = c1*s_i + e0_i - M_i`.
pub open spec fn ckks_refresh_h0(c1: Rows, s: Rows, e0: Rows, mask: Rows, moduli: Seq<u64>) -> Rows {
    poly_sub(poly_add(poly_mul(c1, s, moduli), e0, moduli), mask, moduli)
}

/// `h1_i = e1_i - a*s_i + M_i`.
pub open spec fn ckks_refresh_h1(e1: Rows, a: Rows, s: Rows, mask: Rows, moduli: Seq<u64>) -> Rows {
    poly_add(poly_sub(e1, poly_mul(a, s, moduli), moduli), mask, moduli)
}

/// The CKKS refresh shares are the scaled ones with scale one.
proof fn lemma_refresh_unscaled(r: RingView, c1: Rows, a: Rows, s: Rows, e0: Rows, e1: Rows, mask: Rows)
    requires
        poly_in_ring(r.degree, r.moduli, e0),
        poly_in_ring(r.degree, r.moduli, e1),
    ensures
        ckks_refresh_h0(c1, s, e0, mask, r.moduli) == refresh_h0(c1, s, e0, mask, 1, r.moduli),
        ckks_refresh_h1(e1, a, s, mask, r.moduli) == refresh_h1(e1, a, s, mask, 1, r.moduli),
{
    lemma_scale_by_one(r, e0);
    lemma_scale_by_one(r, e1);
}

/// Refresh shares combine into the share of the collective secret: the
/// participants' `h0_i` and `h1_i` sum to `h0` and `h1` built from the sums
/// of their secrets, errors and masks.
pub proof fn lemma_ckks_refresh_shares_combine(
    r: RingView,
    c1: Rows,
    a: Rows,
    ss: Seq<Rows>,
    e0s: Seq<Rows>,
    e1s: Seq<Rows>,
    masks: Seq<Rows>,
)
    requires
        ring_valid(r),
        e0s.len() == ss.len(),
        e1s.len() == ss.len(),
        masks.len() == ss.len(),
        poly_in_ring(r.degree, r.moduli, c1),
        poly_in_ring(r.degree, r.moduli, a),
        forall|i: int| 0 <= i < ss.len() ==> poly_in_ring(r.degree, r.moduli, #[trigger] ss[i]),
        forall|i: int| 0 <= i < e0s.len() ==> poly_in_ring(r.degree, r.moduli, #[trigger] e0s[i]),
        forall|i: int| 0 <= i < e1s.len() ==> poly_in_ring(r.degree, r.moduli, #[trigger] e1s[i]),
        forall|i: int| 0 <= i < masks.len() ==> poly_in_ring(r.degree, r.moduli, #[trigger] masks[i]),
    ensures
        ({
            let (m, n) = (r.moduli, ss.len());
            &&& poly_sum(Seq::new(n, |i: int| ckks_refresh_h0(c1, ss[i], e0s[i], masks[i], m)), r)
                == ckks_refresh_h0(c1, poly_sum(ss, r), poly_sum(e0s, r), poly_sum(masks, r), m)
            &&& poly_sum(Seq::new(n, |i: int| ckks_refresh_h1(e1s[i], a, ss[i], masks[i], m)), r)
                == ckks_refresh_h1(poly_sum(e1s, r), a, poly_sum(ss, r), poly_sum(masks, r), m)
        }),
{
    let (m, n) = (r.moduli, ss.len());
    let h0s = Seq::new(n, |i: int| ckks_refresh_h0(c1, ss[i], e0s[i], masks[i], m));
    let h1s = Seq::new(n, |i: int| ckks_refresh_h1(e1s[i], a, ss[i], masks[i], m));
    let g0s = Seq::new(n, |i: int| refresh_h0(c1, ss[i], e0s[i], masks[i], 1, m));
    let g1s = Seq::new(n, |i: int| refresh_h1(e1s[i], a, ss[i], masks[i], 1, m));
    assert forall|i: int| #![trigger h0s[i]] #![trigger h1s[i]] 0 <= i < n implies h0s[i] == g0s[i] && h1s[i]
        == g1s[i] by {
        lemma_refresh_unscaled(r, c1, a, ss[i], e0s[i], e1s[i], masks[i]);
    }
    assert(h0s =~= g0s);
    assert(h1s =~= g1s);
    lemma_refresh_shares_combine(r, 1, c1, a, ss, e0s, e1s, masks);
    lemma_sum_in_ring(r, e0s);
    lemma_sum_in_ring(r, e1s);
    lemma_refresh_unscaled(r, c1, a, poly_sum(ss, r), poly_sum(e0s, r), poly_sum(e1s, r), poly_sum(masks, r));
}

/// The refreshed ciphertext decrypts to the input's phase: the output
/// `(c0 + h0 + h1, a)` has, under `s`, the phase `c0 + c1*s` of the input
/// plus `e0 + e1`; the mask cancels.
pub proof fn lemma_ckks_refresh_phase(
    r: RingView,
    c0: Rows,
    c1: Rows,
    a: Rows,
    s: Rows,
    e0: Rows,
    e1: Rows,
    mask: Rows,
)
    requires
        ring_valid(r),
        poly_in_ring(r.degree, r.moduli, c0),
        poly_in_ring(r.degree, r.moduli, c1),
        poly_in_ring(r.degree, r.moduli, a),
        poly_in_ring(r.degree, r.moduli, s),
        poly_in_ring(r.degree, r.moduli, e0),
        poly_in_ring(r.degree, r.moduli, e1),
        poly_in_ring(r.degree, r.moduli, mask),
    ensures
        ({
            let m = r.moduli;
            let masked = poly_add(c0, ckks_refresh_h0(c1, s, e0, mask, m), m);
            let out = seq![poly_add(masked, ckks_refresh_h1(e1, a, s, mask, m), m), a];
            phase(out, s, m, 2) == poly_add(phase(seq![c0, c1], s, m, 2), poly_add(e0, e1, m), m)
        }),
{
    lemma_refresh_unscaled(r, c1, a, s, e0, e1, mask);
    lemma_refresh_phase(r, 1, c0, c1, a, s, e0, e1, mask);
    lemma_scale_by_one(r, e0);
    lemma_scale_by_one(r, e1);
}

/// Interactive bootstrapping of CKKS ciphertexts in one session.
#[derive(Debug)]
pub struct InteractiveBootstrap {
    params: CkksParams,
    session: SessionState,
    statistical_security_bits: u32,
}

impl View for InteractiveBootstrap {
    type V = (RingView, SessionView, u32);

    closed spec fn view(&self) -> (RingView, SessionView, u32) {
        (self.params@, self.session@, self.statistical_security_bits)
    }
}

impl InteractiveBootstrap {
    /// Creates the protocol; `statistical_security_bits` is the security
    /// that the caller sizes its smudging noise for.
    pub fn new(params: CkksParams, session: SessionState, statistical_security_bits: u32) -> (r: Self)
        ensures
            r@ == (params@, session@, statistical_security_bits),
    {
        InteractiveBootstrap { params, session, statistical_security_bits }
    }

    /// Returns the statistical security that the smudging noise is sized for.
    pub fn statistical_security_bits(&self) -> (r: u32)
        ensures
            r == self@.2,
    {
        self.statistical_security_bits
    }

    /// Returns the session.
    pub fn session(&self) -> (r: &SessionState)
        ensures
            r@ == self@.1,
    {
        &self.session
    }

    /// Creates participant `participant`'s share `(h0_i, h1_i)` at the
    /// ciphertext's level from its uniform mask `M_i`, smudging error `e0_i`
    /// and error `e1_i`, with its secret share dropped to the moduli of the
    /// level. The replay guard refuses a second share for the same session
    /// round and participant first; a level above the parameters' or a
    /// ciphertext without a valid `c1` is malformed.
    pub fn create_share(
        &self,
        participant: ParticipantId,
        local_secret_share: &SecretKey,
        ciphertext: &CkksCiphertext,
        replay_guard: &mut ReplayGuard,
        mask: &Poly,
        e0_i: &Poly,
        e1_i: &Poly,
    ) -> (r: Result<Share, MultipartyError>)
        ensures
            ({
                let session = self@.1;
                let (c, level) = ciphertext@;
                let ring = level_ring(self@.0, level);
                let ok = |p: Rows| poly_in_ring(ring.degree, ring.moduli, p);
                let key = view_replay_key(session, participant@);
                let fresh = !old(replay_guard)@.contains(key);
                let c1_ok = level < self@.0.moduli.len() && c.len() >= 2 && ok(c[1]);
                let s = keep_moduli(local_secret_share@, level + 1 as nat);
                &&& !fresh ==> r == Err::<Share, _>(MultipartyError::ReplayedShare) && final(replay_guard)@
                    == old(replay_guard)@
                &&& fresh ==> final(replay_guard)@ == old(replay_guard)@.insert(key)
                &&& fresh && !c1_ok ==> r == Err::<Share, _>(MultipartyError::MalformedMessage)
                &&& fresh && c1_ok && !ok(s) ==> r == Err::<Share, _>(
                    MultipartyError::InvalidParameters("create_share: c1*s_i failed"),
                )
                &&& fresh && c1_ok && ok(s) && !(ok(e0_i@) && ok(mask@)) ==> r == Err::<Share, _>(
                    MultipartyError::InvalidParameters("create_share: h0_i failed"),
                )
                &&& fresh && c1_ok && ok(s) && ok(e0_i@) && ok(mask@) && !ok(e1_i@) ==> r == Err::<Share, _>(
                    MultipartyError::InvalidParameters("create_share: h1_i failed"),
                )
                &&& fresh && c1_ok && ok(s) && ok(e0_i@) && ok(mask@) && ok(e1_i@) ==> (
                !session.participants.contains(participant@) ==> r == Err::<Share, _>(
                    MultipartyError::UnknownParticipant,
                )) && (session.participants.contains(participant@) ==> (r matches Ok(share) && share@
                    == share_for(
                    session,
                    participant@,
                    ShareKind::InteractiveBootstrap,
                    pair_bytes(
                        ckks_refresh_h0(c[1], s, e0_i@, mask@, ring.moduli),
                        ckks_refresh_h1(e1_i@, ckks_ib_common_a(ring, session), s, mask@, ring.moduli),
                    ),
                )))
            }),
    {
        replay_guard.record_use(&self.session, participant)?;
        let level_params = match self.params.at_level(ciphertext.level()) {
            Some(p) => p,
            None => {
                return Err(MultipartyError::MalformedMessage);
            },
        };
        let ring = level_params.ring();
        let comps = ciphertext.poly().value();
        if comps.len() < 2 {
            return Err(MultipartyError::MalformedMessage);
        }
        let c1 = &comps[1];
        assert(c1@ == ciphertext@.0[1]);
        if ring.check_poly(c1).is_err() {
            return Err(MultipartyError::MalformedMessage);
        }
        let target = ring.moduli().len();
        let sk_value = keep_first_moduli(local_secret_share.value(), target);
        let a = derive_common_ring_element(ring, &self.session, CKKS_IB_COMMON_A_PURPOSE.as_bytes());
        let c1_s_i = match ring.mul(c1, &sk_value) {
            Ok(p) => p,
            Err(_) => {
                return Err(MultipartyError::InvalidParameters("create_share: c1*s_i failed"));
            },
        };
        let noisy = match ring.add(&c1_s_i, e0_i) {
            Ok(p) => p,
            Err(_) => {
                return Err(MultipartyError::InvalidParameters("create_share: h0_i failed"));
            },
        };
        let h0_i = match ring.sub(&noisy, mask) {
            Ok(p) => p,
            Err(_) => {
                return Err(MultipartyError::InvalidParameters("create_share: h0_i failed"));
            },
        };
        let a_s_i = match ring.mul(&a, &sk_value) {
            Ok(p) => p,
            Err(_) => {
                return Err(MultipartyError::InvalidParameters("create_share: a*s_i failed"));
            },
        };
        let diff = match ring.sub(e1_i, &a_s_i) {
            Ok(p) => p,
            Err(_) => {
                return Err(MultipartyError::InvalidParameters("create_share: h1_i failed"));
            },
        };
        let h1_i = match ring.add(&diff, mask) {
            Ok(p) => p,
            Err(_) => {
                return Err(MultipartyError::InvalidParameters("create_share: h1_i failed"));
            },
        };
        Share::new(
            &self.session,
            participant,
            ShareKind::InteractiveBootstrap,
            encode_poly_pair(&h0_i, &h1_i),
        )
    }

    /// Combines every collected share with `c0` into the refreshed
    /// ciphertext `(c0 + sum_i h0_i + sum_i h1_i, a)` at the input's level.
    pub fn aggregate_refreshed(&self, aggregator: &ShareAggregator, ciphertext: &CkksCiphertext) -> (r: Result<
        CkksCiphertext,
        MultipartyError,
    >)
        ensures
            ({
                let (c, level) = ciphertext@;
                let ring = level_ring(self@.0, level);
                let shares = aggregator.shares_view();
                let ready = shares.len() >= aggregator.session_view().threshold;
                let c0_ok = level < self@.0.moduli.len() && c.len() >= 1 && poly_in_ring(
                    ring.degree,
                    ring.moduli,
                    c[0],
                );
                &&& !c0_ok ==> r == Err::<CkksCiphertext, _>(MultipartyError::MalformedMessage)
                &&& c0_ok && !ready ==> r == Err::<CkksCiphertext, _>(MultipartyError::ThresholdNotMet)
                &&& c0_ok && ready && !pairs_carried(ring, shares) ==> r == Err::<CkksCiphertext, _>(
                    MultipartyError::MalformedMessage,
                )
                &&& c0_ok && ready && pairs_carried(ring, shares) ==> (r matches Ok(out) && out@ == (
                seq![
                    poly_add(
                        poly_add(c[0], poly_sum(share_firsts(ring, shares), ring), ring.moduli),
                        poly_sum(share_seconds(ring, shares), ring),
                        ring.moduli,
                    ),
                    ckks_ib_common_a(ring, self@.1),
                ],
                level,
                ))
            }),
    {
        let level_params = match self.params.at_level(ciphertext.level()) {
            Some(p) => p,
            None => {
                return Err(MultipartyError::MalformedMessage);
            },
        };
        let ring = level_params.ring();
        let comps = ciphertext.poly().value();
        if comps.len() < 1 {
            return Err(MultipartyError::MalformedMessage);
        }
        let c0 = &comps[0];
        assert(c0@ == ciphertext@.0[0]);
        if ring.check_poly(c0).is_err() {
            return Err(MultipartyError::MalformedMessage);
        }
        let shares = aggregator.all_shares()?;
        let (h0_sum, h1_sum) = sum_share_pairs(ring, shares.as_slice())?;
        let masked = match ring.add(c0, &h0_sum) {
            Ok(p) => p,
            Err(_) => {
                return Err(MultipartyError::InvalidParameters("aggregate_refreshed: c0 + h0 + h1 failed"));
            },
        };
        let ct0 = match ring.add(&masked, &h1_sum) {
            Ok(p) => p,
            Err(_) => {
                return Err(MultipartyError::InvalidParameters("aggregate_refreshed: c0 + h0 + h1 failed"));
            },
        };
        let a = derive_common_ring_element(ring, &self.session, CKKS_IB_COMMON_A_PURPOSE.as_bytes());
        let mut v: Vec<Poly> = Vec::with_capacity(2);
        v.push(ct0);
        v.push(a);
        let out = CkksCiphertext::new(Ciphertext::new(v), ciphertext.level());
        Ok(out)
    }
}

} // verus!
