//! Interactive bootstrapping: a collective refresh of a ciphertext's noise.
//!
//! For `(c0, c1)` under `s = sum_i s_i` and the common element `a`,
//! participant `i` with mask `M_i` publishes
//! `h0_i = c1*s_i + t*e0_i - M_i` and `h1_i = t*e1_i - a*s_i + M_i`. The
//! combiner opens the masked plaintext `c0 + sum_i h0_i`, reduces it through
//! the plaintext encoding, and outputs `(unmasked + sum_i h1_i, a)`.

use vstd::prelude::*;

use crate::lattice::rlwe::ciphertext::Ciphertext;
use crate::lattice::rlwe::keys::SecretKey;
use crate::multiparty::common::participant::ParticipantId;
use crate::multiparty::common::randomness::{common_element, derive_common_ring_element};
use crate::multiparty::common::replay_guard::{view_replay_key, ReplayGuard};
use crate::multiparty::common::session::{SessionState, SessionView};
use crate::multiparty::common::shares::{share_for, Share, ShareAggregator, ShareKind};
use crate::multiparty::error::MultipartyError;
use crate::multiparty::mpbgv::accumulate::{
    pairs_carried, share_firsts, share_seconds, sum_share_pairs,
};
use crate::multiparty::mpbgv::params::BgvParams;
use crate::multiparty::mpbgv::wire::{encode_poly_pair, pair_bytes};
use crate::lattice::rlwe::decryptor::{phase, poly_pow};
use crate::ring::algebra::{
    lemma_sum_of_differences, lemma_sum_of_products_right, lemma_sum_of_scaled, lemma_sum_of_sums,
};
use crate::ring::poly::{
    lemma_mul_stays_in_ring, lemma_ring_ops_stay_in_ring, lemma_unary_ops_stay_in_ring, poly_add, poly_in_ring,
    poly_mul, poly_scale, poly_sub, poly_sum, ring_valid, Poly, RingView, Rows,
};

verus! {

/// The purpose under which the common element `a` is derived.
pub const IB_COMMON_A_PURPOSE: &'static str = "phantom-fhe/mpbgv/interactive_bootstrap/a/v1";

/// The common element `a` of a session: every participant derives the same.
pub open spec fn ib_common_a(r: RingView, session: SessionView) -> Rows {
    common_element(r, session.id, vstd::string::StringSliceAdditionalSpecFns::spec_bytes(IB_COMMON_A_PURPOSE))
}

/// `h0_i = c1*s_i + t*e0_i - M_i`.
pub open spec fn refresh_h0(c1: Rows, s: Rows, e0: Rows, mask: Rows, t: u64, moduli: Seq<u64>) -> Rows {
    poly_sub(poly_add(poly_mul(c1, s, moduli), poly_scale(e0, t, moduli), moduli), mask, moduli)
}

/// `h1_i = t*e1_i - a*s_i + M_i`.
pub open spec fn refresh_h1(e1: Rows, a: Rows, s: Rows, mask: Rows, t: u64, moduli: Seq<u64>) -> Rows {
    poly_add(poly_sub(poly_scale(e1, t, moduli), poly_mul(a, s, moduli), moduli), mask, moduli)
}

/// Refresh shares combine into the share of the collective secret: the
/// participants' `h0_i` and `h1_i` sum to `h0` and `h1` built from the sums
/// of their secrets, errors and masks, so the masks `M = sum_i M_i` enter
/// `h0` negated and `h1` as they are.
pub proof fn lemma_refresh_shares_combine(
    r: RingView,
    t: u64,
    c1: Rows,
    a: Rows,
    ss: Seq<Rows>,
    e0s: Seq<Rows>,
    e1s: Seq<Rows>,
    masks: Seq<Rows>,
)
    requires
        ring_valid(r),
        e0s.len() == ss.len(),
        e1s.len() == ss.len(),
        masks.len() == ss.len(),
        poly_in_ring(r.degree, r.moduli, c1),
        poly_in_ring(r.degree, r.moduli, a),
        forall|i: int| 0 <= i < ss.len() ==> poly_in_ring(r.degree, r.moduli, #[trigger] ss[i]),
        forall|i: int| 0 <= i < e0s.len() ==> poly_in_ring(r.degree, r.moduli, #[trigger] e0s[i]),
        forall|i: int| 0 <= i < e1s.len() ==> poly_in_ring(r.degree, r.moduli, #[trigger] e1s[i]),
        forall|i: int| 0 <= i < masks.len() ==> poly_in_ring(r.degree, r.moduli, #[trigger] masks[i]),
    ensures
        ({
            let (m, n) = (r.moduli, ss.len());
            &&& poly_sum(Seq::new(n, |i: int| refresh_h0(c1, ss[i], e0s[i], masks[i], t, m)), r) == refresh_h0(
                c1,
                poly_sum(ss, r),
                poly_sum(e0s, r),
                poly_sum(masks, r),
                t,
                m,
            )
            &&& poly_sum(Seq::new(n, |i: int| refresh_h1(e1s[i], a, ss[i], masks[i], t, m)), r) == refresh_h1(
                poly_sum(e1s, r),
                a,
                poly_sum(ss, r),
                poly_sum(masks, r),
                t,
                m,
            )
        }),
{
    let (m, n) = (r.moduli, ss.len());
    let cs = Seq::new(n, |i: int| poly_mul(c1, ss[i], m));
    let as_ = Seq::new(n, |i: int| poly_mul(a, ss[i], m));
    let te0 = Seq::new(n, |i: int| poly_scale(e0s[i], t, m));
    let te1 = Seq::new(n, |i: int| poly_scale(e1s[i], t, m));
    let first = Seq::new(n, |i: int| poly_add(cs[i], te0[i], m));
    let second = Seq::new(n, |i: int| poly_sub(te1[i], as_[i], m));
    assert forall|i: int| 0 <= i < n implies poly_in_ring(r.degree, m, #[trigger] cs[i]) && poly_in_ring(
        r.degree,
        m,
        as_[i],
    ) && poly_in_ring(r.degree, m, te0[i]) && poly_in_ring(r.degree, m, te1[i]) && poly_in_ring(
        r.degree,
        m,
        first[i],
    ) && poly_in_ring(r.degree, m, second[i]) by {
        lemma_mul_stays_in_ring(r, c1, ss[i]);
        lemma_mul_stays_in_ring(r, a, ss[i]);
        lemma_unary_ops_stay_in_ring(r, e0s[i], t);
        lemma_unary_ops_stay_in_ring(r, e1s[i], t);
        lemma_ring_ops_stay_in_ring(r, cs[i], te0[i]);
        lemma_ring_ops_stay_in_ring(r, te1[i], as_[i]);
    }
    assert(Seq::new(n, |i: int| refresh_h0(c1, ss[i], e0s[i], masks[i], t, m)) =~= Seq::new(
        n,
        |i: int| poly_sub(first[i], masks[i], m),
    ));
    assert(Seq::new(n, |i: int| refresh_h1(e1s[i], a, ss[i], masks[i], t, m)) =~= Seq::new(
        n,
        |i: int| poly_add(second[i], masks[i], m),
    ));
    lemma_sum_of_differences(r, first, masks);
    lemma_sum_of_sums(r, second, masks);
    lemma_sum_of_sums(r, cs, te0);
    lemma_sum_of_differences(r, te1, as_);
    lemma_sum_of_products_right(r, c1, ss);
    lemma_sum_of_products_right(r, a, ss);
    lemma_sum_of_scaled(r, e0s, t);
    lemma_sum_of_scaled(r, e1s, t);
}

/// The residue identity behind a refresh: the mask `mk` and the term `as_`
/// cancel.
proof fn lemma_refresh_residues(c0: int, cs: int, te0: int, mk: int, te1: int, as_: int, q: int)
    requires
        q > 0,
    ensures
        (((c0 + ((cs + te0) % q - mk) % q) % q + ((te1 - as_) % q + mk) % q) % q + as_) % q == ((c0 + cs) % q + (
        te0 + te1) % q) % q,
{
    let l1 = cs + te0;
    let l2 = l1 % q - mk;
    let l3 = c0 + l2 % q;
    let l4 = te1 - as_;
    let l5 = l4 % q + mk;
    let l6 = l3 % q + l5 % q;
    let lhs = l6 % q + as_;
    let n1 = c0 + cs;
    let n2 = te0 + te1;
    let rhs = n1 % q + n2 % q;
    vstd::arithmetic::div_mod::lemma_fundamental_div_mod(l1, q);
    vstd::arithmetic::div_mod::lemma_fundamental_div_mod(l2, q);
    vstd::arithmetic::div_mod::lemma_fundamental_div_mod(l3, q);
    vstd::arithmetic::div_mod::lemma_fundamental_div_mod(l4, q);
    vstd::arithmetic::div_mod::lemma_fundamental_div_mod(l5, q);
    vstd::arithmetic::div_mod::lemma_fundamental_div_mod(l6, q);
    vstd::arithmetic::div_mod::lemma_fundamental_div_mod(n1, q);
    vstd::arithmetic::div_mod::lemma_fundamental_div_mod(n2, q);
    let (c1, c2, c3, c4, c5, c6) = (l1 / q, l2 / q, l3 / q, l4 / q, l5 / q, l6 / q);
    let (g1, g2) = (n1 / q, n2 / q);
    let d = (c1 + c2 + c3 + c4 + c5 + c6) - (g1 + g2);
    assert(q * d == (q * c1 + q * c2 + q * c3 + q * c4 + q * c5 + q * c6) - (q * g1 + q * g2)) by (nonlinear_arith)
        requires
            d == (c1 + c2 + c3 + c4 + c5 + c6) - (g1 + g2),
    ;
    assert(lhs == rhs - q * d);
    vstd::arithmetic::div_mod::lemma_mod_multiples_vanish(-d, rhs, q);
    assert(q * (-d) + rhs == lhs) by (nonlinear_arith)
        requires
            lhs == rhs - q * d,
    ;
}

/// A refresh keeps the phase: when the masked plaintext `c0 + h0` is taken
/// back as it is, the refreshed ciphertext `((c0 + h0) + h1, a)` decrypts
/// under the collective secret `s` to the phase `c0 + c1*s` of the input
/// plus `t*e0 + t*e1`; the masks cancel.
pub proof fn lemma_refresh_phase(
    r: RingView,
    t: u64,
    c0: Rows,
    c1: Rows,
    a: Rows,
    s: Rows,
    e0: Rows,
    e1: Rows,
    mask: Rows,
)
    requires
        ring_valid(r),
        poly_in_ring(r.degree, r.moduli, c0),
        poly_in_ring(r.degree, r.moduli, c1),
        poly_in_ring(r.degree, r.moduli, a),
        poly_in_ring(r.degree, r.moduli, s),
        poly_in_ring(r.degree, r.moduli, e0),
        poly_in_ring(r.degree, r.moduli, e1),
        poly_in_ring(r.degree, r.moduli, mask),
    ensures
        ({
            let m = r.moduli;
            let masked = poly_add(c0, refresh_h0(c1, s, e0, mask, t, m), m);
            let out = seq![poly_add(masked, refresh_h1(e1, a, s, mask, t, m), m), a];
            phase(out, s, m, 2) == poly_add(
                phase(seq![c0, c1], s, m, 2),
                poly_add(poly_scale(e0, t, m), poly_scale(e1, t, m), m),
                m,
            )
        }),
{
    let m = r.moduli;
    let cs = poly_mul(c1, s, m);
    let as_ = poly_mul(a, s, m);
    let te0 = poly_scale(e0, t, m);
    let te1 = poly_scale(e1, t, m);
    lemma_mul_stays_in_ring(r, c1, s);
    lemma_mul_stays_in_ring(r, a, s);
    lemma_unary_ops_stay_in_ring(r, e0, t);
    lemma_unary_ops_stay_in_ring(r, e1, t);
    let masked = poly_add(c0, refresh_h0(c1, s, e0, mask, t, m), m);
    let out = seq![poly_add(masked, refresh_h1(e1, a, s, mask, t, m), m), a];
    assert(poly_pow(s, 1, m) == s);
    assert(phase(out, s, m, 1) == out[0]);
    assert(phase(seq![c0, c1], s, m, 1) == c0);
    let lhs = phase(out, s, m, 2);
    let rhs = poly_add(phase(seq![c0, c1], s, m, 2), poly_add(te0, te1, m), m);
    assert(lhs == poly_add(out[0], as_, m));
    assert(phase(seq![c0, c1], s, m, 2) == poly_add(c0, cs, m));
    assert forall|j: int| 0 <= j < m.len() implies #[trigger] lhs[j] =~= rhs[j] by {
        let q = m[j] as int;
        assert forall|i: int| 0 <= i < r.degree implies #[trigger] lhs[j][i] == rhs[j][i] by {
            lemma_refresh_residues(
                c0[j][i] as int,
                cs[j][i] as int,
                te0[j][i] as int,
                mask[j][i] as int,
                te1[j][i] as int,
                as_[j][i] as int,
                q,
            );
        }
    }
    assert(lhs =~= rhs);
}

/// Interactive bootstrapping in one session.
#[derive(Debug)]
pub struct InteractiveBootstrap {
    params: BgvParams,
    session: SessionState,
    statistical_security_bits: u32,
}

impl View for InteractiveBootstrap {
    type V = ((RingView, u64), SessionView, u32);

    closed spec fn view(&self) -> ((RingView, u64), SessionView, u32) {
        (self.params@, self.session@, self.statistical_security_bits)
    }
}

impl InteractiveBootstrap {
    /// Creates the protocol; `statistical_security_bits` is the security
    /// that the caller sizes its smudging noise for.
    pub fn new(params: BgvParams, session: SessionState, statistical_security_bits: u32) -> (r: Self)
        ensures
            r@ == (params@, session@, statistical_security_bits),
    {
        InteractiveBootstrap { params, session, statistical_security_bits }
    }

    /// Returns the statistical security that the smudging noise is sized for.
    pub fn statistical_security_bits(&self) -> (r: u32)
        ensures
            r == self@.2,
    {
        self.statistical_security_bits
    }

    /// Creates participant `participant`'s share `(h0_i, h1_i)` from its
    /// encoded mask `M_i`, smudging error `e0_i` and error `e1_i`. The
    /// replay guard refuses a second share for the same session round and
    /// participant first; a ciphertext without a valid `c1` is malformed.
    pub fn create_share(
        &self,
        participant: ParticipantId,
        local_secret_share: &SecretKey,
        ciphertext: &Ciphertext,
        replay_guard: &mut ReplayGuard,
        mask_poly: &Poly,
        e0_i: &Poly,
        e1_i: &Poly,
    ) -> (r: Result<Share, MultipartyError>)
        ensures
            ({
                let ring = self@.0.0;
                let t = self@.0.1;
                let session = self@.1;
                let c = ciphertext@;
                let s = local_secret_share@;
                let ok = |p: Rows| poly_in_ring(ring.degree, ring.moduli, p);
                let key = view_replay_key(session, participant@);
                let fresh = !old(replay_guard)@.contains(key);
                let c1_ok = c.len() >= 2 && ok(c[1]);
                &&& !fresh ==> r == Err::<Share, _>(MultipartyError::ReplayedShare) && final(replay_guard)@
                    == old(replay_guard)@
                &&& fresh ==> final(replay_guard)@ == old(replay_guard)@.insert(key)
                &&& fresh && !c1_ok ==> r == Err::<Share, _>(MultipartyError::MalformedMessage)
                &&& fresh && c1_ok && !ok(s) ==> r == Err::<Share, _>(
                    MultipartyError::InvalidParameters("create_share: c1*s_i failed"),
                )
                &&& fresh && c1_ok && ok(s) && !ok(e0_i@) ==> r == Err::<Share, _>(
                    MultipartyError::InvalidParameters("create_share: t*e0_i failed"),
                )
                &&& fresh && c1_ok && ok(s) && ok(e0_i@) && !ok(mask_poly@) ==> r == Err::<Share, _>(
                    MultipartyError::InvalidParameters("create_share: h0_i failed"),
                )
                &&& fresh && c1_ok && ok(s) && ok(e0_i@) && ok(mask_poly@) && !ok(e1_i@) ==> r == Err::<
                    Share,
                    _,
                >(MultipartyError::InvalidParameters("create_share: t*e1_i failed"))
                &&& fresh && c1_ok && ok(s) && ok(e0_i@) && ok(mask_poly@) && ok(e1_i@) ==> (
                !session.participants.contains(participant@) ==> r == Err::<Share, _>(
                    MultipartyError::UnknownParticipant,
                )) && (session.participants.contains(participant@) ==> (r matches Ok(share) && share@
                    == share_for(
                    session,
                    participant@,
                    ShareKind::InteractiveBootstrap,
                    pair_bytes(
                        refresh_h0(c[1], s, e0_i@, mask_poly@, t, ring.moduli),
                        refresh_h1(e1_i@, ib_common_a(ring, session), s, mask_poly@, t, ring.moduli),
                    ),
                )))
            }),
    {
        replay_guard.record_use(&self.session, participant)?;
        let ring = self.params.ring();
        let t = self.params.plaintext_modulus();
        let comps = ciphertext.value();
        if comps.len() < 2 {
            return Err(MultipartyError::MalformedMessage);
        }
        let c1 = &comps[1];
        assert(c1@ == ciphertext@[1]);
        if ring.check_poly(c1).is_err() {
            return Err(MultipartyError::MalformedMessage);
        }
        let a = derive_common_ring_element(ring, &self.session, IB_COMMON_A_PURPOSE.as_bytes());
        let c1_s_i = match ring.mul(c1, local_secret_share.value()) {
            Ok(p) => p,
            Err(_) => {
                return Err(MultipartyError::InvalidParameters("create_share: c1*s_i failed"));
            },
        };
        let t_e0_i = match ring.scalar_mul(e0_i, t) {
            Ok(p) => p,
            Err(_) => {
                return Err(MultipartyError::InvalidParameters("create_share: t*e0_i failed"));
            },
        };
        let noisy = match ring.add(&c1_s_i, &t_e0_i) {
            Ok(p) => p,
            Err(_) => {
                return Err(MultipartyError::InvalidParameters("create_share: h0_i failed"));
            },
        };
        let h0_i = match ring.sub(&noisy, mask_poly) {
            Ok(p) => p,
            Err(_) => {
                return Err(MultipartyError::InvalidParameters("create_share: h0_i failed"));
            },
        };
        let a_s_i = match ring.mul(&a, local_secret_share.value()) {
            Ok(p) => p,
            Err(_) => {
                return Err(MultipartyError::InvalidParameters("create_share: a*s_i failed"));
            },
        };
        let t_e1_i = match ring.scalar_mul(e1_i, t) {
            Ok(p) => p,
            Err(_) => {
                return Err(MultipartyError::InvalidParameters("create_share: t*e1_i failed"));
            },
        };
        let diff = match ring.sub(&t_e1_i, &a_s_i) {
            Ok(p) => p,
            Err(_) => {
                return Err(MultipartyError::InvalidParameters("create_share: h1_i failed"));
            },
        };
        let h1_i = match ring.add(&diff, mask_poly) {
            Ok(p) => p,
            Err(_) => {
                return Err(MultipartyError::InvalidParameters("create_share: h1_i failed"));
            },
        };
        let ghost av = a@;
        assert(h1_i@ == refresh_h1(e1_i@, av, local_secret_share@, mask_poly@, t, ring@.moduli));
        Share::new(
            &self.session,
            participant,
            ShareKind::InteractiveBootstrap,
            encode_poly_pair(&h0_i, &h1_i),
        )
    }

    /// Combines every collected share with `c0`: the masked plaintext
    /// `c0 + sum_i h0_i`, to be reduced through the plaintext encoding, and
    /// `sum_i h1_i`.
    pub fn aggregate_masked(&self, aggregator: &ShareAggregator, ciphertext: &Ciphertext) -> (r: Result<
        (Poly, Poly),
        MultipartyError,
    >)
        ensures
            ({
                let ring = self@.0.0;
                let c = ciphertext@;
                let shares = aggregator.shares_view();
                let ready = shares.len() >= aggregator.session_view().threshold;
                let c0_ok = c.len() >= 1 && poly_in_ring(ring.degree, ring.moduli, c[0]);
                &&& !c0_ok ==> r == Err::<(Poly, Poly), _>(MultipartyError::MalformedMessage)
                &&& c0_ok && !ready ==> r == Err::<(Poly, Poly), _>(MultipartyError::ThresholdNotMet)
                &&& c0_ok && ready && !pairs_carried(ring, shares) ==> r == Err::<(Poly, Poly), _>(
                    MultipartyError::MalformedMessage,
                )
                &&& c0_ok && ready && pairs_carried(ring, shares) ==> (r matches Ok((masked, h1_sum))
                    && masked@ == poly_add(c[0], poly_sum(share_firsts(ring, shares), ring), ring.moduli)
                    && h1_sum@ == poly_sum(share_seconds(ring, shares), ring))
            }),
    {
        let ring = self.params.ring();
        let comps = ciphertext.value();
        if comps.len() < 1 {
            return Err(MultipartyError::MalformedMessage);
        }
        let c0 = &comps[0];
        assert(c0@ == ciphertext@[0]);
        if ring.check_poly(c0).is_err() {
            return Err(MultipartyError::MalformedMessage);
        }
        let shares = aggregator.all_shares()?;
        let (h0_sum, h1_sum) = sum_share_pairs(ring, shares.as_slice())?;
        let masked = match ring.add(c0, &h0_sum) {
            Ok(p) => p,
            Err(_) => {
                return Err(MultipartyError::InvalidParameters("aggregate_refreshed: c0 + h0 failed"));
            },
        };
        Ok((masked, h1_sum))
    }

    /// The refreshed ciphertext `(unmasked + sum_i h1_i, a)`, from the
    /// masked plaintext after its reduction through the plaintext encoding.
    pub fn aggregate_refreshed(&self, unmasked: &Poly, h1_sum: &Poly) -> (r: Result<Ciphertext, MultipartyError>)
        ensures
            ({
                let ring = self@.0.0;
                let both = poly_in_ring(ring.degree, ring.moduli, unmasked@) && poly_in_ring(
                    ring.degree,
                    ring.moduli,
                    h1_sum@,
                );
                &&& !both ==> r == Err::<Ciphertext, _>(
                    MultipartyError::InvalidParameters("aggregate_refreshed: unmasked + h1 failed"),
                )
                &&& both ==> (r matches Ok(ct) && ct@.len() == 2 && ct@[0] == poly_add(
                    unmasked@,
                    h1_sum@,
                    ring.moduli,
                ) && ct@[1] == ib_common_a(ring, self@.1))
            }),
    {
        let ring = self.params.ring();
        let ct0 = match ring.add(unmasked, h1_sum) {
            Ok(p) => p,
            Err(_) => {
                return Err(MultipartyError::InvalidParameters("aggregate_refreshed: unmasked + h1 failed"));
            },
        };
        let a = derive_common_ring_element(ring, &self.session, IB_COMMON_A_PURPOSE.as_bytes());
        let mut v: Vec<Poly> = Vec::with_capacity(2);
        v.push(ct0);
        v.push(a);
        Ok(Ciphertext::new(v))
    }
}

} // verus!
