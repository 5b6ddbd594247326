//! Collective public-key switching (re-encryption to a recipient's key).
//!
//! For a ciphertext `(c0, c1)` under `s = sum_i s_i` and a recipient key
//! `(b_r, a_r)`, participant `i` publishes
//! `h0_i = u_i*b_r + t*e0_i + s_i*c1` and `h1_i = u_i*a_r + t*e1_i`; the
//! re-encrypted ciphertext is `(c0 + sum_i h0_i, sum_i h1_i)`.

use vstd::prelude::*;

use crate::lattice::rlwe::ciphertext::Ciphertext;
use crate::lattice::rlwe::keys::{PublicKey, SecretKey};
use crate::multiparty::common::participant::ParticipantId;
use crate::multiparty::common::session::{SessionState, SessionView};
use crate::multiparty::common::shares::{share_for, Share, ShareAggregator, ShareKind};
use crate::multiparty::error::MultipartyError;
use crate::multiparty::mpbgv::accumulate::{
    pairs_carried, share_firsts, share_seconds, sum_share_pairs,
};
use crate::multiparty::mpbgv::params::BgvParams;
use crate::multiparty::mpbgv::wire::{encode_poly_pair, pair_bytes};
use crate::lattice::rlwe::decryptor::{phase, poly_pow};
use crate::lattice::rlwe::keygen::public_key_of;
use crate::ring::algebra::{
    lemma_mul_associative, lemma_mul_commutative, lemma_mul_distributes_over_add,
    lemma_mul_distributes_over_add_left, lemma_mul_neg_left, lemma_sum_of_products_left, lemma_sum_of_scaled,
    lemma_sum_of_sums,
};
use crate::ring::poly::{
    lemma_mul_stays_in_ring, lemma_ring_ops_stay_in_ring, lemma_unary_ops_stay_in_ring, poly_add, poly_in_ring,
    poly_mul, poly_neg, poly_scale, poly_sub, poly_sum, ring_valid, Poly, RingView, Rows,
};

verus! {

/// `h0_i = u_i*b_r + t*e0_i + s_i*c1`.
pub open spec fn pcks_h0(u: Rows, b: Rows, e0: Rows, s: Rows, c1: Rows, t: u64, moduli: Seq<u64>) -> Rows {
    poly_add(
        poly_add(poly_mul(u, b, moduli), poly_scale(e0, t, moduli), moduli),
        poly_mul(s, c1, moduli),
        moduli,
    )
}

/// `h1_i = u_i*a_r + t*e1_i`.
pub open spec fn pcks_h1(u: Rows, a: Rows, e1: Rows, t: u64, moduli: Seq<u64>) -> Rows {
    poly_add(poly_mul(u, a, moduli), poly_scale(e1, t, moduli), moduli)
}

/// Re-encryption shares combine into the share of the collective secret:
/// the participants' `h0_i = u_i*b_r + t*e0_i + s_i*c1` and
/// `h1_i = u_i*a_r + t*e1_i` sum to `h0` and `h1` built from the sums of
/// their masks, errors and secret shares.
pub proof fn lemma_reencryption_shares_combine(
    r: RingView,
    t: u64,
    recipient: (Rows, Rows),
    c1: Rows,
    us: Seq<Rows>,
    e0s: Seq<Rows>,
    e1s: Seq<Rows>,
    ss: Seq<Rows>,
)
    requires
        ring_valid(r),
        e0s.len() == us.len(),
        e1s.len() == us.len(),
        ss.len() == us.len(),
        poly_in_ring(r.degree, r.moduli, recipient.0),
        poly_in_ring(r.degree, r.moduli, recipient.1),
        poly_in_ring(r.degree, r.moduli, c1),
        forall|i: int| 0 <= i < us.len() ==> poly_in_ring(r.degree, r.moduli, #[trigger] us[i]),
        forall|i: int| 0 <= i < e0s.len() ==> poly_in_ring(r.degree, r.moduli, #[trigger] e0s[i]),
        forall|i: int| 0 <= i < e1s.len() ==> poly_in_ring(r.degree, r.moduli, #[trigger] e1s[i]),
        forall|i: int| 0 <= i < ss.len() ==> poly_in_ring(r.degree, r.moduli, #[trigger] ss[i]),
    ensures
        ({
            let (m, n) = (r.moduli, us.len());
            let (b, a) = recipient;
            &&& poly_sum(Seq::new(n, |i: int| pcks_h0(us[i], b, e0s[i], ss[i], c1, t, m)), r) == pcks_h0(
                poly_sum(us, r),
                b,
                poly_sum(e0s, r),
                poly_sum(ss, r),
                c1,
                t,
                m,
            )
            &&& poly_sum(Seq::new(n, |i: int| pcks_h1(us[i], a, e1s[i], t, m)), r) == pcks_h1(
                poly_sum(us, r),
                a,
                poly_sum(e1s, r),
                t,
                m,
            )
        }),
{
    let (m, n) = (r.moduli, us.len());
    let (b, a) = recipient;
    let ub = Seq::new(n, |i: int| poly_mul(us[i], b, m));
    let ua = Seq::new(n, |i: int| poly_mul(us[i], a, m));
    let te0 = Seq::new(n, |i: int| poly_scale(e0s[i], t, m));
    let te1 = Seq::new(n, |i: int| poly_scale(e1s[i], t, m));
    let sc = Seq::new(n, |i: int| poly_mul(ss[i], c1, m));
    let first = Seq::new(n, |i: int| poly_add(ub[i], te0[i], m));
    assert forall|i: int| 0 <= i < n implies poly_in_ring(r.degree, m, #[trigger] ub[i]) && poly_in_ring(
        r.degree,
        m,
        ua[i],
    ) && poly_in_ring(r.degree, m, te0[i]) && poly_in_ring(r.degree, m, te1[i]) && poly_in_ring(r.degree, m, sc[i])
        && poly_in_ring(r.degree, m, first[i]) by {
        lemma_mul_stays_in_ring(r, us[i], b);
        lemma_mul_stays_in_ring(r, us[i], a);
        lemma_unary_ops_stay_in_ring(r, e0s[i], t);
        lemma_unary_ops_stay_in_ring(r, e1s[i], t);
        lemma_mul_stays_in_ring(r, ss[i], c1);
        lemma_ring_ops_stay_in_ring(r, ub[i], te0[i]);
    }
    assert(Seq::new(n, |i: int| pcks_h0(us[i], b, e0s[i], ss[i], c1, t, m)) =~= Seq::new(
        n,
        |i: int| poly_add(first[i], sc[i], m),
    ));
    assert(Seq::new(n, |i: int| pcks_h1(us[i], a, e1s[i], t, m)) =~= Seq::new(
        n,
        |i: int| poly_add(ua[i], te1[i], m),
    ));
    lemma_sum_of_sums(r, first, sc);
    lemma_sum_of_sums(r, ub, te0);
    lemma_sum_of_sums(r, ua, te1);
    lemma_sum_of_products_left(r, us, b);
    lemma_sum_of_products_left(r, us, a);
    lemma_sum_of_products_left(r, ss, c1);
    lemma_sum_of_scaled(r, e0s, t);
    lemma_sum_of_scaled(r, e1s, t);
}

/// The residue identity behind re-encryption: the term `x` cancels.
proof fn lemma_reencryption_residues(c0: int, x: int, y: int, te0: int, sc1: int, te1s: int, q: int)
    requires
        q > 0,
    ensures
        ((c0 + (((0 - (x + y) % q) % q + te0) % q + sc1) % q) % q + (x + te1s) % q) % q == ((c0 + sc1) % q + ((
        te0 + te1s) % q - y) % q) % q,
{
    let l1 = x + y;
    let l2 = 0 - l1 % q;
    let l3 = l2 % q + te0;
    let l4 = l3 % q + sc1;
    let l5 = c0 + l4 % q;
    let l6 = x + te1s;
    let lhs = l5 % q + l6 % q;
    let n1 = c0 + sc1;
    let n2 = te0 + te1s;
    let n3 = n2 % q - y;
    let rhs = n1 % q + n3 % q;
    vstd::arithmetic::div_mod::lemma_fundamental_div_mod(l1, q);
    vstd::arithmetic::div_mod::lemma_fundamental_div_mod(l2, q);
    vstd::arithmetic::div_mod::lemma_fundamental_div_mod(l3, q);
    vstd::arithmetic::div_mod::lemma_fundamental_div_mod(l4, q);
    vstd::arithmetic::div_mod::lemma_fundamental_div_mod(l5, q);
    vstd::arithmetic::div_mod::lemma_fundamental_div_mod(l6, q);
    vstd::arithmetic::div_mod::lemma_fundamental_div_mod(n1, q);
    vstd::arithmetic::div_mod::lemma_fundamental_div_mod(n2, q);
    vstd::arithmetic::div_mod::lemma_fundamental_div_mod(n3, q);
    let (c1, c2, c3, c4, c5, c6) = (l1 / q, l2 / q, l3 / q, l4 / q, l5 / q, l6 / q);
    let (g1, g2, g3) = (n1 / q, n2 / q, n3 / q);
    let d = (c2 + c3 + c4 + c5 + c6 - c1) - (g1 + g2 + g3);
    assert(q * d == (q * c2 + q * c3 + q * c4 + q * c5 + q * c6 - q * c1) - (q * g1 + q * g2 + q * g3))
        by (nonlinear_arith)
        requires
            d == (c2 + c3 + c4 + c5 + c6 - c1) - (g1 + g2 + g3),
    ;
    assert(lhs == rhs - q * d);
    vstd::arithmetic::div_mod::lemma_mod_multiples_vanish(-d, rhs, q);
    assert(q * (-d) + rhs == lhs) by (nonlinear_arith)
        requires
            lhs == rhs - q * d,
    ;
}

/// Re-encryption moves a ciphertext to the recipient's key: for a
/// recipient key `(-(a*s_r + e_r), a)` and the summed shares, the output
/// `(c0 + h0, h1)` decrypts under `s_r` to the phase `c0 + c1*s` of the
/// input under the collective secret `s`, plus `t*e0 + t*e1*s_r - u*e_r`.
pub proof fn lemma_reencryption_phase(
    r: RingView,
    t: u64,
    c0: Rows,
    c1: Rows,
    s: Rows,
    s_r: Rows,
    a: Rows,
    e_r: Rows,
    u: Rows,
    e0: Rows,
    e1: Rows,
)
    requires
        ring_valid(r),
        poly_in_ring(r.degree, r.moduli, c0),
        poly_in_ring(r.degree, r.moduli, c1),
        poly_in_ring(r.degree, r.moduli, s),
        poly_in_ring(r.degree, r.moduli, s_r),
        poly_in_ring(r.degree, r.moduli, a),
        poly_in_ring(r.degree, r.moduli, e_r),
        poly_in_ring(r.degree, r.moduli, u),
        poly_in_ring(r.degree, r.moduli, e0),
        poly_in_ring(r.degree, r.moduli, e1),
    ensures
        ({
            let m = r.moduli;
            let (b, a_r) = public_key_of(s_r, a, e_r, m);
            let out = seq![poly_add(c0, pcks_h0(u, b, e0, s, c1, t, m), m), pcks_h1(u, a_r, e1, t, m)];
            phase(out, s_r, m, 2) == poly_add(
                phase(seq![c0, c1], s, m, 2),
                poly_sub(
                    poly_add(poly_scale(e0, t, m), poly_mul(poly_scale(e1, t, m), s_r, m), m),
                    poly_mul(u, e_r, m),
                    m,
                ),
                m,
            )
        }),
{
    let m = r.moduli;
    let as_r = poly_mul(a, s_r, m);
    let inner = poly_add(as_r, e_r, m);
    let b = poly_neg(inner, m);
    let te0 = poly_scale(e0, t, m);
    let te1 = poly_scale(e1, t, m);
    let x = poly_mul(u, as_r, m);
    let y = poly_mul(u, e_r, m);
    let sc1 = poly_mul(s, c1, m);
    let te1s = poly_mul(te1, s_r, m);
    lemma_mul_stays_in_ring(r, a, s_r);
    lemma_ring_ops_stay_in_ring(r, as_r, e_r);
    lemma_unary_ops_stay_in_ring(r, e0, t);
    lemma_unary_ops_stay_in_ring(r, e1, t);
    lemma_unary_ops_stay_in_ring(r, inner, t);
    lemma_mul_stays_in_ring(r, u, as_r);
    lemma_mul_stays_in_ring(r, u, e_r);
    lemma_mul_stays_in_ring(r, s, c1);
    lemma_mul_stays_in_ring(r, te1, s_r);
    lemma_mul_stays_in_ring(r, u, a);
    lemma_mul_stays_in_ring(r, inner, u);
    // u * b == -(x + y)
    lemma_mul_commutative(r, u, b);
    lemma_mul_neg_left(r, inner, u);
    lemma_mul_commutative(r, inner, u);
    lemma_mul_distributes_over_add(r, u, as_r, e_r);
    assert(poly_mul(u, b, m) == poly_neg(poly_add(x, y, m), m));
    // (u*a + t*e1) * s_r == x + te1s
    let ua = poly_mul(u, a, m);
    lemma_mul_distributes_over_add_left(r, ua, te1, s_r);
    lemma_mul_associative(r, u, a, s_r);
    assert(poly_mul(poly_mul(u, a, m), s_r, m) == x);
    lemma_mul_commutative(r, c1, s);
    let out = seq![poly_add(c0, pcks_h0(u, b, e0, s, c1, t, m), m), pcks_h1(u, a, e1, t, m)];
    assert(poly_pow(s_r, 1, m) == s_r);
    assert(poly_pow(s, 1, m) == s);
    assert(phase(out, s_r, m, 1) == out[0]);
    assert(phase(seq![c0, c1], s, m, 1) == c0);
    let lhs = phase(out, s_r, m, 2);
    let rhs = poly_add(phase(seq![c0, c1], s, m, 2), poly_sub(poly_add(te0, te1s, m), y, m), m);
    assert(lhs == poly_add(out[0], poly_mul(out[1], s_r, m), m));
    assert(phase(seq![c0, c1], s, m, 2) == poly_add(c0, sc1, m));
    assert forall|j: int| 0 <= j < m.len() implies #[trigger] lhs[j] =~= rhs[j] by {
        let q = m[j] as int;
        assert forall|i: int| 0 <= i < r.degree implies #[trigger] lhs[j][i] == rhs[j][i] by {
            lemma_reencryption_residues(
                c0[j][i] as int,
                x[j][i] as int,
                y[j][i] as int,
                te0[j][i] as int,
                sc1[j][i] as int,
                te1s[j][i] as int,
                q,
            );
        }
    }
    assert(lhs =~= rhs);
}

/// Re-encryption in one session.
#[derive(Debug)]
pub struct ReEncryptor {
    params: BgvParams,
    session: SessionState,
    statistical_security_bits: u32,
}

impl View for ReEncryptor {
    type V = ((RingView, u64), SessionView, u32);

    closed spec fn view(&self) -> ((RingView, u64), SessionView, u32) {
        (self.params@, self.session@, self.statistical_security_bits)
    }
}

impl ReEncryptor {
    /// Creates the protocol; `statistical_security_bits` is the security
    /// that the caller sizes its smudging noise for.
    pub fn new(params: BgvParams, session: SessionState, statistical_security_bits: u32) -> (r: Self)
        ensures
            r@ == (params@, session@, statistical_security_bits),
    {
        ReEncryptor { params, session, statistical_security_bits }
    }

    /// Returns the statistical security that the smudging noise is sized for.
    pub fn statistical_security_bits(&self) -> (r: u32)
        ensures
            r == self@.2,
    {
        self.statistical_security_bits
    }

    /// Creates participant `participant`'s share `(h0_i, h1_i)` from its
    /// sampled ternary `u_i` and smudging errors `e0_i`, `e1_i`. A
    /// ciphertext without a valid `c1` is malformed; otherwise the first
    /// product or scaling that fails names the failure.
    pub fn create_share(
        &self,
        participant: ParticipantId,
        local_secret_share: &SecretKey,
        ciphertext: &Ciphertext,
        recipient_public_key: &PublicKey,
        u_i: &Poly,
        e0_i: &Poly,
        e1_i: &Poly,
    ) -> (r: Result<Share, MultipartyError>)
        ensures
            ({
                let ring = self@.0.0;
                let t = self@.0.1;
                let session = self@.1;
                let c = ciphertext@;
                let pk = recipient_public_key@;
                let ok = |p: Rows| poly_in_ring(ring.degree, ring.moduli, p);
                let c1_ok = c.len() >= 2 && ok(c[1]);
                &&& !c1_ok ==> r == Err::<Share, _>(MultipartyError::MalformedMessage)
                &&& c1_ok && !(ok(u_i@) && ok(pk.0)) ==> r == Err::<Share, _>(
                    MultipartyError::InvalidParameters("create_share: u_i*b_r failed"),
                )
                &&& c1_ok && ok(u_i@) && ok(pk.0) && !ok(e0_i@) ==> r == Err::<Share, _>(
                    MultipartyError::InvalidParameters("create_share: t*e0_i failed"),
                )
                &&& c1_ok && ok(u_i@) && ok(pk.0) && ok(e0_i@) && !ok(local_secret_share@) ==> r == Err::<
                    Share,
                    _,
                >(MultipartyError::InvalidParameters("create_share: s_i*c1 failed"))
                &&& c1_ok && ok(u_i@) && ok(pk.0) && ok(e0_i@) && ok(local_secret_share@) && !ok(pk.1)
                    ==> r == Err::<Share, _>(MultipartyError::InvalidParameters("create_share: u_i*a_r failed"))
                &&& c1_ok && ok(u_i@) && ok(pk.0) && ok(e0_i@) && ok(local_secret_share@) && ok(pk.1)
                    && !ok(e1_i@) ==> r == Err::<Share, _>(
                    MultipartyError::InvalidParameters("create_share: t*e1_i failed"),
                )
                &&& c1_ok && ok(u_i@) && ok(pk.0) && ok(e0_i@) && ok(local_secret_share@) && ok(pk.1)
                    && ok(e1_i@) ==> (!session.participants.contains(participant@) ==> r == Err::<Share, _>(
                    MultipartyError::UnknownParticipant,
                )) && (session.participants.contains(participant@) ==> (r matches Ok(share) && share@
                    == share_for(
                    session,
                    participant@,
                    ShareKind::ReEncryption,
                    pair_bytes(
                        pcks_h0(u_i@, pk.0, e0_i@, local_secret_share@, c[1], t, ring.moduli),
                        pcks_h1(u_i@, pk.1, e1_i@, t, ring.moduli),
                    ),
                )))
            }),
    {
        let ring = self.params.ring();
        let t = self.params.plaintext_modulus();
        let comps = ciphertext.value();
        if comps.len() < 2 {
            return Err(MultipartyError::MalformedMessage);
        }
        let c1 = &comps[1];
        assert(c1@ == ciphertext@[1]);
        if ring.check_poly(c1).is_err() {
            return Err(MultipartyError::MalformedMessage);
        }
        let keys = recipient_public_key.value();
        let u_b_r = match ring.mul(u_i, &keys[0]) {
            Ok(p) => p,
            Err(_) => {
                return Err(MultipartyError::InvalidParameters("create_share: u_i*b_r failed"));
            },
        };
        let t_e0_i = match ring.scalar_mul(e0_i, t) {
            Ok(p) => p,
            Err(_) => {
                return Err(MultipartyError::InvalidParameters("create_share: t*e0_i failed"));
            },
        };
        let s_i_c1 = match ring.mul(local_secret_share.value(), c1) {
            Ok(p) => p,
            Err(_) => {
                return Err(MultipartyError::InvalidParameters("create_share: s_i*c1 failed"));
            },
        };
        let partial = match ring.add(&u_b_r, &t_e0_i) {
            Ok(p) => p,
            Err(_) => {
                return Err(MultipartyError::InvalidParameters("create_share: h0_i failed"));
            },
        };
        let h0_i = match ring.add(&partial, &s_i_c1) {
            Ok(p) => p,
            Err(_) => {
                return Err(MultipartyError::InvalidParameters("create_share: h0_i failed"));
            },
        };
        let u_a_r = match ring.mul(u_i, &keys[1]) {
            Ok(p) => p,
            Err(_) => {
                return Err(MultipartyError::InvalidParameters("create_share: u_i*a_r failed"));
            },
        };
        let t_e1_i = match ring.scalar_mul(e1_i, t) {
            Ok(p) => p,
            Err(_) => {
                return Err(MultipartyError::InvalidParameters("create_share: t*e1_i failed"));
            },
        };
        let h1_i = match ring.add(&u_a_r, &t_e1_i) {
            Ok(p) => p,
            Err(_) => {
                return Err(MultipartyError::InvalidParameters("create_share: h1_i failed"));
            },
        };
        Share::new(&self.session, participant, ShareKind::ReEncryption, encode_poly_pair(&h0_i, &h1_i))
    }

    /// Combines every collected share with `c0` into the re-encrypted
    /// ciphertext `(c0 + sum_i h0_i, sum_i h1_i)`.
    pub fn aggregate_ciphertext(&self, aggregator: &ShareAggregator, ciphertext: &Ciphertext) -> (r: Result<
        Ciphertext,
        MultipartyError,
    >)
        ensures
            ({
                let ring = self@.0.0;
                let c = ciphertext@;
                let shares = aggregator.shares_view();
                let ready = shares.len() >= aggregator.session_view().threshold;
                let c0_ok = c.len() >= 1 && poly_in_ring(ring.degree, ring.moduli, c[0]);
                &&& !c0_ok ==> r == Err::<Ciphertext, _>(MultipartyError::MalformedMessage)
                &&& c0_ok && !ready ==> r == Err::<Ciphertext, _>(MultipartyError::ThresholdNotMet)
                &&& c0_ok && ready && !pairs_carried(ring, shares) ==> r == Err::<Ciphertext, _>(
                    MultipartyError::MalformedMessage,
                )
                &&& c0_ok && ready && pairs_carried(ring, shares) ==> (r matches Ok(out) && out@ == seq![
                    poly_add(c[0], poly_sum(share_firsts(ring, shares), ring), ring.moduli),
                    poly_sum(share_seconds(ring, shares), ring),
                ])
            }),
    {
        let ring = self.params.ring();
        let comps = ciphertext.value();
        if comps.len() < 1 {
            return Err(MultipartyError::MalformedMessage);
        }
        let c0 = &comps[0];
        assert(c0@ == ciphertext@[0]);
        if ring.check_poly(c0).is_err() {
            return Err(MultipartyError::MalformedMessage);
        }
        let shares = aggregator.all_shares()?;
        let (h0_sum, h1_sum) = sum_share_pairs(ring, shares.as_slice())?;
        let out0 = match ring.add(c0, &h0_sum) {
            Ok(p) => p,
            Err(_) => {
                return Err(MultipartyError::InvalidParameters("aggregate_ciphertext: c0 + h0_sum failed"));
            },
        };
        let mut v: Vec<Poly> = Vec::with_capacity(2);
        v.push(out0);
        v.push(h1_sum);
        let out = Ciphertext::new(v);
        assert(out@ =~= seq![
            poly_add(ciphertext@[0], poly_sum(share_firsts(ring@, aggregator.shares_view()), ring@), ring@.moduli),
            poly_sum(share_seconds(ring@, aggregator.shares_view()), ring@),
        ]);
        Ok(out)
    }
}

} // verus!
