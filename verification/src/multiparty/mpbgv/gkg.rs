//! Collective Galois (rotation) key generation for BGV, additive n-of-n.
//!
//! The key for rotation `element` is a classical gadget key-switching key
//! over `Q` from `sigma(s)` to `s`, where `sigma` is `X -> X^element`: row
//! `(m, level)` is `(B^level * L_m * sigma(s) + t*e - a*s, a)` (see
//! [`crate::multiparty::mpbgv::relinearization_key`]). Automorphisms are
//! additive, so for `s = sum_p s_p` each participant contributes, per row,
//! `B^level * L_m * sigma(s_p) + t*e_p - a*s_p` with the common `a` that
//! every participant derives for that row; the contributions sum to the
//! single-party row. The common `a` is not summed: every share must carry
//! the same one.

use vstd::prelude::*;

use crate::codec::{labelled_purpose, slash_numbers};
use crate::lattice::rgsw::decomposition::GadgetDecompositionParams;
use crate::lattice::rlwe::ciphertext::{polys_view, Ciphertext};
use crate::lattice::rlwe::keys::SecretKey;
use crate::lattice::rlwe::keyswitch::rows_view;
use crate::multiparty::common::participant::ParticipantId;
use crate::multiparty::common::randomness::{common_element, derive_common_ring_element};
use crate::multiparty::common::replay_guard::{view_replay_key, ReplayGuard};
use crate::multiparty::common::session::{SessionState, SessionView};
use crate::multiparty::common::shares::{share_for, Share, ShareAggregator, ShareKind};
use crate::multiparty::error::MultipartyError;
use crate::multiparty::mpbgv::accumulate::{rows_agree, shares_view, sum_share_rows, summed_rows};
use crate::multiparty::mpbgv::params::BgvParams;
use crate::multiparty::mpbgv::relinearization_key::{
    base_power_scale, lift_constants, scale_by_base_power_and_lift, BgvRelinearizationKey,
};
use crate::multiparty::mpbgv::wire::{encode_poly_rows, pairs_view, rows_bytes};
use crate::ring::automorphism::{galois_apply, galois_invertible};
use crate::ring::encoding::{lemma_index_bound, lemma_index_split};
use crate::ring::algebra::{
    lemma_galois_apply_ring, lemma_sub_add_cancel, lemma_sum_in_ring, lemma_sum_of_differences, lemma_sum_of_images, lemma_sum_of_products_right,
    lemma_sum_of_scaled, lemma_sum_of_scaled_rows, lemma_sum_of_sums,
};
use crate::ring::poly::{
    lemma_mul_stays_in_ring, lemma_ring_ops_stay_in_ring, lemma_scale_rows_stay_in_ring, lemma_unary_ops_stay_in_ring,
    poly_add, poly_in_ring, poly_mul, poly_scale, poly_scale_rows, poly_sub, poly_sum, ring_valid, Poly, RingView,
    Rows,
};
use crate::ring::rns::crt_lift_constant;

verus! {

/// The prefix of the purposes under which each row's common `a` is derived:
/// `prefix/element/modulus/level`.
pub const GKG_COMMON_A_PURPOSE_PREFIX: &'static str = "phantom-fhe/mpbgv/gkg/a";

/// The purpose under which row `(m, level)` of rotation `element` derives
/// its common element: `prefix/element/m/level`.
pub open spec fn gkg_purpose(element: usize, m: int, level: int) -> Seq<u8> {
    vstd::string::StringSliceAdditionalSpecFns::spec_bytes(GKG_COMMON_A_PURPOSE_PREFIX) + slash_numbers(
        seq![element as u64, m as u64, level as u64],
    )
}

/// The common elements of every row, row `k = m * levels + level` at
/// position `k`: the same for every participant of the session.
pub open spec fn gkg_common_a(r: RingView, session: SessionView, element: usize, levels: int) -> Seq<Rows> {
    Seq::new(
        (r.moduli.len() * levels) as nat,
        |k: int| common_element(r, session.id, gkg_purpose(element, k / levels, k % levels)),
    )
}

/// A participant's contribution to row `k = m * levels + level`:
/// `B^level * L_m * sigma + t*e - a*s`.
pub open spec fn gkg_contribution(
    r: RingView,
    t: u64,
    base_log: u32,
    levels: int,
    sigma: Rows,
    s: Rows,
    k: int,
    e: Rows,
    a: Rows,
) -> Rows {
    let m = r.moduli;
    let scaled = poly_scale_rows(
        sigma,
        base_power_scale(m, base_log, k % levels, lift_constants(m, k / levels)),
        m,
    );
    poly_sub(poly_add(scaled, poly_scale(e, t, m), m), poly_mul(a, s, m), m)
}

/// The rows of a participant's share given the common elements `a`.
pub open spec fn gkg_share_rows(
    r: RingView,
    t: u64,
    base_log: u32,
    levels: int,
    sigma: Rows,
    s: Rows,
    errors: Seq<Rows>,
    a: Seq<Rows>,
) -> Seq<(Rows, Rows)> {
    Seq::new(
        a.len(),
        |k: int| (gkg_contribution(r, t, base_log, levels, sigma, s, k, errors[k], a[k]), a[k]),
    )
}

/// The collective Galois key is the single-party key of the collective
/// secret: with a common `a` for row `k`, the participants' contributions
/// `B^level * L_m * sigma(s_i) + t*e_i - a*s_i` sum to the row built from
/// `s = sum_i s_i`, its image `sigma(s)` and the collective error
/// `e = sum_i e_i`.
pub proof fn lemma_galois_rows_combine(
    r: RingView,
    t: u64,
    base_log: u32,
    levels: int,
    element: int,
    k: int,
    a: Rows,
    ss: Seq<Rows>,
    es: Seq<Rows>,
)
    requires
        ring_valid(r),
        ss.len() == es.len(),
        poly_in_ring(r.degree, r.moduli, a),
        forall|i: int| 0 <= i < ss.len() ==> poly_in_ring(r.degree, r.moduli, #[trigger] ss[i]),
        forall|i: int| 0 <= i < es.len() ==> poly_in_ring(r.degree, r.moduli, #[trigger] es[i]),
    ensures
        ({
            let (n, m) = (r.degree as int, r.moduli);
            let sum = poly_sum(
                Seq::new(
                    ss.len(),
                    |i: int|
                        gkg_contribution(r, t, base_log, levels, galois_apply(ss[i], element, n, m), ss[i], k, es[i], a),
                ),
                r,
            );
            let s = poly_sum(ss, r);
            let c = base_power_scale(m, base_log, k % levels, lift_constants(m, k / levels));
            &&& sum == gkg_contribution(
                r,
                t,
                base_log,
                levels,
                galois_apply(s, element, n, m),
                s,
                k,
                poly_sum(es, r),
                a,
            )
            &&& poly_add(sum, poly_mul(a, s, m), m) == poly_add(
                poly_scale_rows(galois_apply(s, element, n, m), c, m),
                poly_scale(poly_sum(es, r), t, m),
                m,
            )
        }),
{
    let (n, m) = (r.degree as int, r.moduli);
    let len = ss.len();
    let c = base_power_scale(m, base_log, k % levels, lift_constants(m, k / levels));
    let sig = Seq::new(len, |i: int| galois_apply(ss[i], element, n, m));
    let x = Seq::new(len, |i: int| poly_scale_rows(sig[i], c, m));
    let y = Seq::new(len, |i: int| poly_scale(es[i], t, m));
    let z = Seq::new(len, |i: int| poly_mul(a, ss[i], m));
    let w = Seq::new(len, |i: int| poly_add(x[i], y[i], m));
    lemma_galois_apply_ring(r, element);
    assert forall|i: int| 0 <= i < len implies poly_in_ring(r.degree, m, #[trigger] sig[i]) && poly_in_ring(
        r.degree,
        m,
        x[i],
    ) && poly_in_ring(r.degree, m, y[i]) && poly_in_ring(r.degree, m, z[i]) && poly_in_ring(r.degree, m, w[i]) by {
        lemma_scale_rows_stay_in_ring(r, sig[i], c);
        lemma_unary_ops_stay_in_ring(r, es[i], t);
        lemma_mul_stays_in_ring(r, a, ss[i]);
        lemma_ring_ops_stay_in_ring(r, x[i], y[i]);
    }
    assert(Seq::new(
        len,
        |i: int| gkg_contribution(r, t, base_log, levels, galois_apply(ss[i], element, n, m), ss[i], k, es[i], a),
    ) =~= Seq::new(len, |i: int| poly_sub(w[i], z[i], m)));
    lemma_sum_of_differences(r, w, z);
    lemma_sum_of_sums(r, x, y);
    lemma_sum_of_scaled_rows(r, sig, c);
    lemma_sum_of_images(r, ss, element);
    lemma_sum_of_scaled(r, es, t);
    lemma_sum_of_products_right(r, a, ss);
    let sum_s = poly_sum(ss, r);
    let sum_e = poly_sum(es, r);
    lemma_sum_in_ring(r, ss);
    lemma_sum_in_ring(r, es);
    let sg = galois_apply(sum_s, element, n, m);
    lemma_scale_rows_stay_in_ring(r, sg, c);
    lemma_unary_ops_stay_in_ring(r, sum_e, t);
    lemma_ring_ops_stay_in_ring(r, poly_scale_rows(sg, c, m), poly_scale(sum_e, t, m));
    lemma_mul_stays_in_ring(r, a, sum_s);
    lemma_sub_add_cancel(
        r,
        poly_add(poly_scale_rows(sg, c, m), poly_scale(sum_e, t, m), m),
        poly_mul(a, sum_s, m),
    );
}

/// Collective Galois-key generation for one rotation `element` in one
/// session, with gadget parameters agreed in advance.
#[derive(Debug)]
pub struct GaloisKeyGen {
    params: BgvParams,
    session: SessionState,
    element: usize,
    decomposition_params: GadgetDecompositionParams,
}

/// The view of a Galois-key generation: parameters, session, rotation
/// element and gadget parameters.
pub struct GaloisKeyGenView {
    pub params: (RingView, u64),
    pub session: SessionView,
    pub element: usize,
    pub gadget: (u32, usize),
}

impl View for GaloisKeyGen {
    type V = GaloisKeyGenView;

    closed spec fn view(&self) -> GaloisKeyGenView {
        GaloisKeyGenView {
            params: self.params@,
            session: self.session@,
            element: self.element,
            gadget: self.decomposition_params@,
        }
    }
}

impl GaloisKeyGen {
    /// Creates the protocol for rotation `element` in `session`.
    pub fn new(
        params: BgvParams,
        session: SessionState,
        element: usize,
        decomposition_params: GadgetDecompositionParams,
    ) -> (r: Self)
        ensures
            r@ == (GaloisKeyGenView {
                params: params@,
                session: session@,
                element,
                gadget: decomposition_params@,
            }),
    {
        GaloisKeyGen { params, session, element, decomposition_params }
    }

    /// The scheme parameters the keys are generated under.
    pub fn params(&self) -> (r: &BgvParams)
        ensures
            r@ == self@.params,
    {
        &self.params
    }

    /// Returns the session.
    pub fn session(&self) -> (r: &SessionState)
        ensures
            r@ == self@.session,
    {
        &self.session
    }

    /// The gadget parameters every participant's share is laid out by.
    pub fn decomposition_params(&self) -> (r: GadgetDecompositionParams)
        ensures
            r@ == self@.gadget,
    {
        self.decomposition_params
    }

    /// Creates participant `participant`'s share: every row's contribution,
    /// row `(m, level)` at position `m * levels + level` with its sampled
    /// error `errors[m * levels + level]`. The replay guard refuses a second
    /// share for the same session round and participant before anything
    /// else.
    pub fn create_share(
        &self,
        participant: ParticipantId,
        local_secret_share: &SecretKey,
        replay_guard: &mut ReplayGuard,
        errors: &[Poly],
    ) -> (r: Result<Share, MultipartyError>)
        requires
            errors@.len() == self@.params.0.moduli.len() * self@.gadget.1,
        ensures
            ({
                let ring = self@.params.0;
                let t = self@.params.1;
                let session = self@.session;
                let levels = self@.gadget.1 as int;
                let s = local_secret_share@;
                let ev = polys_view(errors@);
                let key = view_replay_key(session, participant@);
                let fresh = !old(replay_guard)@.contains(key);
                let usable = poly_in_ring(ring.degree, ring.moduli, s) && galois_invertible(
                    self@.element as int,
                    ring.degree as int,
                );
                let errors_ok = forall|k: int|
                    0 <= k < ev.len() ==> poly_in_ring(ring.degree, ring.moduli, #[trigger] ev[k]);
                let sigma = galois_apply(s, self@.element as int, ring.degree as int, ring.moduli);
                &&& !fresh ==> r == Err::<Share, _>(MultipartyError::ReplayedShare) && final(replay_guard)@
                    == old(replay_guard)@
                &&& fresh ==> final(replay_guard)@ == old(replay_guard)@.insert(key)
                &&& fresh && !usable ==> r == Err::<Share, _>(
                    MultipartyError::InvalidParameters("create_share: apply_automorphism failed"),
                )
                &&& fresh && usable && !errors_ok ==> r == Err::<Share, _>(
                    MultipartyError::InvalidParameters("create_share: t*e failed"),
                )
                &&& fresh && usable && errors_ok && !session.participants.contains(participant@) ==> r
                    == Err::<Share, _>(MultipartyError::UnknownParticipant)
                &&& fresh && usable && errors_ok && session.participants.contains(participant@) ==> (r matches Ok(
                    share,
                ) && share@ == share_for(
                    session,
                    participant@,
                    ShareKind::GaloisKeyGen,
                    rows_bytes(
                        gkg_share_rows(
                            ring,
                            t,
                            self@.gadget.0,
                            levels,
                            sigma,
                            s,
                            ev,
                            gkg_common_a(ring, session, self@.element, levels),
                        ),
                    ),
                ))
            }),
    {
        replay_guard.record_use(&self.session, participant)?;
        let ghost guard_after = replay_guard@;
        let ring = self.params.ring();
        ring.check_valid();
        let t = self.params.plaintext_modulus();
        let moduli = ring.moduli();
        let levels = self.decomposition_params.levels();
        let base_log = self.decomposition_params.base_log();
        let ghost rv = ring@;
        let ghost s = local_secret_share@;
        let ghost ev = polys_view(errors@);
        let sigma_s = match ring.apply_automorphism(local_secret_share.value(), self.element) {
            Ok(p) => p,
            Err(_) => {
                return Err(MultipartyError::InvalidParameters("create_share: apply_automorphism failed"));
            },
        };
        let ghost sigma = sigma_s@;
        let prefix = GKG_COMMON_A_PURPOSE_PREFIX.as_bytes();
        let n_errors = errors.len();
        let mut rows: Vec<(Poly, Poly)> = Vec::with_capacity(errors.len());
        let ghost mut av: Seq<Rows> = Seq::empty();
        let mut m: usize = 0;
        while m < moduli.len()
            invariant
                rv == ring@,
                crate::ring::poly::ring_valid(rv),
                crate::ring::poly::modulus_values(moduli@) == rv.moduli,
                levels == self@.gadget.1,
                levels > 0,
                base_log == self@.gadget.0,
                1 <= base_log < 63,
                t == self@.params.1,
                rv == self@.params.0,
                s == local_secret_share@,
                poly_in_ring(rv.degree, rv.moduli, s),
                galois_invertible(self@.element as int, rv.degree as int),
                replay_guard@ == guard_after,
                guard_after == old(replay_guard)@.insert(view_replay_key(self@.session, participant@)),
                !old(replay_guard)@.contains(view_replay_key(self@.session, participant@)),
                sigma == sigma_s@,
                sigma == galois_apply(s, self@.element as int, rv.degree as int, rv.moduli),
                poly_in_ring(rv.degree, rv.moduli, sigma),
                ev == polys_view(errors@),
                ev.len() == rv.moduli.len() * levels,
                n_errors == ev.len(),
                m <= moduli@.len(),
                rows@.len() == m * levels,
                av.len() == m * levels,
                forall|k: int| 0 <= k < av.len() ==> poly_in_ring(rv.degree, rv.moduli, #[trigger] av[k]),
                forall|k: int| 0 <= k < av.len() ==> #[trigger] av[k] == gkg_common_a(rv, self@.session, self@.element, levels as int)[k],
                prefix@ == vstd::string::StringSliceAdditionalSpecFns::spec_bytes(GKG_COMMON_A_PURPOSE_PREFIX),
                forall|k: int| 0 <= k < m * levels ==> poly_in_ring(rv.degree, rv.moduli, #[trigger] ev[k]),
                pairs_view(rows@) == gkg_share_rows(rv, t, base_log, levels as int, sigma, s, ev.take(av.len() as int), av),
            decreases moduli@.len() - m,
        {
            let lift = crt_lift_constant(moduli, m, moduli);
            proof {
                assert(lift@ =~= lift_constants(rv.moduli, m as int));
            }
            let mut level: usize = 0;
            while level < levels
                invariant
                    rv == ring@,
                    crate::ring::poly::ring_valid(rv),
                    crate::ring::poly::modulus_values(moduli@) == rv.moduli,
                    levels == self@.gadget.1,
                    levels > 0,
                    base_log == self@.gadget.0,
                    1 <= base_log < 63,
                    t == self@.params.1,
                    rv == self@.params.0,
                    s == local_secret_share@,
                    poly_in_ring(rv.degree, rv.moduli, s),
                    galois_invertible(self@.element as int, rv.degree as int),
                    replay_guard@ == guard_after,
                    guard_after == old(replay_guard)@.insert(view_replay_key(self@.session, participant@)),
                    !old(replay_guard)@.contains(view_replay_key(self@.session, participant@)),
                guard_after == old(replay_guard)@.insert(view_replay_key(self@.session, participant@)),
                !old(replay_guard)@.contains(view_replay_key(self@.session, participant@)),
                    sigma == sigma_s@,
                    sigma == galois_apply(s, self@.element as int, rv.degree as int, rv.moduli),
                    poly_in_ring(rv.degree, rv.moduli, sigma),
                    ev == polys_view(errors@),
                    ev.len() == rv.moduli.len() * levels,
                    n_errors == ev.len(),
                    m < moduli@.len(),
                    lift@ == lift_constants(rv.moduli, m as int),
                    level <= levels,
                    rows@.len() == m * levels + level,
                    av.len() == m * levels + level,
                    forall|k: int| 0 <= k < av.len() ==> poly_in_ring(rv.degree, rv.moduli, #[trigger] av[k]),
                    forall|k: int| 0 <= k < av.len() ==> #[trigger] av[k] == gkg_common_a(rv, self@.session, self@.element, levels as int)[k],
                    prefix@ == vstd::string::StringSliceAdditionalSpecFns::spec_bytes(GKG_COMMON_A_PURPOSE_PREFIX),
                    forall|k: int| 0 <= k < m * levels + level ==> poly_in_ring(rv.degree, rv.moduli, #[trigger] ev[k]),
                    pairs_view(rows@) == gkg_share_rows(rv, t, base_log, levels as int, sigma, s, ev.take(av.len() as int), av),
                decreases levels - level,
            {
                proof {
                    lemma_index_bound(m as int, level as int, moduli@.len() as int, levels as int);
                    lemma_index_split(m as int, level as int, levels as int);
                }
                let idx = m * levels + level;
                let mut numbers: Vec<u64> = Vec::with_capacity(3);
                numbers.push(self.element as u64);
                numbers.push(m as u64);
                numbers.push(level as u64);
                let purpose = labelled_purpose(prefix, numbers.as_slice());
                let a = derive_common_ring_element(ring, &self.session, purpose.as_slice());
                let scaled = match scale_by_base_power_and_lift(ring, &sigma_s, base_log, level, lift.as_slice()) {
                    Ok(p) => p,
                    Err(_) => {
                        assert(false);
                        return Err(
                            MultipartyError::InvalidParameters("create_share: scale_by_base_power_and_lift failed"),
                        );
                    },
                };
                assert(errors@[idx as int]@ == ev[idx as int]);
                let t_e = match ring.scalar_mul(&errors[idx], t) {
                    Ok(p) => p,
                    Err(_) => {
                        return Err(MultipartyError::InvalidParameters("create_share: t*e failed"));
                    },
                };
                let a_s = match ring.mul(&a, local_secret_share.value()) {
                    Ok(p) => p,
                    Err(_) => {
                        assert(false);
                        return Err(MultipartyError::InvalidParameters("create_share: a*s failed"));
                    },
                };
                let partial = match ring.add(&scaled, &t_e) {
                    Ok(p) => p,
                    Err(_) => {
                        assert(false);
                        return Err(MultipartyError::InvalidParameters("create_share: row failed"));
                    },
                };
                let b = match ring.sub(&partial, &a_s) {
                    Ok(p) => p,
                    Err(_) => {
                        assert(false);
                        return Err(MultipartyError::InvalidParameters("create_share: row failed"));
                    },
                };
                let ghost old_rows = rows@;
                let ghost old_av = av;
                proof {
                    assert(numbers@ =~= seq![self.element as u64, m as u64, level as u64]);
                    assert(idx / levels == m && idx % levels == level);
                    vstd::arithmetic::mul::lemma_mul_strict_inequality(m as int, moduli@.len() as int, levels as int);
                    vstd::arithmetic::mul::lemma_mul_is_distributive_add_other_way(levels as int, m as int, 1);
                    assert(a@ == gkg_common_a(rv, self@.session, self@.element, levels as int)[idx as int]);
                    av = av.push(a@);
                }
                rows.push((b, a));
                proof {
                    let want = gkg_share_rows(rv, t, base_log, levels as int, sigma, s, ev.take(av.len() as int), av);
                    assert forall|x: int| 0 <= x < av.len() implies #[trigger] pairs_view(rows@)[x] == want[x] by {
                        assert(pairs_view(rows@)[x] == (rows@[x].0@, rows@[x].1@));
                        if x < old_av.len() {
                            assert(rows@[x] == old_rows[x]);
                            assert(pairs_view(old_rows)[x] == (old_rows[x].0@, old_rows[x].1@));
                        } else {
                            assert(x == idx);
                            assert(x / (levels as int) == m && x % (levels as int) == level);
                        }
                    }
                    assert(pairs_view(rows@) =~= want);
                }
                level = level + 1;
            }
            proof {
                vstd::arithmetic::mul::lemma_mul_is_distributive_add_other_way(levels as int, m as int, 1);
            }
            m = m + 1;
        }
        proof {
            assert(ev.take(av.len() as int) =~= ev);
            assert(errors_are_fine(rv, ev));
            assert(av =~= gkg_common_a(rv, self@.session, self@.element, levels as int));
        }
        let payload = encode_poly_rows(rows.as_slice());
        let result = Share::new(&self.session, participant, ShareKind::GaloisKeyGen, payload);
        proof {
            let want = gkg_share_rows(rv, t, base_log, levels as int, sigma, s, ev, av);
            assert(pairs_view(rows@) == want);
            if result is Ok {
                assert(result->Ok_0@ == share_for(self@.session, participant@, ShareKind::GaloisKeyGen, rows_bytes(want)));
            }
        }
        result
    }

    /// Aggregates every collected share into the collective rotation key:
    /// each row's first components summed across the shares, its common `a`
    /// kept from the first share, every other share's copy required to be
    /// the same.
    pub fn aggregate_keys(&self, aggregator: &ShareAggregator) -> (r: Result<BgvRelinearizationKey, MultipartyError>)
        ensures
            ({
                let ring = self@.params.0;
                let shares = aggregator.shares_view();
                &&& shares.len() < aggregator.session_view().threshold ==> r == Err::<BgvRelinearizationKey, _>(
                    MultipartyError::ThresholdNotMet,
                )
                &&& shares.len() >= aggregator.session_view().threshold && !rows_agree(ring, shares, true) ==> r
                    == Err::<BgvRelinearizationKey, _>(MultipartyError::MalformedMessage)
                &&& shares.len() >= aggregator.session_view().threshold && rows_agree(ring, shares, true)
                    && shares.len() == 0 ==> r == Err::<BgvRelinearizationKey, _>(MultipartyError::MissingShare)
                &&& shares.len() >= aggregator.session_view().threshold && rows_agree(ring, shares, true)
                    && shares.len() > 0 ==> (r matches Ok(key) && key@ == (
                    self@.gadget,
                    pair_ciphertexts(summed_rows(ring, shares, true)),
                ))
            }),
    {
        let ring = self.params.ring();
        let shares = aggregator.all_shares()?;
        let rows = sum_share_rows(ring, shares.as_slice(), true)?;
        let cts = rows_to_ciphertexts(rows.as_slice());
        Ok(BgvRelinearizationKey::from_rows(self.decomposition_params, cts))
    }
}

/// Every error is a ring element.
pub open spec fn errors_are_fine(r: RingView, ev: Seq<Rows>) -> bool {
    forall|k: int| 0 <= k < ev.len() ==> poly_in_ring(r.degree, r.moduli, #[trigger] ev[k])
}

/// Each pair `(b, a)` as the two components of a ciphertext.
pub open spec fn pair_ciphertexts(rows: Seq<(Rows, Rows)>) -> Seq<Seq<Rows>> {
    rows.map_values(|p: (Rows, Rows)| seq![p.0, p.1])
}

/// Turns each pair `(b, a)` into the ciphertext `(b, a)`.
pub fn rows_to_ciphertexts(rows: &[(Poly, Poly)]) -> (r: Vec<Ciphertext>)
    ensures
        rows_view(r@) == pair_ciphertexts(pairs_view(rows@)),
{
    let ghost v = pairs_view(rows@);
    let mut out: Vec<Ciphertext> = Vec::with_capacity(rows.len());
    let mut k: usize = 0;
    while k < rows.len()
        invariant
            v == pairs_view(rows@),
            k <= rows@.len(),
            out@.len() == k,
            forall|x: int| 0 <= x < k ==> (#[trigger] out@[x])@ == seq![v[x].0, v[x].1],
        decreases rows@.len() - k,
    {
        let pair = &rows[k];
        assert(v[k as int] == (pair.0@, pair.1@));
        let mut comps: Vec<Poly> = Vec::with_capacity(2);
        comps.push(pair.0.clone());
        comps.push(pair.1.clone());
        let ct = Ciphertext::new(comps);
        assert(ct@ =~= seq![v[k as int].0, v[k as int].1]);
        out.push(ct);
        k = k + 1;
    }
    assert(rows_view(out@) =~= pair_ciphertexts(v));
    out
}

} // verus!
