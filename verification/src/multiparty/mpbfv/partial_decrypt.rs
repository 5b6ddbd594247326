//! Placeholder partial decryption for BFV: each share carries the
//! ciphertext's `c0`, and the aggregate is that common `c0`.

use vstd::prelude::*;

use crate::lattice::rlwe::ciphertext::{Ciphertext, Plaintext};
use crate::multiparty::common::participant::ParticipantId;
use crate::multiparty::common::session::{SessionState, SessionView};
use crate::multiparty::common::shares::{share_for, Share, ShareAggregator, ShareKind, ShareView};
use crate::multiparty::error::MultipartyError;
use crate::multiparty::mpbfv::params::BfvParams;
use crate::multiparty::mpbgv::accumulate::shares_view;
use crate::multiparty::mpbgv::wire::{decode_poly, payload_poly, poly_payload_ok};
use crate::ring::encoding::{encode_poly, poly_bytes};
use crate::ring::poly::{poly_in_ring, RingView};

verus! {

/// Every share carries the payload of the first.
pub open spec fn payloads_agree(shares: Seq<ShareView>) -> bool {
    forall|i: int| 0 <= i < shares.len() ==> (#[trigger] shares[i]).payload == shares[0].payload
}

/// The common payload of the shares: `MissingShare` without shares,
/// `MalformedMessage` unless they all carry the same.
pub fn ensure_equal_payloads(shares: &[Share]) -> (r: Result<&[u8], MultipartyError>)
    ensures
        shares@.len() == 0 ==> r == Err::<&[u8], _>(MultipartyError::MissingShare),
        shares@.len() > 0 && !payloads_agree(shares_view(shares@)) ==> r == Err::<&[u8], _>(
            MultipartyError::MalformedMessage,
        ),
        shares@.len() > 0 && payloads_agree(shares_view(shares@)) ==> (r matches Ok(p) && p@ == shares@[0]@.payload),
{
    let ghost sv = shares_view(shares@);
    if shares.len() == 0 {
        return Err(MultipartyError::MissingShare);
    }
    let first = shares[0].payload();
    assert(sv[0] == shares@[0]@);
    let mut i: usize = 1;
    while i < shares.len()
        invariant
            sv == shares_view(shares@),
            shares@.len() > 0,
            1 <= i <= shares@.len(),
            first@ == sv[0].payload,
            forall|t: int| 0 <= t < i ==> (#[trigger] sv[t]).payload == sv[0].payload,
        decreases shares@.len() - i,
    {
        let other = shares[i].payload();
        assert(sv[i as int] == shares@[i as int]@);
        if !bytes_equal(other, first) {
            return Err(MultipartyError::MalformedMessage);
        }
        i = i + 1;
    }
    Ok(first)
}

/// Whether two byte strings are equal.
fn bytes_equal(a: &[u8], b: &[u8]) -> (r: bool)
    ensures
        r == (a@ == b@),
{
    if a.len() != b.len() {
        return false;
    }
    let mut i: usize = 0;
    while i < a.len()
        invariant
            a@.len() == b@.len(),
            i <= a@.len(),
            forall|t: int| 0 <= t < i ==> a@[t] == b@[t],
        decreases a@.len() - i,
    {
        if a[i] != b[i] {
            return false;
        }
        i = i + 1;
    }
    assert(a@ =~= b@);
    true
}

/// Placeholder partial decryption in one session.
#[derive(Debug)]
pub struct PartialDecryptor {
    params: BfvParams,
    session: SessionState,
}

impl View for PartialDecryptor {
    type V = ((RingView, u64), SessionView);

    closed spec fn view(&self) -> ((RingView, u64), SessionView) {
        (self.params@, self.session@)
    }
}

impl PartialDecryptor {
    /// Creates the protocol for `session`.
    pub fn new(params: BfvParams, session: SessionState) -> (r: Self)
        ensures
            r@ == (params@, session@),
    {
        PartialDecryptor { params, session }
    }

    /// Creates participant `participant`'s share: the ciphertext's `c0`. An
    /// unknown participant is refused first; a ciphertext without a valid
    /// `c0` is malformed.
    pub fn create_share(&self, participant: ParticipantId, ciphertext: &Ciphertext) -> (r: Result<
        Share,
        MultipartyError,
    >)
        ensures
            ({
                let ring = self@.0.0;
                let session = self@.1;
                let c = ciphertext@;
                let c0_ok = c.len() >= 1 && poly_in_ring(ring.degree, ring.moduli, c[0]);
                &&& !session.participants.contains(participant@) ==> r == Err::<Share, _>(
                    MultipartyError::UnknownParticipant,
                )
                &&& session.participants.contains(participant@) && !c0_ok ==> r == Err::<Share, _>(
                    MultipartyError::MalformedMessage,
                )
                &&& session.participants.contains(participant@) && c0_ok ==> (r matches Ok(share) && share@
                    == share_for(session, participant@, ShareKind::PartialDecryption, poly_bytes(c[0])))
            }),
    {
        self.session.check_participant(participant)?;
        let ring = self.params.ring();
        let comps = ciphertext.value();
        if comps.len() < 1 {
            return Err(MultipartyError::MalformedMessage);
        }
        let c0 = &comps[0];
        assert(c0@ == ciphertext@[0]);
        if ring.check_poly(c0).is_err() {
            return Err(MultipartyError::MalformedMessage);
        }
        Share::new(&self.session, participant, ShareKind::PartialDecryption, encode_poly(c0))
    }

    /// The plaintext that the first `threshold` shares agree on.
    pub fn aggregate_plaintext(&self, aggregator: &ShareAggregator) -> (r: Result<Plaintext, MultipartyError>)
        ensures
            ({
                let ring = self@.0.0;
                let threshold = aggregator.session_view().threshold;
                let firsts = aggregator.shares_view().take(threshold as int);
                &&& aggregator.shares_view().len() < threshold ==> r == Err::<Plaintext, _>(
                    MultipartyError::ThresholdNotMet,
                )
                &&& aggregator.shares_view().len() >= threshold && firsts.len() == 0 ==> r == Err::<Plaintext, _>(
                    MultipartyError::MissingShare,
                )
                &&& aggregator.shares_view().len() >= threshold && firsts.len() > 0 && !payloads_agree(firsts)
                    ==> r == Err::<Plaintext, _>(MultipartyError::MalformedMessage)
                &&& aggregator.shares_view().len() >= threshold && firsts.len() > 0 && payloads_agree(firsts) ==> (
                if poly_payload_ok(ring, firsts[0].payload) {
                    r matches Ok(pt) && pt@ == payload_poly(ring, firsts[0].payload)
                } else {
                    r == Err::<Plaintext, _>(MultipartyError::MalformedMessage)
                })
            }),
    {
        let shares = aggregator.aggregate()?;
        assert(shares_view(shares@) =~= shares@.map_values(|s: Share| s@));
        let payload = ensure_equal_payloads(shares.as_slice())?;
        let poly = decode_poly(payload, self.params.ring())?;
        Ok(Plaintext::new(poly))
    }
}

} // verus!
