//! Placeholder collective public-key generation for BFV: each share carries
//! only its participant's identifier, and the aggregate is the zero key.

use vstd::prelude::*;

use crate::codec::{push_u64_le, u64_le};
use crate::lattice::rlwe::keys::PublicKey;
use crate::multiparty::common::participant::ParticipantId;
use crate::multiparty::common::session::{SessionState, SessionView};
use crate::multiparty::common::shares::{share_for, Share, ShareAggregator, ShareKind};
use crate::multiparty::error::MultipartyError;
use crate::multiparty::mpbfv::params::BfvParams;
use crate::ring::poly::{poly_zero, RingView};

verus! {

/// Placeholder collective key generation in one session.
#[derive(Debug)]
pub struct CollectiveKeyGen {
    params: BfvParams,
    session: SessionState,
}

impl View for CollectiveKeyGen {
    type V = ((RingView, u64), SessionView);

    closed spec fn view(&self) -> ((RingView, u64), SessionView) {
        (self.params@, self.session@)
    }
}

impl CollectiveKeyGen {
    /// Creates the protocol for `session`.
    pub fn new(params: BfvParams, session: SessionState) -> (r: Self)
        ensures
            r@ == (params@, session@),
    {
        CollectiveKeyGen { params, session }
    }

    /// Creates participant `participant`'s share: its identifier in 8
    /// little-endian bytes.
    pub fn create_share(&self, participant: ParticipantId) -> (r: Result<Share, MultipartyError>)
        ensures
            !self@.1.participants.contains(participant@) ==> r == Err::<Share, _>(
                MultipartyError::UnknownParticipant,
            ),
            self@.1.participants.contains(participant@) ==> (r matches Ok(share) && share@ == share_for(
                self@.1,
                participant@,
                ShareKind::CollectiveKeyGen,
                u64_le(participant@),
            )),
    {
        let mut payload: Vec<u8> = Vec::new();
        push_u64_le(&mut payload, participant.get());
        assert(payload@ =~= u64_le(participant@));
        Share::new(&self.session, participant, ShareKind::CollectiveKeyGen, payload)
    }

    /// Once the threshold is met, the zero public key.
    pub fn aggregate_public_key(&self, aggregator: &ShareAggregator) -> (r: Result<PublicKey, MultipartyError>)
        ensures
            aggregator.shares_view().len() < aggregator.session_view().threshold ==> r == Err::<PublicKey, _>(
                MultipartyError::ThresholdNotMet,
            ),
            aggregator.shares_view().len() >= aggregator.session_view().threshold ==> (r matches Ok(pk) && pk@ == (
                poly_zero(self@.0.0.degree, self@.0.0.moduli.len()),
                poly_zero(self@.0.0.degree, self@.0.0.moduli.len()),
            )),
    {
        let _shares = aggregator.aggregate()?;
        let ring = self.params.ring();
        let zero = ring.zero();
        let other = ring.zero();
        Ok(PublicKey::new(zero, other))
    }
}

} // verus!
