//! Placeholder collective relinearization-key generation for CKKS: each
//! share carries only its participant's identifier, and the aggregate is the
//! placeholder key.

use vstd::prelude::*;

use crate::codec::{push_u64_le, u64_le};
use crate::lattice::rlwe::evaluation_key::{KeySwitchView, RelinearizationKey};
use crate::multiparty::common::participant::ParticipantId;
use crate::multiparty::common::session::{SessionState, SessionView};
use crate::multiparty::common::shares::{share_for, Share, ShareAggregator, ShareKind};
use crate::multiparty::error::MultipartyError;

verus! {

/// Placeholder relinearization-key generation in one session.
#[derive(Debug)]
pub struct RelinearizationKeyGen {
    session: SessionState,
}

impl View for RelinearizationKeyGen {
    type V = SessionView;

    closed spec fn view(&self) -> SessionView {
        self.session@
    }
}

impl RelinearizationKeyGen {
    /// Creates the protocol for `session`.
    pub fn new(session: SessionState) -> (r: Self)
        ensures
            r@ == session@,
    {
        RelinearizationKeyGen { session }
    }

    /// Creates participant `participant`'s share: its identifier in 8
    /// little-endian bytes.
    pub fn create_share(&self, participant: ParticipantId) -> (r: Result<Share, MultipartyError>)
        ensures
            !self@.participants.contains(participant@) ==> r == Err::<Share, _>(MultipartyError::UnknownParticipant),
            self@.participants.contains(participant@) ==> (r matches Ok(share) && share@ == share_for(
                self@,
                participant@,
                ShareKind::RelinearizationKeyGen,
                u64_le(participant@),
            )),
    {
        let mut payload: Vec<u8> = Vec::new();
        push_u64_le(&mut payload, participant.get());
        assert(payload@ =~= u64_le(participant@));
        Share::new(&self.session, participant, ShareKind::RelinearizationKeyGen, payload)
    }

    /// Once the threshold is met, the placeholder relinearization key.
    pub fn aggregate_key(&self, aggregator: &ShareAggregator) -> (r: Result<RelinearizationKey, MultipartyError>)
        ensures
            aggregator.shares_view().len() < aggregator.session_view().threshold ==> r == Err::<
                RelinearizationKey,
                _,
            >(MultipartyError::ThresholdNotMet),
            aggregator.shares_view().len() >= aggregator.session_view().threshold ==> (r matches Ok(key) && key@
                == None::<KeySwitchView>),
    {
        let _shares = aggregator.aggregate()?;
        Ok(RelinearizationKey::placeholder())
    }
}

} // verus!
