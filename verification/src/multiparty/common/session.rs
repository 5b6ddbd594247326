//! Multiparty protocol session state.

use vstd::prelude::*;

use crate::codec::{push_u32_le, push_u64_le, u32_le, u64_le};
use crate::multiparty::common::participant::{participants_bytes, ParticipantId, ParticipantSet};
use crate::multiparty::error::MultipartyError;

verus! {

/// Message of the error a zero session id is refused with.
pub const SESSION_ID_ZERO: &'static str = "session id must be nonzero";

/// Message of the error an out-of-range threshold is refused with.
pub const THRESHOLD_OUT_OF_RANGE: &'static str = "threshold must be in 1..=participant_count";

/// Stable, nonzero session identifier.
#[derive(Clone, Copy, Debug, PartialEq, Eq, PartialOrd, Ord, Hash)]
pub struct SessionId(u64);

impl View for SessionId {
    type V = u64;

    closed spec fn view(&self) -> u64 {
        self.0
    }
}

impl SessionId {
    #[verifier::type_invariant]
    closed spec fn nonzero(self) -> bool {
        self.0 != 0
    }

    /// Creates a nonzero session identifier.
    pub fn new(value: u64) -> (r: Result<Self, MultipartyError>)
        ensures
            value != 0 <==> r is Ok,
            r matches Ok(id) ==> id@ == value,
            value == 0 ==> r == Err::<Self, _>(MultipartyError::InvalidParameters(SESSION_ID_ZERO)),
    {
        if value == 0 {
            return Err(MultipartyError::InvalidParameters(SESSION_ID_ZERO));
        }
        Ok(SessionId(value))
    }

    /// Returns the raw session id.
    pub fn get(self) -> (r: u64)
        ensures
            r == self@,
            r != 0,
    {
        proof {
            use_type_invariant(&self);
        }
        self.0
    }

    /// Appends the 8 little-endian bytes of the id.
    pub fn encode(self, out: &mut Vec<u8>)
        ensures
            final(out)@ == old(out)@ + u64_le(self@),
    {
        push_u64_le(out, self.0);
    }
}

/// Common protocol kind identifiers.
#[derive(Clone, Copy, Debug, PartialEq, Eq, PartialOrd, Ord, Hash)]
pub enum ProtocolKind {
    /// Collective key generation.
    CollectiveKeyGen,
    /// Collective relinearization key generation.
    RelinearizationKeyGen,
    /// Collective Galois key generation.
    GaloisKeyGen,
    /// Partial decryption.
    PartialDecryption,
    /// Re-encryption.
    ReEncryption,
    /// Interactive bootstrapping.
    InteractiveBootstrap,
    /// Custom protocol domain.
    Custom(u32),
}

/// The wire tag of a protocol kind.
pub open spec fn protocol_tag(kind: ProtocolKind) -> u32 {
    match kind {
        ProtocolKind::CollectiveKeyGen => 1,
        ProtocolKind::RelinearizationKeyGen => 2,
        ProtocolKind::GaloisKeyGen => 3,
        ProtocolKind::PartialDecryption => 4,
        ProtocolKind::ReEncryption => 5,
        ProtocolKind::InteractiveBootstrap => 6,
        ProtocolKind::Custom(tag) => tag,
    }
}

/// The protocol kind a wire tag stands for: the six named kinds own tags
/// `1..=6`, every other tag is a custom domain.
pub open spec fn protocol_from_tag(tag: u32) -> ProtocolKind {
    if tag == 1 {
        ProtocolKind::CollectiveKeyGen
    } else if tag == 2 {
        ProtocolKind::RelinearizationKeyGen
    } else if tag == 3 {
        ProtocolKind::GaloisKeyGen
    } else if tag == 4 {
        ProtocolKind::PartialDecryption
    } else if tag == 5 {
        ProtocolKind::ReEncryption
    } else if tag == 6 {
        ProtocolKind::InteractiveBootstrap
    } else {
        ProtocolKind::Custom(tag)
    }
}

/// A kind is canonical when its tag maps back to it: every named kind, and
/// every custom kind whose tag is not one of the named kinds' tags.
pub open spec fn protocol_canonical(kind: ProtocolKind) -> bool {
    kind matches ProtocolKind::Custom(tag) ==> !(1 <= tag <= 6)
}

/// Reading back a tag gives the tag; reading back a canonical kind gives the
/// kind.
pub proof fn lemma_protocol_tag_round_trip(kind: ProtocolKind, tag: u32)
    ensures
        protocol_tag(protocol_from_tag(tag)) == tag,
        protocol_canonical(protocol_from_tag(tag)),
        protocol_canonical(kind) <==> protocol_from_tag(protocol_tag(kind)) == kind,
{
}

impl ProtocolKind {
    /// Returns the wire tag of this kind.
    pub fn tag(self) -> (r: u32)
        ensures
            r == protocol_tag(self),
    {
        match self {
            ProtocolKind::CollectiveKeyGen => 1,
            ProtocolKind::RelinearizationKeyGen => 2,
            ProtocolKind::GaloisKeyGen => 3,
            ProtocolKind::PartialDecryption => 4,
            ProtocolKind::ReEncryption => 5,
            ProtocolKind::InteractiveBootstrap => 6,
            ProtocolKind::Custom(tag) => tag,
        }
    }

    /// Returns the kind a wire tag stands for.
    pub fn from_tag(tag: u32) -> (r: Self)
        ensures
            r == protocol_from_tag(tag),
    {
        match tag {
            1 => ProtocolKind::CollectiveKeyGen,
            2 => ProtocolKind::RelinearizationKeyGen,
            3 => ProtocolKind::GaloisKeyGen,
            4 => ProtocolKind::PartialDecryption,
            5 => ProtocolKind::ReEncryption,
            6 => ProtocolKind::InteractiveBootstrap,
            tag => ProtocolKind::Custom(tag),
        }
    }
}

/// The abstract content of a session: id, protocol, canonical participant
/// ids, threshold and current round.
pub struct SessionView {
    pub id: u64,
    pub protocol: ProtocolKind,
    pub participants: Seq<u64>,
    pub threshold: usize,
    pub round: u64,
}

/// The deterministic encoding of a session.
pub open spec fn session_bytes(s: SessionView) -> Seq<u8> {
    u64_le(s.id) + u32_le(protocol_tag(s.protocol)) + u64_le(s.threshold as u64) + u64_le(s.round)
        + participants_bytes(s.participants)
}

/// Validated protocol session state.
#[derive(Debug, PartialEq, Eq)]
pub struct SessionState {
    id: SessionId,
    protocol: ProtocolKind,
    participants: ParticipantSet,
    threshold: usize,
    round: u64,
}

impl View for SessionState {
    type V = SessionView;

    closed spec fn view(&self) -> SessionView {
        SessionView {
            id: self.id@,
            protocol: self.protocol,
            participants: self.participants@,
            threshold: self.threshold,
            round: self.round,
        }
    }
}

impl Clone for SessionState {
    fn clone(&self) -> (r: Self)
        ensures
            r@ == self@,
    {
        proof {
            use_type_invariant(self);
        }
        SessionState {
            id: self.id,
            protocol: self.protocol,
            participants: self.participants.clone(),
            threshold: self.threshold,
            round: self.round,
        }
    }
}

impl SessionState {
    #[verifier::type_invariant]
    closed spec fn threshold_in_range(self) -> bool {
        1 <= self.threshold <= self.participants@.len()
    }

    /// The threshold is between one and the participant count, the id is
    /// nonzero and the participants are in canonical order.
    pub open spec fn well_formed(v: SessionView) -> bool {
        &&& v.id != 0
        &&& 1 <= v.threshold <= v.participants.len()
        &&& crate::multiparty::common::participant::strictly_increasing(v.participants)
    }

    /// Creates a protocol session at round zero. Fails unless `1 <= threshold
    /// <= participants.len()`.
    pub fn new(
        id: SessionId,
        protocol: ProtocolKind,
        participants: ParticipantSet,
        threshold: usize,
    ) -> (r: Result<Self, MultipartyError>)
        ensures
            (threshold == 0 || threshold > participants@.len()) ==> r == Err::<Self, _>(
                MultipartyError::InvalidParameters(THRESHOLD_OUT_OF_RANGE),
            ),
            !(threshold == 0 || threshold > participants@.len()) ==> r is Ok,
            r matches Ok(s) ==> s@ == (SessionView {
                id: id@,
                protocol,
                participants: participants@,
                threshold,
                round: 0,
            }),
    {
        if threshold == 0 || threshold > participants.len() {
            return Err(MultipartyError::InvalidParameters(THRESHOLD_OUT_OF_RANGE));
        }
        Ok(SessionState { id, protocol, participants, threshold, round: 0 })
    }

    /// Returns the session id.
    pub fn id(&self) -> (r: SessionId)
        ensures
            r@ == self@.id,
    {
        self.id
    }

    /// Returns the protocol kind.
    pub fn protocol(&self) -> (r: ProtocolKind)
        ensures
            r == self@.protocol,
    {
        self.protocol
    }

    /// Returns the session participants.
    pub fn participants(&self) -> (r: &ParticipantSet)
        ensures
            r@ == self@.participants,
    {
        &self.participants
    }

    /// Returns the threshold.
    pub fn threshold(&self) -> (r: usize)
        ensures
            r == self@.threshold,
            1 <= r <= self@.participants.len(),
    {
        proof {
            use_type_invariant(self);
        }
        self.threshold
    }

    /// Returns the current protocol round.
    pub fn round(&self) -> (r: u64)
        ensures
            r == self@.round,
    {
        self.round
    }

    /// Advances to the next round (saturating at `u64::MAX`).
    pub fn advance_round(&mut self)
        ensures
            final(self)@ == (SessionView {
                round: if old(self)@.round < u64::MAX {
                    (old(self)@.round + 1) as u64
                } else {
                    u64::MAX
                },
                ..old(self)@
            }),
    {
        proof {
            use_type_invariant(&*self);
        }
        if self.round < u64::MAX {
            self.round = self.round + 1;
        }
    }

    /// Checks that a participant belongs to this session.
    pub fn check_participant(&self, participant: ParticipantId) -> (r: Result<(), MultipartyError>)
        ensures
            self@.participants.contains(participant@) <==> r is Ok,
            !self@.participants.contains(participant@) ==> r == Err::<(), _>(
                MultipartyError::UnknownParticipant,
            ),
    {
        if self.participants.contains(participant) {
            Ok(())
        } else {
            Err(MultipartyError::UnknownParticipant)
        }
    }

    /// Appends the deterministic encoding of the session: id, protocol tag,
    /// threshold, round, then the participant list.
    pub fn encode(&self, out: &mut Vec<u8>)
        ensures
            final(out)@ == old(out)@ + session_bytes(self@),
    {
        let ghost start = out@;
        self.id.encode(out);
        push_u32_le(out, self.protocol.tag());
        push_u64_le(out, self.threshold as u64);
        push_u64_le(out, self.round);
        self.participants.encode(out);
        assert(out@ =~= start + session_bytes(self@));
    }
}

} // verus!
