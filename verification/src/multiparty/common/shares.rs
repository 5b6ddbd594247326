//! Typed protocol shares, their wire encoding, and share aggregation.

use vstd::prelude::*;

use crate::codec::{
    le_u32, le_u64, payload_words, push_bytes, push_u32_le, push_u64_le, u32_le, u64_le,
};
use crate::multiparty::common::participant::{ParticipantId, PARTICIPANT_ID_ZERO};
use crate::multiparty::common::reader::{encode_bytes, length_prefixed, ByteReader};
use crate::multiparty::common::session::{
    protocol_canonical, protocol_from_tag, protocol_tag, ProtocolKind, SessionId, SessionState, SessionView,
    SESSION_ID_ZERO,
};
use crate::multiparty::error::MultipartyError;

verus! {

/// Common share type identifiers.
#[derive(Clone, Copy, Debug, PartialEq, Eq, PartialOrd, Ord, Hash)]
pub enum ShareKind {
    /// Collective public key generation share.
    CollectiveKeyGen,
    /// Relinearization key generation share.
    RelinearizationKeyGen,
    /// Galois key generation share.
    GaloisKeyGen,
    /// Partial decryption share.
    PartialDecryption,
    /// Re-encryption share.
    ReEncryption,
    /// Interactive bootstrapping share.
    InteractiveBootstrap,
    /// Custom share domain.
    Custom(u32),
}

/// The wire tag of a share kind.
pub open spec fn share_kind_tag(kind: ShareKind) -> u32 {
    match kind {
        ShareKind::CollectiveKeyGen => 1,
        ShareKind::RelinearizationKeyGen => 2,
        ShareKind::GaloisKeyGen => 3,
        ShareKind::PartialDecryption => 4,
        ShareKind::ReEncryption => 5,
        ShareKind::InteractiveBootstrap => 6,
        ShareKind::Custom(tag) => tag,
    }
}

/// The share kind a wire tag stands for.
pub open spec fn share_kind_from_tag(tag: u32) -> ShareKind {
    if tag == 1 {
        ShareKind::CollectiveKeyGen
    } else if tag == 2 {
        ShareKind::RelinearizationKeyGen
    } else if tag == 3 {
        ShareKind::GaloisKeyGen
    } else if tag == 4 {
        ShareKind::PartialDecryption
    } else if tag == 5 {
        ShareKind::ReEncryption
    } else if tag == 6 {
        ShareKind::InteractiveBootstrap
    } else {
        ShareKind::Custom(tag)
    }
}

/// A share kind is canonical when its tag maps back to it.
pub open spec fn share_kind_canonical(kind: ShareKind) -> bool {
    kind matches ShareKind::Custom(tag) ==> !(1 <= tag <= 6)
}

impl ShareKind {
    /// Returns the wire tag of this kind.
    pub fn tag(self) -> (r: u32)
        ensures
            r == share_kind_tag(self),
    {
        match self {
            ShareKind::CollectiveKeyGen => 1,
            ShareKind::RelinearizationKeyGen => 2,
            ShareKind::GaloisKeyGen => 3,
            ShareKind::PartialDecryption => 4,
            ShareKind::ReEncryption => 5,
            ShareKind::InteractiveBootstrap => 6,
            ShareKind::Custom(tag) => tag,
        }
    }

    /// Returns the kind a wire tag stands for.
    pub fn from_tag(tag: u32) -> (r: Self)
        ensures
            r == share_kind_from_tag(tag),
    {
        match tag {
            1 => ShareKind::CollectiveKeyGen,
            2 => ShareKind::RelinearizationKeyGen,
            3 => ShareKind::GaloisKeyGen,
            4 => ShareKind::PartialDecryption,
            5 => ShareKind::ReEncryption,
            6 => ShareKind::InteractiveBootstrap,
            tag => ShareKind::Custom(tag),
        }
    }
}

/// The abstract content of a share.
pub struct ShareView {
    pub session_id: u64,
    pub protocol: ProtocolKind,
    pub round: u64,
    pub participant: u64,
    pub kind: ShareKind,
    pub payload: Seq<u8>,
}

/// The 6-byte magic that starts every encoded share.
pub open spec fn share_magic() -> Seq<u8> {
    seq![80u8, 77u8, 83u8, 72u8, 82u8, 49u8]
}

/// The share of participant `p` in the current round of session `s`.
pub open spec fn share_for(s: SessionView, p: u64, kind: ShareKind, payload: Seq<u8>) -> ShareView {
    ShareView { session_id: s.id, protocol: s.protocol, round: s.round, participant: p, kind, payload }
}

/// The deterministic encoding of a share.
pub open spec fn share_bytes(v: ShareView) -> Seq<u8> {
    share_magic() + u64_le(v.session_id) + u32_le(protocol_tag(v.protocol)) + u64_le(v.round)
        + u64_le(v.participant) + u32_le(share_kind_tag(v.kind)) + length_prefixed(v.payload)
}

/// What every share value satisfies: nonzero ids and a nonempty payload.
pub open spec fn share_valid(v: ShareView) -> bool {
    &&& v.session_id != 0
    &&& v.participant != 0
    &&& v.payload.len() > 0
}

/// What decoding `input` gives: the fields are read in order (magic, session
/// id, protocol tag, round, participant id, kind tag, length-prefixed
/// payload); a short or over-long input or an empty payload is malformed, a
/// zero session or participant id is invalid.
pub open spec fn spec_decode_share(input: Seq<u8>) -> Result<ShareView, MultipartyError> {
    if input.len() < 6 || input.subrange(0, 6) != share_magic() || input.len() < 14 {
        Err(MultipartyError::MalformedMessage)
    } else if le_u64(input.subrange(6, 14)) == 0 {
        Err(MultipartyError::InvalidParameters(SESSION_ID_ZERO))
    } else if input.len() < 34 {
        Err(MultipartyError::MalformedMessage)
    } else if le_u64(input.subrange(26, 34)) == 0 {
        Err(MultipartyError::InvalidParameters(PARTICIPANT_ID_ZERO))
    } else if input.len() < 46 {
        Err(MultipartyError::MalformedMessage)
    } else {
        let len = le_u64(input.subrange(38, 46)) as int;
        if 46 + len != input.len() || len == 0 {
            Err(MultipartyError::MalformedMessage)
        } else {
            Ok(
                ShareView {
                    session_id: le_u64(input.subrange(6, 14)),
                    protocol: protocol_from_tag(le_u32(input.subrange(14, 18))),
                    round: le_u64(input.subrange(18, 26)),
                    participant: le_u64(input.subrange(26, 34)),
                    kind: share_kind_from_tag(le_u32(input.subrange(34, 38))),
                    payload: input.subrange(46, input.len() as int),
                },
            )
        }
    }
}

/// Decoding the encoding of a valid share whose protocol and kind are
/// canonical gives the share back.
pub proof fn lemma_share_round_trip(v: ShareView)
    requires
        share_valid(v),
        protocol_canonical(v.protocol),
        share_kind_canonical(v.kind),
        v.payload.len() <= u64::MAX,
    ensures
        spec_decode_share(share_bytes(v)) == Ok::<ShareView, MultipartyError>(v),
{
    let b = share_bytes(v);
    crate::codec::lemma_u64_le_round_trip(v.session_id);
    crate::codec::lemma_u64_le_round_trip(v.round);
    crate::codec::lemma_u64_le_round_trip(v.participant);
    crate::codec::lemma_u64_le_round_trip(v.payload.len() as u64);
    crate::codec::lemma_u32_le_round_trip(protocol_tag(v.protocol));
    crate::codec::lemma_u32_le_round_trip(share_kind_tag(v.kind));
    assert(b.subrange(0, 6) =~= share_magic());
    assert(b.subrange(6, 14) =~= u64_le(v.session_id));
    assert(b.subrange(14, 18) =~= u32_le(protocol_tag(v.protocol)));
    assert(b.subrange(18, 26) =~= u64_le(v.round));
    assert(b.subrange(26, 34) =~= u64_le(v.participant));
    assert(b.subrange(34, 38) =~= u32_le(share_kind_tag(v.kind)));
    assert(b.subrange(38, 46) =~= u64_le(v.payload.len() as u64));
    assert(b.subrange(46, b.len() as int) =~= v.payload);
}

/// Public typed protocol share bound to a session round.
#[derive(Debug, PartialEq, Eq)]
pub struct Share {
    session_id: SessionId,
    protocol: ProtocolKind,
    round: u64,
    participant: ParticipantId,
    kind: ShareKind,
    payload: Vec<u8>,
}

impl View for Share {
    type V = ShareView;

    closed spec fn view(&self) -> ShareView {
        ShareView {
            session_id: self.session_id@,
            protocol: self.protocol,
            round: self.round,
            participant: self.participant@,
            kind: self.kind,
            payload: self.payload@,
        }
    }
}

impl Clone for Share {
    fn clone(&self) -> (r: Self)
        ensures
            r@ == self@,
    {
        proof {
            use_type_invariant(self);
        }
        let payload = self.payload.clone();
        assert(payload@ =~= self.payload@);
        Share {
            session_id: self.session_id,
            protocol: self.protocol,
            round: self.round,
            participant: self.participant,
            kind: self.kind,
            payload,
        }
    }
}

impl Share {
    #[verifier::type_invariant]
    closed spec fn payload_nonempty(self) -> bool {
        self.payload@.len() > 0
    }

    /// Every share value has nonzero ids and a nonempty payload.
    fn check_valid(&self)
        ensures
            share_valid(self@),
    {
        proof {
            use_type_invariant(self);
        }
        let _ = self.session_id.get();
        let _ = self.participant.get();
    }

    /// Creates a share for `session`'s current round. Fails with
    /// `UnknownParticipant` for a participant outside the session, then with
    /// `MalformedMessage` for an empty payload.
    pub fn new(
        session: &SessionState,
        participant: ParticipantId,
        kind: ShareKind,
        payload: Vec<u8>,
    ) -> (r: Result<Self, MultipartyError>)
        ensures
            !session@.participants.contains(participant@) ==> r == Err::<Self, _>(
                MultipartyError::UnknownParticipant,
            ),
            session@.participants.contains(participant@) && payload@.len() == 0 ==> r
                == Err::<Self, _>(MultipartyError::MalformedMessage),
            session@.participants.contains(participant@) && payload@.len() > 0 ==> r is Ok,
            r matches Ok(s) ==> s@ == (ShareView {
                session_id: session@.id,
                protocol: session@.protocol,
                round: session@.round,
                participant: participant@,
                kind,
                payload: payload@,
            }),
    {
        session.check_participant(participant)?;
        if payload.len() == 0 {
            return Err(MultipartyError::MalformedMessage);
        }
        Ok(
            Share {
                session_id: session.id(),
                protocol: session.protocol(),
                round: session.round(),
                participant,
                kind,
                payload,
            },
        )
    }

    /// Returns the participant that produced the share.
    pub fn participant(&self) -> (r: ParticipantId)
        ensures
            r@ == self@.participant,
    {
        self.participant
    }

    /// Returns the share kind.
    pub fn kind(&self) -> (r: ShareKind)
        ensures
            r == self@.kind,
    {
        self.kind
    }

    /// Returns the payload.
    pub fn payload(&self) -> (r: &[u8])
        ensures
            r@ == self@.payload,
    {
        self.payload.as_slice()
    }

    /// Encodes this share deterministically. Decoding the result gives the
    /// share back whenever its protocol and kind are canonical.
    pub fn encode(&self) -> (r: Vec<u8>)
        ensures
            r@ == share_bytes(self@),
            protocol_canonical(self@.protocol) && share_kind_canonical(self@.kind)
                ==> spec_decode_share(r@) == Ok::<ShareView, MultipartyError>(self@),
    {
        self.check_valid();
        let mut out: Vec<u8> = Vec::new();
        let magic: Vec<u8> = vec![80u8, 77u8, 83u8, 72u8, 82u8, 49u8];
        push_bytes(&mut out, magic.as_slice());
        self.session_id.encode(&mut out);
        push_u32_le(&mut out, self.protocol.tag());
        push_u64_le(&mut out, self.round);
        self.participant.encode(&mut out);
        push_u32_le(&mut out, self.kind.tag());
        encode_bytes(self.payload.as_slice(), &mut out);
        proof {
            assert(magic@ =~= share_magic());
            assert(out@ =~= share_bytes(self@));
            if protocol_canonical(self@.protocol) && share_kind_canonical(self@.kind) {
                assert(self.payload@.len() == self.payload.len());
                lemma_share_round_trip(self@);
            }
        }
        out
    }

    /// Decodes a share from its deterministic encoding.
    pub fn decode(input: &[u8]) -> (r: Result<Self, MultipartyError>)
        ensures
            match spec_decode_share(input@) {
                Ok(v) => r matches Ok(s) && s@ == v,
                Err(e) => r == Err::<Self, _>(e),
            },
            r matches Ok(s) ==> share_bytes(s@) == input@,
    {
        let mut reader = ByteReader::new(input);
        let magic: Vec<u8> = vec![80u8, 77u8, 83u8, 72u8, 82u8, 49u8];
        assert(magic@ =~= share_magic());
        let r0 = reader.expect(magic.as_slice());
        if r0.is_err() {
            return Err(MultipartyError::MalformedMessage);
        }
        let sid = reader.u64()?;
        let session_id = SessionId::new(sid)?;
        let protocol = ProtocolKind::from_tag(reader.u32()?);
        let round = reader.u64()?;
        let participant = ParticipantId::new(reader.u64()?)?;
        let kind = ShareKind::from_tag(reader.u32()?);
        let payload = reader.bytes()?;
        if !reader.is_finished() || payload.len() == 0 {
            return Err(MultipartyError::MalformedMessage);
        }
        let s = Share { session_id, protocol, round, participant, kind, payload };
        proof {
            assert(input@.subrange(46, input@.len() as int) == payload@);
            let v = spec_decode_share(input@)->Ok_0;
            assert(s@ == v);
            let b = share_bytes(s@);
            crate::codec::lemma_u64_le_round_trip(v.session_id);
            assert(b =~= input@) by {
                assert(input@ =~= input@.subrange(0, 6) + input@.subrange(6, 14) + input@.subrange(
                    14,
                    18,
                ) + input@.subrange(18, 26) + input@.subrange(26, 34) + input@.subrange(34, 38)
                    + input@.subrange(38, 46) + input@.subrange(46, input@.len() as int));
                lemma_u64_bytes_of_le(input@.subrange(6, 14));
                lemma_u64_bytes_of_le(input@.subrange(18, 26));
                lemma_u64_bytes_of_le(input@.subrange(26, 34));
                lemma_u64_bytes_of_le(input@.subrange(38, 46));
                lemma_u32_bytes_of_le(input@.subrange(14, 18));
                lemma_u32_bytes_of_le(input@.subrange(34, 38));
                crate::multiparty::common::session::lemma_protocol_tag_round_trip(
                    protocol,
                    le_u32(input@.subrange(14, 18)),
                );
                lemma_share_kind_tag_round_trip(le_u32(input@.subrange(34, 38)));
                assert(payload@.len() as u64 == le_u64(input@.subrange(38, 46)));
            }
        }
        Ok(s)
    }

    /// Checks that this share belongs to `session`'s current round and is of
    /// `kind`: `StaleShare` on another session id, protocol tag or round, then
    /// `MalformedMessage` on another kind, then `UnknownParticipant` for a
    /// participant outside the session.
    pub fn check_for_session(&self, session: &SessionState, kind: ShareKind) -> (r: Result<
        (),
        MultipartyError,
    >)
        ensures
            r == spec_check_for_session(self@, session@, kind),
    {
        if self.session_id.get() != session.id().get() || self.protocol.tag()
            != session.protocol().tag() || self.round != session.round() {
            return Err(MultipartyError::StaleShare);
        }
        if !same_kind(self.kind, kind) {
            return Err(MultipartyError::MalformedMessage);
        }
        match session.check_participant(self.participant) {
            Ok(()) => Ok(()),
            Err(e) => Err(e),
        }
    }
}

/// Reading back a tag gives the tag.
pub proof fn lemma_share_kind_tag_round_trip(tag: u32)
    ensures
        share_kind_tag(share_kind_from_tag(tag)) == tag,
{
}

/// Exact equality of two share kinds.
fn same_kind(a: ShareKind, b: ShareKind) -> (r: bool)
    ensures
        r == (a == b),
{
    match (a, b) {
        (ShareKind::Custom(x), ShareKind::Custom(y)) => x == y,
        (ShareKind::Custom(_), _) => false,
        (_, ShareKind::Custom(_)) => false,
        _ => a.tag() == b.tag(),
    }
}

/// What checking a share against a session round and kind gives.
pub open spec fn spec_check_for_session(
    share: ShareView,
    session: SessionView,
    kind: ShareKind,
) -> Result<(), MultipartyError> {
    if share.session_id != session.id || protocol_tag(share.protocol) != protocol_tag(
        session.protocol,
    ) || share.round != session.round {
        Err(MultipartyError::StaleShare)
    } else if share.kind != kind {
        Err(MultipartyError::MalformedMessage)
    } else if !session.participants.contains(share.participant) {
        Err(MultipartyError::UnknownParticipant)
    } else {
        Ok(())
    }
}

/// Eight bytes are the little-endian encoding of the `u64` they spell.
pub proof fn lemma_u64_bytes_of_le(b: Seq<u8>)
    requires
        b.len() == 8,
    ensures
        u64_le(le_u64(b)) == b,
{
    let (b0, b1, b2, b3, b4, b5, b6, b7) = (b[0], b[1], b[2], b[3], b[4], b[5], b[6], b[7]);
    let v = le_u64(b);
    assert(v == (b0 as u64) | ((b1 as u64) << 8u64) | ((b2 as u64) << 16u64) | ((b3 as u64) << 24u64)
        | ((b4 as u64) << 32u64) | ((b5 as u64) << 40u64) | ((b6 as u64) << 48u64) | ((b7 as u64)
        << 56u64));
    assert(v as u8 == b0 && (v >> 8u64) as u8 == b1 && (v >> 16u64) as u8 == b2 && (v >> 24u64) as u8
        == b3 && (v >> 32u64) as u8 == b4 && (v >> 40u64) as u8 == b5 && (v >> 48u64) as u8 == b6
        && (v >> 56u64) as u8 == b7) by (bit_vector)
        requires
            v == (b0 as u64) | ((b1 as u64) << 8u64) | ((b2 as u64) << 16u64) | ((b3 as u64)
                << 24u64) | ((b4 as u64) << 32u64) | ((b5 as u64) << 40u64) | ((b6 as u64)
                << 48u64) | ((b7 as u64) << 56u64),
    ;
    assert(u64_le(v) =~= b);
}

/// Four bytes are the little-endian encoding of the `u32` they spell.
pub proof fn lemma_u32_bytes_of_le(b: Seq<u8>)
    requires
        b.len() == 4,
    ensures
        u32_le(le_u32(b)) == b,
{
    let (b0, b1, b2, b3) = (b[0], b[1], b[2], b[3]);
    let v = le_u32(b);
    assert(v as u8 == b0 && (v >> 8u32) as u8 == b1 && (v >> 16u32) as u8 == b2 && (v >> 24u32) as u8
        == b3) by (bit_vector)
        requires
            v == (b0 as u32) | ((b1 as u32) << 8u32) | ((b2 as u32) << 16u32) | ((b3 as u32)
                << 24u32),
    ;
    assert(u32_le(v) =~= b);
}


/// Message of the error an aggregation modulus of zero or one is refused
/// with.
pub const AGGREGATION_MODULUS_TOO_SMALL: &'static str = "aggregation modulus must be greater than one";

/// The participant ids of a share sequence.
pub open spec fn share_participants(shares: Seq<ShareView>) -> Seq<u64> {
    shares.map_values(|s: ShareView| s.participant)
}

/// Collects the shares of one session round and kind, at most one per
/// participant, kept in increasing participant order.
#[derive(Debug)]
pub struct ShareAggregator {
    session: SessionState,
    kind: ShareKind,
    shares: Vec<Share>,
}

impl ShareAggregator {
    /// The session the shares belong to.
    pub closed spec fn session_view(&self) -> SessionView {
        self.session@
    }

    /// The kind of every collected share.
    pub closed spec fn kind_view(&self) -> ShareKind {
        self.kind
    }

    /// The collected shares in increasing participant order.
    pub closed spec fn shares_view(&self) -> Seq<ShareView> {
        self.shares@.map_values(|s: Share| s@)
    }

    #[verifier::type_invariant]
    closed spec fn collected_in_order(self) -> bool {
        &&& crate::multiparty::common::participant::strictly_increasing(
            share_participants(self.shares@.map_values(|s: Share| s@)),
        )
        &&& forall|i: int|
            0 <= i < self.shares@.len() ==> spec_check_for_session(
                #[trigger] self.shares@[i]@,
                self.session@,
                self.kind,
            ) is Ok
    }

    /// Every collected share belongs to the session round and kind, and the
    /// shares are in strictly increasing participant order.
    pub fn check_collected(&self)
        ensures
            crate::multiparty::common::participant::strictly_increasing(
                share_participants(self.shares_view()),
            ),
            forall|i: int|
                0 <= i < self.shares_view().len() ==> spec_check_for_session(
                    #[trigger] self.shares_view()[i],
                    self.session_view(),
                    self.kind_view(),
                ) is Ok,
    {
        proof {
            use_type_invariant(self);
            assert forall|i: int| 0 <= i < self.shares_view().len() implies spec_check_for_session(
                #[trigger] self.shares_view()[i],
                self.session_view(),
                self.kind_view(),
            ) is Ok by {
                assert(self.shares_view()[i] == self.shares@[i]@);
            }
        }
    }

    /// Creates an empty aggregator for `session`'s current round and `kind`.
    pub fn new(session: SessionState, kind: ShareKind) -> (r: Self)
        ensures
            r.session_view() == session@,
            r.kind_view() == kind,
            r.shares_view() == Seq::<ShareView>::empty(),
    {
        let r = ShareAggregator { session, kind, shares: Vec::new() };
        assert(r.shares_view() =~= Seq::<ShareView>::empty());
        r
    }

    /// Adds one share: it must pass [`Share::check_for_session`] and come from
    /// a participant with no share collected yet (`DuplicateParticipant`).
    pub fn add_share(&mut self, share: Share) -> (r: Result<(), MultipartyError>)
        ensures
            final(self).session_view() == old(self).session_view(),
            final(self).kind_view() == old(self).kind_view(),
            spec_check_for_session(share@, old(self).session_view(), old(self).kind_view()) is Err
                ==> r == spec_check_for_session(
                share@,
                old(self).session_view(),
                old(self).kind_view(),
            ) && final(self).shares_view() == old(self).shares_view(),
            spec_check_for_session(share@, old(self).session_view(), old(self).kind_view()) is Ok
                && share_participants(old(self).shares_view()).contains(share@.participant) ==> r
                == Err::<(), _>(MultipartyError::DuplicateParticipant) && final(self).shares_view()
                == old(self).shares_view(),
            spec_check_for_session(share@, old(self).session_view(), old(self).kind_view()) is Ok
                && !share_participants(old(self).shares_view()).contains(share@.participant) ==> {
                &&& r is Ok
                &&& final(self).shares_view().len() == old(self).shares_view().len() + 1
                &&& forall|x: ShareView| #[trigger]
                    final(self).shares_view().contains(x) <==> (old(self).shares_view().contains(x)
                        || x == share@)
            },
    {
        proof {
            use_type_invariant(&*self);
        }
        match share.check_for_session(&self.session, self.kind) {
            Ok(()) => {},
            Err(e) => {
                return Err(e);
            },
        }
        let who = share.participant().get();
        let ghost before = self.shares@;
        let ghost ids = share_participants(self.shares_view());
        let mut pos: usize = 0;
        while pos < self.shares.len() && self.shares[pos].participant().get() < who
            invariant
                self.shares@ == before,
                ids == share_participants(before.map_values(|s: Share| s@)),
                pos <= before.len(),
                forall|i: int| 0 <= i < pos ==> ids[i] < who,
            decreases before.len() - pos,
        {
            pos = pos + 1;
        }
        proof {
            assert(ids.len() == before.len());
        }
        if pos < self.shares.len() && self.shares[pos].participant().get() == who {
            proof {
                assert(ids[pos as int] == who);
                assert(ids.contains(who));
            }
            return Err(MultipartyError::DuplicateParticipant);
        }
        proof {
            if pos < before.len() {
                assert(ids[pos as int] > who);
                assert forall|i: int| pos <= i < ids.len() implies ids[i] > who by {
                    if i > pos {
                        assert(ids[pos as int] < ids[i]);
                    }
                }
            }
            if ids.contains(who) {
                let i = choose|i: int| 0 <= i < ids.len() && ids[i] == who;
                assert(false);
            }
        }
        let ghost sv = share@;
        let mut shares: Vec<Share> = Vec::new();
        std::mem::swap(&mut shares, &mut self.shares);
        shares.insert(pos, share);
        proof {
            let after = shares@.map_values(|s: Share| s@);
            let old_views = before.map_values(|s: Share| s@);
            assert(after =~= old_views.insert(pos as int, sv));
            let new_ids = share_participants(after);
            assert(new_ids =~= ids.insert(pos as int, who));
            assert forall|x: ShareView| #[trigger] after.contains(x) <==> (old_views.contains(x)
                || x == sv) by {
                if after.contains(x) {
                    let i = choose|i: int| 0 <= i < after.len() && after[i] == x;
                    if i < pos {
                        assert(old_views[i] == x);
                    } else if i > pos {
                        assert(old_views[i - 1] == x);
                    }
                }
                if old_views.contains(x) {
                    let i = choose|i: int| 0 <= i < old_views.len() && old_views[i] == x;
                    if i < pos {
                        assert(after[i] == x);
                    } else {
                        assert(after[i + 1] == x);
                    }
                }
                if x == sv {
                    assert(after[pos as int] == x);
                }
            }
            assert forall|i: int| 0 <= i < shares@.len() implies spec_check_for_session(
                #[trigger] shares@[i]@,
                self.session@,
                self.kind,
            ) is Ok by {
                if i < pos {
                    assert(shares@[i] == before[i]);
                } else if i > pos {
                    assert(shares@[i] == before[i - 1]);
                }
            }
        }
        self.shares = shares;
        Ok(())
    }

    /// Returns whether at least `threshold` shares were collected.
    pub fn is_ready(&self) -> (r: bool)
        ensures
            r == (self.shares_view().len() >= self.session_view().threshold),
    {
        self.shares.len() >= self.session.threshold()
    }

    /// Returns the first `threshold` shares in participant order once the
    /// threshold is met, `ThresholdNotMet` before.
    pub fn aggregate(&self) -> (r: Result<Vec<Share>, MultipartyError>)
        ensures
            self.shares_view().len() < self.session_view().threshold ==> r == Err::<Vec<Share>, _>(
                MultipartyError::ThresholdNotMet,
            ),
            self.shares_view().len() >= self.session_view().threshold ==> (r matches Ok(v)
                && v@.map_values(|s: Share| s@) == self.shares_view().take(
                self.session_view().threshold as int,
            )),
    {
        if !self.is_ready() {
            return Err(MultipartyError::ThresholdNotMet);
        }
        Ok(self.copy_prefix(self.session.threshold()))
    }

    /// Returns every collected share in participant order once the threshold
    /// is met, `ThresholdNotMet` before.
    pub fn all_shares(&self) -> (r: Result<Vec<Share>, MultipartyError>)
        ensures
            self.shares_view().len() < self.session_view().threshold ==> r == Err::<Vec<Share>, _>(
                MultipartyError::ThresholdNotMet,
            ),
            self.shares_view().len() >= self.session_view().threshold ==> (r matches Ok(v)
                && v@.map_values(|s: Share| s@) == self.shares_view()),
    {
        if !self.is_ready() {
            return Err(MultipartyError::ThresholdNotMet);
        }
        let v = self.copy_prefix(self.shares.len());
        assert(self.shares_view().take(self.shares_view().len() as int) =~= self.shares_view());
        Ok(v)
    }

    fn copy_prefix(&self, n: usize) -> (r: Vec<Share>)
        requires
            n <= self.shares_view().len(),
        ensures
            r@.map_values(|s: Share| s@) == self.shares_view().take(n as int),
    {
        let mut out: Vec<Share> = Vec::with_capacity(n);
        let mut i: usize = 0;
        while i < n
            invariant
                i <= n <= self.shares@.len(),
                out@.len() == i,
                forall|j: int| 0 <= j < i ==> (#[trigger] out@[j])@ == self.shares@[j]@,
            decreases n - i,
        {
            let item = self.shares[i].clone();
            out.push(item);
            i = i + 1;
        }
        proof {
            let lhs = out@.map_values(|s: Share| s@);
            let rhs = self.shares_view().take(n as int);
            assert forall|j: int| 0 <= j < n implies lhs[j] == rhs[j] by {
                assert(lhs[j] == out@[j]@);
                assert(rhs[j] == self.shares@[j]@);
            }
            assert(lhs =~= rhs);
        }
        out
    }

    /// Returns the number of collected shares.
    pub fn len(&self) -> (r: usize)
        ensures
            r == self.shares_view().len(),
    {
        self.shares.len()
    }

    /// Returns whether no shares have been collected.
    pub fn is_empty(&self) -> (r: bool)
        ensures
            r == (self.shares_view().len() == 0),
    {
        self.shares.len() == 0
    }
}

/// Decodes a payload of little-endian `u64` words; `MalformedMessage` unless
/// its length is a multiple of 8.
pub fn decode_u64_payload(payload: &[u8]) -> (r: Result<Vec<u64>, MultipartyError>)
    ensures
        payload@.len() % 8 != 0 ==> r == Err::<Vec<u64>, _>(MultipartyError::MalformedMessage),
        payload@.len() % 8 == 0 ==> (r matches Ok(v) && v@ == payload_words(payload@)),
{
    if payload.len() % 8 != 0 {
        return Err(MultipartyError::MalformedMessage);
    }
    let n = payload.len() / 8;
    let mut out: Vec<u64> = Vec::with_capacity(n);
    let mut i: usize = 0;
    while i < n
        invariant
            n == payload@.len() / 8,
            payload@.len() % 8 == 0,
            8 * n == payload.len(),
            i <= n,
            out@ == payload_words(payload@).take(i as int),
        decreases n - i,
    {
        out.push(crate::codec::read_u64_le(payload, 8 * i));
        i = i + 1;
        assert(out@ =~= payload_words(payload@).take(i as int));
    }
    assert(out@ =~= payload_words(payload@));
    Ok(out)
}

/// `sum_{i < n} words(shares[i])[k]`.
pub open spec fn column_sum(shares: Seq<ShareView>, k: int, n: int) -> int
    decreases n,
{
    if n <= 0 {
        0
    } else {
        column_sum(shares, k, n - 1) + payload_words(shares[n - 1].payload)[k] as int
    }
}

/// Every payload is whole words and has as many words as the first.
pub open spec fn payloads_agree(shares: Seq<ShareView>) -> bool {
    forall|i: int|
        0 <= i < shares.len() ==> (#[trigger] shares[i].payload).len() % 8 == 0
            && payload_words(shares[i].payload).len() == payload_words(shares[0].payload).len()
}

/// What aggregating `u64` word shares modulo `modulus` gives: the
/// coordinatewise sum of every share's words, reduced modulo `modulus`.
pub open spec fn spec_aggregate_u64_shares_mod(shares: Seq<ShareView>, modulus: u64) -> Result<
    Seq<u64>,
    MultipartyError,
> {
    if modulus <= 1 {
        Err(MultipartyError::InvalidParameters(AGGREGATION_MODULUS_TOO_SMALL))
    } else if shares.len() == 0 {
        Err(MultipartyError::MissingShare)
    } else if !payloads_agree(shares) {
        Err(MultipartyError::MalformedMessage)
    } else {
        Ok(
            Seq::new(
                payload_words(shares[0].payload).len(),
                |k: int| (column_sum(shares, k, shares.len() as int) % (modulus as int)) as u64,
            ),
        )
    }
}

/// Aggregates little-endian `u64` vector shares modulo `modulus`.
pub fn aggregate_u64_shares_mod(shares: &[Share], modulus: u64) -> (r: Result<Vec<u64>, MultipartyError>)
    ensures
        match spec_aggregate_u64_shares_mod(shares@.map_values(|s: Share| s@), modulus) {
            Ok(v) => r matches Ok(w) && w@ == v,
            Err(e) => r == Err::<Vec<u64>, _>(e),
        },
        modulus > 1 && shares@.len() == 1 && shares@[0]@.payload.len() % 8 == 0 ==> (r matches Ok(w) && w@.len()
            == payload_words(shares@[0]@.payload).len() && forall|k: int|
            0 <= k < w@.len() ==> #[trigger] w@[k] == payload_words(shares@[0]@.payload)[k] % modulus),
{
    let ghost views = shares@.map_values(|s: Share| s@);
    if modulus <= 1 {
        return Err(MultipartyError::InvalidParameters(AGGREGATION_MODULUS_TOO_SMALL));
    }
    if shares.len() == 0 {
        return Err(MultipartyError::MissingShare);
    }
    let first = match decode_u64_payload(shares[0].payload()) {
        Ok(words) => words,
        Err(e) => {
            proof {
                assert(views[0].payload == shares@[0]@.payload);
                assert(!payloads_agree(views));
            }
            return Err(e);
        },
    };
    let width = first.len();
    let mut acc: Vec<u64> = Vec::with_capacity(width);
    let mut k: usize = 0;
    while k < width
        invariant
            k <= width,
            acc@.len() == k,
            forall|j: int| 0 <= j < k ==> acc@[j] == 0,
        decreases width - k,
    {
        acc.push(0);
        k = k + 1;
    }
    assert forall|c: int| 0 <= c < width implies acc@[c] == column_sum(views, c, 0) % (
    modulus as int) by {
        assert(column_sum(views, c, 0) == 0);
    }
    let mut i: usize = 0;
    while i < shares.len()
        invariant
            views == shares@.map_values(|s: Share| s@),
            1 < modulus,
            0 < shares@.len(),
            width == payload_words(views[0].payload).len(),
            views[0].payload.len() % 8 == 0,
            i <= shares@.len(),
            acc@.len() == width,
            forall|j: int| 0 <= j < i ==> (#[trigger] views[j].payload).len() % 8 == 0
                && payload_words(views[j].payload).len() == width,
            forall|c: int|
                0 <= c < width ==> acc@[c] == column_sum(views, c, i as int) % (modulus as int),
        decreases shares@.len() - i,
    {
        let values = match decode_u64_payload(shares[i].payload()) {
            Ok(words) => words,
            Err(e) => {
                proof {
                    assert(views[i as int].payload == shares@[i as int]@.payload);
                    assert(!payloads_agree(views));
                }
                return Err(e);
            },
        };
        proof {
            assert(views[i as int].payload == shares@[i as int]@.payload);
        }
        if values.len() != width {
            proof {
                assert(!payloads_agree(views));
            }
            return Err(MultipartyError::MalformedMessage);
        }
        let ghost prev = acc@;
        let mut c: usize = 0;
        while c < width
            invariant
                views == shares@.map_values(|s: Share| s@),
                1 < modulus,
                i < shares@.len(),
                values@ == payload_words(views[i as int].payload),
                values@.len() == width,
                acc@.len() == width,
                prev.len() == width,
                c <= width,
                forall|j: int|
                    0 <= j < width ==> prev[j] == column_sum(views, j, i as int) % (modulus as int),
                forall|j: int|
                    0 <= j < c ==> acc@[j] == column_sum(views, j, i + 1) % (modulus as int),
                forall|j: int| c <= j < width ==> acc@[j] == prev[j],
            decreases width - c,
        {
            let v = values[c];
            let sum = ((acc[c] as u128 + (v % modulus) as u128) % modulus as u128) as u64;
            proof {
                let m = modulus as int;
                let before = column_sum(views, c as int, i as int);
                vstd::arithmetic::div_mod::lemma_add_mod_noop(before, v as int, m);
                vstd::arithmetic::div_mod::lemma_mod_twice(before, m);
                assert(v == payload_words(views[i as int].payload)[c as int]);
                assert(column_sum(views, c as int, i + 1) == before + v as int);
                assert(prev[c as int] == before % m);
                assert(acc@[c as int] == before % m);
                assert(sum as int == ((before % m) + (v as int % m)) % m);
            }
            acc.set(c, sum);
            c = c + 1;
        }
        i = i + 1;
    }
    proof {
        assert(payloads_agree(views));
        let expected = spec_aggregate_u64_shares_mod(views, modulus)->Ok_0;
        assert(acc@ =~= expected);
        if views.len() == 1 {
            assert(views =~= seq![views[0]]);
            lemma_aggregate_single_share(views[0], modulus);
        }
    }
    Ok(acc)
}

/// Column sums of a sequence do not look past the first `m` shares.
proof fn lemma_column_sum_prefix(a: Seq<ShareView>, b: Seq<ShareView>, k: int, m: int)
    requires
        0 <= m <= a.len(),
        m <= b.len(),
        forall|i: int| 0 <= i < m ==> a[i] == b[i],
    ensures
        column_sum(a, k, m) == column_sum(b, k, m),
    decreases m,
{
    if m > 0 {
        lemma_column_sum_prefix(a, b, k, m - 1);
    }
}

/// The column sum of a concatenation is the sum of the column sums.
proof fn lemma_column_sum_concat(xs: Seq<ShareView>, ys: Seq<ShareView>, k: int, m: int)
    requires
        0 <= m <= ys.len(),
    ensures
        column_sum(xs + ys, k, xs.len() + m) == column_sum(xs, k, xs.len() as int) + column_sum(ys, k, m),
    decreases m,
{
    if m == 0 {
        lemma_column_sum_prefix(xs + ys, xs, k, xs.len() as int);
    } else {
        lemma_column_sum_concat(xs, ys, k, m - 1);
        assert((xs + ys)[xs.len() + m - 1] == ys[m - 1]);
    }
}

/// A single share aggregates to its own words, each reduced modulo
/// `modulus`.
pub proof fn lemma_aggregate_single_share(s: ShareView, modulus: u64)
    requires
        modulus > 1,
        s.payload.len() % 8 == 0,
    ensures
        spec_aggregate_u64_shares_mod(seq![s], modulus) == Ok::<Seq<u64>, MultipartyError>(
            Seq::new(payload_words(s.payload).len(), |k: int| payload_words(s.payload)[k] % modulus),
        ),
{
    let shares = seq![s];
    assert(payloads_agree(shares));
    let got = spec_aggregate_u64_shares_mod(shares, modulus)->Ok_0;
    let want = Seq::new(payload_words(s.payload).len(), |k: int| payload_words(s.payload)[k] % modulus);
    assert forall|k: int| 0 <= k < want.len() implies got[k] == want[k] by {
        assert(column_sum(shares, k, 0) == 0);
        assert(column_sum(shares, k, 1) == payload_words(s.payload)[k] as int);
    }
    assert(got =~= want);
}

/// Aggregation is additive: aggregating the shares of `xs` followed by
/// those of `ys` gives, word by word, the sum of the two aggregates modulo
/// `modulus`. So every share counts once, whatever its place: for two
/// shares the result is the sum of their words.
pub proof fn lemma_aggregate_concat(xs: Seq<ShareView>, ys: Seq<ShareView>, modulus: u64)
    requires
        modulus > 1,
        xs.len() > 0,
        ys.len() > 0,
        payloads_agree(xs),
        payloads_agree(ys),
        payload_words(ys[0].payload).len() == payload_words(xs[0].payload).len(),
    ensures
        ({
            let all = spec_aggregate_u64_shares_mod(xs + ys, modulus);
            let a = spec_aggregate_u64_shares_mod(xs, modulus)->Ok_0;
            let b = spec_aggregate_u64_shares_mod(ys, modulus)->Ok_0;
            &&& all is Ok
            &&& all->Ok_0.len() == a.len()
            &&& a.len() == b.len()
            &&& forall|k: int| 0 <= k < a.len() ==> #[trigger] all->Ok_0[k] as int == (a[k] + b[k]) % (modulus as int)
        }),
{
    let zs = xs + ys;
    let m = modulus as int;
    assert forall|i: int| 0 <= i < zs.len() implies (#[trigger] zs[i].payload).len() % 8 == 0
        && payload_words(zs[i].payload).len() == payload_words(zs[0].payload).len() by {
        if i >= xs.len() {
            assert(zs[i] == ys[i - xs.len()]);
        }
    }
    assert(payloads_agree(zs));
    let a = spec_aggregate_u64_shares_mod(xs, modulus)->Ok_0;
    let b = spec_aggregate_u64_shares_mod(ys, modulus)->Ok_0;
    let all = spec_aggregate_u64_shares_mod(zs, modulus)->Ok_0;
    assert forall|k: int| 0 <= k < a.len() implies #[trigger] all[k] as int == (a[k] + b[k]) % m by {
        lemma_column_sum_concat(xs, ys, k, ys.len() as int);
        let (sa, sb) = (column_sum(xs, k, xs.len() as int), column_sum(ys, k, ys.len() as int));
        vstd::arithmetic::div_mod::lemma_add_mod_noop(sa, sb, m);
        vstd::arithmetic::div_mod::lemma_mod_bound(sa, m);
        vstd::arithmetic::div_mod::lemma_mod_bound(sb, m);
        vstd::arithmetic::div_mod::lemma_mod_bound(sa + sb, m);
    }
}

} // verus!
