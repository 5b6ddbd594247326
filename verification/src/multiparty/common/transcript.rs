//! Deterministic transcript encoding and hashing.

use sha2::{Digest, Sha256};
use vstd::prelude::*;

use crate::codec::{le_u32, le_u64, push_bytes, push_u32_le, push_u64_le, u32_le, u64_le};
use crate::multiparty::common::participant::{ParticipantId, PARTICIPANT_ID_ZERO};
use crate::multiparty::common::reader::{encode_bytes, length_prefixed, ByteReader};
use crate::multiparty::common::session::{
    protocol_canonical, protocol_from_tag, protocol_tag, session_bytes, ProtocolKind, SessionId,
    SessionState, SessionView, SESSION_ID_ZERO,
};
use crate::multiparty::common::shares::{lemma_u32_bytes_of_le, lemma_u64_bytes_of_le};
use crate::multiparty::error::MultipartyError;

verus! {

/// The SHA-256 digest of `data`.
pub uninterp spec fn sha256_digest(data: Seq<u8>) -> Seq<u8>;

/// SHA-256 of `data` (`sha2::Sha256::digest`): the 32-byte digest, named by
/// [`sha256_digest`]; the digest algorithm itself is not stated.
#[verifier::external_body]
pub(crate) fn sha256(data: &[u8]) -> (r: [u8; 32])
    ensures
        r@ == sha256_digest(data@),
{
    Sha256::digest(data).into()
}

/// Deterministic 256-bit transcript hash.
#[derive(Clone, Copy, Debug, PartialEq, Eq, Hash)]
pub struct TranscriptHash([u8; 32]);

impl View for TranscriptHash {
    type V = Seq<u8>;

    closed spec fn view(&self) -> Seq<u8> {
        self.0@
    }
}

impl TranscriptHash {
    /// Returns the raw hash bytes.
    pub fn as_bytes(self) -> (r: [u8; 32])
        ensures
            r@ == self@,
    {
        self.0
    }
}

/// The abstract content of a transcript message.
pub struct MessageView {
    pub session_id: u64,
    pub protocol: ProtocolKind,
    pub round: u64,
    pub sender: u64,
    pub label: Seq<u8>,
    pub payload: Seq<u8>,
}

/// The 6-byte magic that starts every encoded message.
pub open spec fn message_magic() -> Seq<u8> {
    seq![80u8, 77u8, 77u8, 83u8, 71u8, 49u8]
}

/// The 6-byte magic that starts every encoded transcript.
pub open spec fn transcript_magic() -> Seq<u8> {
    seq![80u8, 77u8, 84u8, 82u8, 78u8, 49u8]
}

/// The deterministic encoding of a message.
pub open spec fn message_bytes(m: MessageView) -> Seq<u8> {
    message_magic() + u64_le(m.session_id) + u32_le(protocol_tag(m.protocol)) + u64_le(m.round)
        + u64_le(m.sender) + length_prefixed(m.label) + length_prefixed(m.payload)
}

/// What every message value satisfies: nonzero ids and a nonempty label.
pub open spec fn message_valid(m: MessageView) -> bool {
    &&& m.session_id != 0
    &&& m.sender != 0
    &&& m.label.len() > 0
}

/// What decoding `input` gives: magic, session id, protocol tag, round,
/// sender id, length-prefixed label and payload, in order; a short or
/// over-long input or an empty label is malformed, a zero id is invalid.
pub open spec fn spec_decode_message(input: Seq<u8>) -> Result<MessageView, MultipartyError> {
    if input.len() < 14 || input.subrange(0, 6) != message_magic() {
        Err(MultipartyError::MalformedMessage)
    } else if le_u64(input.subrange(6, 14)) == 0 {
        Err(MultipartyError::InvalidParameters(SESSION_ID_ZERO))
    } else if input.len() < 34 {
        Err(MultipartyError::MalformedMessage)
    } else if le_u64(input.subrange(26, 34)) == 0 {
        Err(MultipartyError::InvalidParameters(PARTICIPANT_ID_ZERO))
    } else if input.len() < 42 {
        Err(MultipartyError::MalformedMessage)
    } else {
        let label_len = le_u64(input.subrange(34, 42)) as int;
        if 50 + label_len > input.len() {
            Err(MultipartyError::MalformedMessage)
        } else {
            let payload_len = le_u64(input.subrange(42 + label_len, 50 + label_len)) as int;
            if 50 + label_len + payload_len != input.len() || label_len == 0 {
                Err(MultipartyError::MalformedMessage)
            } else {
                Ok(
                    MessageView {
                        session_id: le_u64(input.subrange(6, 14)),
                        protocol: protocol_from_tag(le_u32(input.subrange(14, 18))),
                        round: le_u64(input.subrange(18, 26)),
                        sender: le_u64(input.subrange(26, 34)),
                        label: input.subrange(42, 42 + label_len),
                        payload: input.subrange(50 + label_len, input.len() as int),
                    },
                )
            }
        }
    }
}

/// Decoding the encoding of a valid message with a canonical protocol gives
/// the message back.
pub proof fn lemma_message_round_trip(m: MessageView)
    requires
        message_valid(m),
        protocol_canonical(m.protocol),
        m.label.len() <= u64::MAX,
        m.payload.len() <= u64::MAX,
    ensures
        spec_decode_message(message_bytes(m)) == Ok::<MessageView, MultipartyError>(m),
{
    let b = message_bytes(m);
    let l = m.label.len() as int;
    crate::codec::lemma_u64_le_round_trip(m.session_id);
    crate::codec::lemma_u64_le_round_trip(m.round);
    crate::codec::lemma_u64_le_round_trip(m.sender);
    crate::codec::lemma_u64_le_round_trip(m.label.len() as u64);
    crate::codec::lemma_u64_le_round_trip(m.payload.len() as u64);
    crate::codec::lemma_u32_le_round_trip(protocol_tag(m.protocol));
    assert(b.subrange(0, 6) =~= message_magic());
    assert(b.subrange(6, 14) =~= u64_le(m.session_id));
    assert(b.subrange(14, 18) =~= u32_le(protocol_tag(m.protocol)));
    assert(b.subrange(18, 26) =~= u64_le(m.round));
    assert(b.subrange(26, 34) =~= u64_le(m.sender));
    assert(b.subrange(34, 42) =~= u64_le(m.label.len() as u64));
    assert(b.subrange(42, 42 + l) =~= m.label);
    assert(b.subrange(42 + l, 50 + l) =~= u64_le(m.payload.len() as u64));
    assert(b.subrange(50 + l, b.len() as int) =~= m.payload);
}

/// One public transcript message bound to a session round.
#[derive(Debug, PartialEq, Eq)]
pub struct TranscriptMessage {
    session_id: SessionId,
    protocol: ProtocolKind,
    round: u64,
    sender: ParticipantId,
    label: Vec<u8>,
    payload: Vec<u8>,
}

impl View for TranscriptMessage {
    type V = MessageView;

    closed spec fn view(&self) -> MessageView {
        MessageView {
            session_id: self.session_id@,
            protocol: self.protocol,
            round: self.round,
            sender: self.sender@,
            label: self.label@,
            payload: self.payload@,
        }
    }
}

impl Clone for TranscriptMessage {
    fn clone(&self) -> (r: Self)
        ensures
            r@ == self@,
    {
        proof {
            use_type_invariant(self);
        }
        let label = self.label.clone();
        let payload = self.payload.clone();
        assert(label@ =~= self.label@);
        assert(payload@ =~= self.payload@);
        TranscriptMessage {
            session_id: self.session_id,
            protocol: self.protocol,
            round: self.round,
            sender: self.sender,
            label,
            payload,
        }
    }
}

impl TranscriptMessage {
    #[verifier::type_invariant]
    closed spec fn label_nonempty(self) -> bool {
        self.label@.len() > 0
    }

    fn check_valid(&self)
        ensures
            message_valid(self@),
    {
        proof {
            use_type_invariant(self);
        }
        let _ = self.session_id.get();
        let _ = self.sender.get();
    }

    /// Creates a message for `session`'s current round. Fails with
    /// `UnknownParticipant` for a sender outside the session, then with
    /// `MalformedMessage` for an empty label.
    pub fn new(
        session: &SessionState,
        sender: ParticipantId,
        label: Vec<u8>,
        payload: Vec<u8>,
    ) -> (r: Result<Self, MultipartyError>)
        ensures
            !session@.participants.contains(sender@) ==> r == Err::<Self, _>(
                MultipartyError::UnknownParticipant,
            ),
            session@.participants.contains(sender@) && label@.len() == 0 ==> r == Err::<Self, _>(
                MultipartyError::MalformedMessage,
            ),
            session@.participants.contains(sender@) && label@.len() > 0 ==> r is Ok,
            r matches Ok(m) ==> m@ == (MessageView {
                session_id: session@.id,
                protocol: session@.protocol,
                round: session@.round,
                sender: sender@,
                label: label@,
                payload: payload@,
            }),
    {
        session.check_participant(sender)?;
        if label.len() == 0 {
            return Err(MultipartyError::MalformedMessage);
        }
        Ok(
            TranscriptMessage {
                session_id: session.id(),
                protocol: session.protocol(),
                round: session.round(),
                sender,
                label,
                payload,
            },
        )
    }

    /// Encodes the message deterministically. Decoding the result gives the
    /// message back whenever its protocol is canonical.
    pub fn encode(&self) -> (r: Vec<u8>)
        ensures
            r@ == message_bytes(self@),
            protocol_canonical(self@.protocol) ==> spec_decode_message(r@) == Ok::<
                MessageView,
                MultipartyError,
            >(self@),
    {
        self.check_valid();
        let mut out: Vec<u8> = Vec::new();
        let magic: Vec<u8> = vec![80u8, 77u8, 77u8, 83u8, 71u8, 49u8];
        push_bytes(&mut out, magic.as_slice());
        self.session_id.encode(&mut out);
        push_u32_le(&mut out, self.protocol.tag());
        push_u64_le(&mut out, self.round);
        self.sender.encode(&mut out);
        encode_bytes(self.label.as_slice(), &mut out);
        encode_bytes(self.payload.as_slice(), &mut out);
        proof {
            assert(magic@ =~= message_magic());
            assert(out@ =~= message_bytes(self@));
            if protocol_canonical(self@.protocol) {
                assert(self.label@.len() == self.label.len());
                assert(self.payload@.len() == self.payload.len());
                lemma_message_round_trip(self@);
            }
        }
        out
    }

    /// Decodes a message from its deterministic encoding.
    pub fn decode(input: &[u8]) -> (r: Result<Self, MultipartyError>)
        ensures
            match spec_decode_message(input@) {
                Ok(v) => r matches Ok(m) && m@ == v,
                Err(e) => r == Err::<Self, _>(e),
            },
            r matches Ok(m) ==> message_bytes(m@) == input@,
    {
        let mut reader = ByteReader::new(input);
        let magic: Vec<u8> = vec![80u8, 77u8, 77u8, 83u8, 71u8, 49u8];
        assert(magic@ =~= message_magic());
        let r0 = reader.expect(magic.as_slice());
        if r0.is_err() {
            return Err(MultipartyError::MalformedMessage);
        }
        let sid = reader.u64()?;
        let session_id = SessionId::new(sid)?;
        let protocol = ProtocolKind::from_tag(reader.u32()?);
        let round = reader.u64()?;
        let sender = ParticipantId::new(reader.u64()?)?;
        let label = reader.bytes()?;
        let payload = reader.bytes()?;
        if !reader.is_finished() || label.len() == 0 {
            return Err(MultipartyError::MalformedMessage);
        }
        let m = TranscriptMessage { session_id, protocol, round, sender, label, payload };
        proof {
            let l = label@.len() as int;
            let v = spec_decode_message(input@)->Ok_0;
            assert(m@ == v);
            let b = message_bytes(m@);
            assert(b =~= input@) by {
                assert(input@ =~= input@.subrange(0, 6) + input@.subrange(6, 14) + input@.subrange(
                    14,
                    18,
                ) + input@.subrange(18, 26) + input@.subrange(26, 34) + input@.subrange(34, 42)
                    + input@.subrange(42, 42 + l) + input@.subrange(42 + l, 50 + l)
                    + input@.subrange(50 + l, input@.len() as int));
                lemma_u64_bytes_of_le(input@.subrange(6, 14));
                lemma_u64_bytes_of_le(input@.subrange(18, 26));
                lemma_u64_bytes_of_le(input@.subrange(26, 34));
                lemma_u64_bytes_of_le(input@.subrange(34, 42));
                lemma_u64_bytes_of_le(input@.subrange(42 + l, 50 + l));
                lemma_u32_bytes_of_le(input@.subrange(14, 18));
                crate::multiparty::common::session::lemma_protocol_tag_round_trip(
                    protocol,
                    le_u32(input@.subrange(14, 18)),
                );
            }
        }
        Ok(m)
    }

    /// Returns the sender.
    pub fn sender(&self) -> (r: ParticipantId)
        ensures
            r@ == self@.sender,
    {
        self.sender
    }

    /// Returns the payload.
    pub fn payload(&self) -> (r: &[u8])
        ensures
            r@ == self@.payload,
    {
        self.payload.as_slice()
    }
}

/// The concatenated length-prefixed encodings of `messages`.
pub open spec fn messages_bytes(messages: Seq<MessageView>) -> Seq<u8>
    decreases messages.len(),
{
    if messages.len() == 0 {
        Seq::empty()
    } else {
        messages_bytes(messages.drop_last()) + length_prefixed(message_bytes(messages.last()))
    }
}

/// The deterministic encoding of a transcript.
pub open spec fn transcript_bytes(session: SessionView, messages: Seq<MessageView>) -> Seq<u8> {
    transcript_magic() + session_bytes(session) + u64_le(messages.len() as u64) + messages_bytes(
        messages,
    )
}

/// Ordered public protocol transcript of one session round.
#[derive(Debug, PartialEq, Eq)]
pub struct Transcript {
    session: SessionState,
    messages: Vec<TranscriptMessage>,
}

impl Transcript {
    /// The session of the transcript.
    pub closed spec fn session_view(&self) -> SessionView {
        self.session@
    }

    /// The messages in append order.
    pub closed spec fn messages_view(&self) -> Seq<MessageView> {
        self.messages@.map_values(|m: TranscriptMessage| m@)
    }

    /// Creates an empty transcript for a session.
    pub fn new(session: SessionState) -> (r: Self)
        ensures
            r.session_view() == session@,
            r.messages_view() == Seq::<MessageView>::empty(),
    {
        let r = Transcript { session, messages: Vec::new() };
        assert(r.messages_view() =~= Seq::<MessageView>::empty());
        r
    }

    /// Returns the session.
    pub fn session(&self) -> (r: &SessionState)
        ensures
            r@ == self.session_view(),
    {
        &self.session
    }

    /// Returns the messages in append order.
    pub fn messages(&self) -> (r: &[TranscriptMessage])
        ensures
            r@.map_values(|m: TranscriptMessage| m@) == self.messages_view(),
    {
        self.messages.as_slice()
    }

    /// Appends a message of this session's current round; `StaleShare` for a
    /// message of another session id, protocol tag or round.
    pub fn append(&mut self, message: TranscriptMessage) -> (r: Result<(), MultipartyError>)
        ensures
            final(self).session_view() == old(self).session_view(),
            (message@.session_id != old(self).session_view().id || protocol_tag(message@.protocol)
                != protocol_tag(old(self).session_view().protocol) || message@.round != old(
                self,
            ).session_view().round) ==> r == Err::<(), _>(MultipartyError::StaleShare)
                && final(self).messages_view() == old(self).messages_view(),
            !(message@.session_id != old(self).session_view().id || protocol_tag(message@.protocol)
                != protocol_tag(old(self).session_view().protocol) || message@.round != old(
                self,
            ).session_view().round) ==> r is Ok && final(self).messages_view() == old(
                self,
            ).messages_view().push(message@),
    {
        if message.session_id.get() != self.session.id().get() || message.protocol.tag()
            != self.session.protocol().tag() || message.round != self.session.round() {
            return Err(MultipartyError::StaleShare);
        }
        let ghost before = self.messages_view();
        let ghost mv = message@;
        self.messages.push(message);
        assert(self.messages_view() =~= before.push(mv));
        Ok(())
    }

    /// Encodes the transcript deterministically: magic, session, message
    /// count, then every message length-prefixed.
    pub fn encode(&self) -> (r: Vec<u8>)
        ensures
            r@ == transcript_bytes(self.session_view(), self.messages_view()),
    {
        let mut out: Vec<u8> = Vec::new();
        let magic: Vec<u8> = vec![80u8, 77u8, 84u8, 82u8, 78u8, 49u8];
        push_bytes(&mut out, magic.as_slice());
        self.session.encode(&mut out);
        push_u64_le(&mut out, self.messages.len() as u64);
        let ghost head = out@;
        let ghost ms = self.messages_view();
        let mut i: usize = 0;
        while i < self.messages.len()
            invariant
                i <= self.messages@.len(),
                ms == self.messages_view(),
                ms.len() == self.messages@.len(),
                out@ == head + messages_bytes(ms.subrange(0, i as int)),
            decreases self.messages@.len() - i,
        {
            let bytes = self.messages[i].encode();
            encode_bytes(bytes.as_slice(), &mut out);
            proof {
                let next = ms.subrange(0, i + 1);
                assert(next.drop_last() =~= ms.subrange(0, i as int));
                assert(next.last() == self.messages@[i as int]@);
            }
            i = i + 1;
        }
        proof {
            assert(ms.subrange(0, ms.len() as int) =~= ms);
            assert(magic@ =~= transcript_magic());
            assert(out@ =~= transcript_bytes(self.session_view(), self.messages_view()));
        }
        out
    }

    /// Computes the deterministic transcript hash: SHA-256 of the encoding.
    pub fn hash(&self) -> (r: TranscriptHash)
        ensures
            r@ == sha256_digest(transcript_bytes(self.session_view(), self.messages_view())),
    {
        let bytes = self.encode();
        TranscriptHash(sha256(bytes.as_slice()))
    }
}

} // verus!
