use phantom_fhe::multiparty::common::participant::{ParticipantId, ParticipantSet};
use phantom_fhe::multiparty::common::replay_guard::ReplayGuard;
use phantom_fhe::multiparty::common::session::{ProtocolKind, SessionId, SessionState};
use phantom_fhe::multiparty::error::MultipartyError;

fn session(id: u64, protocol: ProtocolKind) -> SessionState {
    SessionState::new(
        SessionId::new(id).unwrap(),
        protocol,
        ParticipantSet::new(vec![ParticipantId::new(1).unwrap()]).unwrap(),
        1,
    )
    .unwrap()
}

#[test]
fn first_use_succeeds_second_identical_use_is_rejected() {
    let mut guard = ReplayGuard::new();
    let session = session(1, ProtocolKind::CollectiveKeyGen);
    let participant = ParticipantId::new(1).unwrap();

    guard.record_use(&session, participant).unwrap();
    assert_eq!(guard.record_use(&session, participant), Err(MultipartyError::ReplayedShare));
}

#[test]
fn a_different_round_session_or_participant_is_independent() {
    let mut guard = ReplayGuard::new();
    let first_session = session(1, ProtocolKind::CollectiveKeyGen);
    let participant = ParticipantId::new(1).unwrap();
    let other_participant = ParticipantId::new(2).unwrap();
    guard.record_use(&first_session, participant).unwrap();

    guard.record_use(&first_session, other_participant).unwrap();

    let mut next_round = first_session.clone();
    next_round.advance_round();
    guard.record_use(&next_round, participant).unwrap();

    let other_session = session(2, ProtocolKind::CollectiveKeyGen);
    guard.record_use(&other_session, participant).unwrap();

    let other_protocol = session(1, ProtocolKind::GaloisKeyGen);
    guard.record_use(&other_protocol, participant).unwrap();
}

#[test]
fn a_refused_share_leaves_every_earlier_record_in_place() {
    let mut guard = ReplayGuard::new();
    let session = session(3, ProtocolKind::PartialDecryption);
    let participant = ParticipantId::new(1).unwrap();
    guard.record_use(&session, participant).unwrap();
    assert_eq!(guard.record_use(&session, participant), Err(MultipartyError::ReplayedShare));
    assert_eq!(guard.record_use(&session, participant), Err(MultipartyError::ReplayedShare));
}
