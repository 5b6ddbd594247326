use phantom_fhe::multiparty::common::masking::sample_uniform_mod_t;
use phantom_fhe::multiparty::common::participant::{ParticipantId, ParticipantSet};
use phantom_fhe::multiparty::common::randomness::{derive_common_ring_element, sample_uniform, WordStream};
use phantom_fhe::multiparty::common::session::{ProtocolKind, SessionId, SessionState};
use phantom_fhe::ring::poly::{Degree, Modulus, Ring};
use rand_chacha::ChaCha20Rng;
use rand_core::{RngCore, SeedableRng};

fn ring() -> Ring {
    Ring::new(Degree::new(8).unwrap(), vec![Modulus::new(4_000_037).unwrap(), Modulus::new(4_000_081).unwrap()])
        .unwrap()
}

fn session(id: u64) -> SessionState {
    let participants = (1..=3).map(|p| ParticipantId::new(p).unwrap()).collect();
    SessionState::new(
        SessionId::new(id).unwrap(),
        ProtocolKind::CollectiveKeyGen,
        ParticipantSet::new(participants).unwrap(),
        3,
    )
    .unwrap()
}

#[test]
fn draws_follow_the_chacha20_stream_of_the_seed() {
    let seed = [9u8; 32];
    let mut reference = ChaCha20Rng::from_seed(seed);
    let mut stream = WordStream::from_seed(seed);
    let t = 1u64 << 32;
    let drawn = sample_uniform_mod_t(t, 16, &mut stream);
    let zone = u64::MAX - (u64::MAX % t);
    let mut expected = Vec::new();
    while expected.len() < 16 {
        let w = reference.next_u64();
        if w < zone {
            expected.push(w % t);
        }
    }
    assert_eq!(drawn, expected);
}

#[test]
fn the_same_seed_gives_the_same_polynomial_and_another_seed_another() {
    let r = ring();
    let a = sample_uniform(&r, &mut WordStream::from_seed([1u8; 32]));
    let b = sample_uniform(&r, &mut WordStream::from_seed([1u8; 32]));
    let c = sample_uniform(&r, &mut WordStream::from_seed([2u8; 32]));
    assert_eq!(a, b);
    assert_ne!(a, c);
    for (row, m) in a.coeffs().iter().zip(r.moduli()) {
        assert!(row.iter().all(|&v| v < m.value()));
    }
}

#[test]
fn common_elements_depend_on_session_and_purpose_only() {
    let r = ring();
    let first = derive_common_ring_element(&r, &session(5), b"purpose/a");
    let again = derive_common_ring_element(&r, &session(5), b"purpose/a");
    let other_purpose = derive_common_ring_element(&r, &session(5), b"purpose/b");
    let other_session = derive_common_ring_element(&r, &session(6), b"purpose/a");
    assert_eq!(first, again);
    assert_ne!(first, other_purpose);
    assert_ne!(first, other_session);
}
