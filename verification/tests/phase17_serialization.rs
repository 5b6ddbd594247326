use phantom_fhe::lattice::error::{LatticeError, UtilsError};
use phantom_fhe::lattice::rlwe::evaluation_key::{EvaluationKey, GaloisKey, RelinearizationKey};
use phantom_fhe::lattice::rlwe::keys::PublicKey;
use phantom_fhe::lattice::serialization;
use phantom_fhe::ring::poly::Poly;
use rand_chacha::ChaCha20Rng;
use rand_core::{RngCore, SeedableRng};

fn poly(offset: u64) -> Poly {
    Poly::from_coeffs(vec![
        vec![offset, offset + 1, offset + 2, offset + 3],
        vec![offset + 4, offset + 5, offset + 6, offset + 7],
    ])
    .unwrap()
}

#[test]
fn public_keys_round_trip() {
    let public_key = PublicKey::new(poly(1), poly(9));
    let decoded =
        serialization::decode_public_key(&serialization::encode_public_key(&public_key).unwrap()).unwrap();

    assert_eq!(decoded, public_key);
}

#[test]
fn evaluation_key_markers_round_trip() {
    let evaluation_key =
        EvaluationKey::new(Some(RelinearizationKey::placeholder()), vec![GaloisKey::new(3), GaloisKey::new(5)]);
    let decoded =
        serialization::decode_evaluation_key(&serialization::encode_evaluation_key(&evaluation_key).unwrap())
            .unwrap();

    assert_eq!(decoded.relinearization_key().is_some(), evaluation_key.relinearization_key().is_some());
    assert_eq!(
        decoded.galois_keys().iter().map(GaloisKey::element).collect::<Vec<_>>(),
        evaluation_key.galois_keys().iter().map(GaloisKey::element).collect::<Vec<_>>()
    );
}

#[test]
fn rejects_wrong_domain_and_truncated_payloads() {
    let public_key = PublicKey::new(poly(1), poly(9));
    let encoded = serialization::encode_public_key(&public_key).unwrap();
    assert!(serialization::decode_evaluation_key(&encoded).is_err());

    let mut truncated =
        serialization::encode_evaluation_key(&EvaluationKey::new(None, vec![GaloisKey::new(7)])).unwrap();
    truncated.pop();
    assert!(serialization::decode_evaluation_key(&truncated).is_err());
}

const GOLDEN_PUBLIC_KEY: &[u8] = &[
    82, 76, 87, 69, 80, 75, 48, 49, 1, 0, 2, 0, 0, 0, 0, 0, 0, 0, 4, 0, 0, 0, 0, 0, 0, 0, 1, 0, 0, 0, 0, 0, 0, 0, 2, 0,
    0, 0, 0, 0, 0, 0, 3, 0, 0, 0, 0, 0, 0, 0, 4, 0, 0, 0, 0, 0, 0, 0, 5, 0, 0, 0, 0, 0, 0, 0, 6, 0, 0, 0, 0, 0, 0, 0,
    7, 0, 0, 0, 0, 0, 0, 0, 8, 0, 0, 0, 0, 0, 0, 0, 2, 0, 0, 0, 0, 0, 0, 0, 4, 0, 0, 0, 0, 0, 0, 0, 9, 0, 0, 0, 0, 0,
    0, 0, 10, 0, 0, 0, 0, 0, 0, 0, 11, 0, 0, 0, 0, 0, 0, 0, 12, 0, 0, 0, 0, 0, 0, 0, 13, 0, 0, 0, 0, 0, 0, 0, 14, 0, 0,
    0, 0, 0, 0, 0, 15, 0, 0, 0, 0, 0, 0, 0, 16, 0, 0, 0, 0, 0, 0, 0,
];

const GOLDEN_EVALUATION_KEY: &[u8] = &[
    82, 76, 87, 69, 69, 75, 48, 49, 1, 0, 1, 2, 0, 0, 0, 0, 0, 0, 0, 3, 0, 0, 0, 0, 0, 0, 0, 5, 0, 0, 0, 0, 0, 0, 0,
];

#[test]
fn golden_public_key_bytes_are_stable() {
    let public_key = PublicKey::new(poly(1), poly(9));
    assert_eq!(serialization::encode_public_key(&public_key).unwrap(), GOLDEN_PUBLIC_KEY);
    assert_eq!(serialization::decode_public_key(GOLDEN_PUBLIC_KEY).unwrap(), public_key);
}

#[test]
fn golden_evaluation_key_bytes_are_stable() {
    let evaluation_key =
        EvaluationKey::new(Some(RelinearizationKey::placeholder()), vec![GaloisKey::new(3), GaloisKey::new(5)]);
    assert_eq!(serialization::encode_evaluation_key(&evaluation_key).unwrap(), GOLDEN_EVALUATION_KEY);
    let decoded = serialization::decode_evaluation_key(GOLDEN_EVALUATION_KEY).unwrap();
    assert_eq!(decoded.relinearization_key().is_some(), evaluation_key.relinearization_key().is_some());
    assert_eq!(
        decoded.galois_keys().iter().map(GaloisKey::element).collect::<Vec<_>>(),
        evaluation_key.galois_keys().iter().map(GaloisKey::element).collect::<Vec<_>>()
    );
}

fn flip_version_byte(mut encoded: Vec<u8>) -> Vec<u8> {
    encoded[8] = encoded[8].wrapping_add(1);
    encoded
}

#[test]
fn every_type_rejects_a_wrong_domain_and_a_wrong_version() {
    let public_key_bytes = serialization::encode_public_key(&PublicKey::new(poly(1), poly(9))).unwrap();
    let evaluation_key_bytes =
        serialization::encode_evaluation_key(&EvaluationKey::new(None, vec![GaloisKey::new(7)])).unwrap();

    assert!(matches!(
        serialization::decode_evaluation_key(&public_key_bytes).unwrap_err(),
        LatticeError::Utils(UtilsError::InvalidDomain)
    ));
    assert!(matches!(
        serialization::decode_public_key(&evaluation_key_bytes).unwrap_err(),
        LatticeError::Utils(UtilsError::InvalidDomain)
    ));

    assert!(matches!(
        serialization::decode_public_key(&flip_version_byte(public_key_bytes)).unwrap_err(),
        LatticeError::Utils(UtilsError::UnsupportedVersion { .. })
    ));
    assert!(matches!(
        serialization::decode_evaluation_key(&flip_version_byte(evaluation_key_bytes)).unwrap_err(),
        LatticeError::Utils(UtilsError::UnsupportedVersion { .. })
    ));
}

#[test]
fn decode_public_key_never_panics_on_random_bytes() {
    let mut rng = ChaCha20Rng::from_seed([5u8; 32]);
    for _ in 0..500 {
        let len = (rng.next_u64() % 256) as usize;
        let bytes: Vec<u8> = (0..len).map(|_| rng.next_u64() as u8).collect();
        let _ = serialization::decode_public_key(&bytes);
    }
}

#[test]
fn decode_evaluation_key_never_panics_on_random_bytes() {
    let mut rng = ChaCha20Rng::from_seed([6u8; 32]);
    for _ in 0..500 {
        let len = (rng.next_u64() % 256) as usize;
        let bytes: Vec<u8> = (0..len).map(|_| rng.next_u64() as u8).collect();
        let _ = serialization::decode_evaluation_key(&bytes);
    }
}

#[test]
fn truncated_public_key_reports_the_missing_end() {
    let mut bytes = serialization::encode_public_key(&PublicKey::new(poly(1), poly(9))).unwrap();
    bytes.truncate(5);
    assert!(matches!(
        serialization::decode_public_key(&bytes).unwrap_err(),
        LatticeError::Utils(UtilsError::UnexpectedEnd)
    ));
}
