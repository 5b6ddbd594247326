use phantom_fhe::lattice::rlwe::ciphertext::{Ciphertext, Plaintext};
use phantom_fhe::lattice::rlwe::decryptor::Decryptor;
use phantom_fhe::lattice::rlwe::encryptor::Encryptor;
use phantom_fhe::lattice::rlwe::evaluation_key::{GaloisKey, RelinearizationKey};
use phantom_fhe::lattice::rlwe::evaluator::Evaluator;
use phantom_fhe::lattice::rlwe::keys::SecretKey;
use phantom_fhe::lattice::rlwe::keyswitch::KeySwitchKey;
use phantom_fhe::lattice::rlwe::params::RlweParams;
use phantom_fhe::multiparty::common::hybrid::{
    aggregate_qp_public_key, gkg_row_contributions, qp_ckg_contribution, qp_params, rkg_round1_row_contributions,
    rkg_round2_row_contributions,
};
use phantom_fhe::multiparty::common::participant::{ParticipantId, ParticipantSet};
use phantom_fhe::multiparty::common::session::{ProtocolKind, SessionId, SessionState};
use phantom_fhe::multiparty::error::MultipartyError;
use phantom_fhe::ring::poly::{Degree, Modulus, Poly, Ring};
use rand_chacha::ChaCha20Rng;
use rand_core::{RngCore, SeedableRng};

const DEGREE: usize = 8;
const Q_MODULI: [u64; 2] = [4_000_037, 4_000_039];
const P_MODULI: [u64; 2] = [4_000_063, 4_000_067];

fn ring_of(moduli: &[u64]) -> Ring {
    Ring::new(Degree::new(DEGREE).unwrap(), moduli.iter().map(|&q| Modulus::new(q).unwrap()).collect()).unwrap()
}

fn q_params() -> RlweParams {
    RlweParams::new(ring_of(&Q_MODULI))
}

fn p_moduli() -> Vec<Modulus> {
    P_MODULI.iter().map(|&p| Modulus::new(p).unwrap()).collect()
}

fn from_signed(values: &[i64], ring: &Ring) -> Poly {
    let rows = ring
        .moduli()
        .iter()
        .map(|m| {
            let q = m.value() as i64;
            values.iter().map(|&v| v.rem_euclid(q) as u64).collect()
        })
        .collect();
    Poly::from_coeffs(rows).unwrap()
}

fn sample_ternary(ring: &Ring, rng: &mut ChaCha20Rng) -> Poly {
    let values: Vec<i64> = (0..ring.degree()).map(|_| (rng.next_u64() % 3) as i64 - 1).collect();
    from_signed(&values, ring)
}

fn sample_error(ring: &Ring, rng: &mut ChaCha20Rng) -> Poly {
    let values: Vec<i64> =
        (0..ring.degree()).map(|_| (rng.next_u64() & 0xff).count_ones() as i64 - 4).collect();
    from_signed(&values, ring)
}

fn sample_uniform(ring: &Ring, rng: &mut ChaCha20Rng) -> Poly {
    let n = ring.degree();
    let rows = ring.moduli().iter().map(|m| (0..n).map(|_| rng.next_u64() % m.value()).collect()).collect();
    Poly::from_coeffs(rows).unwrap()
}

fn sk_encrypt(encryptor: &Encryptor, ring: &Ring, pt: &Plaintext, rng: &mut ChaCha20Rng) -> Ciphertext {
    let mask = sample_uniform(ring, rng);
    let e = sample_error(ring, rng);
    encryptor.encrypt(pt, &mask, &e, &e).unwrap()
}

fn zero_encryptions(encryptor: &Encryptor, ring: &Ring, count: usize, rng: &mut ChaCha20Rng) -> Vec<Ciphertext> {
    let zero = Plaintext::new(ring.zero());
    (0..count).map(|_| sk_encrypt(encryptor, ring, &zero, rng)).collect()
}

fn session(id: u64, protocol: ProtocolKind) -> SessionState {
    let participants = (1..=3).map(|p| ParticipantId::new(p).unwrap()).collect();
    SessionState::new(SessionId::new(id).unwrap(), protocol, ParticipantSet::new(participants).unwrap(), 3).unwrap()
}

fn plaintext(values: &[u64]) -> Plaintext {
    let mut coeffs = values.to_vec();
    coeffs.resize(DEGREE, 0);
    Plaintext::new(Poly::from_coeffs(vec![coeffs; Q_MODULI.len()]).unwrap())
}

fn assert_close(actual: &Plaintext, expected: &Plaintext, bound: u64) {
    for (j, &q) in Q_MODULI.iter().enumerate() {
        for (&a, &e) in actual.value().coeffs()[j].iter().zip(expected.value().coeffs()[j].iter()) {
            let diff = (a + q - e) % q;
            let centered = diff.min(q - diff);
            assert!(centered <= bound, "component {j}: noise {centered} exceeds {bound}");
        }
    }
}

fn collective_secret(shares: &[SecretKey], ring: &Ring) -> SecretKey {
    SecretKey::new(shares.iter().fold(ring.zero(), |acc, s| ring.add(&acc, s.value()).unwrap()))
}

#[test]
fn collective_hybrid_galois_key_rotates_under_the_collective_secret() {
    let params = q_params();
    let ring = params.ring().clone();
    let qp = qp_params(&params, &p_moduli()).unwrap();
    let qp_ring = qp.ring().clone();
    let mut rng = ChaCha20Rng::from_seed([50u8; 32]);
    let shares: Vec<SecretKey> = (0..3).map(|_| SecretKey::new(sample_ternary(&ring, &mut rng))).collect();
    let session = session(21, ProtocolKind::GaloisKeyGen);
    let element = 5;

    let contributions: Vec<Vec<(Poly, Poly)>> = shares
        .iter()
        .map(|s| {
            let errors: Vec<Poly> = (0..Q_MODULI.len()).map(|_| sample_error(&qp_ring, &mut rng)).collect();
            gkg_row_contributions(&params, &p_moduli(), &session, element, s, &errors).unwrap()
        })
        .collect();
    let rows: Vec<Ciphertext> = (0..Q_MODULI.len())
        .map(|j| {
            let a = contributions[0][j].1.clone();
            for c in &contributions {
                assert_eq!(c[j].1, a, "every participant derives the same common element");
            }
            let b = contributions.iter().fold(qp_ring.zero(), |acc, c| qp_ring.add(&acc, &c[j].0).unwrap());
            Ciphertext::new(vec![b, a])
        })
        .collect();
    let key = GaloisKey::from_key_switch_key(element, KeySwitchKey::from_rows(qp, rows));

    let s = collective_secret(&shares, &ring);
    let encryptor = Encryptor::with_secret_key(params.clone(), s.clone());
    let pt = plaintext(&[3, 1, 4, 1, 5]);
    let ct = sk_encrypt(&encryptor, &ring, &pt, &mut rng);
    let rotated = Evaluator::new(params.clone()).apply_galois_automorphism(&ct, &key).unwrap();
    let out = Decryptor::new(params, s).decrypt(&rotated).unwrap();
    let expected = Plaintext::new(ring.apply_automorphism(pt.value(), element).unwrap());
    assert_close(&out, &expected, 1_000);
}

#[test]
fn collective_hybrid_relinearization_key_relinearizes_under_the_collective_secret() {
    let params = q_params();
    let ring = params.ring().clone();
    let qp = qp_params(&params, &p_moduli()).unwrap();
    let qp_ring = qp.ring().clone();
    let mut rng = ChaCha20Rng::from_seed([51u8; 32]);
    let shares: Vec<SecretKey> = (0..3).map(|_| SecretKey::new(sample_ternary(&ring, &mut rng))).collect();
    let ckg_session = session(22, ProtocolKind::CollectiveKeyGen);

    let contributions: Vec<Poly> = shares
        .iter()
        .map(|s| {
            let e = sample_error(&qp_ring, &mut rng);
            qp_ckg_contribution(&params, &p_moduli(), &ckg_session, s, &e).unwrap()
        })
        .collect();
    let cpk = aggregate_qp_public_key(&params, &p_moduli(), &ckg_session, &contributions).unwrap();

    let n = Q_MODULI.len();
    let round1: Vec<Vec<(Poly, Poly)>> = shares
        .iter()
        .map(|s| {
            let us: Vec<Poly> = (0..n).map(|_| sample_ternary(&qp_ring, &mut rng)).collect();
            let e0s: Vec<Poly> = (0..n).map(|_| sample_error(&qp_ring, &mut rng)).collect();
            let e1s: Vec<Poly> = (0..n).map(|_| sample_error(&qp_ring, &mut rng)).collect();
            rkg_round1_row_contributions(&params, &p_moduli(), &cpk, s, &us, &e0s, &e1s).unwrap()
        })
        .collect();
    let aggregate1: Vec<(Poly, Poly)> = (0..n)
        .map(|j| {
            let h0 = round1.iter().fold(qp_ring.zero(), |acc, r| qp_ring.add(&acc, &r[j].0).unwrap());
            let h1 = round1.iter().fold(qp_ring.zero(), |acc, r| qp_ring.add(&acc, &r[j].1).unwrap());
            (h0, h1)
        })
        .collect();
    let round2: Vec<Vec<(Poly, Poly)>> = shares
        .iter()
        .map(|s| {
            let vs: Vec<Poly> = (0..n).map(|_| sample_ternary(&qp_ring, &mut rng)).collect();
            let e2s: Vec<Poly> = (0..n).map(|_| sample_error(&qp_ring, &mut rng)).collect();
            let e3s: Vec<Poly> = (0..n).map(|_| sample_error(&qp_ring, &mut rng)).collect();
            rkg_round2_row_contributions(&params, &p_moduli(), &cpk, &aggregate1, s, &vs, &e2s, &e3s).unwrap()
        })
        .collect();
    let rows: Vec<Ciphertext> = (0..n)
        .map(|j| {
            let k0 = round2.iter().fold(qp_ring.zero(), |acc, r| qp_ring.add(&acc, &r[j].0).unwrap());
            let k1 = round2.iter().fold(qp_ring.zero(), |acc, r| qp_ring.add(&acc, &r[j].1).unwrap());
            Ciphertext::new(vec![k0, k1])
        })
        .collect();
    let key = RelinearizationKey::from_key_switch_key(KeySwitchKey::from_rows(qp, rows));

    let s = collective_secret(&shares, &ring);
    let encryptor = Encryptor::with_secret_key(params.clone(), s.clone());
    let evaluator = Evaluator::new(params.clone());
    let a = plaintext(&[1, 1]);
    let b = plaintext(&[1, 2]);
    let ct_a = sk_encrypt(&encryptor, &ring, &a, &mut rng);
    let ct_b = sk_encrypt(&encryptor, &ring, &b, &mut rng);
    let product = evaluator.mul(&ct_a, &ct_b).unwrap();
    let relinearized = evaluator.relinearize(&product, &key).unwrap();
    assert_eq!(relinearized.degree(), 1);
    let out = Decryptor::new(params, s).decrypt(&relinearized).unwrap();
    let expected = Plaintext::new(ring.mul(a.value(), b.value()).unwrap());
    assert_close(&out, &expected, 20_000);
}

#[test]
fn hybrid_contributions_refuse_missing_auxiliary_moduli_and_non_ternary_secrets() {
    let params = q_params();
    let ring = params.ring().clone();
    let mut rng = ChaCha20Rng::from_seed([52u8; 32]);
    let session = session(23, ProtocolKind::CollectiveKeyGen);
    let s = SecretKey::new(sample_ternary(&ring, &mut rng));
    assert_eq!(
        qp_params(&params, &[]).unwrap_err(),
        MultipartyError::InvalidParameters("qp_params: p_moduli must be non-empty")
    );
    let qp_ring = qp_params(&params, &p_moduli()).unwrap().ring().clone();
    let e = sample_error(&qp_ring, &mut rng);
    let not_ternary = SecretKey::new(from_signed(&[2, 0, 0, 0, 0, 0, 0, 0], &ring));
    assert_eq!(
        qp_ckg_contribution(&params, &p_moduli(), &session, &not_ternary, &e).unwrap_err(),
        MultipartyError::InvalidParameters("qp_ckg_contribution: rebase failed")
    );
    assert!(qp_ckg_contribution(&params, &p_moduli(), &session, &s, &e).is_ok());
}
