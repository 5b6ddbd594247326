use phantom_fhe::lattice::rlwe::ciphertext::{Ciphertext, Plaintext};
use phantom_fhe::lattice::rlwe::decryptor::Decryptor;
use phantom_fhe::lattice::rlwe::encryptor::Encryptor;
use phantom_fhe::lattice::rlwe::evaluator::Evaluator;
use phantom_fhe::lattice::rlwe::keygen::KeyGenerator;
use phantom_fhe::lattice::rlwe::keys::{PublicKey, SecretKey};
use phantom_fhe::lattice::rlwe::params::RlweParams;
use phantom_fhe::multiparty::common::participant::{ParticipantId, ParticipantSet};
use phantom_fhe::multiparty::common::replay_guard::ReplayGuard;
use phantom_fhe::multiparty::common::session::{ProtocolKind, SessionId, SessionState};
use phantom_fhe::multiparty::common::shares::{ShareAggregator, ShareKind};
use phantom_fhe::multiparty::error::MultipartyError;
use phantom_fhe::multiparty::mpckks::ciphertext::CkksCiphertext;
use phantom_fhe::multiparty::mpckks::ckg::CollectiveKeyGen;
use phantom_fhe::multiparty::mpckks::gkg::GaloisKeyGen;
use phantom_fhe::multiparty::mpckks::interactive_bootstrap::InteractiveBootstrap;
use phantom_fhe::multiparty::mpckks::params::CkksParams;
use phantom_fhe::multiparty::mpckks::partial_decrypt::PartialDecryptor;
use phantom_fhe::multiparty::mpckks::reencryption::ReEncryptor;
use phantom_fhe::multiparty::mpckks::rkg::RelinearizationKeyGen;
use phantom_fhe::ring::poly::{Degree, Modulus, Poly, Ring};
use phantom_fhe::ring::rescale::{drop_last_modulus, keep_first_moduli};
use phantom_fhe::ring::poly::RingError;
use rand_chacha::ChaCha20Rng;
use rand_core::{RngCore, SeedableRng};

const DEGREE: usize = 8;
const MODULI: [u64; 3] = [4_000_037, 4_000_039, 4_000_081];
const P_MODULI: [u64; 2] = [4_000_063, 4_000_067];

fn ring_of(moduli: &[u64]) -> Ring {
    Ring::new(Degree::new(DEGREE).unwrap(), moduli.iter().map(|&q| Modulus::new(q).unwrap()).collect()).unwrap()
}

fn params() -> CkksParams {
    CkksParams::new(ring_of(&MODULI))
}

fn from_signed(values: &[i64], ring: &Ring) -> Poly {
    let rows = ring
        .moduli()
        .iter()
        .map(|m| {
            let q = m.value() as i64;
            values.iter().map(|&v| v.rem_euclid(q) as u64).collect()
        })
        .collect();
    Poly::from_coeffs(rows).unwrap()
}

fn ternary_values(rng: &mut ChaCha20Rng) -> Vec<i64> {
    (0..DEGREE).map(|_| (rng.next_u64() % 3) as i64 - 1).collect()
}

fn sample_error(ring: &Ring, rng: &mut ChaCha20Rng) -> Poly {
    let values: Vec<i64> = (0..ring.degree()).map(|_| (rng.next_u64() & 0xff).count_ones() as i64 - 4).collect();
    from_signed(&values, ring)
}

fn sample_uniform(ring: &Ring, rng: &mut ChaCha20Rng) -> Poly {
    let rows = ring.moduli().iter().map(|m| (0..DEGREE).map(|_| rng.next_u64() % m.value()).collect()).collect();
    Poly::from_coeffs(rows).unwrap()
}

fn session(id: u64, protocol: ProtocolKind) -> SessionState {
    let participants = (1..=3).map(|p| ParticipantId::new(p).unwrap()).collect();
    SessionState::new(SessionId::new(id).unwrap(), protocol, ParticipantSet::new(participants).unwrap(), 3).unwrap()
}

/// Three full-level ternary secret shares.
fn secrets(rng: &mut ChaCha20Rng) -> Vec<SecretKey> {
    let full = ring_of(&MODULI);
    (0..3).map(|_| SecretKey::new(from_signed(&ternary_values(rng), &full))).collect()
}

fn sum(ring: &Ring, polys: &[Poly]) -> Poly {
    polys.iter().fold(ring.zero(), |acc, p| ring.add(&acc, p).unwrap())
}

/// The collective secret over the first `count` moduli.
fn collective_at(sks: &[SecretKey], count: usize) -> Poly {
    let ring = ring_of(&MODULI[..count]);
    sum(&ring, &sks.iter().map(|k| keep_first_moduli(k.value(), count)).collect::<Vec<_>>())
}

/// A fresh encryption at `level` under the collective secret, over the
/// level's ring.
fn encrypt_at(sks: &[SecretKey], level: usize, rng: &mut ChaCha20Rng) -> (Poly, CkksCiphertext) {
    let ring = ring_of(&MODULI[..level + 1]);
    let s = collective_at(sks, level + 1);
    let encryptor = Encryptor::with_secret_key(RlweParams::new(ring.clone()), SecretKey::new(s.clone()));
    let pt = Plaintext::new(from_signed(&[300, -100, 400, 100, -500, 900, 200, 600], &ring));
    let e = sample_error(&ring, rng);
    let ct = encryptor.encrypt(&pt, &sample_uniform(&ring, rng), &e, &e).unwrap();
    (s, CkksCiphertext::new(ct, level))
}

fn decrypt(ring: &Ring, s: &Poly, ct: &Ciphertext) -> Poly {
    Decryptor::new(RlweParams::new(ring.clone()), SecretKey::new(s.clone())).decrypt(ct).unwrap().value().clone()
}

#[test]
fn dropping_moduli_keeps_the_leading_rows() {
    let ring = ring_of(&MODULI);
    let p = from_signed(&[1, -1, 2, -2, 3, -3, 4, -4], &ring);
    let dropped = drop_last_modulus(&p).unwrap();
    assert_eq!(dropped.coeffs(), &p.coeffs()[..2]);
    assert_eq!(keep_first_moduli(&p, 1).coeffs(), &p.coeffs()[..1]);
    assert_eq!(keep_first_moduli(&p, 5).coeffs(), p.coeffs());
    let single = keep_first_moduli(&p, 1);
    assert_eq!(drop_last_modulus(&single).unwrap_err(), RingError::EmptyModuli);
}

#[test]
fn parameters_at_a_level_keep_the_first_moduli() {
    let p = params();
    assert_eq!(p.max_level(), 2);
    let at1 = p.at_level(1).unwrap();
    assert_eq!(at1.ring().moduli().iter().map(|m| m.value()).collect::<Vec<_>>(), MODULI[..2].to_vec());
    assert!(p.at_level(3).is_none());
}

#[test]
fn ckks_threshold_decryption_at_a_lower_level_recovers_the_phase() {
    let mut rng = ChaCha20Rng::from_seed([60u8; 32]);
    let sks = secrets(&mut rng);
    let level = 1;
    let ring = ring_of(&MODULI[..level + 1]);
    let (s, ct) = encrypt_at(&sks, level, &mut rng);
    let session = session(31, ProtocolKind::PartialDecryption);
    let decryptor = PartialDecryptor::new(params(), session.clone(), 40);
    let mut aggregator = ShareAggregator::new(session, ShareKind::PartialDecryption);
    let mut errors = Vec::new();
    for (i, sk) in sks.iter().enumerate() {
        let mut guard = ReplayGuard::new();
        let e = sample_error(&ring, &mut rng);
        let share = decryptor.create_share(ParticipantId::new(i as u64 + 1).unwrap(), sk, &ct, &mut guard, &e).unwrap();
        aggregator.add_share(share).unwrap();
        errors.push(e);
    }
    let combined = decryptor.aggregate_plaintext(&aggregator, &ct).unwrap();
    let phase = decrypt(&ring, &s, ct.poly());
    assert_eq!(combined.value(), &ring.add(&phase, &sum(&ring, &errors)).unwrap());
}

#[test]
fn ckks_share_for_a_level_above_the_parameters_is_malformed() {
    let mut rng = ChaCha20Rng::from_seed([61u8; 32]);
    let sks = secrets(&mut rng);
    let (_, ct) = encrypt_at(&sks, 2, &mut rng);
    let too_high = CkksCiphertext::new(ct.poly().clone(), 3);
    let session = session(32, ProtocolKind::PartialDecryption);
    let decryptor = PartialDecryptor::new(params(), session, 40);
    let mut guard = ReplayGuard::new();
    let e = sample_error(&ring_of(&MODULI), &mut rng);
    let participant = ParticipantId::new(1).unwrap();
    assert_eq!(
        decryptor.create_share(participant, &sks[0], &too_high, &mut guard, &e).unwrap_err(),
        MultipartyError::MalformedMessage
    );
    // The guard recorded the attempt: a retry is a replay.
    assert_eq!(
        decryptor.create_share(participant, &sks[0], &ct, &mut guard, &e).unwrap_err(),
        MultipartyError::ReplayedShare
    );
}

#[test]
fn ckks_share_with_noise_of_the_wrong_level_names_the_failed_sum() {
    let mut rng = ChaCha20Rng::from_seed([62u8; 32]);
    let sks = secrets(&mut rng);
    let (_, ct) = encrypt_at(&sks, 1, &mut rng);
    let session = session(33, ProtocolKind::PartialDecryption);
    let decryptor = PartialDecryptor::new(params(), session, 40);
    let mut guard = ReplayGuard::new();
    let full_level_noise = sample_error(&ring_of(&MODULI), &mut rng);
    assert_eq!(
        decryptor.create_share(ParticipantId::new(1).unwrap(), &sks[0], &ct, &mut guard, &full_level_noise).unwrap_err(),
        MultipartyError::InvalidParameters("create_share: d_i failed")
    );
}

#[test]
fn ckks_reencryption_moves_a_lower_level_ciphertext_to_the_recipient_key() {
    let mut rng = ChaCha20Rng::from_seed([63u8; 32]);
    let sks = secrets(&mut rng);
    let level = 1;
    let ring = ring_of(&MODULI[..level + 1]);
    let full = ring_of(&MODULI);
    let (s, ct) = encrypt_at(&sks, level, &mut rng);
    let s_r_values = ternary_values(&mut rng);
    let s_r_full = from_signed(&s_r_values, &full);
    let (a_r, e_r) = (sample_uniform(&full, &mut rng), sample_error(&full, &mut rng));
    let recipient = KeyGenerator::new(RlweParams::new(full.clone()))
        .generate_public_key(&SecretKey::new(s_r_full), &a_r, &e_r)
        .unwrap();
    let session = session(34, ProtocolKind::ReEncryption);
    let reencryptor = ReEncryptor::new(params(), session.clone(), 40);
    let mut aggregator = ShareAggregator::new(session, ShareKind::ReEncryption);
    let (mut us, mut e0s, mut e1s) = (Vec::new(), Vec::new(), Vec::new());
    for (i, sk) in sks.iter().enumerate() {
        let mut guard = ReplayGuard::new();
        let u = from_signed(&ternary_values(&mut rng), &ring);
        let (e0, e1) = (sample_error(&ring, &mut rng), sample_error(&ring, &mut rng));
        let participant = ParticipantId::new(i as u64 + 1).unwrap();
        let share = reencryptor.create_share(participant, sk, &ct, &recipient, &mut guard, &u, &e0, &e1).unwrap();
        aggregator.add_share(share).unwrap();
        us.push(u);
        e0s.push(e0);
        e1s.push(e1);
    }
    let out = reencryptor.aggregate_ciphertext(&aggregator, &ct).unwrap();
    assert_eq!(out.level(), level);
    let s_r = from_signed(&s_r_values, &ring);
    let e_r_level = keep_first_moduli(&e_r, level + 1);
    let phase = decrypt(&ring, &s, ct.poly());
    let moved = decrypt(&ring, &s_r, out.poly());
    let e1s_r = ring.mul(&sum(&ring, &e1s), &s_r).unwrap();
    let noise = ring
        .sub(&ring.add(&sum(&ring, &e0s), &e1s_r).unwrap(), &ring.mul(&sum(&ring, &us), &e_r_level).unwrap())
        .unwrap();
    assert_eq!(moved, ring.add(&phase, &noise).unwrap());
}

#[test]
fn ckks_interactive_bootstrap_keeps_the_phase_and_the_level() {
    let mut rng = ChaCha20Rng::from_seed([64u8; 32]);
    let sks = secrets(&mut rng);
    let level = 1;
    let ring = ring_of(&MODULI[..level + 1]);
    let (s, ct) = encrypt_at(&sks, level, &mut rng);
    let session = session(35, ProtocolKind::InteractiveBootstrap);
    let bootstrap = InteractiveBootstrap::new(params(), session.clone(), 40);
    let mut aggregator = ShareAggregator::new(session, ShareKind::InteractiveBootstrap);
    let (mut e0s, mut e1s) = (Vec::new(), Vec::new());
    for (i, sk) in sks.iter().enumerate() {
        let mut guard = ReplayGuard::new();
        let (mask, e0, e1) = (sample_uniform(&ring, &mut rng), sample_error(&ring, &mut rng), sample_error(&ring, &mut rng));
        let participant = ParticipantId::new(i as u64 + 1).unwrap();
        let share = bootstrap.create_share(participant, sk, &ct, &mut guard, &mask, &e0, &e1).unwrap();
        aggregator.add_share(share).unwrap();
        e0s.push(e0);
        e1s.push(e1);
    }
    let refreshed = bootstrap.aggregate_refreshed(&aggregator, &ct).unwrap();
    assert_eq!(refreshed.level(), level);
    let phase = decrypt(&ring, &s, ct.poly());
    let out = decrypt(&ring, &s, refreshed.poly());
    let noise = ring.add(&sum(&ring, &e0s), &sum(&ring, &e1s)).unwrap();
    assert_eq!(out, ring.add(&phase, &noise).unwrap());
}

#[test]
fn ckks_refresh_before_the_threshold_is_refused() {
    let mut rng = ChaCha20Rng::from_seed([65u8; 32]);
    let sks = secrets(&mut rng);
    let (_, ct) = encrypt_at(&sks, 2, &mut rng);
    let session = session(36, ProtocolKind::InteractiveBootstrap);
    let bootstrap = InteractiveBootstrap::new(params(), session.clone(), 40);
    let aggregator = ShareAggregator::new(session, ShareKind::InteractiveBootstrap);
    assert_eq!(bootstrap.aggregate_refreshed(&aggregator, &ct).unwrap_err(), MultipartyError::ThresholdNotMet);
}

#[test]
fn ckks_collective_public_key_satisfies_the_key_equation() {
    let mut rng = ChaCha20Rng::from_seed([66u8; 32]);
    let full = ring_of(&MODULI);
    let sks = secrets(&mut rng);
    let session = session(37, ProtocolKind::CollectiveKeyGen);
    let ckg = CollectiveKeyGen::new(params(), session.clone());
    let mut aggregator = ShareAggregator::new(session, ShareKind::CollectiveKeyGen);
    let mut errors = Vec::new();
    for (i, sk) in sks.iter().enumerate() {
        let mut guard = ReplayGuard::new();
        let e = sample_error(&full, &mut rng);
        let share = ckg.create_share(ParticipantId::new(i as u64 + 1).unwrap(), sk, &mut guard, &e).unwrap();
        aggregator.add_share(share).unwrap();
        errors.push(e);
    }
    let pk: PublicKey = ckg.aggregate_public_key(&aggregator).unwrap();
    let s = collective_at(&sks, MODULI.len());
    let lhs = full.add(&pk.value()[0], &full.mul(&pk.value()[1], &s).unwrap()).unwrap();
    assert_eq!(lhs, sum(&full, &errors));
}

#[test]
fn ckks_collective_galois_key_rotates_under_the_collective_secret() {
    let mut rng = ChaCha20Rng::from_seed([67u8; 32]);
    let full = ring_of(&MODULI);
    let mut qp_moduli = MODULI.to_vec();
    qp_moduli.extend_from_slice(&P_MODULI);
    let qp_ring = ring_of(&qp_moduli);
    let sks = secrets(&mut rng);
    let element = 5;
    let p: Vec<Modulus> = P_MODULI.iter().map(|&q| Modulus::new(q).unwrap()).collect();
    let session = session(38, ProtocolKind::GaloisKeyGen);
    let gkg = GaloisKeyGen::new(params(), session.clone(), element, p);
    let mut aggregator = ShareAggregator::new(session, ShareKind::GaloisKeyGen);
    for (i, sk) in sks.iter().enumerate() {
        let mut guard = ReplayGuard::new();
        let errors: Vec<Poly> = (0..MODULI.len()).map(|_| sample_error(&qp_ring, &mut rng)).collect();
        let share = gkg.create_share(ParticipantId::new(i as u64 + 1).unwrap(), sk, &mut guard, &errors).unwrap();
        aggregator.add_share(share).unwrap();
    }
    let key = gkg.aggregate_keys(&aggregator).unwrap();
    assert_eq!(key.element(), element);
    let s = collective_at(&sks, MODULI.len());
    let params = RlweParams::new(full.clone());
    let encryptor = Encryptor::with_secret_key(params.clone(), SecretKey::new(s.clone()));
    let pt = Plaintext::new(from_signed(&[3, 1, 4, 1, 5, 0, 0, 0], &full));
    let e = sample_error(&full, &mut rng);
    let ct = encryptor.encrypt(&pt, &sample_uniform(&full, &mut rng), &e, &e).unwrap();
    let rotated = Evaluator::new(params).apply_galois_automorphism(&ct, &key).unwrap();
    let out = decrypt(&full, &s, &rotated);
    let expected = full.apply_automorphism(pt.value(), element).unwrap();
    for (j, &q) in MODULI.iter().enumerate() {
        for (&a, &b) in out.coeffs()[j].iter().zip(expected.coeffs()[j].iter()) {
            let diff = (a + q - b) % q;
            assert!(diff.min(q - diff) <= 1_000, "component {j}: noise too large");
        }
    }
}

#[test]
fn ckks_galois_key_without_auxiliary_moduli_is_refused() {
    let session = session(39, ProtocolKind::GaloisKeyGen);
    let gkg = GaloisKeyGen::new(params(), session.clone(), 5, Vec::new());
    let aggregator = ShareAggregator::new(session, ShareKind::GaloisKeyGen);
    assert_eq!(
        gkg.aggregate_keys(&aggregator).unwrap_err(),
        MultipartyError::InvalidParameters("qp_params: p_moduli must be non-empty")
    );
}

#[test]
fn ckks_placeholder_relinearization_key_needs_the_threshold() {
    let session = session(40, ProtocolKind::RelinearizationKeyGen);
    let rkg = RelinearizationKeyGen::new(session.clone());
    let mut aggregator = ShareAggregator::new(session, ShareKind::RelinearizationKeyGen);
    assert_eq!(rkg.aggregate_key(&aggregator).unwrap_err(), MultipartyError::ThresholdNotMet);
    for p in 1..=3u64 {
        let share = rkg.create_share(ParticipantId::new(p).unwrap()).unwrap();
        assert_eq!(share.payload(), &p.to_le_bytes());
        aggregator.add_share(share).unwrap();
    }
    assert!(rkg.aggregate_key(&aggregator).unwrap().key_switch_key().is_none());
}
