use phantom_fhe::lattice::rlwe::ciphertext::{Ciphertext, Plaintext};
use phantom_fhe::lattice::rlwe::decryptor::Decryptor;
use phantom_fhe::lattice::rlwe::encryptor::Encryptor;
use phantom_fhe::lattice::rlwe::evaluator::Evaluator;
use phantom_fhe::lattice::rlwe::keygen::KeyGenerator;
use phantom_fhe::lattice::rlwe::keys::SecretKey;
use phantom_fhe::lattice::rlwe::params::RlweParams;
use phantom_fhe::multiparty::common::participant::{ParticipantId, ParticipantSet};
use phantom_fhe::multiparty::common::replay_guard::ReplayGuard;
use phantom_fhe::multiparty::common::session::{ProtocolKind, SessionId, SessionState};
use phantom_fhe::multiparty::common::shares::{ShareAggregator, ShareKind};
use phantom_fhe::multiparty::error::MultipartyError;
use phantom_fhe::multiparty::mpbfv::ckg::CollectiveKeyGen;
use phantom_fhe::multiparty::mpbfv::interactive_bootstrap::InteractiveBootstrap;
use phantom_fhe::multiparty::mpbfv::params::BfvParams;
use phantom_fhe::multiparty::mpbfv::partial_decrypt::PartialDecryptor;
use phantom_fhe::multiparty::mpbfv::reencryption::ReEncryptor;
use phantom_fhe::multiparty::mpbfv::rkg::RelinearizationKeyGen;
use phantom_fhe::ring::poly::{Degree, Modulus, Poly, Ring};
use rand_chacha::ChaCha20Rng;
use rand_core::{RngCore, SeedableRng};

const DEGREE: usize = 8;
const MODULI: [u64; 2] = [4_000_037, 4_000_039];
const P_MODULI: [u64; 2] = [4_000_063, 4_000_067];
const T: u64 = 17;

fn ring_of(moduli: &[u64]) -> Ring {
    Ring::new(Degree::new(DEGREE).unwrap(), moduli.iter().map(|&q| Modulus::new(q).unwrap()).collect()).unwrap()
}

fn params() -> BfvParams {
    BfvParams::new(ring_of(&MODULI), T)
}

fn from_signed(values: &[i64], ring: &Ring) -> Poly {
    let rows = ring
        .moduli()
        .iter()
        .map(|m| {
            let q = m.value() as i64;
            values.iter().map(|&v| v.rem_euclid(q) as u64).collect()
        })
        .collect();
    Poly::from_coeffs(rows).unwrap()
}

fn sample_ternary(ring: &Ring, rng: &mut ChaCha20Rng) -> Poly {
    let values: Vec<i64> = (0..DEGREE).map(|_| (rng.next_u64() % 3) as i64 - 1).collect();
    from_signed(&values, ring)
}

fn sample_error(ring: &Ring, rng: &mut ChaCha20Rng) -> Poly {
    let values: Vec<i64> = (0..DEGREE).map(|_| (rng.next_u64() & 0xff).count_ones() as i64 - 4).collect();
    from_signed(&values, ring)
}

fn sample_uniform(ring: &Ring, rng: &mut ChaCha20Rng) -> Poly {
    let rows = ring.moduli().iter().map(|m| (0..DEGREE).map(|_| rng.next_u64() % m.value()).collect()).collect();
    Poly::from_coeffs(rows).unwrap()
}

fn session(id: u64, protocol: ProtocolKind) -> SessionState {
    let participants = (1..=3).map(|p| ParticipantId::new(p).unwrap()).collect();
    SessionState::new(SessionId::new(id).unwrap(), protocol, ParticipantSet::new(participants).unwrap(), 3).unwrap()
}

fn secrets(rng: &mut ChaCha20Rng) -> Vec<SecretKey> {
    let r = ring_of(&MODULI);
    (0..3).map(|_| SecretKey::new(sample_ternary(&r, rng))).collect()
}

fn sum(ring: &Ring, polys: &[Poly]) -> Poly {
    polys.iter().fold(ring.zero(), |acc, p| ring.add(&acc, p).unwrap())
}

fn collective(sks: &[SecretKey]) -> Poly {
    sum(&ring_of(&MODULI), &sks.iter().map(|k| k.value().clone()).collect::<Vec<_>>())
}

fn encrypt(s: &Poly, values: &[i64], rng: &mut ChaCha20Rng) -> Ciphertext {
    let r = ring_of(&MODULI);
    let encryptor = Encryptor::with_secret_key(RlweParams::new(r.clone()), SecretKey::new(s.clone()));
    let e = sample_error(&r, rng);
    encryptor.encrypt(&Plaintext::new(from_signed(values, &r)), &sample_uniform(&r, rng), &e, &e).unwrap()
}

fn decrypt(s: &Poly, ct: &Ciphertext) -> Poly {
    Decryptor::new(RlweParams::new(ring_of(&MODULI)), SecretKey::new(s.clone())).decrypt(ct).unwrap().value().clone()
}

#[test]
fn bfv_reencryption_moves_the_ciphertext_to_the_recipient_key() {
    let r = ring_of(&MODULI);
    let mut rng = ChaCha20Rng::from_seed([80u8; 32]);
    let sks = secrets(&mut rng);
    let s = collective(&sks);
    let ct = encrypt(&s, &[300, 1, 4, 1, 5, 9, 2, 6], &mut rng);
    let s_r = sample_ternary(&r, &mut rng);
    let (a_r, e_r) = (sample_uniform(&r, &mut rng), sample_error(&r, &mut rng));
    let recipient =
        KeyGenerator::new(RlweParams::new(r.clone())).generate_public_key(&SecretKey::new(s_r.clone()), &a_r, &e_r).unwrap();
    let session = session(41, ProtocolKind::ReEncryption);
    let reencryptor = ReEncryptor::new(params(), session.clone(), 40);
    let mut aggregator = ShareAggregator::new(session, ShareKind::ReEncryption);
    let (mut us, mut e0s, mut e1s) = (Vec::new(), Vec::new(), Vec::new());
    for (i, sk) in sks.iter().enumerate() {
        let mut guard = ReplayGuard::new();
        let (u, e0, e1) = (sample_ternary(&r, &mut rng), sample_error(&r, &mut rng), sample_error(&r, &mut rng));
        let participant = ParticipantId::new(i as u64 + 1).unwrap();
        let share = reencryptor.create_share(participant, sk, &ct, &recipient, &mut guard, &u, &e0, &e1).unwrap();
        aggregator.add_share(share).unwrap();
        us.push(u);
        e0s.push(e0);
        e1s.push(e1);
    }
    let out = reencryptor.aggregate_ciphertext(&aggregator, &ct).unwrap();
    let noise = r
        .sub(&r.add(&sum(&r, &e0s), &r.mul(&sum(&r, &e1s), &s_r).unwrap()).unwrap(), &r.mul(&sum(&r, &us), &e_r).unwrap())
        .unwrap();
    assert_eq!(decrypt(&s_r, &out), r.add(&decrypt(&s, &ct), &noise).unwrap());
}

#[test]
fn bfv_reencryption_share_is_refused_on_replay() {
    let r = ring_of(&MODULI);
    let mut rng = ChaCha20Rng::from_seed([81u8; 32]);
    let sks = secrets(&mut rng);
    let ct = encrypt(&collective(&sks), &[1, 2, 3, 0, 0, 0, 0, 0], &mut rng);
    let recipient = phantom_fhe::lattice::rlwe::keys::PublicKey::new(sample_uniform(&r, &mut rng), sample_uniform(&r, &mut rng));
    let reencryptor = ReEncryptor::new(params(), session(42, ProtocolKind::ReEncryption), 40);
    let mut guard = ReplayGuard::new();
    let (u, e) = (sample_ternary(&r, &mut rng), sample_error(&r, &mut rng));
    let participant = ParticipantId::new(1).unwrap();
    reencryptor.create_share(participant, &sks[0], &ct, &recipient, &mut guard, &u, &e, &e).unwrap();
    assert_eq!(
        reencryptor.create_share(participant, &sks[0], &ct, &recipient, &mut guard, &u, &e, &e).unwrap_err(),
        MultipartyError::ReplayedShare
    );
}

#[test]
fn bfv_interactive_bootstrap_masks_cancel() {
    let r = ring_of(&MODULI);
    let mut rng = ChaCha20Rng::from_seed([82u8; 32]);
    let sks = secrets(&mut rng);
    let s = collective(&sks);
    let ct = encrypt(&s, &[7, 0, 3, 0, 0, 1, 0, 0], &mut rng);
    let session = session(43, ProtocolKind::InteractiveBootstrap);
    let bootstrap = InteractiveBootstrap::new(params(), session.clone(), 40);
    let mut aggregator = ShareAggregator::new(session, ShareKind::InteractiveBootstrap);
    let (mut e0s, mut e1s) = (Vec::new(), Vec::new());
    for (i, sk) in sks.iter().enumerate() {
        let mut guard = ReplayGuard::new();
        let (mask, e0, e1) = (sample_uniform(&r, &mut rng), sample_error(&r, &mut rng), sample_error(&r, &mut rng));
        let participant = ParticipantId::new(i as u64 + 1).unwrap();
        aggregator.add_share(bootstrap.create_share(participant, sk, &ct, &mut guard, &mask, &e0, &e1).unwrap()).unwrap();
        e0s.push(e0);
        e1s.push(e1);
    }
    let (masked, h1_sum) = bootstrap.aggregate_masked(&aggregator, &ct).unwrap();
    let refreshed = bootstrap.aggregate_refreshed(&masked, &h1_sum).unwrap();
    let noise = r.add(&sum(&r, &e0s), &sum(&r, &e1s)).unwrap();
    assert_eq!(decrypt(&s, &refreshed), r.add(&decrypt(&s, &ct), &noise).unwrap());
}

#[test]
fn bfv_placeholder_key_generation_gives_the_zero_key() {
    let r = ring_of(&MODULI);
    let session = session(44, ProtocolKind::CollectiveKeyGen);
    let ckg = CollectiveKeyGen::new(params(), session.clone());
    let mut aggregator = ShareAggregator::new(session, ShareKind::CollectiveKeyGen);
    for p in 1..=3u64 {
        let share = ckg.create_share(ParticipantId::new(p).unwrap()).unwrap();
        assert_eq!(share.payload(), &p.to_le_bytes());
        aggregator.add_share(share).unwrap();
    }
    let pk = ckg.aggregate_public_key(&aggregator).unwrap();
    assert_eq!(pk.value()[0], r.zero());
    assert_eq!(pk.value()[1], r.zero());
    assert_eq!(ckg.create_share(ParticipantId::new(9).unwrap()).unwrap_err(), MultipartyError::UnknownParticipant);
}

#[test]
fn bfv_placeholder_partial_decryption_agrees_on_c0() {
    let mut rng = ChaCha20Rng::from_seed([83u8; 32]);
    let sks = secrets(&mut rng);
    let s = collective(&sks);
    let ct = encrypt(&s, &[1, 1, 1, 0, 0, 0, 0, 0], &mut rng);
    let other = encrypt(&s, &[2, 2, 2, 0, 0, 0, 0, 0], &mut rng);
    let session = session(45, ProtocolKind::PartialDecryption);
    let decryptor = PartialDecryptor::new(params(), session.clone());
    let mut agreeing = ShareAggregator::new(session.clone(), ShareKind::PartialDecryption);
    let mut disagreeing = ShareAggregator::new(session, ShareKind::PartialDecryption);
    for p in 1..=3u64 {
        let participant = ParticipantId::new(p).unwrap();
        agreeing.add_share(decryptor.create_share(participant, &ct).unwrap()).unwrap();
        let source = if p == 3 { &other } else { &ct };
        disagreeing.add_share(decryptor.create_share(participant, source).unwrap()).unwrap();
    }
    assert_eq!(decryptor.aggregate_plaintext(&agreeing).unwrap().value(), &ct.value()[0]);
    assert_eq!(decryptor.aggregate_plaintext(&disagreeing).unwrap_err(), MultipartyError::MalformedMessage);
}

#[test]
fn bfv_collective_relinearization_key_relinearizes_under_the_collective_secret() {
    let r = ring_of(&MODULI);
    let mut qp_moduli = MODULI.to_vec();
    qp_moduli.extend_from_slice(&P_MODULI);
    let qp_ring = ring_of(&qp_moduli);
    let mut rng = ChaCha20Rng::from_seed([84u8; 32]);
    let sks = secrets(&mut rng);
    let p: Vec<Modulus> = P_MODULI.iter().map(|&q| Modulus::new(q).unwrap()).collect();
    let session = session(46, ProtocolKind::RelinearizationKeyGen);
    let rkg = RelinearizationKeyGen::new(params(), session.clone(), p);
    let mut guards: Vec<ReplayGuard> = (0..3).map(|_| ReplayGuard::new()).collect();

    let mut ckg = ShareAggregator::new(session, ShareKind::RelinearizationKeyGen);
    for (i, sk) in sks.iter().enumerate() {
        let e = sample_error(&qp_ring, &mut rng);
        let participant = ParticipantId::new(i as u64 + 1).unwrap();
        ckg.add_share(rkg.create_qp_ckg_share(participant, sk, &mut guards[i], &e).unwrap()).unwrap();
    }
    let cpk = rkg.aggregate_qp_public_key(&ckg).unwrap();

    let n = MODULI.len();
    let mut round1 = ShareAggregator::new(rkg.round1_session(), ShareKind::RelinearizationKeyGen);
    for (i, sk) in sks.iter().enumerate() {
        let us: Vec<Poly> = (0..n).map(|_| sample_ternary(&qp_ring, &mut rng)).collect();
        let e0s: Vec<Poly> = (0..n).map(|_| sample_error(&qp_ring, &mut rng)).collect();
        let e1s: Vec<Poly> = (0..n).map(|_| sample_error(&qp_ring, &mut rng)).collect();
        let participant = ParticipantId::new(i as u64 + 1).unwrap();
        round1
            .add_share(rkg.create_share_round1(participant, sk, &cpk, &mut guards[i], &us, &e0s, &e1s).unwrap())
            .unwrap();
    }
    let h = rkg.aggregate_round1(&round1).unwrap();
    let mut round2 = ShareAggregator::new(rkg.round2_session(), ShareKind::RelinearizationKeyGen);
    for (i, sk) in sks.iter().enumerate() {
        let vs: Vec<Poly> = (0..n).map(|_| sample_ternary(&qp_ring, &mut rng)).collect();
        let e2s: Vec<Poly> = (0..n).map(|_| sample_error(&qp_ring, &mut rng)).collect();
        let e3s: Vec<Poly> = (0..n).map(|_| sample_error(&qp_ring, &mut rng)).collect();
        let participant = ParticipantId::new(i as u64 + 1).unwrap();
        round2
            .add_share(rkg.create_share_round2(participant, sk, &cpk, &h, &mut guards[i], &vs, &e2s, &e3s).unwrap())
            .unwrap();
    }
    let key = rkg.aggregate_key(&round2).unwrap();

    let s = collective(&sks);
    let ct_a = encrypt(&s, &[1, 1, 0, 0, 0, 0, 0, 0], &mut rng);
    let ct_b = encrypt(&s, &[1, 2, 0, 0, 0, 0, 0, 0], &mut rng);
    let evaluator = Evaluator::new(RlweParams::new(r.clone()));
    let relinearized = evaluator.relinearize(&evaluator.mul(&ct_a, &ct_b).unwrap(), &key).unwrap();
    assert_eq!(relinearized.degree(), 1);
    let out = decrypt(&s, &relinearized);
    let expected = r.mul(&from_signed(&[1, 1, 0, 0, 0, 0, 0, 0], &r), &from_signed(&[1, 2, 0, 0, 0, 0, 0, 0], &r)).unwrap();
    for (j, &q) in MODULI.iter().enumerate() {
        for (&a, &b) in out.coeffs()[j].iter().zip(expected.coeffs()[j].iter()) {
            let diff = (a + q - b) % q;
            assert!(diff.min(q - diff) <= 20_000, "component {j}: noise too large");
        }
    }
}
