use phantom_fhe::lattice::rgsw::decomposition::GadgetDecompositionParams;
use phantom_fhe::lattice::rlwe::ciphertext::{Ciphertext, Plaintext};
use phantom_fhe::lattice::rlwe::decryptor::Decryptor;
use phantom_fhe::lattice::rlwe::encryptor::Encryptor;
use phantom_fhe::lattice::rlwe::keygen::KeyGenerator;
use phantom_fhe::lattice::rlwe::keys::{PublicKey, SecretKey};
use phantom_fhe::lattice::rlwe::params::RlweParams;
use phantom_fhe::multiparty::common::participant::{ParticipantId, ParticipantSet};
use phantom_fhe::multiparty::common::replay_guard::ReplayGuard;
use phantom_fhe::multiparty::common::session::{ProtocolKind, SessionId, SessionState};
use phantom_fhe::multiparty::common::shares::{ShareAggregator, ShareKind};
use phantom_fhe::multiparty::error::MultipartyError;
use phantom_fhe::multiparty::mpbgv::ckg::CollectiveKeyGen;
use phantom_fhe::multiparty::mpbgv::gkg::GaloisKeyGen;
use phantom_fhe::multiparty::mpbgv::interactive_bootstrap::InteractiveBootstrap;
use phantom_fhe::multiparty::mpbgv::partial_decrypt::PartialDecryptor;
use phantom_fhe::multiparty::mpbgv::reencryption::ReEncryptor;
use phantom_fhe::multiparty::mpbgv::params::BgvParams;
use phantom_fhe::multiparty::mpbgv::relinearization_key::scale_by_base_power_and_lift;
use phantom_fhe::multiparty::mpbgv::rkg::RelinearizationKeyGen;
use phantom_fhe::multiparty::mpbgv::wire::{decode_poly_rows, encode_poly_rows};
use phantom_fhe::ring::poly::{Degree, Modulus, Poly, Ring};
use phantom_fhe::ring::rns::crt_lift_constant;
use rand_chacha::ChaCha20Rng;
use rand_core::{RngCore, SeedableRng};

const DEGREE: usize = 8;
const MODULI: [u64; 2] = [4_000_037, 4_000_081];
const T: u64 = 17;

fn ring() -> Ring {
    Ring::new(Degree::new(DEGREE).unwrap(), MODULI.iter().map(|&q| Modulus::new(q).unwrap()).collect()).unwrap()
}

fn params() -> BgvParams {
    BgvParams::new(ring(), T)
}

fn from_signed(values: &[i64], ring: &Ring) -> Poly {
    let rows = ring
        .moduli()
        .iter()
        .map(|m| {
            let q = m.value() as i64;
            values.iter().map(|&v| v.rem_euclid(q) as u64).collect()
        })
        .collect();
    Poly::from_coeffs(rows).unwrap()
}

fn sample_ternary(ring: &Ring, rng: &mut ChaCha20Rng) -> Poly {
    let values: Vec<i64> = (0..ring.degree()).map(|_| (rng.next_u64() % 3) as i64 - 1).collect();
    from_signed(&values, ring)
}

fn sample_error(ring: &Ring, rng: &mut ChaCha20Rng) -> Poly {
    let values: Vec<i64> =
        (0..ring.degree()).map(|_| (rng.next_u64() & 0xff).count_ones() as i64 - 4).collect();
    from_signed(&values, ring)
}

fn sample_uniform(ring: &Ring, rng: &mut ChaCha20Rng) -> Poly {
    let n = ring.degree();
    let rows = ring.moduli().iter().map(|m| (0..n).map(|_| rng.next_u64() % m.value()).collect()).collect();
    Poly::from_coeffs(rows).unwrap()
}

fn session(id: u64, protocol: ProtocolKind) -> SessionState {
    let participants = (1..=3).map(|p| ParticipantId::new(p).unwrap()).collect();
    SessionState::new(SessionId::new(id).unwrap(), protocol, ParticipantSet::new(participants).unwrap(), 3).unwrap()
}

fn secrets(rng: &mut ChaCha20Rng) -> Vec<SecretKey> {
    let r = ring();
    (0..3).map(|_| SecretKey::new(sample_ternary(&r, rng))).collect()
}

fn sum(polys: &[Poly]) -> Poly {
    let r = ring();
    polys.iter().fold(r.zero(), |acc, p| r.add(&acc, p).unwrap())
}

fn centered(v: u64, q: u64) -> i64 {
    if v > q / 2 { v as i64 - q as i64 } else { v as i64 }
}

#[test]
fn collective_public_key_satisfies_the_key_equation() {
    let r = ring();
    let mut rng = ChaCha20Rng::from_seed([40u8; 32]);
    let sks = secrets(&mut rng);
    let session = session(11, ProtocolKind::CollectiveKeyGen);
    let ckg = CollectiveKeyGen::new(params(), session.clone());
    let mut aggregator = ShareAggregator::new(session.clone(), ShareKind::CollectiveKeyGen);
    let mut errors = Vec::new();
    for (i, sk) in sks.iter().enumerate() {
        let mut guard = ReplayGuard::new();
        let e = sample_error(&r, &mut rng);
        let share = ckg.create_share(ParticipantId::new(i as u64 + 1).unwrap(), sk, &mut guard, &e).unwrap();
        aggregator.add_share(share).unwrap();
        errors.push(e);
    }
    let pk = ckg.aggregate_public_key(&aggregator).unwrap();
    let s = sum(&sks.iter().map(|k| k.value().clone()).collect::<Vec<_>>());
    let lhs = r.add(&pk.value()[0], &r.mul(&pk.value()[1], &s).unwrap()).unwrap();
    let rhs = r.scalar_mul(&sum(&errors), T).unwrap();
    assert_eq!(lhs, rhs);
}

#[test]
fn a_second_ckg_share_from_the_same_guard_is_refused() {
    let r = ring();
    let mut rng = ChaCha20Rng::from_seed([41u8; 32]);
    let sks = secrets(&mut rng);
    let session = session(12, ProtocolKind::CollectiveKeyGen);
    let ckg = CollectiveKeyGen::new(params(), session);
    let mut guard = ReplayGuard::new();
    let e = sample_error(&r, &mut rng);
    let participant = ParticipantId::new(1).unwrap();
    ckg.create_share(participant, &sks[0], &mut guard, &e).unwrap();
    assert_eq!(ckg.create_share(participant, &sks[0], &mut guard, &e).unwrap_err(), MultipartyError::ReplayedShare);
}

#[test]
fn collective_galois_key_rows_sum_to_the_single_party_rows() {
    let r = ring();
    let mut rng = ChaCha20Rng::from_seed([42u8; 32]);
    let sks = secrets(&mut rng);
    let element = 3;
    let gadget = GadgetDecompositionParams::new(8, 2).unwrap();
    let rows_count = MODULI.len() * gadget.levels();
    let session = session(13, ProtocolKind::GaloisKeyGen);
    let gkg = GaloisKeyGen::new(params(), session.clone(), element, gadget);
    let mut aggregator = ShareAggregator::new(session.clone(), ShareKind::GaloisKeyGen);
    let mut all_errors: Vec<Vec<Poly>> = Vec::new();
    for (i, sk) in sks.iter().enumerate() {
        let mut guard = ReplayGuard::new();
        let errors: Vec<Poly> = (0..rows_count).map(|_| sample_error(&r, &mut rng)).collect();
        let share = gkg.create_share(ParticipantId::new(i as u64 + 1).unwrap(), sk, &mut guard, &errors).unwrap();
        aggregator.add_share(share).unwrap();
        all_errors.push(errors);
    }
    let key = gkg.aggregate_keys(&aggregator).unwrap();
    assert_eq!(key.rows().len(), rows_count);
    let s = sum(&sks.iter().map(|k| k.value().clone()).collect::<Vec<_>>());
    let sigma_s = r.apply_automorphism(&s, element).unwrap();
    for m in 0..MODULI.len() {
        let lift = crt_lift_constant(r.moduli(), m, r.moduli());
        for level in 0..gadget.levels() {
            let k = m * gadget.levels() + level;
            let row = &key.rows()[k];
            let b = &row.value()[0];
            let a = &row.value()[1];
            let phase = r.add(b, &r.mul(a, &s).unwrap()).unwrap();
            let scaled = scale_by_base_power_and_lift(&r, &sigma_s, gadget.base_log(), level, &lift).unwrap();
            let noise: Vec<Poly> = all_errors.iter().map(|es| es[k].clone()).collect();
            let expected = r.add(&scaled, &r.scalar_mul(&sum(&noise), T).unwrap()).unwrap();
            assert_eq!(phase, expected, "row {k}");
        }
    }
}

#[test]
fn collective_relinearization_key_rows_decrypt_to_the_scaled_square() {
    let r = ring();
    let mut rng = ChaCha20Rng::from_seed([43u8; 32]);
    let sks = secrets(&mut rng);
    let ckg_session = session(14, ProtocolKind::CollectiveKeyGen);
    let ckg = CollectiveKeyGen::new(params(), ckg_session.clone());
    let mut ckg_aggregator = ShareAggregator::new(ckg_session, ShareKind::CollectiveKeyGen);
    for (i, sk) in sks.iter().enumerate() {
        let mut guard = ReplayGuard::new();
        let e = sample_error(&r, &mut rng);
        ckg_aggregator
            .add_share(ckg.create_share(ParticipantId::new(i as u64 + 1).unwrap(), sk, &mut guard, &e).unwrap())
            .unwrap();
    }
    let pk = ckg.aggregate_public_key(&ckg_aggregator).unwrap();

    let gadget = GadgetDecompositionParams::new(8, 2).unwrap();
    let rows_count = MODULI.len() * gadget.levels();
    let session1 = session(15, ProtocolKind::RelinearizationKeyGen);
    let rkg = RelinearizationKeyGen::new(params(), session1.clone(), pk, gadget);
    let mut round1 = ShareAggregator::new(session1, ShareKind::RelinearizationKeyGen);
    for (i, sk) in sks.iter().enumerate() {
        let us: Vec<Poly> = (0..rows_count).map(|_| sample_ternary(&r, &mut rng)).collect();
        let e0s: Vec<Poly> = (0..rows_count).map(|_| sample_error(&r, &mut rng)).collect();
        let e1s: Vec<Poly> = (0..rows_count).map(|_| sample_error(&r, &mut rng)).collect();
        round1
            .add_share(rkg.create_share_round1(ParticipantId::new(i as u64 + 1).unwrap(), sk, &us, &e0s, &e1s).unwrap())
            .unwrap();
    }
    let h = rkg.aggregate_round1(&round1).unwrap();
    assert_eq!(h.len(), rows_count);
    let mut round2 = ShareAggregator::new(rkg.round2_session(), ShareKind::RelinearizationKeyGen);
    for (i, sk) in sks.iter().enumerate() {
        let vs: Vec<Poly> = (0..rows_count).map(|_| sample_ternary(&r, &mut rng)).collect();
        let e2s: Vec<Poly> = (0..rows_count).map(|_| sample_error(&r, &mut rng)).collect();
        let e3s: Vec<Poly> = (0..rows_count).map(|_| sample_error(&r, &mut rng)).collect();
        round2
            .add_share(
                rkg.create_share_round2(ParticipantId::new(i as u64 + 1).unwrap(), sk, &h, &vs, &e2s, &e3s).unwrap(),
            )
            .unwrap();
    }
    let key = rkg.aggregate_key(&round2).unwrap();
    let s = sum(&sks.iter().map(|k| k.value().clone()).collect::<Vec<_>>());
    let s_squared = r.mul(&s, &s).unwrap();
    for m in 0..MODULI.len() {
        let lift = crt_lift_constant(r.moduli(), m, r.moduli());
        for level in 0..gadget.levels() {
            let k = m * gadget.levels() + level;
            let row = &key.rows()[k];
            let phase = r.add(&row.value()[0], &r.mul(&row.value()[1], &s).unwrap()).unwrap();
            let scaled = scale_by_base_power_and_lift(&r, &s_squared, gadget.base_log(), level, &lift).unwrap();
            let noise = r.sub(&phase, &scaled).unwrap();
            for (j, &q) in MODULI.iter().enumerate() {
                for &c in &noise.coeffs()[j] {
                    let v = centered(c, q);
                    assert_eq!(v.rem_euclid(T as i64), 0, "row {k}: noise {v} is not a multiple of t");
                    assert!(v.abs() < (q / 4) as i64, "row {k}: noise {v} too large");
                }
            }
        }
    }
}

#[test]
fn poly_rows_round_trip_and_reject_a_truncated_payload() {
    let r = ring();
    let mut rng = ChaCha20Rng::from_seed([44u8; 32]);
    let rows: Vec<(Poly, Poly)> = (0..3).map(|_| (sample_uniform(&r, &mut rng), sample_uniform(&r, &mut rng))).collect();
    let bytes = encode_poly_rows(&rows);
    assert_eq!(bytes.len(), 24 + 3 * 2 * MODULI.len() * DEGREE * 8);
    let decoded = decode_poly_rows(&bytes, &r).unwrap();
    assert_eq!(decoded, rows);
    let mut short = bytes.clone();
    short.pop();
    assert_eq!(decode_poly_rows(&short, &r).unwrap_err(), MultipartyError::MalformedMessage);
    let empty = encode_poly_rows(&[]);
    assert_eq!(empty, vec![0u8; 24]);
    assert!(decode_poly_rows(&empty, &r).unwrap().is_empty());
}

#[test]
fn galois_share_refuses_an_even_element() {
    let r = ring();
    let mut rng = ChaCha20Rng::from_seed([45u8; 32]);
    let sks = secrets(&mut rng);
    let gadget = GadgetDecompositionParams::new(8, 2).unwrap();
    let session = session(16, ProtocolKind::GaloisKeyGen);
    let gkg = GaloisKeyGen::new(params(), session, 4, gadget);
    let errors: Vec<Poly> = (0..MODULI.len() * 2).map(|_| sample_error(&r, &mut rng)).collect();
    let mut guard = ReplayGuard::new();
    assert_eq!(
        gkg.create_share(ParticipantId::new(1).unwrap(), &sks[0], &mut guard, &errors).unwrap_err(),
        MultipartyError::InvalidParameters("create_share: apply_automorphism failed")
    );
}

fn collective_encryption(sks: &[SecretKey], rng: &mut ChaCha20Rng) -> (Poly, Ciphertext) {
    let r = ring();
    let s = sum(&sks.iter().map(|k| k.value().clone()).collect::<Vec<_>>());
    let encryptor = Encryptor::with_secret_key(RlweParams::new(r.clone()), SecretKey::new(s.clone()));
    let mut coeffs = vec![vec![0u64; DEGREE]; MODULI.len()];
    for row in coeffs.iter_mut() {
        row[..4].copy_from_slice(&[3, 1, 4, 1]);
    }
    let pt = Plaintext::new(Poly::from_coeffs(coeffs).unwrap());
    let e = sample_error(&r, rng);
    let ct = encryptor.encrypt(&pt, &sample_uniform(&r, rng), &e, &e).unwrap();
    (s, ct)
}

#[test]
fn threshold_decryption_recovers_the_collective_phase() {
    let r = ring();
    let mut rng = ChaCha20Rng::from_seed([43u8; 32]);
    let sks = secrets(&mut rng);
    let (s, ct) = collective_encryption(&sks, &mut rng);
    let session = session(14, ProtocolKind::PartialDecryption);
    let decryptor = PartialDecryptor::new(params(), session.clone(), 40);
    let mut aggregator = ShareAggregator::new(session, ShareKind::PartialDecryption);
    let mut errors = Vec::new();
    for (i, sk) in sks.iter().enumerate() {
        let mut guard = ReplayGuard::new();
        let e = sample_error(&r, &mut rng);
        let share = decryptor.create_share(ParticipantId::new(i as u64 + 1).unwrap(), sk, &ct, &mut guard, &e).unwrap();
        aggregator.add_share(share).unwrap();
        errors.push(e);
    }
    let combined = decryptor.aggregate_plaintext(&aggregator, &ct).unwrap();
    let phase = Decryptor::new(RlweParams::new(r.clone()), SecretKey::new(s)).decrypt(&ct).unwrap();
    let expected = r.add(phase.value(), &r.scalar_mul(&sum(&errors), T).unwrap()).unwrap();
    assert_eq!(combined.value(), &expected);
}

#[test]
fn reencryption_shares_sum_to_the_collective_share() {
    let r = ring();
    let mut rng = ChaCha20Rng::from_seed([44u8; 32]);
    let sks = secrets(&mut rng);
    let (s, ct) = collective_encryption(&sks, &mut rng);
    let recipient = PublicKey::new(sample_uniform(&r, &mut rng), sample_uniform(&r, &mut rng));
    let session = session(15, ProtocolKind::ReEncryption);
    let reencryptor = ReEncryptor::new(params(), session.clone(), 40);
    let mut aggregator = ShareAggregator::new(session, ShareKind::ReEncryption);
    let (mut us, mut e0s, mut e1s) = (Vec::new(), Vec::new(), Vec::new());
    for (i, sk) in sks.iter().enumerate() {
        let (u, e0, e1) = (sample_ternary(&r, &mut rng), sample_error(&r, &mut rng), sample_error(&r, &mut rng));
        let participant = ParticipantId::new(i as u64 + 1).unwrap();
        aggregator.add_share(reencryptor.create_share(participant, sk, &ct, &recipient, &u, &e0, &e1).unwrap()).unwrap();
        us.push(u);
        e0s.push(e0);
        e1s.push(e1);
    }
    let out = reencryptor.aggregate_ciphertext(&aggregator, &ct).unwrap();
    let (u, b, a) = (sum(&us), &recipient.value()[0], &recipient.value()[1]);
    let h0 = r
        .add(
            &r.add(&r.mul(&u, b).unwrap(), &r.scalar_mul(&sum(&e0s), T).unwrap()).unwrap(),
            &r.mul(&s, &ct.value()[1]).unwrap(),
        )
        .unwrap();
    let h1 = r.add(&r.mul(&u, a).unwrap(), &r.scalar_mul(&sum(&e1s), T).unwrap()).unwrap();
    assert_eq!(out.value()[0], r.add(&ct.value()[0], &h0).unwrap());
    assert_eq!(out.value()[1], h1);
}

#[test]
fn interactive_bootstrap_masks_cancel_across_the_two_sums() {
    let r = ring();
    let mut rng = ChaCha20Rng::from_seed([45u8; 32]);
    let sks = secrets(&mut rng);
    let (s, ct) = collective_encryption(&sks, &mut rng);
    let session = session(16, ProtocolKind::InteractiveBootstrap);
    let bootstrap = InteractiveBootstrap::new(params(), session.clone(), 40);
    let mut aggregator = ShareAggregator::new(session, ShareKind::InteractiveBootstrap);
    let (mut e0s, mut e1s) = (Vec::new(), Vec::new());
    for (i, sk) in sks.iter().enumerate() {
        let mut guard = ReplayGuard::new();
        let (mask, e0, e1) = (sample_uniform(&r, &mut rng), sample_error(&r, &mut rng), sample_error(&r, &mut rng));
        let participant = ParticipantId::new(i as u64 + 1).unwrap();
        let share = bootstrap.create_share(participant, sk, &ct, &mut guard, &mask, &e0, &e1).unwrap();
        aggregator.add_share(share).unwrap();
        e0s.push(e0);
        e1s.push(e1);
    }
    let (masked, h1_sum) = bootstrap.aggregate_masked(&aggregator, &ct).unwrap();
    let refreshed = bootstrap.aggregate_refreshed(&masked, &h1_sum).unwrap();
    // The masks cancel: the refreshed ciphertext decrypts under `s` to the
    // original phase plus `t` times the collective errors.
    let phase = Decryptor::new(RlweParams::new(r.clone()), SecretKey::new(s.clone())).decrypt(&ct).unwrap();
    let out = Decryptor::new(RlweParams::new(r.clone()), SecretKey::new(s)).decrypt(&refreshed).unwrap();
    let noise = r.scalar_mul(&r.add(&sum(&e0s), &sum(&e1s)).unwrap(), T).unwrap();
    assert_eq!(out.value(), &r.add(phase.value(), &noise).unwrap());
}

#[test]
fn reencryption_moves_the_ciphertext_to_the_recipient_key() {
    let r = ring();
    let mut rng = ChaCha20Rng::from_seed([46u8; 32]);
    let sks = secrets(&mut rng);
    let (s, ct) = collective_encryption(&sks, &mut rng);
    let s_r = sample_ternary(&r, &mut rng);
    let (a_r, e_r) = (sample_uniform(&r, &mut rng), sample_error(&r, &mut rng));
    let recipient = KeyGenerator::new(RlweParams::new(r.clone()))
        .generate_public_key(&SecretKey::new(s_r.clone()), &a_r, &e_r)
        .unwrap();
    let session = session(17, ProtocolKind::ReEncryption);
    let reencryptor = ReEncryptor::new(params(), session.clone(), 40);
    let mut aggregator = ShareAggregator::new(session, ShareKind::ReEncryption);
    let (mut us, mut e0s, mut e1s) = (Vec::new(), Vec::new(), Vec::new());
    for (i, sk) in sks.iter().enumerate() {
        let (u, e0, e1) = (sample_ternary(&r, &mut rng), sample_error(&r, &mut rng), sample_error(&r, &mut rng));
        let participant = ParticipantId::new(i as u64 + 1).unwrap();
        aggregator.add_share(reencryptor.create_share(participant, sk, &ct, &recipient, &u, &e0, &e1).unwrap()).unwrap();
        us.push(u);
        e0s.push(e0);
        e1s.push(e1);
    }
    let out = reencryptor.aggregate_ciphertext(&aggregator, &ct).unwrap();
    let phase = Decryptor::new(RlweParams::new(r.clone()), SecretKey::new(s)).decrypt(&ct).unwrap();
    let moved = Decryptor::new(RlweParams::new(r.clone()), SecretKey::new(s_r.clone())).decrypt(&out).unwrap();
    let te0 = r.scalar_mul(&sum(&e0s), T).unwrap();
    let te1s = r.mul(&r.scalar_mul(&sum(&e1s), T).unwrap(), &s_r).unwrap();
    let noise = r.sub(&r.add(&te0, &te1s).unwrap(), &r.mul(&sum(&us), &e_r).unwrap()).unwrap();
    assert_eq!(moved.value(), &r.add(phase.value(), &noise).unwrap());
}
