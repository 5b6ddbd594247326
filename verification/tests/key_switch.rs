use phantom_fhe::lattice::error::LatticeError;
use phantom_fhe::lattice::noise::fresh_secret_key_noise_bound;
use phantom_fhe::lattice::rlwe::ciphertext::{Ciphertext, Plaintext};
use phantom_fhe::lattice::rlwe::decryptor::Decryptor;
use phantom_fhe::lattice::rlwe::encryptor::Encryptor;
use phantom_fhe::lattice::rlwe::keys::SecretKey;
use phantom_fhe::lattice::rlwe::keyswitch::{generate_key_switch_key, key_switch, rebase_ternary_secret, KeySwitchKey};
use phantom_fhe::lattice::rlwe::params::RlweParams;
use phantom_fhe::ring::poly::{Degree, Modulus, Poly, Ring};
use rand_chacha::ChaCha20Rng;
use rand_core::{RngCore, SeedableRng};

const DEGREE: usize = 8;
const Q_MODULI: [u64; 3] = [4000037, 4000039, 4000043];
const P_MODULI: [u64; 2] = [4000063, 4000067];

fn ring_of(moduli: &[u64]) -> Ring {
    Ring::new(
        Degree::new(DEGREE).unwrap(),
        moduli.iter().map(|&q| Modulus::new(q).unwrap()).collect(),
    )
    .unwrap()
}

fn q_params() -> RlweParams {
    RlweParams::new(ring_of(&Q_MODULI))
}

fn p_moduli() -> Vec<Modulus> {
    P_MODULI.iter().map(|&p| Modulus::new(p).unwrap()).collect()
}

fn qp_ring() -> Ring {
    let all: Vec<u64> = Q_MODULI.iter().chain(P_MODULI.iter()).copied().collect();
    ring_of(&all)
}

fn from_signed(values: &[i64], ring: &Ring) -> Poly {
    let rows = ring
        .moduli()
        .iter()
        .map(|m| {
            let q = m.value() as i64;
            values.iter().map(|&v| v.rem_euclid(q) as u64).collect()
        })
        .collect();
    Poly::from_coeffs(rows).unwrap()
}

fn sample_ternary(ring: &Ring, rng: &mut ChaCha20Rng) -> Poly {
    let values: Vec<i64> = (0..DEGREE).map(|_| (rng.next_u64() % 3) as i64 - 1).collect();
    from_signed(&values, ring)
}

fn sample_error(ring: &Ring, rng: &mut ChaCha20Rng) -> Poly {
    let values: Vec<i64> = (0..DEGREE).map(|_| (rng.next_u64() & 0xff).count_ones() as i64 - 4).collect();
    from_signed(&values, ring)
}

fn sample_uniform(ring: &Ring, rng: &mut ChaCha20Rng) -> Poly {
    let rows = ring
        .moduli()
        .iter()
        .map(|m| (0..DEGREE).map(|_| rng.next_u64() % m.value()).collect())
        .collect();
    Poly::from_coeffs(rows).unwrap()
}

fn plaintext(values: &[u64]) -> Plaintext {
    let mut coeffs = values.to_vec();
    coeffs.resize(DEGREE, 0);
    Plaintext::new(Poly::from_coeffs(vec![coeffs; Q_MODULI.len()]).unwrap())
}

fn centered_distance(a: u64, b: u64, modulus: u64) -> u64 {
    let diff = (a + modulus - b) % modulus;
    diff.min(modulus - diff)
}

fn noise_bound() -> u64 {
    fresh_secret_key_noise_bound() * 4
}

fn switch_key(
    params: &RlweParams,
    s_old_qp: &Poly,
    s_new: &SecretKey,
    rng: &mut ChaCha20Rng,
) -> phantom_fhe::lattice::rlwe::keyswitch::KeySwitchKey {
    let qp = qp_ring();
    let masks: Vec<Poly> = (0..Q_MODULI.len()).map(|_| sample_uniform(&qp, rng)).collect();
    let errors: Vec<Poly> = (0..Q_MODULI.len()).map(|_| sample_error(&qp, rng)).collect();
    generate_key_switch_key(params, &p_moduli(), s_old_qp, s_new, &masks, &errors).unwrap()
}

fn run_trial(seed: u8, values: &[u64]) {
    let params = q_params();
    let ring = params.ring().clone();
    let mut rng = ChaCha20Rng::from_seed([seed; 32]);

    let s_old = SecretKey::new(sample_ternary(&ring, &mut rng));
    let s_new = SecretKey::new(sample_ternary(&ring, &mut rng));

    let encryptor = Encryptor::with_secret_key(params.clone(), s_old.clone());
    let pt = plaintext(values);
    let mask = sample_uniform(&ring, &mut rng);
    let e = sample_error(&ring, &mut rng);
    let ct = encryptor.encrypt(&pt, &mask, &e, &e).unwrap();

    let s_old_qp = rebase_ternary_secret(&s_old, Modulus::new(Q_MODULI[0]).unwrap(), &qp_ring()).unwrap();
    let ksk = switch_key(&params, &s_old_qp, &s_new, &mut rng);
    let switched = key_switch(&ct, &ksk, &params).unwrap();

    let decryptor = Decryptor::new(params.clone(), s_new);
    let decrypted = decryptor.decrypt(&switched).unwrap();
    let bound = noise_bound();

    for (j, &q) in Q_MODULI.iter().enumerate() {
        let expected = &pt.value().coeffs()[j];
        let actual = &decrypted.value().coeffs()[j];
        for (i, (&e, &a)) in expected.iter().zip(actual.iter()).enumerate() {
            let noise = centered_distance(a, e, q);
            assert!(
                noise <= bound,
                "seed={seed}, component {j}, coefficient {i}: noise {noise} exceeds bound {bound}"
            );
        }
    }
}

#[test]
fn key_switch_moves_a_ciphertext_to_a_different_ternary_secret() {
    run_trial(21, &[7, 11, 13, 5]);
}

#[test]
fn key_switch_works_across_several_independent_trials() {
    for seed in [1u8, 42, 100, 200, 255] {
        run_trial(seed, &[1, 2, 3, 4]);
    }
}

#[test]
fn key_switch_rejects_a_component_count_mismatch_against_its_own_key() {
    let params = q_params();
    let ring = params.ring().clone();
    let mut rng = ChaCha20Rng::from_seed([7u8; 32]);
    let s_old = SecretKey::new(sample_ternary(&ring, &mut rng));
    let s_new = SecretKey::new(sample_ternary(&ring, &mut rng));

    let s_old_qp = rebase_ternary_secret(&s_old, Modulus::new(Q_MODULI[0]).unwrap(), &qp_ring()).unwrap();
    let ksk = switch_key(&params, &s_old_qp, &s_new, &mut rng);

    let bad_ct = Ciphertext::new(vec![
        Poly::from_coeffs(vec![vec![0; DEGREE], vec![0; DEGREE]]).unwrap(),
        Poly::from_coeffs(vec![vec![0; DEGREE], vec![0; DEGREE]]).unwrap(),
    ]);
    assert!(key_switch(&bad_ct, &ksk, &params).is_err());
}

#[test]
fn generate_key_switch_key_rejects_empty_p_moduli() {
    let params = q_params();
    let ring = params.ring().clone();
    let mut rng = ChaCha20Rng::from_seed([7u8; 32]);
    let s_old = SecretKey::new(sample_ternary(&ring, &mut rng));
    let s_new = SecretKey::new(sample_ternary(&ring, &mut rng));

    let s_old_qp = rebase_ternary_secret(&s_old, Modulus::new(Q_MODULI[0]).unwrap(), &qp_ring()).unwrap();
    let qp = qp_ring();
    let masks: Vec<Poly> = (0..Q_MODULI.len()).map(|_| sample_uniform(&qp, &mut rng)).collect();
    let errors: Vec<Poly> = (0..Q_MODULI.len()).map(|_| sample_error(&qp, &mut rng)).collect();
    assert!(generate_key_switch_key(&params, &[], &s_old_qp, &s_new, &masks, &errors).is_err());
}

#[test]
fn rebase_refuses_a_secret_that_is_not_ternary() {
    let ring = ring_of(&Q_MODULI);
    let not_ternary = SecretKey::new(from_signed(&[2, 0, 0, 0, 0, 0, 0, 0], &ring));
    assert!(rebase_ternary_secret(&not_ternary, Modulus::new(Q_MODULI[0]).unwrap(), &qp_ring()).is_err());
}

#[test]
fn key_switch_with_the_identity_key_adds_only_noise() {
    // Switching from s to s itself: the result still decrypts under s.
    let params = q_params();
    let ring = params.ring().clone();
    let mut rng = ChaCha20Rng::from_seed([3u8; 32]);
    let s = SecretKey::new(sample_ternary(&ring, &mut rng));
    let pt = plaintext(&[9, 8, 7]);
    let encryptor = Encryptor::with_secret_key(params.clone(), s.clone());
    let mask = sample_uniform(&ring, &mut rng);
    let e = sample_error(&ring, &mut rng);
    let ct = encryptor.encrypt(&pt, &mask, &e, &e).unwrap();
    let s_qp = rebase_ternary_secret(&s, Modulus::new(Q_MODULI[0]).unwrap(), &qp_ring()).unwrap();
    let ksk = switch_key(&params, &s_qp, &s, &mut rng);
    let switched = key_switch(&ct, &ksk, &params).unwrap();
    let out = Decryptor::new(params, s).decrypt(&switched).unwrap();
    for (j, &q) in Q_MODULI.iter().enumerate() {
        for (&a, &b) in out.value().coeffs()[j].iter().zip(pt.value().coeffs()[j].iter()) {
            assert!(centered_distance(a, b, q) <= noise_bound());
        }
    }
}

#[test]
fn key_switch_refuses_a_raw_key_whose_ring_has_no_auxiliary_moduli() {
    let params = q_params();
    let ring = params.ring().clone();
    let zero = Poly::from_coeffs(vec![vec![0; DEGREE]; Q_MODULI.len()]).unwrap();
    // One row per Q modulus, each with a single component: never read.
    let rows: Vec<Ciphertext> = (0..Q_MODULI.len()).map(|_| Ciphertext::new(vec![zero.clone()])).collect();
    let key = KeySwitchKey::from_rows(RlweParams::new(ring.clone()), rows);
    let ct = Ciphertext::new(vec![zero.clone(), zero.clone()]);
    assert!(matches!(key_switch(&ct, &key, &params), Err(LatticeError::DimensionMismatch)));
}
