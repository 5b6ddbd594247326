use phantom_fhe::lattice::noise::{
    external_product_noise_bound, fresh_public_key_noise_bound, fresh_secret_key_noise_bound, mul_noise_bound,
};
use phantom_fhe::lattice::rgsw::ciphertext::RgswCiphertext;
use phantom_fhe::lattice::rgsw::decomposition::GadgetDecompositionParams;
use phantom_fhe::lattice::rgsw::external_product::external_product;
use phantom_fhe::lattice::rgsw::key::RgswKey;
use phantom_fhe::lattice::rlwe::ciphertext::{Ciphertext, Plaintext};
use phantom_fhe::lattice::rlwe::decryptor::Decryptor;
use phantom_fhe::lattice::rlwe::encryptor::Encryptor;
use phantom_fhe::lattice::rlwe::evaluator::Evaluator;
use phantom_fhe::lattice::rlwe::keygen::KeyGenerator;
use phantom_fhe::lattice::rlwe::keys::SecretKey;
use phantom_fhe::lattice::rlwe::params::RlweParams;
use phantom_fhe::lattice::rlwe::repacking::repack;
use phantom_fhe::ring::poly::{Degree, Modulus, Poly, Ring};
use rand_chacha::ChaCha20Rng;
use rand_core::{RngCore, SeedableRng};

const TRIALS: usize = 300;
const DEGREE: usize = 8;
const MODULUS: u64 = 4_000_081;
const P_MODULI: [u64; 2] = [4_000_063, 4_000_067];

fn params() -> RlweParams {
    let ring = Ring::new(Degree::new(DEGREE).unwrap(), vec![Modulus::new(MODULUS).unwrap()]).unwrap();
    RlweParams::new(ring)
}

fn p_moduli() -> Vec<Modulus> {
    P_MODULI.iter().map(|&p| Modulus::new(p).unwrap()).collect()
}

fn qp_ring() -> Ring {
    let moduli: Vec<Modulus> =
        std::iter::once(MODULUS).chain(P_MODULI.iter().copied()).map(|q| Modulus::new(q).unwrap()).collect();
    Ring::new(Degree::new(DEGREE).unwrap(), moduli).unwrap()
}

fn from_signed(values: &[i64], ring: &Ring) -> Poly {
    let rows = ring
        .moduli()
        .iter()
        .map(|m| {
            let q = m.value() as i64;
            values.iter().map(|&v| v.rem_euclid(q) as u64).collect()
        })
        .collect();
    Poly::from_coeffs(rows).unwrap()
}

fn sample_ternary(ring: &Ring, rng: &mut ChaCha20Rng) -> Poly {
    let values: Vec<i64> = (0..ring.degree()).map(|_| (rng.next_u64() % 3) as i64 - 1).collect();
    from_signed(&values, ring)
}

fn sample_error(ring: &Ring, rng: &mut ChaCha20Rng) -> Poly {
    let values: Vec<i64> =
        (0..ring.degree()).map(|_| (rng.next_u64() & 0xff).count_ones() as i64 - 4).collect();
    from_signed(&values, ring)
}

fn sample_uniform(ring: &Ring, rng: &mut ChaCha20Rng) -> Poly {
    let n = ring.degree();
    let rows = ring.moduli().iter().map(|m| (0..n).map(|_| rng.next_u64() % m.value()).collect()).collect();
    Poly::from_coeffs(rows).unwrap()
}

fn sk_encrypt(encryptor: &Encryptor, ring: &Ring, pt: &Plaintext, rng: &mut ChaCha20Rng) -> Ciphertext {
    let mask = sample_uniform(ring, rng);
    let e = sample_error(ring, rng);
    encryptor.encrypt(pt, &mask, &e, &e).unwrap()
}

fn zero_encryptions(encryptor: &Encryptor, ring: &Ring, count: usize, rng: &mut ChaCha20Rng) -> Vec<Ciphertext> {
    let zero = Plaintext::new(ring.zero());
    (0..count).map(|_| sk_encrypt(encryptor, ring, &zero, rng)).collect()
}

fn pk_encrypt(encryptor: &Encryptor, ring: &Ring, pt: &Plaintext, rng: &mut ChaCha20Rng) -> Ciphertext {
    let u = sample_ternary(ring, rng);
    let e0 = sample_error(ring, rng);
    let e1 = sample_error(ring, rng);
    encryptor.encrypt(pt, &u, &e0, &e1).unwrap()
}

fn random_plaintext(rng: &mut ChaCha20Rng, bound: u64) -> Plaintext {
    Plaintext::new(random_poly(rng, bound))
}

fn random_poly(rng: &mut ChaCha20Rng, bound: u64) -> Poly {
    Poly::from_coeffs(vec![(0..DEGREE).map(|_| rng.next_u64() % bound).collect()]).unwrap()
}

fn assert_noise_bounded(actual: &Plaintext, expected: &Plaintext, bound: u64, modulus: u64) {
    for (&a, &e) in actual.value().coeffs()[0].iter().zip(expected.value().coeffs()[0].iter()) {
        let diff = (a + modulus - e) % modulus;
        let centered = diff.min(modulus - diff);
        assert!(centered <= bound, "noise {centered} exceeds bound {bound} (actual={a}, expected={e})");
    }
}

fn secret_and_public(seed: u8) -> (RlweParams, SecretKey, Encryptor, ChaCha20Rng) {
    let params = params();
    let ring = params.ring().clone();
    let keygen = KeyGenerator::new(params.clone());
    let mut rng = ChaCha20Rng::from_seed([seed; 32]);
    let sk = SecretKey::new(sample_ternary(&ring, &mut rng));
    let a = sample_uniform(&ring, &mut rng);
    let e = sample_error(&ring, &mut rng);
    let pk = keygen.generate_public_key(&sk, &a, &e).unwrap();
    let encryptor = Encryptor::with_public_key(params.clone(), pk);
    (params, sk, encryptor, rng)
}

#[test]
fn secret_key_round_trip_holds_across_many_random_messages() {
    let params = params();
    let ring = params.ring().clone();
    let mut rng = ChaCha20Rng::from_seed([100u8; 32]);
    let sk = SecretKey::new(sample_ternary(&ring, &mut rng));
    let encryptor = Encryptor::with_secret_key(params.clone(), sk.clone());
    let decryptor = Decryptor::new(params, sk);

    for _ in 0..TRIALS {
        let pt = random_plaintext(&mut rng, MODULUS);
        let ct = sk_encrypt(&encryptor, &ring, &pt, &mut rng);
        let out = decryptor.decrypt(&ct).unwrap();
        assert_noise_bounded(&out, &pt, fresh_secret_key_noise_bound(), MODULUS);
    }
}

#[test]
fn public_key_round_trip_holds_across_many_random_messages() {
    let (params, sk, encryptor, mut rng) = secret_and_public(101);
    let ring = params.ring().clone();
    let decryptor = Decryptor::new(params, sk);

    for _ in 0..TRIALS {
        let pt = random_plaintext(&mut rng, MODULUS);
        let ct = pk_encrypt(&encryptor, &ring, &pt, &mut rng);
        let out = decryptor.decrypt(&ct).unwrap();
        assert_noise_bounded(&out, &pt, fresh_public_key_noise_bound(DEGREE), MODULUS);
    }
}

#[test]
fn add_and_sub_match_independent_modular_arithmetic_across_many_random_pairs() {
    let (params, sk, encryptor, mut rng) = secret_and_public(102);
    let ring = params.ring().clone();
    let decryptor = Decryptor::new(params.clone(), sk);
    let evaluator = Evaluator::new(params.clone());
    let combined_bound = 2 * fresh_public_key_noise_bound(DEGREE);

    for _ in 0..TRIALS {
        let a = random_plaintext(&mut rng, MODULUS);
        let b = random_plaintext(&mut rng, MODULUS);
        let ct_a = pk_encrypt(&encryptor, &ring, &a, &mut rng);
        let ct_b = pk_encrypt(&encryptor, &ring, &b, &mut rng);

        let expected_sum = Plaintext::new(ring.add(a.value(), b.value()).unwrap());
        let sum = evaluator.add(&ct_a, &ct_b).unwrap();
        assert_noise_bounded(&decryptor.decrypt(&sum).unwrap(), &expected_sum, combined_bound, MODULUS);

        let expected_diff = Plaintext::new(ring.sub(a.value(), b.value()).unwrap());
        let diff = evaluator.sub(&ct_a, &ct_b).unwrap();
        assert_noise_bounded(&decryptor.decrypt(&diff).unwrap(), &expected_diff, combined_bound, MODULUS);
    }
}

#[test]
fn multiplication_matches_schoolbook_reference_across_many_random_pairs() {
    let (params, sk, encryptor, mut rng) = secret_and_public(103);
    let ring = params.ring().clone();
    let decryptor = Decryptor::new(params.clone(), sk);
    let evaluator = Evaluator::new(params.clone());
    let coeff_bound = 8;
    let bound = mul_noise_bound(DEGREE, coeff_bound - 1, fresh_public_key_noise_bound(DEGREE));

    for _ in 0..TRIALS {
        let a = random_plaintext(&mut rng, coeff_bound);
        let b = random_plaintext(&mut rng, coeff_bound);
        let ct_a = pk_encrypt(&encryptor, &ring, &a, &mut rng);
        let ct_b = pk_encrypt(&encryptor, &ring, &b, &mut rng);

        let product = evaluator.mul(&ct_a, &ct_b).unwrap();
        assert_eq!(product.degree(), 2);

        let expected = Plaintext::new(ring.mul(a.value(), b.value()).unwrap());
        assert_noise_bounded(&decryptor.decrypt(&product).unwrap(), &expected, bound, MODULUS);
    }
}

#[test]
fn real_relinearization_matches_the_true_product_across_many_random_pairs() {
    let params = params();
    let ring = params.ring().clone();
    let keygen = KeyGenerator::new(params.clone());
    let mut rng = ChaCha20Rng::from_seed([104u8; 32]);
    let sk = SecretKey::new(sample_ternary(&ring, &mut rng));
    let qp = qp_ring();
    let masks: Vec<Poly> = (0..1).map(|_| sample_uniform(&qp, &mut rng)).collect();
    let errors: Vec<Poly> = (0..1).map(|_| sample_error(&qp, &mut rng)).collect();
    let relin_key = keygen.generate_hybrid_relinearization_key(&sk, &p_moduli(), &masks, &errors).unwrap();
    let encryptor = Encryptor::with_secret_key(params.clone(), sk.clone());
    let decryptor = Decryptor::new(params.clone(), sk);
    let evaluator = Evaluator::new(params.clone());

    let coeff_bound = 8;
    let bound = mul_noise_bound(DEGREE, coeff_bound - 1, fresh_secret_key_noise_bound()) + 4 * fresh_secret_key_noise_bound();

    for _ in 0..TRIALS {
        let a = random_plaintext(&mut rng, coeff_bound);
        let b = random_plaintext(&mut rng, coeff_bound);
        let ct_a = sk_encrypt(&encryptor, &ring, &a, &mut rng);
        let ct_b = sk_encrypt(&encryptor, &ring, &b, &mut rng);

        let product = evaluator.mul(&ct_a, &ct_b).unwrap();
        let relinearized = evaluator.relinearize(&product, &relin_key).unwrap();
        assert_eq!(relinearized.degree(), 1);

        let expected = Plaintext::new(ring.mul(a.value(), b.value()).unwrap());
        assert_noise_bounded(&decryptor.decrypt(&relinearized).unwrap(), &expected, bound, MODULUS);
    }
}

#[test]
fn real_galois_automorphism_matches_plaintext_sigma_across_many_random_messages() {
    let params = params();
    let ring = params.ring().clone();
    let keygen = KeyGenerator::new(params.clone());
    let mut rng = ChaCha20Rng::from_seed([105u8; 32]);
    let sk = SecretKey::new(sample_ternary(&ring, &mut rng));
    let element = 3;
    let qp = qp_ring();
    let masks: Vec<Poly> = (0..1).map(|_| sample_uniform(&qp, &mut rng)).collect();
    let errors: Vec<Poly> = (0..1).map(|_| sample_error(&qp, &mut rng)).collect();
    let galois_key = keygen.generate_hybrid_galois_key(element, &sk, &p_moduli(), &masks, &errors).unwrap();
    let encryptor = Encryptor::with_secret_key(params.clone(), sk.clone());
    let decryptor = Decryptor::new(params.clone(), sk);
    let evaluator = Evaluator::new(params.clone());

    let bound = fresh_secret_key_noise_bound() + 4 * fresh_secret_key_noise_bound();

    for _ in 0..TRIALS {
        let pt = random_plaintext(&mut rng, MODULUS);
        let ct = sk_encrypt(&encryptor, &ring, &pt, &mut rng);

        let rotated = evaluator.apply_galois_automorphism(&ct, &galois_key).unwrap();
        assert_eq!(rotated.degree(), 1);

        let expected = Plaintext::new(ring.apply_automorphism(pt.value(), element).unwrap());
        assert_noise_bounded(&decryptor.decrypt(&rotated).unwrap(), &expected, bound, MODULUS);
    }
}

#[test]
fn repack_matches_coefficient_packing_across_many_random_message_sets() {
    let params = params();
    let ring = params.ring().clone();
    let mut rng = ChaCha20Rng::from_seed([106u8; 32]);
    let sk = SecretKey::new(sample_ternary(&ring, &mut rng));
    let encryptor = Encryptor::with_secret_key(params.clone(), sk.clone());
    let decryptor = Decryptor::new(params.clone(), sk);

    let bound = DEGREE as u64 * fresh_secret_key_noise_bound();

    for _ in 0..TRIALS {
        let messages: Vec<u64> = (0..DEGREE).map(|_| rng.next_u64() % MODULUS).collect();
        let cts: Vec<Ciphertext> = messages
            .iter()
            .map(|&m| {
                let mut c = vec![0u64; DEGREE];
                c[0] = m;
                let single = Plaintext::new(Poly::from_coeffs(vec![c]).unwrap());
                sk_encrypt(&encryptor, &ring, &single, &mut rng)
            })
            .collect();

        let repacked = repack(&cts, &ring).unwrap();
        let expected = Plaintext::new(Poly::from_coeffs(vec![messages.clone()]).unwrap());
        assert_noise_bounded(&decryptor.decrypt(&repacked).unwrap(), &expected, bound, MODULUS);
    }
}

#[test]
fn rgsw_external_product_matches_schoolbook_reference_across_many_random_pairs() {
    let params = params();
    let ring = params.ring().clone();
    let mut rng = ChaCha20Rng::from_seed([107u8; 32]);
    let sk = SecretKey::new(sample_ternary(&ring, &mut rng));
    let encryptor = Encryptor::with_secret_key(params.clone(), sk.clone());
    let decryptor = Decryptor::new(params.clone(), sk.clone());
    let key = RgswKey::new(sk);
    let decomposition_params = GadgetDecompositionParams::new(8, 3).unwrap();

    let coeff_bound = 4;
    let bound = external_product_noise_bound(
        DEGREE,
        coeff_bound - 1,
        fresh_secret_key_noise_bound(),
        decomposition_params.levels(),
        decomposition_params.base_log(),
    );

    for _ in 0..TRIALS {
        let pt = random_plaintext(&mut rng, coeff_bound);
        let multiplier = random_poly(&mut rng, coeff_bound);
        let total = decomposition_params.levels();
        let m_masks = zero_encryptions(&encryptor, &ring, total, &mut rng);
        let sm_masks = zero_encryptions(&encryptor, &ring, total, &mut rng);
        let rgsw = RgswCiphertext::encrypt(&params, &multiplier, &key, decomposition_params, &m_masks, &sm_masks).unwrap();
        let ct = sk_encrypt(&encryptor, &ring, &pt, &mut rng);

        let product_ct = external_product(&params, decomposition_params, &ct, &rgsw).unwrap();
        let product_pt = decryptor.decrypt(&product_ct).unwrap();
        let expected = ring.mul(pt.value(), &multiplier).unwrap();

        assert_noise_bounded(&product_pt, &Plaintext::new(expected), bound, MODULUS);
    }
}
