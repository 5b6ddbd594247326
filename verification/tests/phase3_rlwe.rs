use phantom_fhe::lattice::noise::{fresh_public_key_noise_bound, fresh_secret_key_noise_bound, mul_noise_bound};
use phantom_fhe::lattice::rlwe::ciphertext::{Ciphertext, Plaintext};
use phantom_fhe::lattice::rlwe::decryptor::Decryptor;
use phantom_fhe::lattice::rlwe::encryptor::Encryptor;
use phantom_fhe::lattice::rlwe::evaluator::Evaluator;
use phantom_fhe::lattice::rlwe::keygen::KeyGenerator;
use phantom_fhe::lattice::rlwe::keys::{PublicKey, SecretKey};
use phantom_fhe::lattice::rlwe::keyswitch::key_switch_identity;
use phantom_fhe::lattice::rlwe::params::RlweParams;
use phantom_fhe::lattice::rlwe::repacking::repack;
use phantom_fhe::ring::poly::{Degree, Modulus, Poly, Ring};
use rand_chacha::ChaCha20Rng;
use rand_core::{RngCore, SeedableRng};

const P_MODULI: [u64; 2] = [4_000_063, 4_000_067];
const DEGREE: usize = 8;
const MODULUS: u64 = 4_000_081;

fn params() -> RlweParams {
    let ring = Ring::new(Degree::new(DEGREE).unwrap(), vec![Modulus::new(MODULUS).unwrap()]).unwrap();
    RlweParams::new(ring)
}

fn from_signed(values: &[i64], ring: &Ring) -> Poly {
    let rows = ring
        .moduli()
        .iter()
        .map(|m| {
            let q = m.value() as i64;
            values.iter().map(|&v| v.rem_euclid(q) as u64).collect()
        })
        .collect();
    Poly::from_coeffs(rows).unwrap()
}

fn sample_ternary(ring: &Ring, rng: &mut ChaCha20Rng) -> Poly {
    let values: Vec<i64> = (0..ring.degree()).map(|_| (rng.next_u64() % 3) as i64 - 1).collect();
    from_signed(&values, ring)
}

fn sample_error(ring: &Ring, rng: &mut ChaCha20Rng) -> Poly {
    let values: Vec<i64> =
        (0..ring.degree()).map(|_| (rng.next_u64() & 0xff).count_ones() as i64 - 4).collect();
    from_signed(&values, ring)
}

fn sample_uniform(ring: &Ring, rng: &mut ChaCha20Rng) -> Poly {
    let n = ring.degree();
    let rows = ring.moduli().iter().map(|m| (0..n).map(|_| rng.next_u64() % m.value()).collect()).collect();
    Poly::from_coeffs(rows).unwrap()
}

fn qp_ring() -> Ring {
    let moduli: Vec<Modulus> = std::iter::once(MODULUS)
        .chain(P_MODULI.iter().copied())
        .map(|q| Modulus::new(q).unwrap())
        .collect();
    Ring::new(Degree::new(DEGREE).unwrap(), moduli).unwrap()
}

fn p_moduli() -> Vec<Modulus> {
    P_MODULI.iter().map(|&p| Modulus::new(p).unwrap()).collect()
}

fn plaintext(values: &[u64]) -> Plaintext {
    let mut coeffs = values.to_vec();
    coeffs.resize(DEGREE, 0);
    Plaintext::new(Poly::from_coeffs(vec![coeffs]).unwrap())
}

fn key_material() -> (RlweParams, SecretKey, PublicKey) {
    let params = params();
    let ring = params.ring().clone();
    let keygen = KeyGenerator::new(params.clone());
    let mut rng = ChaCha20Rng::from_seed([1u8; 32]);
    let sk = SecretKey::new(sample_ternary(&ring, &mut rng));
    let a = sample_uniform(&ring, &mut rng);
    let e = sample_error(&ring, &mut rng);
    let pk = keygen.generate_public_key(&sk, &a, &e).unwrap();
    (params, sk, pk)
}

fn sk_encrypt(encryptor: &Encryptor, ring: &Ring, pt: &Plaintext, rng: &mut ChaCha20Rng) -> Ciphertext {
    let mask = sample_uniform(ring, rng);
    let e = sample_error(ring, rng);
    encryptor.encrypt(pt, &mask, &e, &e).unwrap()
}

fn pk_encrypt(encryptor: &Encryptor, ring: &Ring, pt: &Plaintext, rng: &mut ChaCha20Rng) -> Ciphertext {
    let u = sample_ternary(ring, rng);
    let e0 = sample_error(ring, rng);
    let e1 = sample_error(ring, rng);
    encryptor.encrypt(pt, &u, &e0, &e1).unwrap()
}

fn assert_noise_bounded(actual: &Plaintext, expected: &Plaintext, bound: u64, modulus: u64) {
    for (&a, &e) in actual.value().coeffs()[0].iter().zip(expected.value().coeffs()[0].iter()) {
        let diff = (a + modulus - e) % modulus;
        let centered = diff.min(modulus - diff);
        assert!(centered <= bound, "noise {centered} exceeds bound {bound} (actual={a}, expected={e})");
    }
}

#[test]
fn secret_key_encrypt_decrypt_round_trip() {
    let (params, sk, _) = key_material();
    let ring = params.ring().clone();
    let mut rng = ChaCha20Rng::from_seed([2u8; 32]);
    let pt = plaintext(&[1, 2, 3, 4]);

    let encryptor = Encryptor::with_secret_key(params.clone(), sk.clone());
    let decryptor = Decryptor::new(params, sk);
    let ct = sk_encrypt(&encryptor, &ring, &pt, &mut rng);
    let out = decryptor.decrypt(&ct).unwrap();

    assert_noise_bounded(&out, &pt, fresh_secret_key_noise_bound(), MODULUS);
}

#[test]
fn public_key_encrypt_decrypt_round_trip() {
    let (params, sk, pk) = key_material();
    let ring = params.ring().clone();
    let mut rng = ChaCha20Rng::from_seed([3u8; 32]);
    let pt = plaintext(&[4, 3, 2, 1]);

    let encryptor = Encryptor::with_public_key(params.clone(), pk);
    let decryptor = Decryptor::new(params, sk);
    let ct = pk_encrypt(&encryptor, &ring, &pt, &mut rng);
    let out = decryptor.decrypt(&ct).unwrap();

    assert_noise_bounded(&out, &pt, fresh_public_key_noise_bound(DEGREE), MODULUS);
}

#[test]
fn homomorphic_add_sub_preserve_plaintext_semantics() {
    let (params, sk, pk) = key_material();
    let ring = params.ring().clone();
    let mut rng = ChaCha20Rng::from_seed([4u8; 32]);
    let encryptor = Encryptor::with_public_key(params.clone(), pk);
    let decryptor = Decryptor::new(params.clone(), sk);
    let evaluator = Evaluator::new(params);

    let a = plaintext(&[1, 2, 3, 4]);
    let b = plaintext(&[4, 3, 2, 1]);
    let ct_a = pk_encrypt(&encryptor, &ring, &a, &mut rng);
    let ct_b = pk_encrypt(&encryptor, &ring, &b, &mut rng);
    let combined_bound = 2 * fresh_public_key_noise_bound(DEGREE);

    let sum = evaluator.add(&ct_a, &ct_b).unwrap();
    assert_noise_bounded(&decryptor.decrypt(&sum).unwrap(), &plaintext(&[5, 5, 5, 5]), combined_bound, MODULUS);

    let diff = evaluator.sub(&ct_a, &ct_b).unwrap();
    assert_noise_bounded(
        &decryptor.decrypt(&diff).unwrap(),
        &plaintext(&[MODULUS - 3, MODULUS - 1, 1, 3]),
        combined_bound,
        MODULUS,
    );
}

#[test]
fn multiplication_outputs_degree_two_and_decrypts() {
    let (params, sk, pk) = key_material();
    let ring = params.ring().clone();
    let mut rng = ChaCha20Rng::from_seed([5u8; 32]);
    let encryptor = Encryptor::with_public_key(params.clone(), pk);
    let decryptor = Decryptor::new(params.clone(), sk);
    let evaluator = Evaluator::new(params.clone());

    let a = plaintext(&[1, 1, 0, 0]);
    let b = plaintext(&[1, 2, 0, 0]);
    let ct_a = pk_encrypt(&encryptor, &ring, &a, &mut rng);
    let ct_b = pk_encrypt(&encryptor, &ring, &b, &mut rng);

    let product = evaluator.mul(&ct_a, &ct_b).unwrap();

    assert_eq!(product.degree(), 2);
    let expected = Plaintext::new(ring.mul(a.value(), b.value()).unwrap());
    let bound = mul_noise_bound(DEGREE, 2, fresh_public_key_noise_bound(DEGREE));
    assert_noise_bounded(&decryptor.decrypt(&product).unwrap(), &expected, bound, MODULUS);
}

#[test]
fn real_relinearization_reduces_degree_and_preserves_the_product() {
    let (params, sk, _) = key_material();
    let ring = params.ring().clone();
    let keygen = KeyGenerator::new(params.clone());
    let mut rng = ChaCha20Rng::from_seed([8u8; 32]);

    let qp = qp_ring();
    let masks: Vec<Poly> = (0..ring.moduli().len()).map(|_| sample_uniform(&qp, &mut rng)).collect();
    let errors: Vec<Poly> = (0..ring.moduli().len()).map(|_| sample_error(&qp, &mut rng)).collect();
    let relin_key = keygen.generate_hybrid_relinearization_key(&sk, &p_moduli(), &masks, &errors).unwrap();

    let encryptor = Encryptor::with_secret_key(params.clone(), sk.clone());
    let decryptor = Decryptor::new(params.clone(), sk);
    let evaluator = Evaluator::new(params.clone());

    let a = plaintext(&[1, 1, 0, 0]);
    let b = plaintext(&[1, 2, 0, 0]);
    let ct_a = sk_encrypt(&encryptor, &ring, &a, &mut rng);
    let ct_b = sk_encrypt(&encryptor, &ring, &b, &mut rng);

    let product = evaluator.mul(&ct_a, &ct_b).unwrap();
    assert_eq!(product.degree(), 2);

    let relinearized = evaluator.relinearize(&product, &relin_key).unwrap();
    assert_eq!(relinearized.degree(), 1);

    let expected = Plaintext::new(ring.mul(a.value(), b.value()).unwrap());
    let bound = mul_noise_bound(DEGREE, 2, fresh_secret_key_noise_bound()) + 4 * fresh_secret_key_noise_bound();
    assert_noise_bounded(&decryptor.decrypt(&relinearized).unwrap(), &expected, bound, MODULUS);
}

#[test]
fn key_switch_and_relinearization_preserve_decryptability() {
    let (params, sk, pk) = key_material();
    let ring = params.ring().clone();
    let keygen = KeyGenerator::new(params.clone());
    let relin_key = keygen.generate_relinearization_key(&sk);
    let mut rng = ChaCha20Rng::from_seed([6u8; 32]);
    let encryptor = Encryptor::with_public_key(params.clone(), pk);
    let decryptor = Decryptor::new(params.clone(), sk);
    let evaluator = Evaluator::new(params);

    let pt = plaintext(&[1, 2, 3, 4]);
    let ct = pk_encrypt(&encryptor, &ring, &pt, &mut rng);
    let bound = fresh_public_key_noise_bound(DEGREE);

    let switched = key_switch_identity(&ct).unwrap();
    assert_noise_bounded(&decryptor.decrypt(&switched).unwrap(), &pt, bound, MODULUS);

    let relinearized = evaluator.relinearize(&switched, &relin_key).unwrap();
    assert_noise_bounded(&decryptor.decrypt(&relinearized).unwrap(), &pt, bound, MODULUS);
}

#[test]
fn real_galois_automorphism_matches_plaintext_sigma_and_preserves_decryptability() {
    let (params, sk, _) = key_material();
    let ring = params.ring().clone();
    let keygen = KeyGenerator::new(params.clone());
    let mut rng = ChaCha20Rng::from_seed([9u8; 32]);

    let element = 3;
    let qp = qp_ring();
    let masks: Vec<Poly> = (0..ring.moduli().len()).map(|_| sample_uniform(&qp, &mut rng)).collect();
    let errors: Vec<Poly> = (0..ring.moduli().len()).map(|_| sample_error(&qp, &mut rng)).collect();
    let galois_key = keygen.generate_hybrid_galois_key(element, &sk, &p_moduli(), &masks, &errors).unwrap();

    let encryptor = Encryptor::with_secret_key(params.clone(), sk.clone());
    let decryptor = Decryptor::new(params.clone(), sk);
    let evaluator = Evaluator::new(params.clone());

    let pt = plaintext(&[1, 2, 3, 4]);
    let ct = sk_encrypt(&encryptor, &ring, &pt, &mut rng);

    let rotated = evaluator.apply_galois_automorphism(&ct, &galois_key).unwrap();
    assert_eq!(rotated.degree(), 1);

    let expected = Plaintext::new(ring.apply_automorphism(pt.value(), element).unwrap());
    let bound = fresh_secret_key_noise_bound() + 4 * fresh_secret_key_noise_bound();
    assert_noise_bounded(&decryptor.decrypt(&rotated).unwrap(), &expected, bound, MODULUS);
}

#[test]
fn repack_combines_scalar_ciphertexts_into_one_coefficient_packed_ciphertext() {
    let (params, sk, _) = key_material();
    let ring = params.ring().clone();
    let mut rng = ChaCha20Rng::from_seed([10u8; 32]);
    let encryptor = Encryptor::with_secret_key(params.clone(), sk.clone());
    let decryptor = Decryptor::new(params.clone(), sk);

    let messages = [7u64, 11, 13, 17];
    let cts: Vec<Ciphertext> =
        messages.iter().map(|&m| sk_encrypt(&encryptor, &ring, &plaintext(&[m]), &mut rng)).collect();

    let repacked = repack(&cts, &ring).unwrap();
    assert_eq!(repacked.degree(), 1);

    let expected = plaintext(&messages);
    let bound = messages.len() as u64 * fresh_secret_key_noise_bound();
    assert_noise_bounded(&decryptor.decrypt(&repacked).unwrap(), &expected, bound, MODULUS);
}

#[test]
fn repack_rejects_empty_input_and_too_many_ciphertexts() {
    let (params, sk, _) = key_material();
    let ring = params.ring().clone();
    let mut rng = ChaCha20Rng::from_seed([11u8; 32]);
    let encryptor = Encryptor::with_secret_key(params, sk);

    assert!(repack(&[], &ring).is_err());

    let ct = sk_encrypt(&encryptor, &ring, &plaintext(&[1]), &mut rng);
    let too_many: Vec<Ciphertext> = (0..=DEGREE).map(|_| ct.clone()).collect();
    assert!(repack(&too_many, &ring).is_err());
}

#[test]
fn rotation_changes_coefficients_without_changing_shape() {
    let ring = Ring::new(Degree::new(4).unwrap(), vec![Modulus::new(17).unwrap()]).unwrap();
    let params = RlweParams::new(ring);
    let evaluator = Evaluator::new(params);
    let ct = Ciphertext::new(vec![
        Poly::from_coeffs(vec![vec![1, 2, 3, 4]]).unwrap(),
        Poly::from_coeffs(vec![vec![5, 6, 7, 8]]).unwrap(),
    ]);

    let rotated = evaluator.rotate_coefficients(&ct, 1).unwrap();

    assert_eq!(rotated.degree(), ct.degree());
    assert_eq!(rotated.value()[0].coeffs()[0], vec![2, 3, 4, 1]);
    assert_eq!(rotated.value()[1].coeffs()[0], vec![6, 7, 8, 5]);
}

#[test]
fn galois_automorphism_by_three_matches_substitution() {
    // a(X) = 1 + 2X + 3X^2 + 4X^3 in Z_17[X]/(X^4 + 1); a(X^3) =
    // 1 + 2X^3 + 3X^6 + 4X^9 = 1 + 2X^3 - 3X^2 + 4X.
    let ring = Ring::new(Degree::new(4).unwrap(), vec![Modulus::new(17).unwrap()]).unwrap();
    let a = Poly::from_coeffs(vec![vec![1, 2, 3, 4]]).unwrap();
    let image = ring.apply_automorphism(&a, 3).unwrap();
    assert_eq!(image.coeffs()[0], vec![1, 4, 14, 2]);
    assert!(ring.apply_automorphism(&a, 2).is_err());
}

#[test]
fn relinearize_with_a_real_key_refuses_a_degree_one_ciphertext() {
    let (params, sk, _) = key_material();
    let ring = params.ring().clone();
    let keygen = KeyGenerator::new(params.clone());
    let mut rng = ChaCha20Rng::from_seed([12u8; 32]);
    let qp = qp_ring();
    let masks: Vec<Poly> = (0..ring.moduli().len()).map(|_| sample_uniform(&qp, &mut rng)).collect();
    let errors: Vec<Poly> = (0..ring.moduli().len()).map(|_| sample_error(&qp, &mut rng)).collect();
    let relin_key = keygen.generate_hybrid_relinearization_key(&sk, &p_moduli(), &masks, &errors).unwrap();
    let encryptor = Encryptor::with_secret_key(params.clone(), sk);
    let ct = sk_encrypt(&encryptor, &ring, &plaintext(&[1]), &mut rng);
    assert!(Evaluator::new(params).relinearize(&ct, &relin_key).is_err());
}
