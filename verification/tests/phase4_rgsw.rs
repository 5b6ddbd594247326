use phantom_fhe::lattice::noise::{external_product_noise_bound, fresh_secret_key_noise_bound};
use phantom_fhe::lattice::rgsw::ciphertext::RgswCiphertext;
use phantom_fhe::lattice::rgsw::decomposition::{GadgetDecomposition, GadgetDecompositionParams};
use phantom_fhe::lattice::rgsw::external_product::external_product;
use phantom_fhe::lattice::rgsw::key::RgswKey;
use phantom_fhe::lattice::rgsw::params::RgswParams;
use phantom_fhe::lattice::rlwe::ciphertext::{Ciphertext, Plaintext};
use phantom_fhe::lattice::rlwe::decryptor::Decryptor;
use phantom_fhe::lattice::rlwe::encryptor::Encryptor;
use phantom_fhe::lattice::rlwe::keys::SecretKey;
use phantom_fhe::lattice::rlwe::params::RlweParams;
use phantom_fhe::ring::poly::{Degree, Modulus, Poly, Ring};
use rand_chacha::ChaCha20Rng;
use rand_core::{RngCore, SeedableRng};

fn params() -> RlweParams {
    let ring = Ring::new(Degree::new(4).unwrap(), vec![Modulus::new(97).unwrap()]).unwrap();
    RlweParams::new(ring)
}

const NOISY_DEGREE: usize = 8;
const NOISY_MODULUS: u64 = 4_000_081;

fn noisy_params() -> RlweParams {
    let ring = Ring::new(Degree::new(NOISY_DEGREE).unwrap(), vec![Modulus::new(NOISY_MODULUS).unwrap()]).unwrap();
    RlweParams::new(ring)
}

fn from_signed(values: &[i64], ring: &Ring) -> Poly {
    let rows = ring
        .moduli()
        .iter()
        .map(|m| {
            let q = m.value() as i64;
            values.iter().map(|&v| v.rem_euclid(q) as u64).collect()
        })
        .collect();
    Poly::from_coeffs(rows).unwrap()
}

fn sample_ternary(ring: &Ring, rng: &mut ChaCha20Rng) -> Poly {
    let values: Vec<i64> = (0..ring.degree()).map(|_| (rng.next_u64() % 3) as i64 - 1).collect();
    from_signed(&values, ring)
}

fn sample_error(ring: &Ring, rng: &mut ChaCha20Rng) -> Poly {
    let values: Vec<i64> =
        (0..ring.degree()).map(|_| (rng.next_u64() & 0xff).count_ones() as i64 - 4).collect();
    from_signed(&values, ring)
}

fn sample_uniform(ring: &Ring, rng: &mut ChaCha20Rng) -> Poly {
    let n = ring.degree();
    let rows = ring.moduli().iter().map(|m| (0..n).map(|_| rng.next_u64() % m.value()).collect()).collect();
    Poly::from_coeffs(rows).unwrap()
}

fn sk_encrypt(encryptor: &Encryptor, ring: &Ring, pt: &Plaintext, rng: &mut ChaCha20Rng) -> Ciphertext {
    let mask = sample_uniform(ring, rng);
    let e = sample_error(ring, rng);
    encryptor.encrypt(pt, &mask, &e, &e).unwrap()
}

fn zero_encryptions(encryptor: &Encryptor, ring: &Ring, count: usize, rng: &mut ChaCha20Rng) -> Vec<Ciphertext> {
    let zero = Plaintext::new(ring.zero());
    (0..count).map(|_| sk_encrypt(encryptor, ring, &zero, rng)).collect()
}

fn noisy_key_material() -> (RlweParams, SecretKey) {
    let params = noisy_params();
    let mut rng = ChaCha20Rng::from_seed([11u8; 32]);
    let sk = SecretKey::new(sample_ternary(params.ring(), &mut rng));
    (params, sk)
}

fn noisy_plaintext(values: &[u64]) -> Poly {
    let mut coeffs = values.to_vec();
    coeffs.resize(NOISY_DEGREE, 0);
    Poly::from_coeffs(vec![coeffs]).unwrap()
}

fn assert_noise_bounded(actual: &Plaintext, expected: &Plaintext, bound: u64, modulus: u64) {
    for (&a, &e) in actual.value().coeffs()[0].iter().zip(expected.value().coeffs()[0].iter()) {
        let diff = (a + modulus - e) % modulus;
        let centered = diff.min(modulus - diff);
        assert!(centered <= bound, "noise {centered} exceeds bound {bound} (actual={a}, expected={e})");
    }
}

fn rgsw_encrypt(
    params: &RlweParams,
    message: &Poly,
    sk: &SecretKey,
    decomposition_params: GadgetDecompositionParams,
    rng: &mut ChaCha20Rng,
) -> RgswCiphertext {
    let ring = params.ring();
    let encryptor = Encryptor::with_secret_key(params.clone(), sk.clone());
    let total = ring.moduli().len() * decomposition_params.levels();
    let m_masks = zero_encryptions(&encryptor, ring, total, rng);
    let sm_masks = zero_encryptions(&encryptor, ring, total, rng);
    let key = RgswKey::new(sk.clone());
    RgswCiphertext::encrypt(params, message, &key, decomposition_params, &m_masks, &sm_masks).unwrap()
}

#[test]
fn rgsw_params_validate_decomposition_settings() {
    let params = params();

    assert!(RgswParams::new(params.clone(), 4, 3).is_ok());
    assert!(RgswParams::new(params.clone(), 0, 3).is_err());
    assert!(RgswParams::new(params, 4, 0).is_err());
}

#[test]
fn gadget_decomposition_recomposes_small_polynomial() {
    let params = params();
    let poly = Poly::from_coeffs(vec![vec![0, 1, 17, 96]]).unwrap();
    let decomposition_params = GadgetDecompositionParams::new(2, 4).unwrap();

    let decomposition = GadgetDecomposition::decompose(&poly, decomposition_params, params.ring().moduli()).unwrap();
    let recomposed = decomposition.recompose(params.ring().moduli()).unwrap();

    assert_eq!(recomposed, poly);
}

#[test]
fn rgsw_encrypt_produces_a_two_block_gadget_matrix_of_the_right_shape() {
    let (params, sk) = noisy_key_material();
    let mut rng = ChaCha20Rng::from_seed([13u8; 32]);
    let message = noisy_plaintext(&[1, 0, 0, 0]);
    let decomposition_params = GadgetDecompositionParams::new(8, 3).unwrap();

    let ct = rgsw_encrypt(&params, &message, &sk, decomposition_params, &mut rng);

    assert_eq!(ct.rows()[0].len(), decomposition_params.levels());
    assert_eq!(ct.rows()[1].len(), decomposition_params.levels());
    for row in ct.rows().iter().flatten() {
        assert_eq!(row.value().len(), 2);
    }
}

#[test]
fn external_product_multiplies_underlying_plaintexts() {
    let (params, sk) = noisy_key_material();
    let ring = params.ring().clone();
    let mut rng = ChaCha20Rng::from_seed([12u8; 32]);
    let encryptor = Encryptor::with_secret_key(params.clone(), sk.clone());
    let decryptor = Decryptor::new(params.clone(), sk.clone());
    let decomposition_params = GadgetDecompositionParams::new(8, 3).unwrap();

    let pt = Plaintext::new(noisy_plaintext(&[1, 2, 0, 0]));
    let multiplier = noisy_plaintext(&[3, 1, 0, 0]);
    let rgsw = rgsw_encrypt(&params, &multiplier, &sk, decomposition_params, &mut rng);
    let ct = sk_encrypt(&encryptor, &ring, &pt, &mut rng);

    let product_ct = external_product(&params, decomposition_params, &ct, &rgsw).unwrap();
    let product_pt = decryptor.decrypt(&product_ct).unwrap();
    let expected = ring.mul(pt.value(), &multiplier).unwrap();

    let bound = external_product_noise_bound(
        NOISY_DEGREE,
        3,
        fresh_secret_key_noise_bound(),
        decomposition_params.levels(),
        decomposition_params.base_log(),
    );
    assert_noise_bounded(&product_pt, &Plaintext::new(expected), bound, NOISY_MODULUS);
}

#[test]
fn gadget_decomposition_digits_are_below_the_base() {
    let params = params();
    let poly = Poly::from_coeffs(vec![vec![0, 1, 17, 96]]).unwrap();
    let decomposition_params = GadgetDecompositionParams::new(2, 4).unwrap();
    let decomposition = GadgetDecomposition::decompose(&poly, decomposition_params, params.ring().moduli()).unwrap();
    for digit in decomposition.digits() {
        for &c in &digit.coeffs()[0] {
            assert!(c < 4);
        }
    }
}

#[test]
fn rgsw_encrypt_refuses_the_wrong_number_of_zero_encryptions() {
    let (params, sk) = noisy_key_material();
    let mut rng = ChaCha20Rng::from_seed([14u8; 32]);
    let ring = params.ring().clone();
    let encryptor = Encryptor::with_secret_key(params.clone(), sk.clone());
    let decomposition_params = GadgetDecompositionParams::new(8, 3).unwrap();
    let too_few = zero_encryptions(&encryptor, &ring, 2, &mut rng);
    let enough = zero_encryptions(&encryptor, &ring, 3, &mut rng);
    let key = RgswKey::new(sk);
    let message = noisy_plaintext(&[1]);
    assert!(RgswCiphertext::encrypt(&params, &message, &key, decomposition_params, &too_few, &enough).is_err());
}
