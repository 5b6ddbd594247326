use phantom_fhe::lattice::noise::{external_product_noise_bound, fresh_secret_key_noise_bound};
use phantom_fhe::lattice::rgsw::ciphertext::RgswCiphertext;
use phantom_fhe::lattice::rgsw::decomposition::{GadgetDecomposition, GadgetDecompositionParams};
use phantom_fhe::lattice::rgsw::external_product::external_product;
use phantom_fhe::lattice::rgsw::key::RgswKey;
use phantom_fhe::lattice::rlwe::ciphertext::{Ciphertext, Plaintext};
use phantom_fhe::lattice::rlwe::decryptor::Decryptor;
use phantom_fhe::lattice::rlwe::encryptor::Encryptor;
use phantom_fhe::lattice::rlwe::keys::SecretKey;
use phantom_fhe::lattice::rlwe::params::RlweParams;
use phantom_fhe::ring::poly::{Degree, Modulus, Poly, Ring};
use rand_chacha::ChaCha20Rng;
use rand_core::{RngCore, SeedableRng};

const DEGREE: usize = 8;
const MODULUS_0: u64 = 1_000_000_000_000_037;
const MODULUS_1: u64 = 1_000_000_000_000_091;

fn params() -> RlweParams {
    let ring = Ring::new(
        Degree::new(DEGREE).unwrap(),
        vec![Modulus::new(MODULUS_0).unwrap(), Modulus::new(MODULUS_1).unwrap()],
    )
    .unwrap();
    RlweParams::new(ring)
}

fn from_signed(values: &[i64], ring: &Ring) -> Poly {
    let rows = ring
        .moduli()
        .iter()
        .map(|m| {
            let q = m.value() as i64;
            values.iter().map(|&v| v.rem_euclid(q) as u64).collect()
        })
        .collect();
    Poly::from_coeffs(rows).unwrap()
}

fn sample_ternary(ring: &Ring, rng: &mut ChaCha20Rng) -> Poly {
    let values: Vec<i64> = (0..ring.degree()).map(|_| (rng.next_u64() % 3) as i64 - 1).collect();
    from_signed(&values, ring)
}

fn sample_error(ring: &Ring, rng: &mut ChaCha20Rng) -> Poly {
    let values: Vec<i64> =
        (0..ring.degree()).map(|_| (rng.next_u64() & 0xff).count_ones() as i64 - 4).collect();
    from_signed(&values, ring)
}

fn sample_uniform(ring: &Ring, rng: &mut ChaCha20Rng) -> Poly {
    let n = ring.degree();
    let rows = ring.moduli().iter().map(|m| (0..n).map(|_| rng.next_u64() % m.value()).collect()).collect();
    Poly::from_coeffs(rows).unwrap()
}

fn sk_encrypt(encryptor: &Encryptor, ring: &Ring, pt: &Plaintext, rng: &mut ChaCha20Rng) -> Ciphertext {
    let mask = sample_uniform(ring, rng);
    let e = sample_error(ring, rng);
    encryptor.encrypt(pt, &mask, &e, &e).unwrap()
}

fn zero_encryptions(encryptor: &Encryptor, ring: &Ring, count: usize, rng: &mut ChaCha20Rng) -> Vec<Ciphertext> {
    let zero = Plaintext::new(ring.zero());
    (0..count).map(|_| sk_encrypt(encryptor, ring, &zero, rng)).collect()
}

fn plaintext(values: &[u64]) -> Poly {
    let mut coeffs = values.to_vec();
    coeffs.resize(DEGREE, 0);
    Poly::from_coeffs(vec![coeffs; 2]).unwrap()
}

fn assert_noise_bounded(actual: &Plaintext, expected: &Plaintext, bound: u64, moduli: &[u64]) {
    for (j, &modulus) in moduli.iter().enumerate() {
        for (&a, &e) in actual.value().coeffs()[j].iter().zip(expected.value().coeffs()[j].iter()) {
            let diff = (a + modulus - e) % modulus;
            let centered = diff.min(modulus - diff);
            assert!(centered <= bound, "component {j}: noise {centered} exceeds bound {bound}");
        }
    }
}

#[test]
fn gadget_decomposition_recomposes_a_multi_modulus_polynomial() {
    let params = params();
    let poly = Poly::from_coeffs(vec![
        vec![0, 1, 12345, MODULUS_0 - 1, 999999999999999, 42, 7, 8],
        vec![0, 1, 54321, MODULUS_1 - 1, 111111111111111, 24, 6, 9],
    ])
    .unwrap();
    let decomposition_params = GadgetDecompositionParams::new(8, 7).unwrap();

    let decomposition = GadgetDecomposition::decompose(&poly, decomposition_params, params.ring().moduli()).unwrap();
    let recomposed = decomposition.recompose(params.ring().moduli()).unwrap();

    assert_eq!(recomposed, poly);
}

#[test]
fn external_product_multiplies_underlying_plaintexts_on_a_multi_modulus_ring() {
    let params = params();
    let ring = params.ring().clone();
    let mut rng = ChaCha20Rng::from_seed([31u8; 32]);
    let sk = SecretKey::new(sample_ternary(&ring, &mut rng));
    let encryptor = Encryptor::with_secret_key(params.clone(), sk.clone());
    let decryptor = Decryptor::new(params.clone(), sk.clone());
    let key = RgswKey::new(sk);
    let decomposition_params = GadgetDecompositionParams::new(8, 7).unwrap();

    let pt = Plaintext::new(plaintext(&[1, 2, 0, 0]));
    let multiplier = plaintext(&[3, 1, 0, 0]);
    let total = ring.moduli().len() * decomposition_params.levels();
    let m_masks = zero_encryptions(&encryptor, &ring, total, &mut rng);
    let sm_masks = zero_encryptions(&encryptor, &ring, total, &mut rng);
    let rgsw = RgswCiphertext::encrypt(&params, &multiplier, &key, decomposition_params, &m_masks, &sm_masks).unwrap();
    let ct = sk_encrypt(&encryptor, &ring, &pt, &mut rng);

    let product_ct = external_product(&params, decomposition_params, &ct, &rgsw).unwrap();
    let product_pt = decryptor.decrypt(&product_ct).unwrap();
    let expected = ring.mul(pt.value(), &multiplier).unwrap();

    let bound = external_product_noise_bound(
        DEGREE,
        3,
        fresh_secret_key_noise_bound(),
        ring.moduli().len() * decomposition_params.levels(),
        decomposition_params.base_log(),
    );
    assert_noise_bounded(&product_pt, &Plaintext::new(expected), bound, &[MODULUS_0, MODULUS_1]);
}
