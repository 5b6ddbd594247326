use phantom_fhe::lattice::rlwe::ciphertext::{Ciphertext, Plaintext};
use phantom_fhe::lattice::rlwe::decryptor::Decryptor;
use phantom_fhe::lattice::rlwe::encryptor::Encryptor;
use phantom_fhe::lattice::rlwe::evaluator::Evaluator;
use phantom_fhe::lattice::rlwe::keys::SecretKey;
use phantom_fhe::lattice::rlwe::params::RlweParams;
use phantom_fhe::ring::poly::{Degree, Modulus, Poly, Ring};
use rand_chacha::ChaCha20Rng;
use rand_core::{RngCore, SeedableRng};

const DEGREE: usize = 8;
const MODULI: [u64; 2] = [4_000_037, 4_000_081];

fn ring() -> Ring {
    Ring::new(Degree::new(DEGREE).unwrap(), MODULI.iter().map(|&q| Modulus::new(q).unwrap()).collect()).unwrap()
}

fn from_signed(values: &[i64], ring: &Ring) -> Poly {
    let rows = ring
        .moduli()
        .iter()
        .map(|m| {
            let q = m.value() as i64;
            values.iter().map(|&v| v.rem_euclid(q) as u64).collect()
        })
        .collect();
    Poly::from_coeffs(rows).unwrap()
}

fn sample_uniform(ring: &Ring, rng: &mut ChaCha20Rng) -> Poly {
    let rows = ring.moduli().iter().map(|m| (0..DEGREE).map(|_| rng.next_u64() % m.value()).collect()).collect();
    Poly::from_coeffs(rows).unwrap()
}

fn setup(seed: u8) -> (Ring, SecretKey, Ciphertext, Ciphertext) {
    let r = ring();
    let mut rng = ChaCha20Rng::from_seed([seed; 32]);
    let s = SecretKey::new(from_signed(&[1, 0, -1, 1, 0, 0, -1, 1], &r));
    let encryptor = Encryptor::with_secret_key(RlweParams::new(r.clone()), s.clone());
    let e = from_signed(&[1, -2, 0, 3, -1, 0, 2, -1], &r);
    let a = encryptor
        .encrypt(&Plaintext::new(from_signed(&[5, 6, 7, 8, 0, 0, 0, 0], &r)), &sample_uniform(&r, &mut rng), &e, &e)
        .unwrap();
    let b = encryptor
        .encrypt(&Plaintext::new(from_signed(&[1, 2, 3, 4, 0, 0, 0, 0], &r)), &sample_uniform(&r, &mut rng), &e, &e)
        .unwrap();
    (r, s, a, b)
}

#[test]
fn negating_twice_gives_the_ciphertext_back() {
    let (r, _, a, _) = setup(70);
    let ev = Evaluator::new(RlweParams::new(r));
    let n = ev.neg(&a).unwrap();
    assert_ne!(n, a);
    assert_eq!(ev.neg(&n).unwrap(), a);
}

#[test]
fn a_ciphertext_plus_its_negation_is_zero() {
    let (r, _, a, _) = setup(71);
    let ev = Evaluator::new(RlweParams::new(r.clone()));
    let z = ev.add(&a, &ev.neg(&a).unwrap()).unwrap();
    for comp in z.value() {
        assert_eq!(comp, &r.zero());
    }
}

#[test]
fn subtracting_what_was_added_gives_the_ciphertext_back() {
    let (r, _, a, b) = setup(72);
    let ev = Evaluator::new(RlweParams::new(r));
    assert_eq!(ev.sub(&ev.add(&a, &b).unwrap(), &b).unwrap(), a);
}

#[test]
fn adding_a_plaintext_adds_it_to_the_decryption_exactly() {
    let (r, s, a, _) = setup(73);
    let params = RlweParams::new(r.clone());
    let ev = Evaluator::new(params.clone());
    let pt = Plaintext::new(from_signed(&[9, -9, 4, 0, 0, 2, 0, 1], &r));
    let out = ev.add_plain(&a, &pt).unwrap();
    let decryptor = Decryptor::new(params, s);
    let before = decryptor.decrypt(&a).unwrap();
    let after = decryptor.decrypt(&out).unwrap();
    assert_eq!(after.value(), &r.add(before.value(), pt.value()).unwrap());
}

fn max_distance(actual: &Poly, expected: &Poly) -> u64 {
    let mut worst = 0;
    for (j, &q) in MODULI.iter().enumerate() {
        for (&a, &e) in actual.coeffs()[j].iter().zip(expected.coeffs()[j].iter()) {
            let diff = (a + q - e) % q;
            worst = worst.max(diff.min(q - diff));
        }
    }
    worst
}

#[test]
fn sums_and_differences_decrypt_within_the_summed_noise() {
    let (r, s, a, b) = setup(74);
    let params = RlweParams::new(r.clone());
    let ev = Evaluator::new(params.clone());
    let decryptor = Decryptor::new(params, s);
    let pa = from_signed(&[5, 6, 7, 8, 0, 0, 0, 0], &r);
    let pb = from_signed(&[1, 2, 3, 4, 0, 0, 0, 0], &r);
    // each fresh encryption's noise is its error, at most 3 in every coefficient
    assert!(max_distance(decryptor.decrypt(&a).unwrap().value(), &pa) <= 3);
    assert!(max_distance(decryptor.decrypt(&b).unwrap().value(), &pb) <= 3);
    let sum = decryptor.decrypt(&ev.add(&a, &b).unwrap()).unwrap();
    let diff = decryptor.decrypt(&ev.sub(&a, &b).unwrap()).unwrap();
    assert!(max_distance(sum.value(), &r.add(&pa, &pb).unwrap()) <= 6);
    assert!(max_distance(diff.value(), &r.sub(&pa, &pb).unwrap()) <= 6);
    // both encryptions carry the same error, so the difference has none
    assert_eq!(diff.value(), &r.sub(&pa, &pb).unwrap());
}

#[test]
fn products_decrypt_within_the_multiplication_noise_bound() {
    let (r, s, a, b) = setup(75);
    let params = RlweParams::new(r.clone());
    let ev = Evaluator::new(params.clone());
    let decryptor = Decryptor::new(params, s);
    let pa = from_signed(&[5, 6, 7, 8, 0, 0, 0, 0], &r);
    let pb = from_signed(&[1, 2, 3, 4, 0, 0, 0, 0], &r);
    let product = decryptor.decrypt(&ev.mul(&a, &b).unwrap()).unwrap();
    let bound = phantom_fhe::lattice::noise::mul_noise_bound(DEGREE, 8, 3);
    assert_eq!(bound, 2 * 8 * 8 * 3 + 8 * 3 * 3);
    assert!(max_distance(product.value(), &r.mul(&pa, &pb).unwrap()) <= bound);
}
