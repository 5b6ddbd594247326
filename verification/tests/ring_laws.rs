use phantom_fhe::lattice::rlwe::ciphertext::{Ciphertext, Plaintext};
use phantom_fhe::lattice::rlwe::decryptor::Decryptor;
use phantom_fhe::lattice::rlwe::encryptor::Encryptor;
use phantom_fhe::lattice::rlwe::evaluator::Evaluator;
use phantom_fhe::lattice::rlwe::keygen::KeyGenerator;
use phantom_fhe::lattice::rlwe::keys::SecretKey;
use phantom_fhe::lattice::rlwe::params::RlweParams;
use phantom_fhe::ring::poly::{Degree, Modulus, Poly, Ring};
use rand_chacha::ChaCha20Rng;
use rand_core::{RngCore, SeedableRng};

const DEGREE: usize = 8;
const MODULI: [u64; 2] = [4_000_037, 4_000_081];

fn ring() -> Ring {
    Ring::new(Degree::new(DEGREE).unwrap(), MODULI.iter().map(|&q| Modulus::new(q).unwrap()).collect()).unwrap()
}

fn from_signed(values: &[i64], ring: &Ring) -> Poly {
    let rows = ring
        .moduli()
        .iter()
        .map(|m| {
            let q = m.value() as i64;
            values.iter().map(|&v| v.rem_euclid(q) as u64).collect()
        })
        .collect();
    Poly::from_coeffs(rows).unwrap()
}

fn sample_ternary(ring: &Ring, rng: &mut ChaCha20Rng) -> Poly {
    let values: Vec<i64> = (0..ring.degree()).map(|_| (rng.next_u64() % 3) as i64 - 1).collect();
    from_signed(&values, ring)
}

fn sample_error(ring: &Ring, rng: &mut ChaCha20Rng) -> Poly {
    let values: Vec<i64> =
        (0..ring.degree()).map(|_| (rng.next_u64() & 0xff).count_ones() as i64 - 4).collect();
    from_signed(&values, ring)
}

fn sample_uniform(ring: &Ring, rng: &mut ChaCha20Rng) -> Poly {
    let n = ring.degree();
    let rows = ring.moduli().iter().map(|m| (0..n).map(|_| rng.next_u64() % m.value()).collect()).collect();
    Poly::from_coeffs(rows).unwrap()
}

fn plaintext(values: &[u64]) -> Plaintext {
    let mut coeffs = values.to_vec();
    coeffs.resize(DEGREE, 0);
    Plaintext::new(Poly::from_coeffs(vec![coeffs; MODULI.len()]).unwrap())
}

#[test]
fn ring_multiplication_is_commutative_and_associative() {
    let r = ring();
    let mut rng = ChaCha20Rng::from_seed([60u8; 32]);
    for _ in 0..20 {
        let (a, b, c) = (sample_uniform(&r, &mut rng), sample_uniform(&r, &mut rng), sample_uniform(&r, &mut rng));
        assert_eq!(r.mul(&a, &b).unwrap(), r.mul(&b, &a).unwrap());
        let left = r.mul(&r.mul(&a, &b).unwrap(), &c).unwrap();
        let right = r.mul(&a, &r.mul(&b, &c).unwrap()).unwrap();
        assert_eq!(left, right);
    }
}

#[test]
fn ring_multiplication_distributes_over_addition_and_negation() {
    let r = ring();
    let mut rng = ChaCha20Rng::from_seed([61u8; 32]);
    for _ in 0..20 {
        let (a, x, y) = (sample_uniform(&r, &mut rng), sample_uniform(&r, &mut rng), sample_uniform(&r, &mut rng));
        let lhs = r.mul(&a, &r.add(&x, &y).unwrap()).unwrap();
        let rhs = r.add(&r.mul(&a, &x).unwrap(), &r.mul(&a, &y).unwrap()).unwrap();
        assert_eq!(lhs, rhs);
        let neg = r.mul(&r.neg(&x).unwrap(), &a).unwrap();
        assert_eq!(neg, r.neg(&r.mul(&x, &a).unwrap()).unwrap());
    }
}

#[test]
fn galois_automorphism_is_additive() {
    let r = ring();
    let mut rng = ChaCha20Rng::from_seed([62u8; 32]);
    let (x, y) = (sample_uniform(&r, &mut rng), sample_uniform(&r, &mut rng));
    for element in [3usize, 5, 7, 15] {
        let lhs = r.apply_automorphism(&r.add(&x, &y).unwrap(), element).unwrap();
        let rhs = r
            .add(&r.apply_automorphism(&x, element).unwrap(), &r.apply_automorphism(&y, element).unwrap())
            .unwrap();
        assert_eq!(lhs, rhs);
    }
}

#[test]
fn public_key_encryption_decrypts_to_the_plaintext_plus_its_exact_noise() {
    let r = ring();
    let params = RlweParams::new(r.clone());
    let mut rng = ChaCha20Rng::from_seed([63u8; 32]);
    let s = sample_ternary(&r, &mut rng);
    let (a, e) = (sample_uniform(&r, &mut rng), sample_error(&r, &mut rng));
    let pk = KeyGenerator::new(params.clone()).generate_public_key(&SecretKey::new(s.clone()), &a, &e).unwrap();
    let pt = plaintext(&[5, 0, 7, 1]);
    let (u, e1, e2) = (sample_ternary(&r, &mut rng), sample_error(&r, &mut rng), sample_error(&r, &mut rng));
    let ct = Encryptor::with_public_key(params.clone(), pk).encrypt(&pt, &u, &e1, &e2).unwrap();
    let out = Decryptor::new(params, SecretKey::new(s.clone())).decrypt(&ct).unwrap();
    let noise = r.sub(&r.mul(&e2, &s).unwrap(), &r.mul(&e, &u).unwrap()).unwrap();
    let expected = r.add(&r.add(pt.value(), &e1).unwrap(), &noise).unwrap();
    assert_eq!(out.value(), &expected);
}

fn phase_of(r: &Ring, s: &Poly, ct: &Ciphertext) -> Poly {
    Decryptor::new(RlweParams::new(r.clone()), SecretKey::new(s.clone())).decrypt(ct).unwrap().value().clone()
}

#[test]
fn sums_and_tensor_products_decrypt_to_sums_and_products_of_phases() {
    let r = ring();
    let params = RlweParams::new(r.clone());
    let mut rng = ChaCha20Rng::from_seed([64u8; 32]);
    let s = sample_ternary(&r, &mut rng);
    let encryptor = Encryptor::with_secret_key(params.clone(), SecretKey::new(s.clone()));
    let mut encrypt = |values: &[u64], rng: &mut ChaCha20Rng| {
        let (mask, e) = (sample_uniform(&r, rng), sample_error(&r, rng));
        encryptor.encrypt(&plaintext(values), &mask, &e, &e).unwrap()
    };
    let c1 = encrypt(&[2, 7, 1, 8], &mut rng);
    let c2 = encrypt(&[3, 1, 4, 1, 5], &mut rng);
    let evaluator = Evaluator::new(params);
    let sum = evaluator.add(&c1, &c2).unwrap();
    let product = evaluator.mul(&c1, &c2).unwrap();
    let (p1, p2) = (phase_of(&r, &s, &c1), phase_of(&r, &s, &c2));
    assert_eq!(phase_of(&r, &s, &sum), r.add(&p1, &p2).unwrap());
    assert_eq!(product.value().len(), 3);
    assert_eq!(phase_of(&r, &s, &product), r.mul(&p1, &p2).unwrap());
}
