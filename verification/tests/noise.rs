use phantom_fhe::lattice::noise::{
    external_product_noise_bound, fresh_public_key_noise_bound, fresh_secret_key_noise_bound,
    mul_noise_bound, ring_product_bound,
};
use phantom_fhe::lattice::security::fresh_error_bound;

#[test]
fn ring_product_bound_matches_hand_worked_small_cases() {
    assert_eq!(ring_product_bound(8, 1, 20), 160);
    assert_eq!(ring_product_bound(4, 3, 5), 60);
    assert_eq!(ring_product_bound(1, 7, 9), 63);
}

#[test]
fn fresh_secret_key_noise_bound_is_exactly_the_error_bound() {
    assert_eq!(fresh_secret_key_noise_bound(), fresh_error_bound());
}

#[test]
fn fresh_public_key_noise_bound_grows_with_degree() {
    let small = fresh_public_key_noise_bound(4);
    let large = fresh_public_key_noise_bound(64);
    assert!(large > small);
    let error_bound = fresh_error_bound();
    assert_eq!(fresh_public_key_noise_bound(8), 2 * 8 * error_bound + error_bound);
}

#[test]
fn mul_noise_bound_is_much_larger_than_fresh_noise() {
    let degree = 8;
    let fresh = fresh_public_key_noise_bound(degree);
    let after_mul = mul_noise_bound(degree, 4, fresh);
    assert!(after_mul > fresh);
}

#[test]
fn external_product_noise_bound_matches_hand_worked_case() {
    assert_eq!(external_product_noise_bound(4, 3, 20, 2, 4), 5040);
}

#[test]
fn fresh_public_key_noise_bound_of_degree_eight_is_340() {
    assert_eq!(fresh_public_key_noise_bound(8), 340);
}

#[test]
fn mul_noise_bound_matches_hand_worked_case() {
    let expected = 2 * ring_product_bound(8, 4, 340) + ring_product_bound(8, 340, 340);
    assert_eq!(expected, 2 * 10_880 + 924_800);
    assert_eq!(mul_noise_bound(8, 4, 340), expected);
}
