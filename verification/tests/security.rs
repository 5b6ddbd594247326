use phantom_fhe::lattice::security::{
    fresh_error_bound, max_secure_total_modulus_bits_128, recommended_secret_distribution,
    SecretDistribution,
};

#[test]
fn fresh_error_bound_matches_the_documented_sigma_times_tail_cut() {
    assert_eq!(fresh_error_bound(), 20);
}

#[test]
fn max_secure_total_modulus_bits_128_covers_only_the_standard_table_degrees() {
    assert_eq!(max_secure_total_modulus_bits_128(1024), Some(27));
    assert_eq!(max_secure_total_modulus_bits_128(32768), Some(881));
    assert_eq!(max_secure_total_modulus_bits_128(8), None);
    assert_eq!(max_secure_total_modulus_bits_128(512), None);
    assert_eq!(max_secure_total_modulus_bits_128(65536), None);
}

#[test]
fn max_secure_total_modulus_bits_128_grows_with_degree() {
    let entries = [1024, 2048, 4096, 8192, 16384, 32768];
    let mut previous = 0;
    for degree in entries {
        let bits = max_secure_total_modulus_bits_128(degree).unwrap();
        assert!(bits > previous);
        previous = bits;
    }
}

#[test]
fn the_recommended_secret_distribution_is_ternary() {
    assert!(matches!(recommended_secret_distribution(), SecretDistribution::Ternary));
}
