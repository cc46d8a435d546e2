use static_website_search::base2p15::encode;
use static_website_search::spectral_bloom_filter::{BuildError, SpectralBloomFilter};

/// The optimal-Bloom sizing formula: slots and hash count for `n`
/// distinct keys at false-positive rate `p`.
fn optimal_size(n_unique_tokens: u32, false_positive_rate: f32) -> (u32, u32) {
    let sbf_size = -((n_unique_tokens as f32) * false_positive_rate.ln() / 2_f32.ln().powi(2));
    let n_hash_functions = (sbf_size / n_unique_tokens as f32) * 2_f32.ln();
    (sbf_size.ceil() as u32, n_hash_functions.ceil() as u32)
}

fn counter(entries: &[(&str, u32)]) -> Vec<(String, u32)> {
    entries.iter().map(|(k, v)| (k.to_string(), *v)).collect()
}

#[test]
fn hand_written() {
    // With width 4, all frequencies are below 2^4 = 16
    let hash_map = counter(&[("a", 1), ("b", 2), ("c", 10)]);
    let (sbf_size, n_hash_functions) = optimal_size(3, 0.01);
    let sbf = SpectralBloomFilter::new(&hash_map, sbf_size, n_hash_functions, 4).unwrap();
    for (token, frequency) in &hash_map {
        let frq = sbf.get_frequency(token);
        assert_eq!(frq, *frequency);
    }
}

#[test]
fn absent_key_reads_zero() {
    let hash_map = counter(&[("a", 1), ("b", 2), ("c", 10)]);
    let (sbf_size, n_hash_functions) = optimal_size(3, 0.01);
    let sbf = SpectralBloomFilter::new(&hash_map, sbf_size, n_hash_functions, 4).unwrap();
    assert_eq!(sbf.get_frequency(&"z".to_string()), 0);
}

#[test]
fn saturates_at_the_counter_cap() {
    let hash_map = counter(&[("a", 1), ("b", 2), ("c", 100)]);
    let (sbf_size, n_hash_functions) = optimal_size(3, 0.01);
    let sbf = SpectralBloomFilter::new(&hash_map, sbf_size, n_hash_functions, 4).unwrap();
    assert_eq!(sbf.get_frequency(&"c".to_string()), 15);
    assert_eq!(sbf.get_frequency(&"a".to_string()), 1);
}

#[test]
fn never_undershoots_even_at_high_rates() {
    let entries = counter(&[
        ("alpha", 3),
        ("beta", 1),
        ("gamma", 7),
        ("delta", 2),
        ("epsilon", 5),
    ]);
    // rate 0.99: heavy collisions allowed, the floor must still hold
    let (sbf_size, n_hash_functions) = optimal_size(5, 0.99);
    let sbf = SpectralBloomFilter::new(&entries, sbf_size, n_hash_functions, 10).unwrap();
    for (token, frequency) in &entries {
        assert!(sbf.get_frequency(token) >= *frequency);
        assert!(sbf.get_frequency(token) > 0);
    }
}

#[test]
fn identical_inputs_build_identical_counters() {
    let entries = counter(&[("x", 4), ("y", 9), ("z", 2)]);
    let a = SpectralBloomFilter::new(&entries, 29, 7, 4).unwrap();
    let b = SpectralBloomFilter::new(&entries, 29, 7, 4).unwrap();
    assert_eq!(a.sbf, b.sbf);
    assert_eq!(a.n_hash_functions, b.n_hash_functions);
    assert_eq!(a.width, b.width);
}

#[test]
fn rejects_bad_parameters() {
    let entries = counter(&[("a", 1)]);
    assert!(matches!(
        SpectralBloomFilter::new(&entries, 10, 3, 0),
        Err(BuildError::InvalidParameter)
    ));
    assert!(matches!(
        SpectralBloomFilter::new(&entries, 10, 3, 32),
        Err(BuildError::InvalidParameter)
    ));
    assert!(matches!(
        SpectralBloomFilter::new(&entries, 0, 3, 4),
        Err(BuildError::InvalidParameter)
    ));
    assert!(matches!(
        SpectralBloomFilter::new(&entries, 10, 0, 4),
        Err(BuildError::InvalidParameter)
    ));
}

#[test]
fn rejects_an_empty_counter() {
    let entries: Vec<(String, u32)> = Vec::new();
    assert!(matches!(
        SpectralBloomFilter::new(&entries, 10, 3, 4),
        Err(BuildError::EmptyInput)
    ));
}

#[test]
fn bit_string_lays_out_counters_at_width_bits() {
    let sbf = SpectralBloomFilter {
        n_hash_functions: 1,
        sbf: vec![5, 3],
        width: 4,
    };
    assert_eq!(sbf.as_bit_string(), "01010011");
}

#[test]
fn base2p15_encode_matches_encode_of_bit_string() {
    let entries = counter(&[("a", 1), ("b", 2), ("c", 10)]);
    let sbf = SpectralBloomFilter::new(&entries, 29, 7, 4).unwrap();
    assert_eq!(sbf.base2p15_encode(), encode(&sbf.as_bit_string()));
}
