use bff::complexity::{byte_counts, compress_code_count};
use rand::rngs::StdRng;
use rand::{Rng, SeedableRng};

fn shannon_entropy(data: &[u8]) -> f32 {
    let counts = byte_counts(&data.to_vec());
    let len = data.len() as f32;
    let mut entropy = 0.0f32;
    for &count in counts.iter() {
        if count > 0 {
            let freq = count as f32 / len;
            entropy -= freq * freq.log2();
        }
    }
    entropy
}

#[test]
fn histogram_counts_each_byte_value() {
    let counts = byte_counts(&b"aabz".to_vec());
    assert_eq!(counts.len(), 256);
    assert_eq!(counts[b'a' as usize], 2);
    assert_eq!(counts[b'b' as usize], 1);
    assert_eq!(counts[b'z' as usize], 1);
    assert_eq!(counts[0], 0);
    let total: usize = counts.iter().sum();
    assert_eq!(total, 4);
}

#[test]
fn entropy_of_constant_sequence_is_zero() {
    assert_eq!(shannon_entropy(&[42u8; 100]), 0.0);
}

#[test]
fn entropy_of_uniform_sequence_is_eight() {
    let data: Vec<u8> = (0..=255u8).collect();
    assert!((shannon_entropy(&data) - 8.0).abs() < 1e-4);
}

#[test]
fn entropy_stays_within_bounds() {
    let mut rng = StdRng::seed_from_u64(11);
    for len in [1usize, 2, 17, 256, 4096] {
        let data: Vec<u8> = (0..len).map(|_| rng.gen()).collect();
        let h = shannon_entropy(&data);
        assert!(h >= 0.0);
        assert!(h <= 8.0);
    }
}

#[test]
fn compressor_emits_expected_code_counts() {
    assert_eq!(compress_code_count(&Vec::new()), 0);
    assert_eq!(compress_code_count(&vec![9u8]), 1);
    assert_eq!(compress_code_count(&b"abc".to_vec()), 3);
    // "ababab": a | b | ab | ab
    assert_eq!(compress_code_count(&b"ababab".to_vec()), 4);
    // "bbbbbb": b | bb | bbb
    assert_eq!(compress_code_count(&b"bbbbbb".to_vec()), 3);
    // "bb" is too short for any run to pay off: b | b
    assert_eq!(compress_code_count(&b"bb".to_vec()), 2);
    // "bbb": b | bb
    assert_eq!(compress_code_count(&b"bbb".to_vec()), 2);
}

#[test]
fn constant_input_compresses_below_random_input() {
    let mut rng = StdRng::seed_from_u64(7);
    let random: Vec<u8> = (0..256).map(|_| rng.gen()).collect();
    let constant = vec![b'a'; 256];
    assert!(compress_code_count(&constant) < compress_code_count(&random));
}

#[test]
fn code_count_never_exceeds_length() {
    let mut rng = StdRng::seed_from_u64(3);
    for len in [1usize, 2, 3, 64, 500] {
        let data: Vec<u8> = (0..len).map(|_| rng.gen()).collect();
        let n = compress_code_count(&data);
        assert!(1 <= n && n <= len);
    }
}
