use cnk::{CompressionError, IdCompressionMethod, RocCompressor, DEFAULT_ANS_PRECISION};

fn is_invalid_input<T>(r: &Result<T, CompressionError>) -> bool {
    matches!(r, Err(CompressionError::InvalidInput(_)))
}

fn is_decompression_failed<T>(r: &Result<T, CompressionError>) -> bool {
    matches!(r, Err(CompressionError::DecompressionFailed(_)))
}

/// The information-theoretic bound `n * log2(u / n)` in whole bytes.
fn bound_bytes(num_ids: usize, universe_size: u32) -> usize {
    if num_ids == 0 {
        return 0;
    }
    let n = num_ids as f64;
    let u = universe_size as f64;
    if n > u || u / n <= 1.0 {
        return 0;
    }
    ((n * (u / n).ln() / 2.0_f64.ln()) / 8.0) as usize
}

#[test]
fn test_round_trip() {
    let compressor = RocCompressor::new();
    let ids = vec![1u32, 5, 10, 20, 50, 100];
    let universe_size = 1000;

    let compressed = compressor.compress_set(&ids, universe_size).unwrap();
    let decompressed = compressor
        .decompress_set(&compressed, universe_size)
        .unwrap();

    assert_eq!(ids, decompressed);
}

#[test]
fn test_empty_set() {
    let compressor = RocCompressor::new();
    let compressed = compressor.compress_set(&[], 1000).unwrap();
    assert!(compressed.is_empty());

    let decompressed = compressor.decompress_set(&[], 1000).unwrap();
    assert!(decompressed.is_empty());
}

#[test]
fn test_unsorted_ids() {
    let compressor = RocCompressor::new();
    let ids = vec![5u32, 1, 10];

    let result = compressor.compress_set(&ids, 1000);
    assert!(result.is_err());
    assert!(is_invalid_input(&result));
}

#[test]
fn test_duplicate_ids() {
    let compressor = RocCompressor::new();
    let ids = vec![1u32, 5, 5, 10];

    let result = compressor.compress_set(&ids, 1000);
    assert!(result.is_err());
    assert!(is_invalid_input(&result));
}

#[test]
fn test_consecutive_ids() {
    let compressor = RocCompressor::new();
    let ids: Vec<u32> = (0..100).collect();
    let universe_size = 1000;

    let compressed = compressor.compress_set(&ids, universe_size).unwrap();
    let decompressed = compressor
        .decompress_set(&compressed, universe_size)
        .unwrap();

    assert_eq!(ids, decompressed);

    let uncompressed_size = ids.len() * 4;
    let ratio = uncompressed_size as f64 / compressed.len() as f64;
    assert!(
        ratio > 2.0,
        "Consecutive IDs should compress well: {}",
        ratio
    );
    assert!(compressed.len() < 100 * 4);
}

#[test]
fn test_single_id() {
    let compressor = RocCompressor::new();
    let ids = vec![42u32];

    let compressed = compressor.compress_set(&ids, 1000).unwrap();
    let decompressed = compressor.decompress_set(&compressed, 1000).unwrap();

    assert_eq!(ids, decompressed);
}

#[test]
fn test_id_exceeds_universe() {
    let compressor = RocCompressor::new();
    let ids = vec![1000u32];

    let result = compressor.compress_set(&ids, 1000);
    assert!(result.is_err());
    assert!(is_invalid_input(&result));
}

#[test]
fn compression_ratio_improves_with_density() {
    let compressor = RocCompressor::new();
    let universe = 100_000u32;

    let sparse: Vec<u32> = (0..1000).map(|i| i * 100).collect();
    let sparse_compressed = compressor.compress_set(&sparse, universe).unwrap();
    let sparse_bytes_per_id = sparse_compressed.len() as f64 / sparse.len() as f64;

    let dense: Vec<u32> = (0..1000).collect();
    let dense_compressed = compressor.compress_set(&dense, universe).unwrap();
    let dense_bytes_per_id = dense_compressed.len() as f64 / dense.len() as f64;

    let very_sparse: Vec<u32> = (0..100).map(|i| i * 1000).collect();
    let very_sparse_compressed = compressor.compress_set(&very_sparse, universe).unwrap();
    let very_sparse_bytes_per_id = very_sparse_compressed.len() as f64 / very_sparse.len() as f64;

    assert!(
        very_sparse_bytes_per_id > dense_bytes_per_id,
        "very sparse {} bytes/id should exceed dense {} bytes/id",
        very_sparse_bytes_per_id,
        dense_bytes_per_id
    );

    println!("Dense: {:.2} bytes/id", dense_bytes_per_id);
    println!("Sparse (delta=100): {:.2} bytes/id", sparse_bytes_per_id);
    println!(
        "Very sparse (delta=1000): {:.2} bytes/id",
        very_sparse_bytes_per_id
    );
}

#[test]
fn estimate_size_is_reasonable() {
    let compressor = RocCompressor::new();

    for num_ids in [10, 100, 1000] {
        for universe in [10_000, 100_000, 1_000_000] {
            let estimate =
                compressor.estimate_size(num_ids, universe, bound_bytes(num_ids, universe));

            assert!(estimate > 0, "estimate should be positive");

            let raw_size = num_ids * 4;
            assert!(
                estimate <= raw_size * 2,
                "estimate {} should be reasonable vs raw {}",
                estimate,
                raw_size
            );
        }
    }
}

#[test]
fn compressed_bytes_are_count_first_and_gaps() {
    let compressor = RocCompressor::new();
    let compressed = compressor.compress_set(&[3, 4, 200, 400], 1000).unwrap();
    assert_eq!(compressed, vec![4, 3, 1, 196, 1, 200, 1]);
}

#[test]
fn round_trip_near_the_top_of_u32() {
    let compressor = RocCompressor::new();
    let ids: Vec<u32> = (0..10).map(|i| (u32::MAX - 1000) + i * 10).collect();
    let universe = ids[ids.len() - 1] + 1;
    let compressed = compressor.compress_set(&ids, universe).unwrap();
    assert_eq!(compressor.decompress_set(&compressed, universe).unwrap(), ids);
}

#[test]
fn round_trip_with_a_large_gap() {
    let compressor = RocCompressor::new();
    let ids = vec![7u32, 7 + u32::MAX / 2];
    let universe = ids[1] + 1;
    let compressed = compressor.compress_set(&ids, universe).unwrap();
    assert_eq!(compressor.decompress_set(&compressed, universe).unwrap(), ids);
}

#[test]
fn round_trip_of_the_whole_small_universe() {
    let compressor = RocCompressor::new();
    let ids: Vec<u32> = (0..300).collect();
    let compressed = compressor.compress_set(&ids, 300).unwrap();
    assert_eq!(compressor.decompress_set(&compressed, 300).unwrap(), ids);
}

#[test]
fn compression_is_deterministic() {
    let compressor = RocCompressor::new();
    let ids = vec![2u32, 90, 91, 5000, 9999];
    let first = compressor.compress_set(&ids, 10000).unwrap();
    let second = compressor.compress_set(&ids, 10000).unwrap();
    assert_eq!(first, second);
}

#[test]
fn empty_set_in_any_universe() {
    let compressor = RocCompressor::with_precision(256);
    for universe in [0u32, 1, 1000, u32::MAX] {
        assert!(compressor.compress_set(&[], universe).unwrap().is_empty());
        assert!(compressor.decompress_set(&[], universe).unwrap().is_empty());
    }
}

#[test]
fn rejects_an_id_above_the_universe_after_valid_ones() {
    let compressor = RocCompressor::new();
    let result = compressor.compress_set(&[1, 2, 3, 50], 10);
    assert!(is_invalid_input(&result));
}

#[test]
fn validate_ids_checks_strict_order() {
    assert!(RocCompressor::validate_ids(&[]).is_ok());
    assert!(RocCompressor::validate_ids(&[0, 1, 2]).is_ok());
    assert!(is_invalid_input(&RocCompressor::validate_ids(&[0, 2, 1])));
    assert!(is_invalid_input(&RocCompressor::validate_ids(&[4, 4])));
}

#[test]
fn trailing_byte_is_rejected() {
    let compressor = RocCompressor::new();
    for ids in [vec![], vec![42u32], vec![1u32, 5, 10, 20, 50, 100]] {
        let compressed = compressor.compress_set(&ids, 1000).unwrap();
        for extra in [0u8, 1, 0x7f, 0x80, 0xff] {
            let mut longer = compressed.clone();
            longer.push(extra);
            assert!(is_decompression_failed(&compressor.decompress_set(&longer, 1000)));
        }
    }
}

#[test]
fn truncated_payload_is_rejected() {
    let compressor = RocCompressor::new();
    let compressed = compressor.compress_set(&[1, 5, 300], 1000).unwrap();
    for end in 1..compressed.len() {
        let result = compressor.decompress_set(&compressed[..end], 1000);
        assert!(is_decompression_failed(&result));
    }
}

#[test]
fn too_small_universe_is_rejected_on_decompression() {
    let compressor = RocCompressor::new();
    let compressed = compressor.compress_set(&[1, 5, 300], 1000).unwrap();
    assert!(is_decompression_failed(&compressor.decompress_set(&compressed, 300)));
    assert!(is_decompression_failed(&compressor.decompress_set(&compressed, 1)));
    assert_eq!(compressor.decompress_set(&compressed, 301).unwrap(), vec![1, 5, 300]);
}

#[test]
fn zero_count_is_rejected() {
    let compressor = RocCompressor::new();
    assert!(is_decompression_failed(&compressor.decompress_set(&[0], 1000)));
}

#[test]
fn zero_gap_is_rejected() {
    let compressor = RocCompressor::new();
    assert!(is_decompression_failed(&compressor.decompress_set(&[2, 5, 0], 1000)));
    assert_eq!(compressor.decompress_set(&[2, 5, 1], 1000).unwrap(), vec![5, 6]);
}

#[test]
fn overlong_varint_is_rejected() {
    let compressor = RocCompressor::new();
    let mut payload = vec![0x81u8; 9];
    payload.push(0x00);
    assert!(is_decompression_failed(&compressor.decompress_set(&payload, 1000)));
}

#[test]
fn estimate_is_zero_without_ids_or_beyond_the_universe() {
    let compressor = RocCompressor::new();
    assert_eq!(compressor.estimate_size(0, 1000, 0), 0);
    assert_eq!(compressor.estimate_size(1001, 1000, 5), 0);
    assert_eq!(compressor.estimate_size(5, 0, 5), 0);
}

#[test]
fn estimate_adds_one_and_a_half_bytes_per_id() {
    let compressor = RocCompressor::new();
    assert_eq!(compressor.estimate_size(10, 1000, bound_bytes(10, 1000)), 8 + 15);
    assert_eq!(compressor.estimate_size(7, 1000, 9), 9 + 10);
    assert_eq!(compressor.estimate_size(1000, 1000, 4), 1500);
    assert!(compressor.estimate_size(1, 1, 0) > 0);
}

#[test]
fn denser_sets_have_no_larger_estimates() {
    let compressor = RocCompressor::new();
    let dense = compressor.estimate_size(100, 1_000, bound_bytes(100, 1_000));
    let sparse = compressor.estimate_size(100, 1_000_000, bound_bytes(100, 1_000_000));
    assert!(dense <= sparse);
}

#[test]
fn default_compressor_behaves_as_new() {
    let compressor = RocCompressor::default();
    let compressed = compressor.compress_set(&[9, 10], 11).unwrap();
    assert_eq!(compressed, RocCompressor::new().compress_set(&[9, 10], 11).unwrap());
    assert_eq!(DEFAULT_ANS_PRECISION, 4096);
}

#[test]
fn method_selector_defaults_to_uncompressed() {
    assert_eq!(IdCompressionMethod::default(), IdCompressionMethod::Uncompressed);
    assert_ne!(IdCompressionMethod::Roc, IdCompressionMethod::EliasFano);
    let m = IdCompressionMethod::WaveletTree;
    assert_eq!(m.clone(), IdCompressionMethod::WaveletTree);
}
