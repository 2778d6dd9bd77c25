use ematix_parquet_codec::CodecError;
use ematix_parquet_codec::bloom::{
    num_blocks_for_bytes, parquet_xxh64, SplitBlockBloomFilter, SplitBlockBloomFilterBuilder,
};

/// The blocks of a filter for `n` values at a rate of false positives.
fn optimal_num_blocks(n: usize, fpp: f64) -> u32 {
    if n == 0 {
        return 1;
    }
    let fpp = fpp.clamp(1e-12, 0.5);
    let m = -8.0 * n as f64 / (1.0 - fpp.powf(0.125)).ln();
    num_blocks_for_bytes((m / 8.0).ceil() as u64)
}

// XXHash64 reference vectors. The values come from the canonical
// XXHash64 test suite (xxhsum), seed=0.
#[test]
fn xxh64_known_vectors_seed_0() {
    // Empty input.
    assert_eq!(parquet_xxh64(b""), 0xEF46_DB37_51D8_E999);
    // Single byte.
    assert_eq!(parquet_xxh64(b"a"), 0xD24E_C4F1_A98C_6E5B);
    // Short string.
    assert_eq!(parquet_xxh64(b"abc"), 0x44BC_2CF5_AD77_0999);
    // Cross the 32-byte boundary.
    let s: &[u8] = b"The quick brown fox jumps over the lazy dog";
    assert_eq!(parquet_xxh64(s), 0x0B24_2D36_1FDA_71BC);
}

#[test]
fn xxh64_input_lengths_avoid_panics() {
    // Walk lengths 0..=80 to exercise the alignment branches
    // (>=32, >=8 tail, >=4 tail, byte tail).
    let data: Vec<u8> = (0u8..80).collect();
    for len in 0..=80 {
        let _ = parquet_xxh64(&data[..len]);
    }
}

#[test]
fn builder_round_trips_through_decoder() {
    // Build a filter, insert a known set of values, serialise,
    // parse with the decoder, confirm every inserted value is
    // reported "possibly present" and a handful of non-inserted
    // values are reported "absent" (fpp permitting).
    let inserted: Vec<&[u8]> = vec![
        b"alpha", b"bravo", b"charlie", b"delta", b"echo", b"foxtrot", b"golf", b"hotel",
        b"india", b"juliet",
    ];
    let blocks = optimal_num_blocks(inserted.len(), 0.01);
    let mut b = SplitBlockBloomFilterBuilder::new(blocks);
    for v in &inserted {
        b.insert_bytes(v);
    }
    let bytes = b.into_bytes();
    let filter = SplitBlockBloomFilter::from_bytes(&bytes).expect("decode");

    // Every inserted value must be reported present.
    for v in &inserted {
        assert!(
            filter.contains_bytes(v),
            "inserted value {v:?} reported absent (false negative — impossible for a correct SBBF)"
        );
    }

    // Non-inserted values should mostly be reported absent.
    // 100 distinct strings, expect ≤ ~3 false positives at fpp 0.01.
    let mut fp = 0;
    for i in 0..100 {
        let key = format!("absent_{i}");
        if filter.contains_bytes(key.as_bytes()) {
            fp += 1;
        }
    }
    assert!(fp < 10, "too many false positives: {fp} / 100");
}

#[test]
fn optimal_num_blocks_is_power_of_two_and_grows_with_n() {
    let b1 = optimal_num_blocks(100, 0.01);
    let b2 = optimal_num_blocks(10_000, 0.01);
    let b3 = optimal_num_blocks(1_000_000, 0.01);
    assert!(b1.is_power_of_two());
    assert!(b2.is_power_of_two());
    assert!(b3.is_power_of_two());
    assert!(b1 < b2 && b2 < b3);
}

#[test]
fn empty_builder_serialises_and_decodes() {
    // Edge case: a builder with the smallest valid filter
    // (1 block = 32 bytes bitset) must round-trip.
    let b = SplitBlockBloomFilterBuilder::new(1);
    let bytes = b.into_bytes();
    let filter = SplitBlockBloomFilter::from_bytes(&bytes).expect("decode");
    assert_eq!(filter.num_blocks(), 1);
    // No values inserted → every membership check returns false.
    assert!(!filter.contains_bytes(b"anything"));
}

#[test]
fn builder_insert_hash_and_insert_bytes_agree() {
    let mut a = SplitBlockBloomFilterBuilder::new(4);
    let mut b = SplitBlockBloomFilterBuilder::new(4);
    a.insert_hash(parquet_xxh64(b"x"));
    b.insert_bytes(b"x");
    assert_eq!(a.into_bytes(), b.into_bytes());
}

#[test]
fn block_counts_are_powers_of_two() {
    assert_eq!(num_blocks_for_bytes(0), 1);
    assert_eq!(num_blocks_for_bytes(32), 1);
    assert_eq!(num_blocks_for_bytes(33), 2);
    assert_eq!(num_blocks_for_bytes(65), 4);
    assert_eq!(num_blocks_for_bytes(u64::MAX), u32::MAX);
}

#[test]
fn stored_filter_starts_with_its_header() {
    let bytes = SplitBlockBloomFilterBuilder::new(1).into_bytes();
    // numBytes = 32 as a zigzag varint, then three one-member unions.
    let header: Vec<u8> = vec![
        0x15, 0x40, 0x1C, 0x1C, 0x00, 0x00, 0x1C, 0x1C, 0x00, 0x00, 0x1C, 0x1C, 0x00, 0x00, 0x00,
    ];
    assert_eq!(&bytes[..15], &header[..]);
    assert_eq!(bytes.len(), 15 + 32);
}

#[test]
fn inserted_values_stay_members() {
    let mut b = SplitBlockBloomFilterBuilder::new(2);
    b.insert_bytes(b"one");
    b.insert_bytes(b"two");
    assert_eq!(b.num_blocks(), 2);
    let bytes = b.into_bytes();
    let f = SplitBlockBloomFilter::from_bytes(&bytes).unwrap();
    assert!(f.contains_bytes(b"one") && f.contains_bytes(b"two"));
    assert!(f.contains_hash(parquet_xxh64(b"one")));
}

#[test]
fn filters_of_other_kinds_are_refused() {
    // The second member of the algorithm union instead of the first.
    let mut bytes = SplitBlockBloomFilterBuilder::new(1).into_bytes();
    bytes[3] = 0x2C;
    match SplitBlockBloomFilter::from_bytes(&bytes) {
        Err(CodecError::Unsupported(t)) => assert!(t.contains("algorithm"), "{t}"),
        other => panic!("expected Unsupported, got {:?}", other.is_ok()),
    }
    let mut bytes = SplitBlockBloomFilterBuilder::new(1).into_bytes();
    bytes.truncate(20);
    assert!(SplitBlockBloomFilter::from_bytes(&bytes).is_err());
    assert!(SplitBlockBloomFilter::from_bytes(&[]).is_err());
}

#[test]
fn filters_of_odd_sizes_are_refused() {
    let mut bytes = SplitBlockBloomFilterBuilder::new(1).into_bytes();
    assert_eq!(&bytes[..2], &[0x15, 0x40]);
    let text = |bytes: &[u8]| match SplitBlockBloomFilter::from_bytes(bytes) {
        Err(CodecError::InvalidInput(t)) => t,
        Err(e) => panic!("expected InvalidInput, got {e:?}"),
        Ok(_) => panic!("expected InvalidInput, got a filter"),
    };
    // 1, -1 and -32.
    bytes[1] = 2;
    assert_eq!(text(&bytes), "bloom filter num_bytes must be a multiple of 32, got 1");
    bytes[1] = 1;
    assert_eq!(
        text(&bytes),
        format!("bloom filter num_bytes must be a multiple of 32, got {}", usize::MAX)
    );
    bytes[1] = 63;
    assert_eq!(
        text(&bytes),
        format!("bloom filter byte buffer too short: have 47, need {}", usize::MAX as u128 - 31 + 15)
    );
}

#[test]
fn bytes_after_a_filter_are_ignored_and_cut_ones_are_refused() {
    let mut b = SplitBlockBloomFilterBuilder::new(2);
    b.insert_bytes(b"one");
    let bytes = b.into_bytes();
    let mut longer = bytes.clone();
    longer.extend_from_slice(b"more of something else");
    let f = SplitBlockBloomFilter::from_bytes(&longer).unwrap();
    assert_eq!(f.num_blocks(), 2);
    assert!(f.contains_bytes(b"one"));
    for k in 0..bytes.len() {
        assert!(matches!(
            SplitBlockBloomFilter::from_bytes(&bytes[..k]),
            Err(CodecError::InvalidInput(_))
        ));
    }
}
