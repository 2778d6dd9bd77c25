use ematix_parquet_codec::adaptive::popcount_bitmap_prefix;

#[test]
fn popcount_handles_partial_tail() {
    // Bits laid out so that the all-ones byte has 5 set bits
    // counted within the first 5 positions.
    let bm = [0b11111111u8, 0b00000111];
    assert_eq!(popcount_bitmap_prefix(&bm, 8), 8);
    assert_eq!(popcount_bitmap_prefix(&bm, 11), 8 + 3);
    // Bits past num_bits in the same byte must be ignored.
    let bm2 = [0b11111111u8];
    assert_eq!(popcount_bitmap_prefix(&bm2, 3), 3);
}

#[test]
fn popcount_zero_bits_is_zero() {
    assert_eq!(popcount_bitmap_prefix(&[0xFF, 0xFF], 0), 0);
}

