use ematix_parquet_codec::index::rowset::{encode_tagged, to_bitmap, RowsetFormat, TAG_BITMAP, TAG_SPARSE};

#[test]
fn sparse_round_trips_to_bitmap() {
    // 3 positions on a 200-value page: sparse = 21 B < bitmap 26 B.
    let enc = encode_tagged(&[0, 3, 17], 200);
    assert_eq!(enc[0], TAG_SPARSE);
    let bm = to_bitmap(&enc, RowsetFormat::V2Tagged).unwrap();
    assert_eq!(bm.len(), 25);
    assert_eq!(bm[0], 0b0000_1001); // rows 0, 3
    assert_eq!(bm[2], 0b0000_0010); // row 17
    assert!(bm[3..].iter().all(|b| *b == 0));
}

#[test]
fn dense_picks_bitmap_and_round_trips() {
    let positions: Vec<u32> = (0..64).collect();
    let enc = encode_tagged(&positions, 64);
    assert_eq!(enc[0], TAG_BITMAP);
    assert_eq!(enc.len(), 1 + 8);
    let bm = to_bitmap(&enc, RowsetFormat::V2Tagged).unwrap();
    assert_eq!(bm, vec![0xFF; 8]);
}

#[test]
fn choice_boundary_is_by_size() {
    // 1 position: sparse = 13 B; bitmap for 200 values = 26 B.
    assert_eq!(encode_tagged(&[5], 200)[0], TAG_SPARSE);
    // Many positions on a small page: bitmap wins.
    assert_eq!(encode_tagged(&[0, 1, 2, 3, 4, 5, 6, 7], 8)[0], TAG_BITMAP);
}

#[test]
fn v1_raw_passes_through() {
    let raw = vec![0xAB, 0xCD];
    assert_eq!(to_bitmap(&raw, RowsetFormat::V1Raw).unwrap(), raw);
}

#[test]
fn malformed_v2_fails_loud() {
    assert!(to_bitmap(&[], RowsetFormat::V2Tagged).is_err());
    assert!(to_bitmap(&[0x02, 1, 2], RowsetFormat::V2Tagged).is_err());
    assert!(to_bitmap(&[TAG_SPARSE, 1, 0], RowsetFormat::V2Tagged).is_err());
    // Row id beyond the declared page size.
    let mut bad = vec![TAG_SPARSE];
    bad.extend_from_slice(&8u32.to_le_bytes());
    bad.extend_from_slice(&1u32.to_le_bytes());
    bad.extend_from_slice(&9u32.to_le_bytes());
    assert!(to_bitmap(&bad, RowsetFormat::V2Tagged).is_err());
}
