use ematix_parquet_codec::bitpack_avx2::{
    unpack_indices_into_avx2_bw1,
    unpack_indices_into_avx2_bw12,
    unpack_indices_into_avx2_bw14,
    unpack_indices_into_avx2_bw15,
    unpack_indices_into_avx2_bw16,
    unpack_indices_into_avx2_bw17,
    unpack_indices_into_avx2_bw18,
    unpack_indices_into_avx2_bw2,
    unpack_indices_into_avx2_bw20,
    unpack_indices_into_avx2_bw21,
    unpack_indices_into_avx2_bw3,
    unpack_indices_into_avx2_bw4,
    unpack_indices_into_avx2_bw5,
    unpack_indices_into_avx2_bw8,
    unpack_lookup_into_avx2_bw12,
    unpack_lookup_into_avx2_bw14,
    unpack_lookup_into_avx2_bw15,
    unpack_lookup_into_avx2_bw16,
    unpack_lookup_into_avx2_bw17,
    unpack_lookup_into_avx2_bw18,
    unpack_lookup_into_avx2_bw4,
    unpack_lookup_into_avx2_bw6,
    unpack_lookup_into_avx2_bw8,
};
use ematix_parquet_codec::bitpack_neon::{
    decode_predicate_bitmap_neon_bw12,
    decode_predicate_bitmap_neon_bw14,
    decode_predicate_bitmap_neon_bw15,
    decode_predicate_bitmap_neon_bw16,
    decode_predicate_bitmap_neon_bw17,
    decode_predicate_bitmap_neon_bw18,
    unpack_indices_into_neon_bw1,
    unpack_indices_into_neon_bw10,
    unpack_indices_into_neon_bw11,
    unpack_indices_into_neon_bw12,
    unpack_indices_into_neon_bw13,
    unpack_indices_into_neon_bw14,
    unpack_indices_into_neon_bw15,
    unpack_indices_into_neon_bw16,
    unpack_indices_into_neon_bw17,
    unpack_indices_into_neon_bw18,
    unpack_indices_into_neon_bw19,
    unpack_indices_into_neon_bw2,
    unpack_indices_into_neon_bw20,
    unpack_indices_into_neon_bw21,
    unpack_indices_into_neon_bw22,
    unpack_indices_into_neon_bw23,
    unpack_indices_into_neon_bw24,
    unpack_indices_into_neon_bw25,
    unpack_indices_into_neon_bw26,
    unpack_indices_into_neon_bw27,
    unpack_indices_into_neon_bw28,
    unpack_indices_into_neon_bw29,
    unpack_indices_into_neon_bw3,
    unpack_indices_into_neon_bw30,
    unpack_indices_into_neon_bw31,
    unpack_indices_into_neon_bw32,
    unpack_indices_into_neon_bw4,
    unpack_indices_into_neon_bw5,
    unpack_indices_into_neon_bw6,
    unpack_indices_into_neon_bw7,
    unpack_indices_into_neon_bw8,
    unpack_indices_into_neon_bw9,
    unpack_lookup_into_neon_bw1,
    unpack_lookup_into_neon_bw12,
    unpack_lookup_into_neon_bw14,
    unpack_lookup_into_neon_bw15,
    unpack_lookup_into_neon_bw16,
    unpack_lookup_into_neon_bw17,
    unpack_lookup_into_neon_bw18,
    unpack_lookup_into_neon_bw2,
    unpack_lookup_into_neon_bw20,
    unpack_lookup_into_neon_bw21,
    unpack_lookup_into_neon_bw3,
    unpack_lookup_into_neon_bw4,
    unpack_lookup_into_neon_bw5,
    unpack_lookup_into_neon_bw6,
    unpack_lookup_into_neon_bw8,
};
use ematix_parquet_codec::CodecError;

/// Packs values of `width` bits, low end first.
fn packed(values: &[u32], width: usize) -> Vec<u8> {
    let mut out = vec![0u8; (values.len() * width + 7) / 8];
    for (i, v) in values.iter().enumerate() {
        for b in 0..width {
            let at = i * width + b;
            out[at / 8] |= (((v >> b) & 1) as u8) << (at % 8);
        }
    }
    out
}

#[test]
fn unpacking_kernels_append_the_indices() {
    let v: Vec<u32> = (0..20).map(|i| i * 200).collect();
    let mut out = vec![1];
    unpack_indices_into_avx2_bw12(&packed(&v, 12), 20, &mut out).unwrap();
    assert_eq!(out[0], 1);
    assert_eq!(&out[1..], &v[..]);
    let v: Vec<u32> = (0..50).map(|i| i % 8).collect();
    let mut out = Vec::new();
    unpack_indices_into_avx2_bw3(&packed(&v, 3), 50, &mut out).unwrap();
    assert_eq!(out, v);
    let v: Vec<u32> = (0..9).map(|i| 0x7FFF_FFFF - i).collect();
    let mut out = Vec::new();
    unpack_indices_into_neon_bw31(&packed(&v, 31), 9, &mut out).unwrap();
    assert_eq!(out, v);
    let mut out = Vec::new();
    unpack_indices_into_neon_bw32(&[1, 0, 0, 0x80], 1, &mut out).unwrap();
    assert_eq!(out, vec![0x8000_0001]);
}

#[test]
fn kernels_name_themselves_where_bytes_are_missing() {
    let mut out = Vec::new();
    match unpack_indices_into_avx2_bw12(&[0; 11], 8, &mut out) {
        Err(CodecError::Decompress(t)) => {
            assert_eq!(t, "avx2 bw12: packed has 11 bytes, need 12")
        }
        other => panic!("expected Decompress, got {other:?}"),
    }
    match unpack_lookup_into_neon_bw3(&[], 8, &[1u8], &mut Vec::new()) {
        Err(CodecError::Decompress(t)) => {
            assert_eq!(t, "neon bw3 lookup: packed has 0 bytes, need 3")
        }
        other => panic!("expected Decompress, got {other:?}"),
    }
    assert!(unpack_indices_into_avx2_bw12(&[], 0, &mut out).is_ok());
    assert!(out.is_empty());
}

#[test]
fn a_bad_index_in_a_block_appends_nothing() {
    // Sixteen rows of sixteen bits: two blocks, and the second has the index.
    let mut v = vec![0u32; 16];
    v[9] = 4;
    let mut out = vec![7u8];
    let r = unpack_lookup_into_avx2_bw16(&packed(&v, 16), 16, &[1u8, 2, 3, 4], &mut out);
    assert!(matches!(r, Err(CodecError::DictIndexOutOfRange { index: 4, dict_size: 4 })));
    assert_eq!(out, vec![7]);
}

#[test]
fn a_bad_index_after_the_blocks_keeps_what_came_before() {
    let mut v = vec![0u32; 18];
    v[17] = 4;
    let mut out = vec![7u8];
    let r = unpack_lookup_into_avx2_bw16(&packed(&v, 16), 18, &[1u8, 2, 3, 4], &mut out);
    assert!(r.is_err());
    assert_eq!(out.len(), 1 + 17);
    // Thirty-two rows make a block of four-bit indices; eight do not.
    let mut v = vec![0u32; 8];
    v[3] = 9;
    let mut out = Vec::new();
    let r = unpack_lookup_into_avx2_bw4(&packed(&v, 4), 8, &[5u8, 6], &mut out);
    assert!(matches!(r, Err(CodecError::DictIndexOutOfRange { index: 9, dict_size: 2 })));
    assert_eq!(out, vec![5, 5, 5]);
    // A load of sixteen bytes does not fit into twelve.
    let mut v = vec![0u32; 16];
    v[2] = 1;
    let mut out = Vec::new();
    let r = unpack_lookup_into_avx2_bw6(&packed(&v, 6), 16, &[5u8], &mut out);
    assert!(r.is_err());
    assert_eq!(out, vec![5, 5]);
}

#[test]
fn lookup_kernels_refuse_an_empty_dictionary() {
    let none: [u8; 0] = [];
    let mut out = Vec::new();
    let r = unpack_lookup_into_avx2_bw16(&[0, 0], 1, &none, &mut out);
    assert!(matches!(r, Err(CodecError::DictIndexOutOfRange { index: 0, dict_size: 0 })));
}

#[test]
fn mask_kernels_give_one_bit_per_row() {
    let v: Vec<u32> = (0..10).collect();
    let mut mask = vec![0u8; 4096];
    mask[0] = 1;
    mask[9] = 1;
    let mut out = vec![0xEE];
    decode_predicate_bitmap_neon_bw12(&packed(&v, 12), 10, &mask, &mut out).unwrap();
    assert_eq!(out, vec![0xEE, 0b0000_0001, 0b0000_0010]);
    match decode_predicate_bitmap_neon_bw12(&packed(&v, 12), 10, &mask[..9], &mut out) {
        Err(CodecError::Decompress(t)) => {
            assert_eq!(t, "neon bw12 fused: dict_mask must be ≥ 4096 entries (got 9)")
        }
        other => panic!("expected Decompress, got {other:?}"),
    }
}

/// Seventy values of `width` bits that reach both ends of the range.
fn spread(width: u32) -> Vec<u32> {
    let top = (1u64 << width) - 1;
    (0..70u64).map(|i| (i.wrapping_mul(0x9E37_79B9_7F4A_7C15) % (top + 1)) as u32).collect()
}

#[test]
fn unpacking_kernels_of_all_widths_agree_with_their_input() {
    let mut out = Vec::new();
    unpack_indices_into_avx2_bw1(&packed(&spread(1), 1), 70, &mut out).unwrap();
    assert_eq!(out, spread(1));
    let mut out = Vec::new();
    unpack_indices_into_avx2_bw2(&packed(&spread(2), 2), 70, &mut out).unwrap();
    assert_eq!(out, spread(2));
    let mut out = Vec::new();
    unpack_indices_into_avx2_bw3(&packed(&spread(3), 3), 70, &mut out).unwrap();
    assert_eq!(out, spread(3));
    let mut out = Vec::new();
    unpack_indices_into_avx2_bw4(&packed(&spread(4), 4), 70, &mut out).unwrap();
    assert_eq!(out, spread(4));
    let mut out = Vec::new();
    unpack_indices_into_avx2_bw5(&packed(&spread(5), 5), 70, &mut out).unwrap();
    assert_eq!(out, spread(5));
    let mut out = Vec::new();
    unpack_indices_into_avx2_bw8(&packed(&spread(8), 8), 70, &mut out).unwrap();
    assert_eq!(out, spread(8));
    let mut out = Vec::new();
    unpack_indices_into_avx2_bw12(&packed(&spread(12), 12), 70, &mut out).unwrap();
    assert_eq!(out, spread(12));
    let mut out = Vec::new();
    unpack_indices_into_avx2_bw14(&packed(&spread(14), 14), 70, &mut out).unwrap();
    assert_eq!(out, spread(14));
    let mut out = Vec::new();
    unpack_indices_into_avx2_bw15(&packed(&spread(15), 15), 70, &mut out).unwrap();
    assert_eq!(out, spread(15));
    let mut out = Vec::new();
    unpack_indices_into_avx2_bw16(&packed(&spread(16), 16), 70, &mut out).unwrap();
    assert_eq!(out, spread(16));
    let mut out = Vec::new();
    unpack_indices_into_avx2_bw17(&packed(&spread(17), 17), 70, &mut out).unwrap();
    assert_eq!(out, spread(17));
    let mut out = Vec::new();
    unpack_indices_into_avx2_bw18(&packed(&spread(18), 18), 70, &mut out).unwrap();
    assert_eq!(out, spread(18));
    let mut out = Vec::new();
    unpack_indices_into_avx2_bw20(&packed(&spread(20), 20), 70, &mut out).unwrap();
    assert_eq!(out, spread(20));
    let mut out = Vec::new();
    unpack_indices_into_avx2_bw21(&packed(&spread(21), 21), 70, &mut out).unwrap();
    assert_eq!(out, spread(21));
    let mut out = Vec::new();
    unpack_indices_into_neon_bw1(&packed(&spread(1), 1), 70, &mut out).unwrap();
    assert_eq!(out, spread(1));
    let mut out = Vec::new();
    unpack_indices_into_neon_bw2(&packed(&spread(2), 2), 70, &mut out).unwrap();
    assert_eq!(out, spread(2));
    let mut out = Vec::new();
    unpack_indices_into_neon_bw3(&packed(&spread(3), 3), 70, &mut out).unwrap();
    assert_eq!(out, spread(3));
    let mut out = Vec::new();
    unpack_indices_into_neon_bw4(&packed(&spread(4), 4), 70, &mut out).unwrap();
    assert_eq!(out, spread(4));
    let mut out = Vec::new();
    unpack_indices_into_neon_bw5(&packed(&spread(5), 5), 70, &mut out).unwrap();
    assert_eq!(out, spread(5));
    let mut out = Vec::new();
    unpack_indices_into_neon_bw6(&packed(&spread(6), 6), 70, &mut out).unwrap();
    assert_eq!(out, spread(6));
    let mut out = Vec::new();
    unpack_indices_into_neon_bw7(&packed(&spread(7), 7), 70, &mut out).unwrap();
    assert_eq!(out, spread(7));
    let mut out = Vec::new();
    unpack_indices_into_neon_bw8(&packed(&spread(8), 8), 70, &mut out).unwrap();
    assert_eq!(out, spread(8));
    let mut out = Vec::new();
    unpack_indices_into_neon_bw9(&packed(&spread(9), 9), 70, &mut out).unwrap();
    assert_eq!(out, spread(9));
    let mut out = Vec::new();
    unpack_indices_into_neon_bw10(&packed(&spread(10), 10), 70, &mut out).unwrap();
    assert_eq!(out, spread(10));
    let mut out = Vec::new();
    unpack_indices_into_neon_bw11(&packed(&spread(11), 11), 70, &mut out).unwrap();
    assert_eq!(out, spread(11));
    let mut out = Vec::new();
    unpack_indices_into_neon_bw12(&packed(&spread(12), 12), 70, &mut out).unwrap();
    assert_eq!(out, spread(12));
    let mut out = Vec::new();
    unpack_indices_into_neon_bw13(&packed(&spread(13), 13), 70, &mut out).unwrap();
    assert_eq!(out, spread(13));
    let mut out = Vec::new();
    unpack_indices_into_neon_bw14(&packed(&spread(14), 14), 70, &mut out).unwrap();
    assert_eq!(out, spread(14));
    let mut out = Vec::new();
    unpack_indices_into_neon_bw15(&packed(&spread(15), 15), 70, &mut out).unwrap();
    assert_eq!(out, spread(15));
    let mut out = Vec::new();
    unpack_indices_into_neon_bw16(&packed(&spread(16), 16), 70, &mut out).unwrap();
    assert_eq!(out, spread(16));
    let mut out = Vec::new();
    unpack_indices_into_neon_bw17(&packed(&spread(17), 17), 70, &mut out).unwrap();
    assert_eq!(out, spread(17));
    let mut out = Vec::new();
    unpack_indices_into_neon_bw18(&packed(&spread(18), 18), 70, &mut out).unwrap();
    assert_eq!(out, spread(18));
    let mut out = Vec::new();
    unpack_indices_into_neon_bw19(&packed(&spread(19), 19), 70, &mut out).unwrap();
    assert_eq!(out, spread(19));
    let mut out = Vec::new();
    unpack_indices_into_neon_bw20(&packed(&spread(20), 20), 70, &mut out).unwrap();
    assert_eq!(out, spread(20));
    let mut out = Vec::new();
    unpack_indices_into_neon_bw21(&packed(&spread(21), 21), 70, &mut out).unwrap();
    assert_eq!(out, spread(21));
    let mut out = Vec::new();
    unpack_indices_into_neon_bw22(&packed(&spread(22), 22), 70, &mut out).unwrap();
    assert_eq!(out, spread(22));
    let mut out = Vec::new();
    unpack_indices_into_neon_bw23(&packed(&spread(23), 23), 70, &mut out).unwrap();
    assert_eq!(out, spread(23));
    let mut out = Vec::new();
    unpack_indices_into_neon_bw24(&packed(&spread(24), 24), 70, &mut out).unwrap();
    assert_eq!(out, spread(24));
    let mut out = Vec::new();
    unpack_indices_into_neon_bw25(&packed(&spread(25), 25), 70, &mut out).unwrap();
    assert_eq!(out, spread(25));
    let mut out = Vec::new();
    unpack_indices_into_neon_bw26(&packed(&spread(26), 26), 70, &mut out).unwrap();
    assert_eq!(out, spread(26));
    let mut out = Vec::new();
    unpack_indices_into_neon_bw27(&packed(&spread(27), 27), 70, &mut out).unwrap();
    assert_eq!(out, spread(27));
    let mut out = Vec::new();
    unpack_indices_into_neon_bw28(&packed(&spread(28), 28), 70, &mut out).unwrap();
    assert_eq!(out, spread(28));
    let mut out = Vec::new();
    unpack_indices_into_neon_bw29(&packed(&spread(29), 29), 70, &mut out).unwrap();
    assert_eq!(out, spread(29));
    let mut out = Vec::new();
    unpack_indices_into_neon_bw30(&packed(&spread(30), 30), 70, &mut out).unwrap();
    assert_eq!(out, spread(30));
    let mut out = Vec::new();
    unpack_indices_into_neon_bw31(&packed(&spread(31), 31), 70, &mut out).unwrap();
    assert_eq!(out, spread(31));
    let mut out = Vec::new();
    unpack_indices_into_neon_bw32(&packed(&spread(32), 32), 70, &mut out).unwrap();
    assert_eq!(out, spread(32));
}

#[test]
fn lookup_kernels_of_all_widths_look_up_what_they_unpack() {
    let dict: Vec<u32> = (0..1u32 << 21).map(|i| i ^ 0x5555).collect();
    let mut out = Vec::new();
    unpack_lookup_into_avx2_bw4(&packed(&spread(4), 4), 70, &dict, &mut out).unwrap();
    assert_eq!(out, spread(4).iter().map(|i| i ^ 0x5555).collect::<Vec<u32>>());
    let mut out = Vec::new();
    unpack_lookup_into_avx2_bw6(&packed(&spread(6), 6), 70, &dict, &mut out).unwrap();
    assert_eq!(out, spread(6).iter().map(|i| i ^ 0x5555).collect::<Vec<u32>>());
    let mut out = Vec::new();
    unpack_lookup_into_avx2_bw8(&packed(&spread(8), 8), 70, &dict, &mut out).unwrap();
    assert_eq!(out, spread(8).iter().map(|i| i ^ 0x5555).collect::<Vec<u32>>());
    let mut out = Vec::new();
    unpack_lookup_into_avx2_bw12(&packed(&spread(12), 12), 70, &dict, &mut out).unwrap();
    assert_eq!(out, spread(12).iter().map(|i| i ^ 0x5555).collect::<Vec<u32>>());
    let mut out = Vec::new();
    unpack_lookup_into_avx2_bw14(&packed(&spread(14), 14), 70, &dict, &mut out).unwrap();
    assert_eq!(out, spread(14).iter().map(|i| i ^ 0x5555).collect::<Vec<u32>>());
    let mut out = Vec::new();
    unpack_lookup_into_avx2_bw15(&packed(&spread(15), 15), 70, &dict, &mut out).unwrap();
    assert_eq!(out, spread(15).iter().map(|i| i ^ 0x5555).collect::<Vec<u32>>());
    let mut out = Vec::new();
    unpack_lookup_into_avx2_bw16(&packed(&spread(16), 16), 70, &dict, &mut out).unwrap();
    assert_eq!(out, spread(16).iter().map(|i| i ^ 0x5555).collect::<Vec<u32>>());
    let mut out = Vec::new();
    unpack_lookup_into_avx2_bw17(&packed(&spread(17), 17), 70, &dict, &mut out).unwrap();
    assert_eq!(out, spread(17).iter().map(|i| i ^ 0x5555).collect::<Vec<u32>>());
    let mut out = Vec::new();
    unpack_lookup_into_avx2_bw18(&packed(&spread(18), 18), 70, &dict, &mut out).unwrap();
    assert_eq!(out, spread(18).iter().map(|i| i ^ 0x5555).collect::<Vec<u32>>());
    let mut out = Vec::new();
    unpack_lookup_into_neon_bw1(&packed(&spread(1), 1), 70, &dict, &mut out).unwrap();
    assert_eq!(out, spread(1).iter().map(|i| i ^ 0x5555).collect::<Vec<u32>>());
    let mut out = Vec::new();
    unpack_lookup_into_neon_bw2(&packed(&spread(2), 2), 70, &dict, &mut out).unwrap();
    assert_eq!(out, spread(2).iter().map(|i| i ^ 0x5555).collect::<Vec<u32>>());
    let mut out = Vec::new();
    unpack_lookup_into_neon_bw3(&packed(&spread(3), 3), 70, &dict, &mut out).unwrap();
    assert_eq!(out, spread(3).iter().map(|i| i ^ 0x5555).collect::<Vec<u32>>());
    let mut out = Vec::new();
    unpack_lookup_into_neon_bw4(&packed(&spread(4), 4), 70, &dict, &mut out).unwrap();
    assert_eq!(out, spread(4).iter().map(|i| i ^ 0x5555).collect::<Vec<u32>>());
    let mut out = Vec::new();
    unpack_lookup_into_neon_bw5(&packed(&spread(5), 5), 70, &dict, &mut out).unwrap();
    assert_eq!(out, spread(5).iter().map(|i| i ^ 0x5555).collect::<Vec<u32>>());
    let mut out = Vec::new();
    unpack_lookup_into_neon_bw6(&packed(&spread(6), 6), 70, &dict, &mut out).unwrap();
    assert_eq!(out, spread(6).iter().map(|i| i ^ 0x5555).collect::<Vec<u32>>());
    let mut out = Vec::new();
    unpack_lookup_into_neon_bw8(&packed(&spread(8), 8), 70, &dict, &mut out).unwrap();
    assert_eq!(out, spread(8).iter().map(|i| i ^ 0x5555).collect::<Vec<u32>>());
    let mut out = Vec::new();
    unpack_lookup_into_neon_bw12(&packed(&spread(12), 12), 70, &dict, &mut out).unwrap();
    assert_eq!(out, spread(12).iter().map(|i| i ^ 0x5555).collect::<Vec<u32>>());
    let mut out = Vec::new();
    unpack_lookup_into_neon_bw14(&packed(&spread(14), 14), 70, &dict, &mut out).unwrap();
    assert_eq!(out, spread(14).iter().map(|i| i ^ 0x5555).collect::<Vec<u32>>());
    let mut out = Vec::new();
    unpack_lookup_into_neon_bw15(&packed(&spread(15), 15), 70, &dict, &mut out).unwrap();
    assert_eq!(out, spread(15).iter().map(|i| i ^ 0x5555).collect::<Vec<u32>>());
    let mut out = Vec::new();
    unpack_lookup_into_neon_bw16(&packed(&spread(16), 16), 70, &dict, &mut out).unwrap();
    assert_eq!(out, spread(16).iter().map(|i| i ^ 0x5555).collect::<Vec<u32>>());
    let mut out = Vec::new();
    unpack_lookup_into_neon_bw17(&packed(&spread(17), 17), 70, &dict, &mut out).unwrap();
    assert_eq!(out, spread(17).iter().map(|i| i ^ 0x5555).collect::<Vec<u32>>());
    let mut out = Vec::new();
    unpack_lookup_into_neon_bw18(&packed(&spread(18), 18), 70, &dict, &mut out).unwrap();
    assert_eq!(out, spread(18).iter().map(|i| i ^ 0x5555).collect::<Vec<u32>>());
    let mut out = Vec::new();
    unpack_lookup_into_neon_bw20(&packed(&spread(20), 20), 70, &dict, &mut out).unwrap();
    assert_eq!(out, spread(20).iter().map(|i| i ^ 0x5555).collect::<Vec<u32>>());
    let mut out = Vec::new();
    unpack_lookup_into_neon_bw21(&packed(&spread(21), 21), 70, &dict, &mut out).unwrap();
    assert_eq!(out, spread(21).iter().map(|i| i ^ 0x5555).collect::<Vec<u32>>());
}

#[test]
fn mask_kernels_of_all_widths_judge_what_they_unpack() {
    let mask: Vec<u8> = (0..1usize << 18).map(|i| (i % 3 == 0) as u8).collect();
    let mut out = Vec::new();
    decode_predicate_bitmap_neon_bw12(&packed(&spread(12), 12), 70, &mask, &mut out).unwrap();
    assert_eq!(out.len(), 9);
    for (row, v) in spread(12).iter().enumerate() {
        assert_eq!((out[row / 8] >> (row % 8)) & 1 == 1, v % 3 == 0);
    }
    let mut out = Vec::new();
    decode_predicate_bitmap_neon_bw14(&packed(&spread(14), 14), 70, &mask, &mut out).unwrap();
    assert_eq!(out.len(), 9);
    for (row, v) in spread(14).iter().enumerate() {
        assert_eq!((out[row / 8] >> (row % 8)) & 1 == 1, v % 3 == 0);
    }
    let mut out = Vec::new();
    decode_predicate_bitmap_neon_bw15(&packed(&spread(15), 15), 70, &mask, &mut out).unwrap();
    assert_eq!(out.len(), 9);
    for (row, v) in spread(15).iter().enumerate() {
        assert_eq!((out[row / 8] >> (row % 8)) & 1 == 1, v % 3 == 0);
    }
    let mut out = Vec::new();
    decode_predicate_bitmap_neon_bw16(&packed(&spread(16), 16), 70, &mask, &mut out).unwrap();
    assert_eq!(out.len(), 9);
    for (row, v) in spread(16).iter().enumerate() {
        assert_eq!((out[row / 8] >> (row % 8)) & 1 == 1, v % 3 == 0);
    }
    let mut out = Vec::new();
    decode_predicate_bitmap_neon_bw17(&packed(&spread(17), 17), 70, &mask, &mut out).unwrap();
    assert_eq!(out.len(), 9);
    for (row, v) in spread(17).iter().enumerate() {
        assert_eq!((out[row / 8] >> (row % 8)) & 1 == 1, v % 3 == 0);
    }
    let mut out = Vec::new();
    decode_predicate_bitmap_neon_bw18(&packed(&spread(18), 18), 70, &mask, &mut out).unwrap();
    assert_eq!(out.len(), 9);
    for (row, v) in spread(18).iter().enumerate() {
        assert_eq!((out[row / 8] >> (row % 8)) & 1 == 1, v % 3 == 0);
    }
}
