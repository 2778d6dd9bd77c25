use ematix_parquet_codec::bitpack::{unpack_indices_into, unpack_lookup_into};
use ematix_parquet_codec::column::{DictColumnChunk, Segment};
use ematix_parquet_codec::cursor::{write_uvarint, write_zigzag_i32, Cursor};
use ematix_parquet_codec::delta::{
    decode_delta_byte_array, decode_delta_i32, decode_delta_i64, decode_delta_length_byte_array,
};
use ematix_parquet_codec::dict::{
    build_dict_predicate_mask, decode_rle_dictionary_indices, decode_rle_dictionary_into,
    decode_rle_dictionary_predicate_bitmap, decode_rle_dictionary_predicate_bitmap_bw12,
    gather_dict_at_bitmap_into, lookup_dict, popcount_range,
};
use ematix_parquet_codec::error::FormatError;
use ematix_parquet_codec::levels::{
    bit_width_for, decode_levels, parse_v1_data_page_body, skip_v1_level_prefixes,
};
use ematix_parquet_codec::page_index::{
    select_pages_overlapping_i32, select_pages_overlapping_i64, ColumnIndex,
};
use ematix_parquet_codec::plain::{
    decode_plain_i32, decode_plain_i64, encode_plain_i32, encode_plain_i64,
};
use ematix_parquet_codec::rle::decode_rle_bit_packed;
use ematix_parquet_codec::CodecError;
use std::sync::Arc;

#[test]
fn uvarints_round_trip() {
    for z in [0u64, 1, 127, 128, 300, u32::MAX as u64, u64::MAX] {
        let mut out = Vec::new();
        write_uvarint(&mut out, z);
        let mut cur = Cursor::new(&out);
        assert_eq!(cur.read_uvarint(), Ok(z));
        assert_eq!(cur.remaining(), 0);
    }
    let mut out = Vec::new();
    write_uvarint(&mut out, 300);
    assert_eq!(out, vec![0xAC, 0x02]);
}

#[test]
fn zigzag_integers_round_trip() {
    for v in [0i32, -1, 1, i32::MIN, i32::MAX] {
        let mut out = Vec::new();
        write_zigzag_i32(&mut out, v);
        assert_eq!(Cursor::new(&out).read_zigzag_i32(), Ok(v));
    }
    assert_eq!(Cursor::new(&[0x80, 0x80]).read_uvarint(), Err(FormatError::UnexpectedEof));
    assert_eq!(Cursor::new(&[0xFF; 11]).read_uvarint(), Err(FormatError::VarintOverflow));
}

#[test]
fn packed_indices_unpack_from_the_low_end() {
    // 0..8 at three bits each.
    let packed = [0x88u8, 0xC6, 0xFA];
    let mut out = Vec::new();
    unpack_indices_into(&packed, 8, 3, &mut out).unwrap();
    assert_eq!(out, vec![0, 1, 2, 3, 4, 5, 6, 7]);
    let mut values = vec![99i64];
    unpack_lookup_into(&packed, 8, 3, &[10i64, 11, 12, 13, 14, 15, 16, 17], &mut values).unwrap();
    assert_eq!(values, vec![99, 10, 11, 12, 13, 14, 15, 16, 17]);
    let mut short = Vec::new();
    let r = unpack_lookup_into(&packed, 8, 3, &[10i64, 11, 12], &mut short);
    assert!(matches!(r, Err(CodecError::DictIndexOutOfRange { index: 3, dict_size: 3 })));
    assert_eq!(short, vec![10, 11, 12]);
    assert!(matches!(
        unpack_indices_into(&packed, 8, 33, &mut out),
        Err(CodecError::BitWidthOutOfRange(33))
    ));
}

#[test]
fn hybrid_runs_decode_in_order() {
    // Three fives, then one bit-packed group of eight.
    let bytes = [0x06u8, 5, 0x03, 0x88, 0xC6, 0xFA];
    assert_eq!(
        decode_rle_bit_packed(&bytes, 3, 11).unwrap(),
        vec![5, 5, 5, 0, 1, 2, 3, 4, 5, 6, 7]
    );
    assert_eq!(decode_rle_bit_packed(&bytes, 3, 2).unwrap(), vec![5, 5]);
    assert!(decode_rle_bit_packed(&bytes, 3, 12).is_err());
    assert!(matches!(
        decode_rle_bit_packed(&bytes, 65, 1),
        Err(CodecError::BitWidthOutOfRange(65))
    ));
}

fn page() -> Vec<u8> {
    // Bit width 3, then the runs of the test above.
    vec![3, 0x06, 5, 0x03, 0x88, 0xC6, 0xFA]
}

#[test]
fn dictionary_pages_decode_to_indices_and_values() {
    let dict: Vec<i32> = (0..8).map(|i| i * 100).collect();
    let indices = decode_rle_dictionary_indices(&page(), 11).unwrap();
    assert_eq!(indices, vec![5, 5, 5, 0, 1, 2, 3, 4, 5, 6, 7]);
    let mut out = Vec::new();
    decode_rle_dictionary_into(&page(), &dict, 11, &mut out).unwrap();
    assert_eq!(out, lookup_dict(&dict, &indices).unwrap());
    assert_eq!(out[4], 100);
    assert!(matches!(
        decode_rle_dictionary_indices(&[], 1),
        Err(CodecError::EmptyDictPageBody)
    ));
    assert!(matches!(
        decode_rle_dictionary_indices(&[33], 1),
        Err(CodecError::BitWidthOutOfRange(33))
    ));
    assert!(matches!(
        decode_rle_dictionary_into(&page(), &dict[..5], 11, &mut out),
        Err(CodecError::DictIndexOutOfRange { index: 5, dict_size: 5 })
    ));
    assert!(matches!(
        lookup_dict(&dict, &[8]),
        Err(CodecError::DictIndexOutOfRange { index: 8, dict_size: 8 })
    ));
}

#[test]
fn predicate_bitmap_is_mask_of_indices() {
    let dict: Vec<i32> = (0..8).collect();
    let mask = build_dict_predicate_mask(&dict, 3, |v: &i32| *v >= 5).unwrap();
    assert_eq!(mask, vec![0, 0, 0, 0, 0, 1, 1, 1]);
    let mut bitmap = vec![0xEE];
    decode_rle_dictionary_predicate_bitmap(&page(), 11, &mask, &mut bitmap).unwrap();
    // Rows 0, 1, 2, 8, 9 and 10 pass.
    assert_eq!(bitmap, vec![0xEE, 0b0000_0111, 0b0000_0111]);
    assert_eq!(popcount_range(&bitmap, 8, 19), 6);
    assert_eq!(popcount_range(&bitmap, 3, 3), 0);
    let mut out = Vec::new();
    gather_dict_at_bitmap_into(&page(), 11, &bitmap, 8, &dict, &mut out).unwrap();
    assert_eq!(out, vec![5, 5, 5, 5, 6, 7]);
    assert!(matches!(
        decode_rle_dictionary_predicate_bitmap(&page(), 11, &mask[..4], &mut bitmap),
        Err(CodecError::Decompress(_))
    ));
    let e = decode_rle_dictionary_predicate_bitmap_bw12(&page(), 11, &mask, &mut bitmap);
    match e {
        Err(CodecError::Decompress(t)) => assert!(t.contains("got 3"), "{t}"),
        other => panic!("expected Decompress, got {other:?}"),
    }
    assert!(build_dict_predicate_mask(&dict, 2, |_: &i32| true).is_err());
    assert!(build_dict_predicate_mask(&dict, 0, |_: &i32| true).is_err());
}

#[test]
fn delta_streams_decode() {
    // Block of 128 in four mini-blocks, three values, first 7; least delta 2
    // and widths of one bit.
    let mut bytes = vec![0x80, 0x01, 0x04, 0x03, 0x0E, 0x04, 1, 0, 0, 0];
    bytes.extend_from_slice(&[0b10, 0, 0, 0]);
    assert_eq!(decode_delta_i64(&bytes).unwrap(), vec![7, 9, 12]);
    assert_eq!(decode_delta_i32(&bytes).unwrap(), vec![7, 9, 12]);
    assert!(decode_delta_i64(&bytes[..6]).is_err());
    assert!(decode_delta_i64(&[]).is_err());
}

#[test]
fn delta_strings_decode() {
    // Lengths 2, 2, 2: one block without deltas other than zero.
    let lengths = vec![0x80, 0x01, 0x04, 0x03, 0x04, 0x00, 0, 0, 0, 0];
    let mut bytes = lengths.clone();
    bytes.extend_from_slice(b"aabbcc");
    assert_eq!(
        decode_delta_length_byte_array(&bytes).unwrap(),
        vec![b"aa".to_vec(), b"bb".to_vec(), b"cc".to_vec()]
    );
    // Prefixes 0, 0, 0 before them.
    let mut prefixed = vec![0x80, 0x01, 0x04, 0x03, 0x00, 0x00, 0, 0, 0, 0];
    prefixed.extend_from_slice(&bytes);
    assert_eq!(
        decode_delta_byte_array(&prefixed).unwrap(),
        vec![b"aa".to_vec(), b"bb".to_vec(), b"cc".to_vec()]
    );
    assert!(decode_delta_length_byte_array(&bytes[..12]).is_err());
}

#[test]
fn levels_are_cut_off_the_page() {
    assert_eq!(bit_width_for(0), 0);
    assert_eq!(bit_width_for(1), 1);
    assert_eq!(bit_width_for(4), 3);
    // Four bytes of length, then one run of three ones.
    let body = [2u8, 0, 0, 0, 0x06, 1, 0xAA, 0xBB];
    assert_eq!(decode_levels(&body, 1, 3).unwrap(), (vec![1, 1, 1], 6));
    let (rep, def, rest) = parse_v1_data_page_body(&body, 0, 1, 3).unwrap();
    assert_eq!(rep, vec![0, 0, 0]);
    assert_eq!(def, vec![1, 1, 1]);
    assert_eq!(rest, &[0xAA, 0xBB]);
    assert_eq!(skip_v1_level_prefixes(&body, 0, 1).unwrap(), 6);
    assert_eq!(skip_v1_level_prefixes(&body, 0, 0).unwrap(), 0);
    assert!(decode_levels(&[9, 0, 0, 0, 1], 1, 3).is_err());
}

#[test]
fn plain_integers_decode() {
    let mut bytes = encode_plain_i64(-2);
    bytes.extend_from_slice(&encode_plain_i64(i64::MAX));
    assert_eq!(decode_plain_i64(&bytes).unwrap(), vec![-2, i64::MAX]);
    assert_eq!(encode_plain_i32(-2), vec![0xFE, 0xFF, 0xFF, 0xFF]);
    assert_eq!(decode_plain_i32(&encode_plain_i32(-7)).unwrap(), vec![-7]);
    assert!(matches!(
        decode_plain_i32(&[0; 5]),
        Err(CodecError::UnalignedPlainBuffer { value_width: 4, buffer_len: 5 })
    ));
}

#[test]
fn pages_are_selected_by_their_bounds() {
    let idx = ColumnIndex {
        null_pages: vec![false, false, true],
        min_values: vec![encode_plain_i64(0), encode_plain_i64(100), vec![]],
        max_values: vec![encode_plain_i64(50), encode_plain_i64(150), vec![]],
    };
    assert_eq!(select_pages_overlapping_i64(&idx, 40, 60).unwrap(), vec![true, false, false]);
    assert_eq!(select_pages_overlapping_i64(&idx, 50, 100).unwrap(), vec![true, true, false]);
    assert!(select_pages_overlapping_i64(&idx, 2, 1).is_err());
    assert!(select_pages_overlapping_i32(&idx, 0, 1).is_err());
}

#[test]
fn chunks_keep_their_dictionary() {
    let chunk = DictColumnChunk::new(
        Some(Arc::new(vec![10i32, 20, 30])),
        vec![Segment::DictIndices(vec![2, 0, 2]), Segment::Plain(vec![7, 30])],
        5,
    );
    assert_eq!(chunk.collect(), vec![30, 10, 30, 7, 30]);
    let mask = chunk.filter(|v| v == 30);
    assert_eq!(mask, vec![true, false, true, false, true]);
    assert_eq!(chunk.count_matching(|v| v == 30), 3);
    assert_eq!(chunk.gather(&mask), vec![30, 30, 30]);
}

#[test]
fn chunks_read_alike_however_their_pages_are_written() {
    let dict = Some(Arc::new(vec![10i32, 20, 30]));
    let layouts = vec![
        vec![Segment::DictIndices(vec![2, 0, 2]), Segment::Plain(vec![7, 30])],
        vec![
            Segment::DictIndices(vec![2]),
            Segment::DictIndices(vec![0, 2]),
            Segment::Plain(vec![7, 30]),
        ],
        vec![Segment::Plain(vec![30, 10, 30]), Segment::Plain(vec![7]), Segment::Plain(vec![30])],
    ];
    for segments in layouts {
        let chunk = DictColumnChunk::new(dict.clone(), segments, 5);
        assert_eq!(chunk.collect(), vec![30, 10, 30, 7, 30]);
        let kept = chunk.filter(|v| v >= 10);
        assert_eq!(chunk.count_matching(|v| v >= 10), 4);
        assert_eq!(kept.iter().filter(|k| **k).count(), 4);
        assert_eq!(chunk.collect().iter().filter(|v| **v >= 10).count(), 4);
    }
}

fn decompress_text<T: std::fmt::Debug>(r: Result<T, CodecError>) -> String {
    match r {
        Err(CodecError::Decompress(t)) => t,
        other => panic!("expected Decompress, got {other:?}"),
    }
}

#[test]
fn delta_streams_say_why_they_are_refused() {
    // Block size, mini-blocks, values, first value.
    assert_eq!(
        decompress_text(decode_delta_i32(&[8, 0, 2, 0])),
        "DELTA_BINARY_PACKED: mini_blocks_per_block must be > 0"
    );
    assert_eq!(
        decompress_text(decode_delta_i64(&[8, 3, 2, 0])),
        "DELTA_BINARY_PACKED: block_size must be a multiple of mini_blocks_per_block"
    );
    assert_eq!(
        decompress_text(decode_delta_i64(&[65, 65, 2, 0, 0])),
        "DELTA_BINARY_PACKED: mini_blocks_per_block too large"
    );
    assert_eq!(
        decompress_text(decode_delta_i64(&[8, 1, 2, 0, 0, 33])),
        "DELTA_BINARY_PACKED: i64 DELTA with bit_width > 32 not yet supported \
         (unusual in practice; writer would normally emit PLAIN)"
    );
    assert_eq!(decode_delta_i32(&[8, 0, 0, 0]).unwrap(), Vec::<i32>::new());
    // Sums wrap at the width of the values.
    assert_eq!(decode_delta_i32(&[8, 1, 2, 0xFE, 0xFF, 0xFF, 0xFF, 0x0F, 2, 0]).unwrap(), vec![
        i32::MAX,
        i32::MIN
    ]);
}

#[test]
fn shared_prefixes_grow_strings() {
    // Prefixes 0 and 2, suffix lengths 3 and 1.
    let prefixes = [8u8, 1, 2, 0, 4, 0];
    let suffixes = [8u8, 1, 2, 6, 3, 0];
    let mut bytes = [prefixes, suffixes].concat();
    bytes.extend_from_slice(b"axisy");
    assert_eq!(
        decode_delta_byte_array(&bytes).unwrap(),
        vec![b"axi".to_vec(), b"axs".to_vec()]
    );
    // The second prefix is longer than the first value.
    let far = [8u8, 1, 2, 0, 8, 0];
    let mut bytes = [far, suffixes].concat();
    bytes.extend_from_slice(b"axis");
    assert_eq!(
        decompress_text(decode_delta_byte_array(&bytes)),
        "DELTA_BYTE_ARRAY: prefix_length exceeds prior value length"
    );
    let mut bytes = [[8u8, 1, 1, 0].to_vec(), suffixes.to_vec()].concat();
    bytes.extend_from_slice(b"axis");
    assert_eq!(
        decompress_text(decode_delta_byte_array(&bytes)),
        "DELTA_BYTE_ARRAY: prefix_lengths and suffix_lengths length mismatch"
    );
    assert_eq!(
        decompress_text(decode_delta_length_byte_array(&[8, 1, 1, 1])),
        "DELTA_BYTE_ARRAY: negative length"
    );
}

#[test]
fn gathering_reads_the_bits_of_its_rows_only() {
    let dict: Vec<i32> = (0..8).collect();
    let mut all = Vec::new();
    decode_rle_dictionary_into(&page(), &dict, 11, &mut all).unwrap();
    let mut out = vec![-1];
    gather_dict_at_bitmap_into(&page(), 11, &[0xFF, 0xFF], 3, &dict, &mut out).unwrap();
    assert_eq!(out[0], -1);
    assert_eq!(&out[1..], &all[..]);
    // Bits before and after the rows are set, those of the rows are not.
    let mut out = vec![-1];
    gather_dict_at_bitmap_into(&page(), 11, &[0b0000_0111, 0b1100_0000], 3, &dict, &mut out)
        .unwrap();
    assert_eq!(out, vec![-1]);
}

#[test]
fn gathering_needs_no_bits_for_rows_before_which_it_fails() {
    let dict: Vec<i32> = (0..8).collect();
    let mut out = Vec::new();
    assert!(matches!(
        gather_dict_at_bitmap_into(&[], 5, &[], 0, &dict, &mut out),
        Err(CodecError::EmptyDictPageBody)
    ));
    assert!(matches!(
        gather_dict_at_bitmap_into(&[33], 5, &[], 0, &dict, &mut out),
        Err(CodecError::BitWidthOutOfRange(33))
    ));
    assert!(matches!(
        gather_dict_at_bitmap_into(&page(), 11, &[], 0, &dict[..5], &mut out),
        Err(CodecError::DictIndexOutOfRange { index: 5, dict_size: 5 })
    ));
    // Three rows are read before the stream ends.
    gather_dict_at_bitmap_into(&page()[..3], 11, &[0xFF], 0, &dict, &mut out).unwrap_err();
    assert_eq!(out, vec![5, 5, 5]);
}

#[test]
fn pages_of_width_twelve_have_a_decoder_of_their_own() {
    // One run of eight indices of twelve bits: 0 and 1 in turn.
    let body = [12u8, 0x03, 0x00, 0x10, 0x00, 0x00, 0x10, 0x00, 0x00, 0x10, 0x00, 0x00, 0x10, 0x00];
    let mut mask = vec![0u8; 4096];
    mask[1] = 1;
    let (mut a, mut b) = (vec![7], vec![7]);
    decode_rle_dictionary_predicate_bitmap(&body, 8, &mask, &mut a).unwrap();
    decode_rle_dictionary_predicate_bitmap_bw12(&body, 8, &mask, &mut b).unwrap();
    assert_eq!(a, vec![7, 0b1010_1010]);
    assert_eq!(a, b);
    assert!(decode_rle_dictionary_predicate_bitmap_bw12(&body, 8, &mask[..9], &mut b).is_err());
    assert!(decode_rle_dictionary_predicate_bitmap_bw12(&[], 8, &mask, &mut b).is_err());
    assert_eq!(a, b);
}
