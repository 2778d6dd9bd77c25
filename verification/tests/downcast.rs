use ematix_parquet_codec::downcast::{
    decode_plain_i64_auto, decode_plain_i64_frame_auto, decode_plain_i64_narrowed,
    frame_of_reference_target, narrowest_int_target, IntTarget, NarrowedI64,
};
use ematix_parquet_codec::plain::decode_plain_i64;
use ematix_parquet_codec::CodecError;


fn plain_bytes(vals: &[i64]) -> Vec<u8> {
    let mut b = Vec::with_capacity(vals.len() * 8);
    for &v in vals {
        b.extend_from_slice(&v.to_le_bytes());
    }
    b
}

#[test]
fn narrowest_target_picks_smallest_fitting_width() {
    // 1 byte
    assert_eq!(narrowest_int_target(1, 7), IntTarget::I8); // l_linenumber
    assert_eq!(narrowest_int_target(1, 50), IntTarget::I8); // l_quantity
    assert_eq!(narrowest_int_target(0, 24), IntTarget::I8); // nationkey
    assert_eq!(narrowest_int_target(-128, 127), IntTarget::I8);
    // exceeds i8 but non-negative & fits u8
    assert_eq!(narrowest_int_target(0, 200), IntTarget::U8);
    assert_eq!(narrowest_int_target(0, 255), IntTarget::U8);
    // 2 bytes
    assert_eq!(narrowest_int_target(-129, 127), IntTarget::I16);
    assert_eq!(narrowest_int_target(0, 32_767), IntTarget::I16);
    assert_eq!(narrowest_int_target(0, 40_000), IntTarget::U16);
    assert_eq!(narrowest_int_target(0, 65_535), IntTarget::U16);
    // 4 bytes — TPC-H SF=100 l_orderkey range (~600M fits i32)
    assert_eq!(narrowest_int_target(1, 600_000_000), IntTarget::I32);
    assert_eq!(narrowest_int_target(-1, i32::MAX as i64), IntTarget::I32);
    // exceeds i32 but non-negative & fits u32 (SF~300-700 headroom)
    assert_eq!(narrowest_int_target(0, i32::MAX as i64 + 1), IntTarget::U32);
    assert_eq!(narrowest_int_target(0, u32::MAX as i64), IntTarget::U32);
    // 8 bytes — no narrowing
    assert_eq!(narrowest_int_target(0, u32::MAX as i64 + 1), IntTarget::I64);
    assert_eq!(narrowest_int_target(i64::MIN, i64::MAX), IntTarget::I64);
    assert_eq!(narrowest_int_target(-1, i64::MAX), IntTarget::I64);
}

#[test]
fn width_bytes_are_correct() {
    assert_eq!(IntTarget::I8.width_bytes(), 1);
    assert_eq!(IntTarget::U8.width_bytes(), 1);
    assert_eq!(IntTarget::I16.width_bytes(), 2);
    assert_eq!(IntTarget::U16.width_bytes(), 2);
    assert_eq!(IntTarget::I32.width_bytes(), 4);
    assert_eq!(IntTarget::U32.width_bytes(), 4);
    assert_eq!(IntTarget::I64.width_bytes(), 8);
    assert!(IntTarget::I32.is_narrowing());
    assert!(!IntTarget::I64.is_narrowing());
}

#[test]
fn auto_decode_roundtrips_against_independent_i64_path() {
    // Cross-check: the narrowed decode, re-widened, must equal the
    // independent decode_plain_i64 path. A symmetric bug in both can't
    // pass because they share no code (one casts per value, the other
    // memcpys 8-byte words).
    let cases: Vec<Vec<i64>> = vec![
        vec![1, 2, 3, 4, 5, 6, 7],         // -> I8
        vec![0, 24, 13, 7, 1],             // -> I8
        vec![0, 200, 100, 255],            // -> U8
        vec![-100, 30_000, 0, -1],         // -> I16
        vec![1, 600_000_000, 250_000_000], // -> I32 (SF=100 orderkey-ish)
        vec![0, 3_000_000_000, 42],        // -> U32 (exceeds i32)
        vec![0, 10_000_000_000, 1],        // -> I64 (no narrowing)
    ];
    let expected_targets = [
        IntTarget::I8,
        IntTarget::I8,
        IntTarget::U8,
        IntTarget::I16,
        IntTarget::I32,
        IntTarget::U32,
        IntTarget::I64,
    ];
    for (vals, want_target) in cases.iter().zip(expected_targets) {
        let bytes = plain_bytes(vals);
        let min = *vals.iter().min().unwrap();
        let max = *vals.iter().max().unwrap();
        let narrowed = decode_plain_i64_auto(&bytes, min, max).unwrap();
        assert_eq!(narrowed.target(), want_target, "wrong target for {vals:?}");
        // Re-widened narrowed values == independent i64 decode.
        let ground_truth = decode_plain_i64(&bytes).unwrap();
        assert_eq!(
            narrowed.to_i64(),
            ground_truth,
            "value mismatch for {vals:?}"
        );
        assert_eq!(narrowed.len(), vals.len());
    }
}

#[test]
fn narrowing_actually_shrinks_footprint() {
    // SF=100 orderkey-shaped: i32 target halves bytes vs i64.
    let vals: Vec<i64> = (1..=1000).map(|i| i * 600_000).collect(); // max 600M
    let bytes = plain_bytes(&vals);
    let narrowed = decode_plain_i64_auto(&bytes, 600_000, 600_000_000).unwrap();
    assert_eq!(narrowed.target(), IntTarget::I32);
    assert_eq!(narrowed.byte_size(), vals.len() * 4);
    // vs the i64 path footprint
    let i64_footprint = decode_plain_i64(&bytes).unwrap().len() * 8;
    assert_eq!(narrowed.byte_size() * 2, i64_footprint);
}

#[test]
fn explicit_target_decode_matches_cast() {
    let vals: Vec<i64> = vec![-5, -1, 0, 1, 100, 127];
    let bytes = plain_bytes(&vals);
    let narrowed = decode_plain_i64_narrowed(&bytes, IntTarget::I8).unwrap();
    match narrowed {
        NarrowedI64::I8(v) => {
            let expect: Vec<i8> = vals.iter().map(|&x| x as i8).collect();
            assert_eq!(v, expect);
        }
        other => panic!("expected I8, got {other:?}"),
    }
}

#[test]
fn i64_target_equals_plain_decode() {
    let vals: Vec<i64> = vec![i64::MIN, -1, 0, 1, i64::MAX, 10_000_000_000];
    let bytes = plain_bytes(&vals);
    let narrowed = decode_plain_i64_narrowed(&bytes, IntTarget::I64).unwrap();
    assert_eq!(
        narrowed,
        NarrowedI64::I64(decode_plain_i64(&bytes).unwrap())
    );
}

#[test]
fn empty_buffer_is_empty_not_error() {
    let narrowed = decode_plain_i64_auto(&[], 0, 0).unwrap();
    assert!(narrowed.is_empty());
    // min==max==0 -> narrowest is I8
    assert_eq!(narrowed.target(), IntTarget::I8);
}

#[test]
fn unaligned_buffer_errors() {
    let bytes = vec![0u8; 12]; // not a multiple of 8
    let err = decode_plain_i64_narrowed(&bytes, IntTarget::I32);
    assert!(matches!(
        err,
        Err(CodecError::UnalignedPlainBuffer {
            value_width: 8,
            buffer_len: 12
        })
    ));
}

// -----------------------------------------------------------------
// Frame-of-reference (offset-from-min) narrowing.
// For clustered-but-large ranges the ABSOLUTE value needs a wide
// target but the SPAN (max-min) fits a narrower one; decode
// `value - min` into the span's width and carry `min`. Order +
// equality are preserved (offset is a constant) so keys/dates run
// narrow and only the final output re-widens.
// -----------------------------------------------------------------

#[test]
fn frame_target_narrows_clustered_large_range() {
    // Absolute range needs I32 (max ~1e9); the span (2000) fits I16.
    let (offset, target) = frame_of_reference_target(1_000_000_000, 1_000_002_000);
    assert_eq!(offset, 1_000_000_000);
    assert_eq!(target, IntTarget::I16);
    // ...whereas absolute narrowing only reaches I32.
    assert_eq!(
        narrowest_int_target(1_000_000_000, 1_000_002_000),
        IntTarget::I32
    );
}

#[test]
fn frame_roundtrips_to_i64() {
    let vals: Vec<i64> = vec![1_000_000_000, 1_000_000_500, 1_000_002_000, 1_000_000_001];
    let bytes = plain_bytes(&vals);
    let fr = decode_plain_i64_frame_auto(&bytes, 1_000_000_000, 1_000_002_000).unwrap();
    assert_eq!(fr.target(), IntTarget::I16);
    assert_eq!(fr.offset, 1_000_000_000);
    assert_eq!(fr.byte_size(), vals.len() * 2); // narrow delta width
    assert_eq!(fr.len(), vals.len());
    assert_eq!(fr.to_i64(), vals); // add-back is lossless
}

#[test]
fn frame_handles_negative_min() {
    let vals: Vec<i64> = vec![-1000, 0, 1000, -1, 999];
    let bytes = plain_bytes(&vals);
    let fr = decode_plain_i64_frame_auto(&bytes, -1000, 1000).unwrap();
    assert_eq!(fr.offset, -1000);
    assert_eq!(fr.target(), IntTarget::I16); // span 2000 -> I16
    assert_eq!(fr.to_i64(), vals);
}

#[test]
fn frame_beats_absolute_when_clustered() {
    // SF~1000 orderkey row-group shape: base > i32::MAX (absolute U32,
    // 4 bytes) but a single row-group spans <65536 -> U16 (2 bytes).
    let base = 2_400_000_000i64; // > i32::MAX
    let vals: Vec<i64> = (0..1000).map(|i| base + i * 60).collect(); // span 59_940
    let bytes = plain_bytes(&vals);
    let abs = decode_plain_i64_auto(&bytes, base, base + 59_940).unwrap();
    let fr = decode_plain_i64_frame_auto(&bytes, base, base + 59_940).unwrap();
    assert_eq!(abs.target(), IntTarget::U32); // absolute: 4 bytes
    assert_eq!(fr.target(), IntTarget::U16); // frame-of-ref: 2 bytes
    assert!(fr.byte_size() < abs.byte_size()); // FOR narrows further
    assert_eq!(fr.to_i64(), abs.to_i64()); // identical values
}

#[test]
fn frame_span_overflow_falls_back_to_plain() {
    // Full-i64 span can't narrow -> offset 0, I64, identity (== plain).
    let vals: Vec<i64> = vec![i64::MIN, 0, i64::MAX];
    let bytes = plain_bytes(&vals);
    let fr = decode_plain_i64_frame_auto(&bytes, i64::MIN, i64::MAX).unwrap();
    assert_eq!(fr.offset, 0);
    assert_eq!(fr.target(), IntTarget::I64);
    assert_eq!(fr.to_i64(), vals);
}

#[test]
fn frame_empty_buffer_is_empty() {
    let fr = decode_plain_i64_frame_auto(&[], 100, 100).unwrap();
    assert!(fr.is_empty());
}
