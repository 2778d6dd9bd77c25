use ematix_parquet_codec::byte_stream_split::{
    decode_byte_stream_split_f32, decode_byte_stream_split_f64, encode_byte_stream_split_f32,
    encode_byte_stream_split_f64,
};

fn roundtrip_f32(values: &[f32]) {
    let bits: Vec<u32> = values.iter().map(|v| v.to_bits()).collect();
    let encoded = encode_byte_stream_split_f32(&bits);
    assert_eq!(encoded.len(), values.len() * 4);
    let decoded = decode_byte_stream_split_f32(&encoded, values.len()).unwrap();
    // Bit-exact comparison via to_bits — survives NaN, ±0.
    for (a, b) in values.iter().zip(decoded.iter()) {
        assert_eq!(a.to_bits(), *b);
    }
}

fn roundtrip_f64(values: &[f64]) {
    let bits: Vec<u64> = values.iter().map(|v| v.to_bits()).collect();
    let encoded = encode_byte_stream_split_f64(&bits);
    assert_eq!(encoded.len(), values.len() * 8);
    let decoded = decode_byte_stream_split_f64(&encoded, values.len()).unwrap();
    for (a, b) in values.iter().zip(decoded.iter()) {
        assert_eq!(a.to_bits(), *b);
    }
}

#[test]
fn f32_roundtrip_simple() {
    roundtrip_f32(&[1.0, -2.0, 3.14, 0.0, f32::NAN, f32::INFINITY, f32::NEG_INFINITY]);
}

#[test]
fn f32_roundtrip_many() {
    let v: Vec<f32> = (0..1000).map(|i| (i as f32) * 0.5 - 100.0).collect();
    roundtrip_f32(&v);
}

#[test]
fn f32_roundtrip_extremes() {
    roundtrip_f32(&[
        f32::MIN,
        f32::MAX,
        f32::EPSILON,
        -f32::EPSILON,
        -0.0,
        0.0,
        f32::MIN_POSITIVE,
    ]);
}

#[test]
fn f64_roundtrip_simple() {
    roundtrip_f64(&[1.0, -2.0, 3.14159265358979, 0.0, -0.0, f64::INFINITY]);
}

#[test]
fn f64_roundtrip_many() {
    let v: Vec<f64> = (0..500).map(|i| (i as f64) / 7.0 - 50.0).collect();
    roundtrip_f64(&v);
}

#[test]
fn empty_input_yields_empty_output() {
    assert!(encode_byte_stream_split_f32(&[]).is_empty());
    assert!(encode_byte_stream_split_f64(&[]).is_empty());
    assert!(decode_byte_stream_split_f32(&[], 0).unwrap().is_empty());
    assert!(decode_byte_stream_split_f64(&[], 0).unwrap().is_empty());
}

#[test]
fn wrong_byte_count_rejected() {
    // 7 bytes can't be a complete f32 stream of any N.
    assert!(decode_byte_stream_split_f32(&[0u8; 7], 2).is_err());
    // 9 bytes can't be a complete f64 stream of N=2 (would need 16).
    assert!(decode_byte_stream_split_f64(&[0u8; 9], 2).is_err());
}
