use ematix_parquet_codec::compression::{
    brotli_settings, cap_with_slack, check_cap, check_declared, compress_brotli, compress_gzip, compress_lz4_raw,
    compress_snappy, compress_zstd, compress_zstd_at_level, decompress_brotli,
    decompress_brotli_into_capped, decompress_gzip, decompress_gzip_into_capped,
    decompress_lz4_raw, decompress_lz4_raw_into_sized, decompress_snappy, decompress_snappy_into,
    decompress_zstd, decompress_zstd_into_capped, encoded, lz4_raw_uncompressed_size,
    zstd_outcome, StreamError,
};
use ematix_parquet_codec::CodecError;

fn text() -> Vec<u8> {
    b"the quick brown fox jumps over the lazy dog, over and over and over again"
        .iter()
        .copied()
        .cycle()
        .take(3000)
        .collect()
}

#[test]
fn snappy_reads_back() {
    let packed = compress_snappy(&text()).unwrap();
    assert_ne!(packed, text());
    assert_eq!(decompress_snappy(&packed).unwrap(), text());
    let mut out = vec![1, 2, 3];
    decompress_snappy_into(&packed, &mut out).unwrap();
    assert_eq!(out, text());
    assert!(decompress_snappy(&[]).is_err());
    assert!(decompress_snappy(&[0xFF; 6]).is_err());
    let mut cut = packed.clone();
    cut.truncate(packed.len() / 2);
    assert!(decompress_snappy(&cut).is_err());
}

#[test]
fn zstd_reads_back() {
    let packed = compress_zstd(&text()).unwrap();
    assert_ne!(packed, text());
    assert_eq!(decompress_zstd(&packed).unwrap(), text());
    let more = compress_zstd_at_level(&text(), 9).unwrap();
    let mut out = Vec::new();
    decompress_zstd_into_capped(&more, 3000, &mut out).unwrap();
    assert_eq!(out, text());
    assert!(decompress_zstd_into_capped(&more, 100, &mut out).is_err());
    assert!(decompress_zstd(b"not a frame").is_err());
}

#[test]
fn gzip_reads_back() {
    let packed = compress_gzip(&text()).unwrap();
    assert_eq!(&packed[..2], &[0x1F, 0x8B]);
    assert_eq!(decompress_gzip(&packed).unwrap(), text());
    let mut out = Vec::new();
    decompress_gzip_into_capped(&packed, 3000, &mut out).unwrap();
    assert_eq!(out, text());
    match decompress_gzip_into_capped(&packed, 100, &mut out) {
        Err(CodecError::Decompress(t)) => assert!(t.contains("exceeds cap"), "{t}"),
        other => panic!("expected Decompress, got {other:?}"),
    }
    assert!(decompress_gzip(b"not a member").is_err());
}

#[test]
fn brotli_is_set_once() {
    let settings = brotli_settings();
    assert_eq!((settings.buffer, settings.quality, settings.window), (4096, 6, 22));
    assert_eq!(decompress_brotli(&compress_brotli(&[]).unwrap()).unwrap(), Vec::<u8>::new());
}

#[test]
fn brotli_reads_back() {
    let packed = compress_brotli(&text()).unwrap();
    assert_ne!(packed, text());
    assert_eq!(decompress_brotli(&packed).unwrap(), text());
    let mut out = Vec::new();
    decompress_brotli_into_capped(&packed, 3000, &mut out).unwrap();
    assert_eq!(out, text());
    assert!(decompress_brotli_into_capped(&packed, 100, &mut out).is_err());
}

#[test]
fn lz4_reads_back() {
    let packed = compress_lz4_raw(&text()).unwrap();
    assert_ne!(packed, text());
    assert_eq!(lz4_raw_uncompressed_size(&packed).unwrap(), 3000);
    assert_eq!(decompress_lz4_raw(&packed).unwrap(), text());
    let mut out = Vec::new();
    decompress_lz4_raw_into_sized(&packed, 3000, &mut out).unwrap();
    assert_eq!(out, text());
    assert!(decompress_lz4_raw_into_sized(&packed, 2999, &mut out).is_err());
    assert!(decompress_lz4_raw_into_sized(&packed, 3001, &mut out).is_err());
    assert!(decompress_lz4_raw(&[0xF0]).is_err());
}

#[test]
fn an_lz4_block_states_its_size() {
    // Three literals and nothing else.
    assert_eq!(lz4_raw_uncompressed_size(&[0x30, b'a', b'b', b'c']).unwrap(), 3);
    assert_eq!(decompress_lz4_raw(&[0x30, b'a', b'b', b'c']).unwrap(), b"abc".to_vec());
    assert!(lz4_raw_uncompressed_size(&[0x30, b'a']).is_err());
}

#[test]
fn caps_leave_some_slack() {
    assert_eq!(cap_with_slack(1000), 1064);
    assert_eq!(cap_with_slack(usize::MAX), usize::MAX);
    assert!(check_cap(10, 10, "x").is_ok());
    match check_cap(11, 10, "x") {
        Err(CodecError::Decompress(t)) => {
            assert_eq!(t, "x: decompressed 11 bytes exceeds cap 10")
        }
        other => panic!("expected Decompress, got {other:?}"),
    }
    assert!(check_declared(3, 3).is_ok());
    assert!(check_declared(3, 4).is_err());
}

#[test]
fn lz4_lengths_that_cannot_be_counted_are_refused() {
    // A chain of length bytes whose sum is beyond 32 bits.
    let mut block = vec![0xFF; 16_843_012];
    block[0] = 0xF0;
    block.push(0);
    let mut out = Vec::new();
    match decompress_lz4_raw_into_sized(&block, 10, &mut out) {
        Err(CodecError::Decompress(t)) => assert_eq!(t, "lz4_raw: length out of range"),
        other => panic!("expected Decompress, got {other:?}"),
    }
    match decompress_lz4_raw(&block) {
        Err(CodecError::Decompress(t)) => {
            assert_eq!(t, "lz4_raw: literal runs past end of buffer")
        }
        other => panic!("expected Decompress, got {other:?}"),
    }
}

#[test]
fn zstd_reads_come_to_their_error_or_their_size() {
    let setup = zstd_outcome(Err(StreamError::Setup("a".to_string())), 0, None);
    match setup {
        Err(CodecError::Decompress(t)) => assert_eq!(t, "zstd init: a"),
        other => panic!("expected Decompress, got {other:?}"),
    }
    match zstd_outcome(Err(StreamError::Body("b".to_string())), 0, Some(9)) {
        Err(CodecError::Decompress(t)) => assert_eq!(t, "zstd: b"),
        other => panic!("expected Decompress, got {other:?}"),
    }
    assert!(zstd_outcome(Ok(()), 9, Some(9)).is_ok());
    assert!(zstd_outcome(Ok(()), 10, Some(9)).is_err());
    assert!(zstd_outcome(Ok(()), 10, None).is_ok());
    assert_eq!(encoded(Ok(vec![1, 2]), "x: ").unwrap(), vec![1, 2]);
    match encoded(Err("c".to_string()), "x: ") {
        Err(CodecError::Decompress(t)) => assert_eq!(t, "x: c"),
        other => panic!("expected Decompress, got {other:?}"),
    }
}
