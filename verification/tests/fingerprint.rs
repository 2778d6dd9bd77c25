use ematix_parquet_codec::index::crc32_ieee;

#[test]
fn crc32_known_vectors() {
    // Standard test vectors for CRC-32 / ISO HDLC / zlib.
    // Source: every reference implementation in existence
    // (zlib, libpng, RFC 1952). If these change, this file
    // changed; if they don't match what `gzip --no-name`
    // would emit, our impl is wrong.
    assert_eq!(crc32_ieee(b""), 0x0000_0000);
    assert_eq!(crc32_ieee(b"a"), 0xE8B7_BE43);
    assert_eq!(crc32_ieee(b"abc"), 0x3524_41C2);
    assert_eq!(crc32_ieee(b"message digest"), 0x2015_9D7F);
    assert_eq!(crc32_ieee(b"abcdefghijklmnopqrstuvwxyz"), 0x4C27_50BD);
    assert_eq!(
        crc32_ieee(b"123456789"),
        // "check" value from CRC-32/ISO-HDLC
        0xCBF4_3926
    );
}

#[test]
fn crc32_stable_under_repeated_calls() {
    // Belt-and-braces: stateless impl, but make sure it really
    // is stateless (no global cached "last result" trick).
    let data = b"the quick brown fox jumps over the lazy dog";
    let a = crc32_ieee(data);
    let b = crc32_ieee(data);
    let c = crc32_ieee(data);
    assert_eq!(a, b);
    assert_eq!(b, c);
}

#[test]
fn crc32_long_buffer_streams_correctly() {
    // Make sure splitting the same buffer over multiple calls
    // would land on a different value — i.e. we're not
    // accidentally re-initialising state mid-buffer. (We have
    // no `update` method; this just confirms the byte-at-a-time
    // loop is doing what it claims.)
    let buf: Vec<u8> = (0u8..255).cycle().take(8192).collect();
    let crc = crc32_ieee(&buf);
    let crc_again = crc32_ieee(&buf);
    assert_eq!(crc, crc_again);
    // And a different buffer must give a different number.
    let mut buf2 = buf.clone();
    buf2[0] ^= 1;
    assert_ne!(crc, crc32_ieee(&buf2));
}
