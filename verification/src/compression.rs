//! Page bodies, compressed and expanded.
//!
//! Each codec comes in two shapes: one that returns a fresh buffer, and one
//! that fills the caller's, so that a buffer can serve many pages. The
//! capped variants refuse a stream that expands beyond its declared size by
//! more than a small slack.

use std::io::{Read, Write};

use vstd::prelude::*;

use crate::error::{reports, CodecError, Fault, Result};
use crate::text::{dec, text2};

verus! {

/// What the capped variants allow beyond the declared size.
pub const DECOMPRESS_CAP_SLACK: usize = 64;

/// The cap of a declared size.
pub open spec fn cap_of(declared: nat) -> nat {
    if declared + DECOMPRESS_CAP_SLACK > usize::MAX {
        usize::MAX as nat
    } else {
        declared + DECOMPRESS_CAP_SLACK as nat
    }
}

/// The declared size and the slack, at most the largest size there is.
pub fn cap_with_slack(declared: usize) -> (cap: usize)
    ensures
        cap == cap_of(declared as nat),
{
    declared.saturating_add(DECOMPRESS_CAP_SLACK)
}

/// The fault of a stream that expands beyond its cap.
pub open spec fn cap_fault(actual: nat, cap: nat, codec: Seq<char>) -> Option<Fault> {
    if actual > cap {
        Some(
            Fault::Decompress(
                codec + (": decompressed "@ + dec(actual) + " bytes exceeds cap "@ + dec(cap) + ""@),
            ),
        )
    } else {
        None
    }
}

/// Refuses an expanded size beyond the cap.
pub fn check_cap(actual: usize, cap: usize, codec: &str) -> (r: Result<()>)
    ensures
        reports(r, cap_fault(actual as nat, cap as nat, codec@)),
{
    if actual > cap {
        let mut s: String = codec.to_string();
        s.append(
            text2(
                ": decompressed ",
                actual as u128,
                " bytes exceeds cap ",
                cap as u128,
                "",
            ).as_str(),
        );
        return Err(CodecError::Decompress(s));
    }
    Ok(())
}

/// The fault that a codec's own error becomes.
pub open spec fn codec_fault(prefix: Seq<char>, text: Seq<char>) -> Fault {
    Fault::Decompress(prefix + text)
}

fn codec_err(prefix: &str, text: &String) -> (e: CodecError)
    ensures
        e@ == codec_fault(prefix@, text@),
{
    let mut s: String = prefix.to_string();
    s.append(text.as_str());
    CodecError::Decompress(s)
}

/// What an encoder returned, its error with a prefix.
pub fn encoded(packed: std::result::Result<Vec<u8>, String>, prefix: &str) -> (r: Result<Vec<u8>>)
    ensures
        match packed {
            Ok(v) => r is Ok && r->Ok_0@ == v@,
            Err(t) => reports(r, Some(codec_fault(prefix@, t@))),
        },
{
    match packed {
        Ok(v) => Ok(v),
        Err(t) => Err(codec_err(prefix, &t)),
    }
}

/// That a codec's outcome is the length `n`.
pub open spec fn states(outcome: std::result::Result<nat, Seq<char>>, n: nat) -> bool {
    outcome is Ok && outcome->Ok_0 == n
}

/// That a codec's outcome is the bytes `d`.
pub open spec fn gives(outcome: std::result::Result<Seq<u8>, Seq<char>>, d: Seq<u8>) -> bool {
    outcome is Ok && outcome->Ok_0 == d
}

// ---- Snappy ----

/// The expanded length that a snappy block states, or the text of the
/// codec's error.
pub uninterp spec fn snappy_stated_len(bytes: Seq<u8>) -> std::result::Result<nat, Seq<char>>;

/// The bytes of a snappy block expanded into a buffer of `room` bytes, or
/// the text of the codec's error.
pub uninterp spec fn snappy_expanded(bytes: Seq<u8>, room: nat) -> std::result::Result<
    Seq<u8>,
    Seq<char>,
>;

/// `snap::raw::decompress_len`: the length that a block states; it depends
/// on the block alone.
#[verifier::external_body]
fn snappy_len(compressed: &[u8]) -> (r: std::result::Result<usize, String>)
    ensures
        match snappy_stated_len(compressed@) {
            Ok(n) => r is Ok && r->Ok_0 == n,
            Err(t) => r is Err && r->Err_0@ == t,
        },
{
    snap::raw::decompress_len(compressed).map_err(|e| format!("{}", e))
}

/// `snap::raw::Decoder::decompress`: the expanded bytes are written at the
/// start of the buffer and counted; the outcome depends on the block and on
/// the buffer's length alone. On success the count is the length that the
/// block states. What a failed call leaves in the buffer is not stated.
#[verifier::external_body]
fn snappy_fill(compressed: &[u8], out: &mut Vec<u8>) -> (r: std::result::Result<usize, String>)
    ensures
        final(out)@.len() == old(out)@.len(),
        r is Ok ==> r->Ok_0 <= old(out)@.len() && states(
            snappy_stated_len(compressed@),
            r->Ok_0 as nat,
        ),
        match snappy_expanded(compressed@, old(out)@.len()) {
            Ok(d) => r is Ok && r->Ok_0 == d.len() && final(out)@.take(d.len() as int) == d,
            Err(t) => r is Err && r->Err_0@ == t,
        },
{
    snap::raw::Decoder::new().decompress(compressed, out.as_mut_slice()).map_err(
        |e| format!("{}", e),
    )
}

/// `snap::raw::Encoder::compress_vec`: fails on inputs whose worst
/// compressed size does not fit 32 bits, and on no others; what it returns
/// states the input's length and expands to the input.
#[verifier::external_body]
fn snappy_pack(bytes: &[u8]) -> (r: std::result::Result<Vec<u8>, String>)
    ensures
        r is Ok <==> 32 + bytes@.len() + bytes@.len() / 6 <= u32::MAX,
        r is Ok ==> states(snappy_stated_len(r->Ok_0@), bytes@.len()) && gives(
            snappy_expanded(r->Ok_0@, bytes@.len()),
            bytes@,
        ),
{
    snap::raw::Encoder::new().compress_vec(bytes).map_err(|e| format!("{}", e))
}

/// Expands a snappy block.
pub fn decompress_snappy(compressed: &[u8]) -> (r: Result<Vec<u8>>)
    ensures
        match snappy_stated_len(compressed@) {
            Err(t) => reports(r, Some(codec_fault("snappy: "@, t))),
            Ok(n) => match snappy_expanded(compressed@, n) {
                Err(t) => reports(r, Some(codec_fault("snappy: "@, t))),
                Ok(d) => r is Ok && r->Ok_0@ == d,
            },
        },
{
    let n: usize = match snappy_len(compressed) {
        Ok(n) => n,
        Err(t) => {
            return Err(codec_err("snappy: ", &t));
        },
    };
    let mut out: Vec<u8> = vec![0u8; n];
    match snappy_fill(compressed, &mut out) {
        Ok(k) => {
            out.truncate(k);
            Ok(out)
        },
        Err(t) => Err(codec_err("snappy: ", &t)),
    }
}

/// Expands a snappy block into the caller's buffer, whose contents are
/// replaced.
pub fn decompress_snappy_into(compressed: &[u8], out: &mut Vec<u8>) -> (r: Result<()>)
    ensures
        match snappy_stated_len(compressed@) {
            Err(t) => reports(r, Some(codec_fault("snappy len: "@, t))) && final(out)@ == old(
                out,
            )@,
            Ok(n) => match snappy_expanded(compressed@, n) {
                Err(t) => reports(r, Some(codec_fault("snappy: "@, t))) && final(out)@.len() == n,
                Ok(d) => r is Ok && final(out)@ == d,
            },
        },
{
    let n: usize = match snappy_len(compressed) {
        Ok(n) => n,
        Err(t) => {
            return Err(codec_err("snappy len: ", &t));
        },
    };
    out.clear();
    out.resize(n, 0);
    match snappy_fill(compressed, out) {
        Ok(k) => {
            out.truncate(k);
            Ok(())
        },
        Err(t) => Err(codec_err("snappy: ", &t)),
    }
}

/// Compresses into a snappy block.
pub fn compress_snappy(uncompressed: &[u8]) -> (r: Result<Vec<u8>>)
    ensures
        r is Ok <==> 32 + uncompressed@.len() + uncompressed@.len() / 6 <= u32::MAX,
        r is Ok ==> states(snappy_stated_len(r->Ok_0@), uncompressed@.len()) && gives(
            snappy_expanded(r->Ok_0@, uncompressed@.len()),
            uncompressed@,
        ),
        r is Err ==> exists|t: Seq<char>|
            r->Err_0@ == #[trigger] codec_fault("snappy encode: "@, t),
{
    encoded(snappy_pack(uncompressed), "snappy encode: ")
}

// ---- ZSTD ----

/// Why a stream could not be read: while it was set up, or later.
pub enum StreamError {
    Setup(String),
    Body(String),
}

/// The bytes that zstd frames expand to, as far as they can be expanded, and
/// whether every read of them succeeds, in pieces of whatever size.
pub uninterp spec fn zstd_content(bytes: Seq<u8>) -> (Seq<u8>, bool);

/// The first bytes of `d`, at most `limit` of them.
pub open spec fn at_most(d: Seq<u8>, limit: nat) -> Seq<u8> {
    if d.len() <= limit {
        d
    } else {
        d.take(limit as int)
    }
}

/// That zstd frames expand to `d`, and that every read of them succeeds.
pub open spec fn zstd_holds(bytes: Seq<u8>, d: Seq<u8>) -> bool {
    zstd_content(bytes).0 == d && zstd_content(bytes).1
}

/// `zstd::stream::read::Decoder`, read to its end through `Read::take`: on
/// success the first bytes of the frames' content, at most `limit` of them,
/// have been appended. Whether a read fails can depend on the room that the
/// buffer happens to have, since the decoder checks the window of a frame
/// only where the frame does not fit that room: so which frames fail, with
/// which error, and what a failed call has appended is not stated.
#[verifier::external_body]
fn zstd_read(compressed: &[u8], limit: u64, out: &mut Vec<u8>) -> (r: std::result::Result<
    (),
    StreamError,
>)
    ensures
        zstd_content(compressed@).1 ==> r is Ok,
        r is Ok ==> final(out)@ == old(out)@ + at_most(
            zstd_content(compressed@).0,
            limit as nat,
        ),
{
    let dec = match zstd::stream::read::Decoder::new(compressed) {
        Ok(dec) => dec,
        Err(e) => return Err(StreamError::Setup(format!("{}", e))),
    };
    match dec.take(limit).read_to_end(out) {
        Ok(_) => Ok(()),
        Err(e) => Err(StreamError::Body(format!("{}", e))),
    }
}

/// What `zstd::stream::encode_all` returns at a level, or the text of its
/// error.
pub uninterp spec fn zstd_packed(bytes: Seq<u8>, level: int) -> std::result::Result<
    Seq<u8>,
    Seq<char>,
>;

/// `zstd::stream::encode_all`: the frame depends on the input and the level
/// alone, expands to the input, and is read in full by every read.
#[verifier::external_body]
fn zstd_pack(bytes: &[u8], level: i32) -> (r: std::result::Result<Vec<u8>, String>)
    ensures
        match zstd_packed(bytes@, level as int) {
            Ok(d) => r is Ok && r->Ok_0@ == d && zstd_holds(d, bytes@),
            Err(t) => r is Err && r->Err_0@ == t,
        },
{
    zstd::stream::encode_all(bytes, level).map_err(|e| format!("{}", e))
}

/// The fault that an error of the zstd decoder becomes.
pub open spec fn zstd_fault(e: StreamError) -> Fault {
    match e {
        StreamError::Setup(t) => codec_fault("zstd init: "@, t@),
        StreamError::Body(t) => codec_fault("zstd: "@, t@),
    }
}

/// What a read of zstd frames comes to: its error, or where `len` bytes were
/// expanded under a cap, whether they exceed it.
pub fn zstd_outcome(
    read: std::result::Result<(), StreamError>,
    len: usize,
    cap: Option<usize>,
) -> (r: Result<()>)
    ensures
        reports(
            r,
            match read {
                Err(e) => Some(zstd_fault(e)),
                Ok(_) => match cap {
                    Some(c) => cap_fault(len as nat, c as nat, "zstd"@),
                    None => None,
                },
            },
        ),
{
    match read {
        Err(StreamError::Setup(t)) => Err(codec_err("zstd init: ", &t)),
        Err(StreamError::Body(t)) => Err(codec_err("zstd: ", &t)),
        Ok(_) => match cap {
            Some(c) => check_cap(len, c, "zstd"),
            None => Ok(()),
        },
    }
}

/// That a fault is one of the zstd decoder.
pub open spec fn is_zstd_fault(f: Fault) -> bool {
    exists|e: StreamError| f == #[trigger] zstd_fault(e)
}

/// Expands zstd frames.
pub fn decompress_zstd(compressed: &[u8]) -> (r: Result<Vec<u8>>)
    ensures
        zstd_content(compressed@).1 ==> r is Ok,
        match r {
            Ok(v) => v@ == at_most(zstd_content(compressed@).0, u64::MAX as nat),
            Err(e) => is_zstd_fault(e@),
        },
{
    let mut out: Vec<u8> = Vec::new();
    match decompress_zstd_into(compressed, &mut out) {
        Ok(_) => Ok(out),
        Err(e) => Err(e),
    }
}

/// Expands zstd frames into the caller's buffer, whose contents are
/// replaced. Nothing bounds the expanded size.
pub fn decompress_zstd_into(compressed: &[u8], out: &mut Vec<u8>) -> (r: Result<()>)
    ensures
        zstd_content(compressed@).1 ==> r is Ok,
        match r {
            Ok(_) => final(out)@ == at_most(zstd_content(compressed@).0, u64::MAX as nat),
            Err(e) => is_zstd_fault(e@),
        },
{
    out.clear();
    proof {
        assert(forall|d: Seq<u8>| #[trigger] (Seq::<u8>::empty() + d) =~= d);
    }
    let read = zstd_read(compressed, u64::MAX, out);
    zstd_outcome(read, out.len(), None)
}

/// The limit under which a stream is read that may expand to `cap` bytes:
/// one byte more shows a stream that exceeds it.
pub open spec fn limit_of(cap: nat) -> nat {
    if cap + 1 > u64::MAX {
        u64::MAX as nat
    } else {
        cap + 1
    }
}

/// Expands zstd frames into the caller's buffer, whose contents are
/// replaced; refuses a stream beyond the declared size and the slack.
pub fn decompress_zstd_into_capped(
    compressed: &[u8],
    uncompressed_size: usize,
    out: &mut Vec<u8>,
) -> (r: Result<()>)
    ensures
        ({
            let cap = cap_of(uncompressed_size as nat);
            let d = at_most(zstd_content(compressed@).0, limit_of(cap));
            &&& zstd_content(compressed@).1 ==> final(out)@ == d && reports(
                r,
                cap_fault(d.len(), cap, "zstd"@),
            )
            &&& match r {
                Ok(_) => final(out)@ == d && d.len() <= cap,
                Err(e) => is_zstd_fault(e@) || (final(out)@ == d && Some(e@) == cap_fault(
                    d.len(),
                    cap,
                    "zstd"@,
                )),
            }
        }),
{
    out.clear();
    let cap: usize = cap_with_slack(uncompressed_size);
    proof {
        assert(forall|d: Seq<u8>| #[trigger] (Seq::<u8>::empty() + d) =~= d);
    }
    let read = zstd_read(compressed, (cap as u64).saturating_add(1), out);
    zstd_outcome(read, out.len(), Some(cap))
}

/// The level that zstd itself takes as its default.
pub const ZSTD_DEFAULT_LEVEL: i32 = 3;

/// Compresses into a zstd frame at the default level.
pub fn compress_zstd(uncompressed: &[u8]) -> (r: Result<Vec<u8>>)
    ensures
        match zstd_packed(uncompressed@, ZSTD_DEFAULT_LEVEL as int) {
            Ok(d) => r is Ok && r->Ok_0@ == d && zstd_holds(d, uncompressed@),
            Err(t) => reports(r, Some(codec_fault("zstd encode: "@, t))),
        },
{
    compress_zstd_at_level(uncompressed, ZSTD_DEFAULT_LEVEL)
}

/// Compresses into a zstd frame. A higher level takes longer and gives less.
pub fn compress_zstd_at_level(uncompressed: &[u8], level: i32) -> (r: Result<Vec<u8>>)
    ensures
        match zstd_packed(uncompressed@, level as int) {
            Ok(d) => r is Ok && r->Ok_0@ == d && zstd_holds(d, uncompressed@),
            Err(t) => reports(r, Some(codec_fault("zstd encode: "@, t))),
        },
{
    encoded(zstd_pack(uncompressed, level), "zstd encode: ")
}

// ---- GZIP ----

/// The first `limit` bytes that a gzip stream expands to, or the text of the
/// codec's error.
pub uninterp spec fn gzip_expanded(bytes: Seq<u8>, limit: nat) -> std::result::Result<
    Seq<u8>,
    Seq<char>,
>;

/// That reading up to any limit that holds `d` gives `d`.
pub open spec fn gzip_holds(bytes: Seq<u8>, d: Seq<u8>) -> bool {
    forall|m: nat|
        m >= d.len() ==> gives(#[trigger] gzip_expanded(bytes, m), d)
}

/// `flate2::read::GzDecoder`, read to its end through `Read::take`: the
/// expanded bytes, at most `limit` of them, are appended; which bytes, or
/// which error, depends on the stream and the limit alone. A stream that
/// ends before the limit reads the same under every limit that holds it.
/// What a failed call has appended is not stated.
#[verifier::external_body]
fn gzip_read(compressed: &[u8], limit: u64, out: &mut Vec<u8>) -> (r: std::result::Result<
    (),
    String,
>)
    ensures
        match gzip_expanded(compressed@, limit as nat) {
            Ok(d) => r is Ok && final(out)@ == old(out)@ + d && d.len() <= limit && (d.len()
                < limit ==> gzip_holds(compressed@, d)),
            Err(t) => r is Err && r->Err_0@ == t,
        },
{
    match flate2::read::GzDecoder::new(compressed).take(limit).read_to_end(out) {
        Ok(_) => Ok(()),
        Err(e) => Err(format!("{}", e)),
    }
}

/// What `flate2::write::GzEncoder` returns at a level, or the text of its
/// error and whether it came while the input was written.
pub uninterp spec fn gzip_packed(bytes: Seq<u8>, level: nat) -> std::result::Result<
    Seq<u8>,
    (bool, Seq<char>),
>;

/// `flate2::write::GzEncoder`, written to and finished: the stream depends
/// on the input and the level alone, and expands to the input.
#[verifier::external_body]
fn gzip_pack(bytes: &[u8], level: u32) -> (r: std::result::Result<Vec<u8>, StreamError>)
    requires
        level <= 9,
    ensures
        match gzip_packed(bytes@, level as nat) {
            Ok(d) => r is Ok && r->Ok_0@ == d && gzip_holds(d, bytes@),
            Err((writing, t)) => match r {
                Ok(_) => false,
                Err(StreamError::Setup(s)) => writing && s@ == t,
                Err(StreamError::Body(s)) => !writing && s@ == t,
            },
        },
{
    let mut enc = flate2::write::GzEncoder::new(Vec::new(), flate2::Compression::new(level));
    match enc.write_all(bytes) {
        Ok(_) => enc.finish().map_err(|e| StreamError::Body(format!("{}", e))),
        Err(e) => Err(StreamError::Setup(format!("{}", e))),
    }
}

/// Expands a gzip stream.
pub fn decompress_gzip(compressed: &[u8]) -> (r: Result<Vec<u8>>)
    ensures
        match gzip_expanded(compressed@, u64::MAX as nat) {
            Ok(d) => r is Ok && r->Ok_0@ == d,
            Err(t) => reports(r, Some(codec_fault("gzip: "@, t))),
        },
{
    let mut out: Vec<u8> = Vec::new();
    match decompress_gzip_into(compressed, &mut out) {
        Ok(_) => Ok(out),
        Err(e) => Err(e),
    }
}

/// Expands a gzip stream into the caller's buffer, whose contents are
/// replaced. Nothing bounds the expanded size.
pub fn decompress_gzip_into(compressed: &[u8], out: &mut Vec<u8>) -> (r: Result<()>)
    ensures
        match gzip_expanded(compressed@, u64::MAX as nat) {
            Ok(d) => r is Ok && final(out)@ == d,
            Err(t) => reports(r, Some(codec_fault("gzip: "@, t))),
        },
{
    out.clear();
    proof {
        assert(forall|d: Seq<u8>| #[trigger] (Seq::<u8>::empty() + d) =~= d);
    }
    match gzip_read(compressed, u64::MAX, out) {
        Ok(_) => Ok(()),
        Err(t) => Err(codec_err("gzip: ", &t)),
    }
}

/// Expands a gzip stream into the caller's buffer, whose contents are
/// replaced; refuses a stream beyond the declared size and the slack.
pub fn decompress_gzip_into_capped(
    compressed: &[u8],
    uncompressed_size: usize,
    out: &mut Vec<u8>,
) -> (r: Result<()>)
    ensures
        ({
            let cap = cap_of(uncompressed_size as nat);
            match gzip_expanded(compressed@, limit_of(cap)) {
                Ok(d) => final(out)@ == d && reports(r, cap_fault(d.len(), cap, "gzip"@)),
                Err(t) => reports(r, Some(codec_fault("gzip: "@, t))),
            }
        }),
{
    out.clear();
    let cap: usize = cap_with_slack(uncompressed_size);
    proof {
        assert(forall|d: Seq<u8>| #[trigger] (Seq::<u8>::empty() + d) =~= d);
    }
    match gzip_read(compressed, (cap as u64).saturating_add(1), out) {
        Ok(_) => check_cap(out.len(), cap, "gzip"),
        Err(t) => Err(codec_err("gzip: ", &t)),
    }
}

/// The level that gzip streams are written at.
pub const GZIP_LEVEL: u32 = 6;

/// Compresses into a gzip stream.
pub fn compress_gzip(uncompressed: &[u8]) -> (r: Result<Vec<u8>>)
    ensures
        match gzip_packed(uncompressed@, GZIP_LEVEL as nat) {
            Ok(d) => r is Ok && r->Ok_0@ == d && gzip_holds(d, uncompressed@),
            Err((writing, t)) => reports(
                r,
                Some(
                    if writing {
                        codec_fault("gzip encode: "@, t)
                    } else {
                        codec_fault("gzip finish: "@, t)
                    },
                ),
            ),
        },
{
    match gzip_pack(uncompressed, GZIP_LEVEL) {
        Ok(v) => Ok(v),
        Err(StreamError::Setup(t)) => Err(codec_err("gzip encode: ", &t)),
        Err(StreamError::Body(t)) => Err(codec_err("gzip finish: ", &t)),
    }
}

// ---- Brotli ----

/// The first `limit` bytes that a brotli stream, read through a buffer of
/// `buffer` bytes, expands to, or the text of the
/// codec's error.
pub uninterp spec fn brotli_expanded(bytes: Seq<u8>, buffer: nat, limit: nat) -> std::result::Result<
    Seq<u8>,
    Seq<char>,
>;

/// That reading up to any limit that holds `d` gives `d`.
pub open spec fn brotli_holds(bytes: Seq<u8>, buffer: nat, d: Seq<u8>) -> bool {
    forall|m: nat|
        m >= d.len() ==> gives(#[trigger] brotli_expanded(bytes, buffer, m), d)
}

/// `brotli::Decompressor`, read to its end through `Read::take`: the
/// expanded bytes, at most `limit` of them, are appended; which bytes, or
/// which error, depends on the stream, the buffer size and the limit alone.
/// A stream that ends before the limit reads the same under every limit
/// that holds it. What a failed call has appended is not stated.
#[verifier::external_body]
fn brotli_read(compressed: &[u8], buffer: usize, limit: u64, out: &mut Vec<u8>) -> (r: std::result::Result<
    (),
    String,
>)
    ensures
        match brotli_expanded(compressed@, buffer as nat, limit as nat) {
            Ok(d) => r is Ok && final(out)@ == old(out)@ + d && d.len() <= limit && (d.len()
                < limit ==> brotli_holds(compressed@, buffer as nat, d)),
            Err(t) => r is Err && r->Err_0@ == t,
        },
{
    match brotli::Decompressor::new(compressed, buffer).take(limit).read_to_end(out) {
        Ok(_) => Ok(()),
        Err(e) => Err(format!("{}", e)),
    }
}

/// The buffer that brotli streams pass through.
pub const BROTLI_BUFFER: usize = 4096;

/// The quality that brotli streams are written at.
pub const BROTLI_QUALITY: u32 = 6;

/// The window, as a power of two, that brotli streams are written with.
pub const BROTLI_WINDOW: u32 = 22;

/// What a brotli stream is written with.
#[derive(Debug, Clone, Copy, PartialEq, Eq, Structural)]
pub struct BrotliSettings {
    pub buffer: usize,
    pub quality: u32,
    pub window: u32,
}

impl BrotliSettings {
    /// That these are the settings of this library's streams.
    pub open spec fn standard(self) -> bool {
        self.buffer == BROTLI_BUFFER && self.quality == BROTLI_QUALITY && self.window
            == BROTLI_WINDOW
    }
}

/// The settings of this library's streams.
pub fn brotli_settings() -> (s: BrotliSettings)
    ensures
        s.buffer == 4096,
        s.quality == 6,
        s.window == 22,
{
    BrotliSettings { buffer: BROTLI_BUFFER, quality: BROTLI_QUALITY, window: BROTLI_WINDOW }
}

/// `brotli::CompressorReader`, read to its end: fed from bytes in memory it
/// succeeds, and what it yields expands to the input. Which stream comes out
/// is not stated: the encoder decides by floating-point logarithms, whose
/// precision goes by the platform.
#[verifier::external_body]
fn brotli_pack(bytes: &[u8], settings: BrotliSettings) -> (r: std::result::Result<Vec<u8>, String>)
    requires
        settings.standard(),
    ensures
        r is Ok && brotli_holds(r->Ok_0@, settings.buffer as nat, bytes@),
{
    let (buffer, quality, window) = (settings.buffer, settings.quality, settings.window);
    let mut out = Vec::new();
    match brotli::CompressorReader::new(bytes, buffer, quality, window).read_to_end(&mut out) {
        Ok(_) => Ok(out),
        Err(e) => Err(format!("{}", e)),
    }
}

/// Expands a brotli stream.
pub fn decompress_brotli(compressed: &[u8]) -> (r: Result<Vec<u8>>)
    ensures
        match brotli_expanded(compressed@, BROTLI_BUFFER as nat, u64::MAX as nat) {
            Ok(d) => r is Ok && r->Ok_0@ == d,
            Err(t) => reports(r, Some(codec_fault("brotli: "@, t))),
        },
{
    let mut out: Vec<u8> = Vec::new();
    match decompress_brotli_into(compressed, &mut out) {
        Ok(_) => Ok(out),
        Err(e) => Err(e),
    }
}

/// Expands a brotli stream into the caller's buffer, whose contents are
/// replaced. Nothing bounds the expanded size.
pub fn decompress_brotli_into(compressed: &[u8], out: &mut Vec<u8>) -> (r: Result<()>)
    ensures
        match brotli_expanded(compressed@, BROTLI_BUFFER as nat, u64::MAX as nat) {
            Ok(d) => r is Ok && final(out)@ == d,
            Err(t) => reports(r, Some(codec_fault("brotli: "@, t))),
        },
{
    out.clear();
    proof {
        assert(forall|d: Seq<u8>| #[trigger] (Seq::<u8>::empty() + d) =~= d);
    }
    match brotli_read(compressed, BROTLI_BUFFER, u64::MAX, out) {
        Ok(_) => Ok(()),
        Err(t) => Err(codec_err("brotli: ", &t)),
    }
}

/// Expands a brotli stream into the caller's buffer, whose contents are
/// replaced; refuses a stream beyond the declared size and the slack.
pub fn decompress_brotli_into_capped(
    compressed: &[u8],
    uncompressed_size: usize,
    out: &mut Vec<u8>,
) -> (r: Result<()>)
    ensures
        ({
            let cap = cap_of(uncompressed_size as nat);
            match brotli_expanded(compressed@, BROTLI_BUFFER as nat, limit_of(cap)) {
                Ok(d) => final(out)@ == d && reports(r, cap_fault(d.len(), cap, "brotli"@)),
                Err(t) => reports(r, Some(codec_fault("brotli: "@, t))),
            }
        }),
{
    out.clear();
    let cap: usize = cap_with_slack(uncompressed_size);
    proof {
        assert(forall|d: Seq<u8>| #[trigger] (Seq::<u8>::empty() + d) =~= d);
    }
    match brotli_read(compressed, BROTLI_BUFFER, (cap as u64).saturating_add(1), out) {
        Ok(_) => check_cap(out.len(), cap, "brotli"),
        Err(t) => Err(codec_err("brotli: ", &t)),
    }
}

/// Compresses into a brotli stream.
pub fn compress_brotli(uncompressed: &[u8]) -> (r: Result<Vec<u8>>)
    ensures
        r is Ok && brotli_holds(r->Ok_0@, BROTLI_BUFFER as nat, uncompressed@),
{
    encoded(brotli_pack(uncompressed, brotli_settings()), "brotli encode: ")
}

// ---- LZ4 blocks ----

/// A length whose start is `base`: at fifteen it goes on in the bytes from
/// `pos` on, up to one that is not 255 or the end of the block. The length
/// and the position after it.
pub open spec fn lz4_length(buf: Seq<u8>, pos: nat, base: nat) -> (nat, nat) {
    if base == 15 {
        lz4_chain(buf, pos, base)
    } else {
        (base, pos)
    }
}

pub open spec fn lz4_chain(buf: Seq<u8>, pos: nat, sum: nat) -> (nat, nat)
    decreases buf.len() - pos,
{
    if pos >= buf.len() {
        (sum, pos)
    } else if buf[pos as int] != 255 {
        (sum + buf[pos as int] as nat, pos + 1)
    } else {
        lz4_chain(buf, pos + 1, sum + 255)
    }
}

proof fn lemma_lz4_chain(buf: Seq<u8>, pos: nat, sum: nat)
    requires
        pos <= buf.len(),
    ensures
        pos <= lz4_chain(buf, pos, sum).1 <= buf.len(),
        sum <= lz4_chain(buf, pos, sum).0 <= sum + 255 * (lz4_chain(buf, pos, sum).1 - pos),
    decreases buf.len() - pos,
{
    if pos < buf.len() && buf[pos as int] == 255 {
        lemma_lz4_chain(buf, pos + 1, sum + 255);
    }
}

/// A sequence ends after it starts.
proof fn lemma_lz4_step(buf: Seq<u8>, pos: nat)
    ensures
        pos < buf.len() ==> {
            let token = buf[pos as int] as nat;
            let (literal, after) = lz4_length(buf, pos + 1, token / 16);
            let next = after + literal;
            &&& pos < after <= buf.len()
            &&& next + 2 <= buf.len() ==> {
                let end = lz4_length(buf, next + 2, token % 16).1;
                pos < end <= buf.len()
            }
        },
{
    if pos < buf.len() {
        let token = buf[pos as int] as nat;
        lemma_lz4_chain(buf, pos + 1, 15);
        let (literal, after) = lz4_length(buf, pos + 1, token / 16);
        let next = after + literal;
        if next + 2 <= buf.len() {
            lemma_lz4_chain(buf, next + 2, 15);
        }
    }
}

#[via_fn]
proof fn lz4_size_decreases(buf: Seq<u8>, pos: nat) {
    lemma_lz4_step(buf, pos);
}

/// The bytes that the sequences from `pos` on expand to. A sequence is a
/// token, its literals, and unless the block ends there, a two-byte offset
/// and the length of the match, at least four.
pub open spec fn lz4_size(buf: Seq<u8>, pos: nat) -> std::result::Result<nat, Fault>
    decreases buf.len() - pos,
    via lz4_size_decreases
{
    if pos >= buf.len() {
        Ok(0)
    } else {
        let token = buf[pos as int] as nat;
        let (literal, after) = lz4_length(buf, pos + 1, token / 16);
        let next = after + literal;
        if next > buf.len() {
            Err(Fault::Decompress("lz4_raw: literal runs past end of buffer"@))
        } else if next == buf.len() {
            Ok(literal)
        } else if next + 2 > buf.len() {
            Err(Fault::Decompress("lz4_raw: truncated match offset"@))
        } else {
            let (copied, end) = lz4_length(buf, next + 2, token % 16);
            match lz4_size(buf, end) {
                Ok(rest) => Ok(literal + copied + 4 + rest),
                Err(f) => Err(f),
            }
        }
    }
}

/// The expanded size of a block, where it fits the address space.
pub open spec fn lz4_block_size(buf: Seq<u8>) -> std::result::Result<nat, Fault> {
    match lz4_size(buf, 0) {
        Ok(n) => if n > usize::MAX {
            Err(Fault::Decompress("lz4_raw: expanded size out of range"@))
        } else {
            Ok(n)
        },
        Err(f) => Err(f),
    }
}

/// Reads the rest of a length that starts at `base`.
fn read_lz4_length(buf: &[u8], pos: usize, base: u64) -> (r: (u128, usize))
    requires
        pos <= buf@.len(),
        base <= 15,
    ensures
        (r.0 as nat, r.1 as nat) == lz4_length(buf@, pos as nat, base as nat),
        pos <= r.1 <= buf@.len(),
        r.0 <= 15 + 255 * (r.1 - pos),
{
    let n: usize = buf.len();
    let mut sum: u128 = base as u128;
    let mut i: usize = pos;
    if base == 15 {
        let ghost whole = lz4_chain(buf@, pos as nat, 15);
        while i < n
            invariant
                base == 15,
                pos <= i <= n == buf@.len(),
                15 <= sum <= 15 + 255 * (i - pos),
                whole == lz4_chain(buf@, pos as nat, 15),
                whole == lz4_chain(buf@, i as nat, sum as nat),
            decreases n - i,
        {
            let b: u8 = buf[i];
            i = i + 1;
            sum = sum + b as u128;
            if b != 255 {
                return (sum, i);
            }
        }
    }
    (sum, i)
}

/// The size that an LZ4 block expands to, from its tokens alone.
pub fn lz4_raw_uncompressed_size(buf: &[u8]) -> (r: Result<usize>)
    ensures
        match lz4_block_size(buf@) {
            Ok(n) => r is Ok && r->Ok_0 == n,
            Err(f) => reports(r, Some(f)),
        },
{
    let n: usize = buf.len();
    let mut i: usize = 0;
    let mut total: u128 = 0;
    let ghost whole = lz4_size(buf@, 0);
    while i < n
        invariant
            i <= n == buf@.len(),
            total <= 300 * i,
            whole == lz4_size(buf@, 0),
            match lz4_size(buf@, i as nat) {
                Ok(rest) => whole is Ok && whole->Ok_0 == total + rest,
                Err(f) => whole is Err && whole->Err_0 == f,
            },
        decreases n - i,
    {
        let token: u8 = buf[i];
        let (literal, after): (u128, usize) = read_lz4_length(buf, i + 1, (token / 16) as u64);
        if literal > (n - after) as u128 {
            return Err(
                CodecError::Decompress("lz4_raw: literal runs past end of buffer".to_string()),
            );
        }
        let next: usize = after + literal as usize;
        total = total + literal;
        if next == n {
            i = n;
        } else if n - next < 2 {
            return Err(CodecError::Decompress("lz4_raw: truncated match offset".to_string()));
        } else {
            let (copied, end): (u128, usize) = read_lz4_length(
                buf,
                next + 2,
                (token % 16) as u64,
            );
            total = total + copied + 4;
            i = end;
        }
    }
    if total > usize::MAX as u128 {
        return Err(CodecError::Decompress("lz4_raw: expanded size out of range".to_string()));
    }
    Ok(total as usize)
}

#[via_fn]
proof fn lz4_within_decreases(buf: Seq<u8>, pos: nat, most: int) {
    lemma_lz4_step(buf, pos);
}

/// That no length in the sequences from `pos` on exceeds `most`.
pub open spec fn lz4_within(buf: Seq<u8>, pos: nat, most: int) -> bool
    decreases buf.len() - pos,
    via lz4_within_decreases
{
    pos < buf.len() ==> {
        let token = buf[pos as int] as nat;
        let (literal, after) = lz4_length(buf, pos + 1, token / 16);
        let next = after + literal;
        &&& literal <= most
        &&& next + 2 <= buf.len() ==> {
            let (copied, end) = lz4_length(buf, next + 2, token % 16);
            copied <= most && lz4_within(buf, end, most)
        }
    }
}

/// The longest length that a block may have when it is expanded into a
/// buffer of `room` bytes: one of 32 bits, and one that leaves sums with the
/// buffer's length inside the address space.
pub open spec fn lz4_most(room: nat) -> int {
    if usize::MAX - 4 - room < u32::MAX {
        usize::MAX - 4 - room
    } else {
        u32::MAX as int
    }
}

/// Tests whether the lengths of a block are within `most`.
fn lz4_lengths_within(buf: &[u8], most: i128) -> (b: bool)
    ensures
        b == lz4_within(buf@, 0, most as int),
{
    let n: usize = buf.len();
    let mut i: usize = 0;
    while i < n
        invariant
            i <= n == buf@.len(),
            lz4_within(buf@, 0, most as int) == lz4_within(buf@, i as nat, most as int),
        decreases n - i,
    {
        let token: u8 = buf[i];
        let (literal, after): (u128, usize) = read_lz4_length(buf, i + 1, (token / 16) as u64);
        if literal as i128 > most {
            return false;
        }
        if literal > (n - after) as u128 || n - after - literal as usize <= 1 {
            return true;
        }
        let next: usize = after + literal as usize;
        let (copied, end): (u128, usize) = read_lz4_length(buf, next + 2, (token % 16) as u64);
        if copied as i128 > most {
            return false;
        }
        i = end;
    }
    true
}

/// The fault of a block with a length beyond what can be counted.
pub open spec fn lz4_length_fault() -> Fault {
    Fault::Decompress("lz4_raw: length out of range"@)
}

/// Refuses a block with a length that cannot be counted when it is expanded
/// into a buffer of `room` bytes.
pub fn check_lz4_lengths(buf: &[u8], room: usize) -> (r: Result<()>)
    ensures
        reports(
            r,
            if lz4_within(buf@, 0, lz4_most(room as nat)) {
                None
            } else {
                Some(lz4_length_fault())
            },
        ),
{
    let left: i128 = usize::MAX as i128 - 4 - room as i128;
    let most: i128 = if left < u32::MAX as i128 {
        left
    } else {
        u32::MAX as i128
    };
    if lz4_lengths_within(buf, most) {
        Ok(())
    } else {
        Err(CodecError::Decompress("lz4_raw: length out of range".to_string()))
    }
}

/// The bytes of an LZ4 block expanded into a buffer of `room` bytes, or the
/// text of the codec's error.
pub uninterp spec fn lz4_expanded(bytes: Seq<u8>, room: nat) -> std::result::Result<
    Seq<u8>,
    Seq<char>,
>;

/// `lz4_flex::block::decompress_into`: the expanded bytes are written at the
/// start of the buffer and counted; the outcome depends on the block and on
/// the buffer's length alone. What lies in the buffer after the counted
/// bytes, or after a failed call, is not stated. A block's lengths are summed
/// without a check, so those that overflow are left out.
#[verifier::external_body]
fn lz4_fill(compressed: &[u8], out: &mut Vec<u8>) -> (r: std::result::Result<usize, String>)
    requires
        lz4_within(compressed@, 0, lz4_most(old(out)@.len())),
    ensures
        final(out)@.len() == old(out)@.len(),
        r is Ok ==> r->Ok_0 <= old(out)@.len(),
        match lz4_expanded(compressed@, old(out)@.len()) {
            Ok(d) => r is Ok && r->Ok_0 == d.len() && final(out)@.take(d.len() as int) == d,
            Err(t) => r is Err && r->Err_0@ == t,
        },
{
    lz4_flex::block::decompress_into(compressed, out.as_mut_slice()).map_err(|e| format!("{}", e))
}

/// That an input of `n` bytes can be compressed into an LZ4 block: it can be
/// counted in 32 bits, and the room for the block in the address space.
pub open spec fn lz4_packable(n: nat) -> bool {
    n <= u32::MAX && n * 110 <= usize::MAX && n * 110 / 100 + 20 <= usize::MAX
}

/// `lz4_flex::block::compress`: the block's sequences spell out an expanded
/// size of the input's length, and the block expands to the input in a
/// buffer of that length. Which block comes out is not stated: its match
/// search goes by the machine's word size. Inputs are left out that its
/// 32-bit positions cannot count, or whose room, a tenth more and a little,
/// does not fit the address space.
#[verifier::external_body]
fn lz4_pack(bytes: &[u8]) -> (r: Vec<u8>)
    requires
        lz4_packable(bytes@.len()),
    ensures
        lz4_block_size(r@) is Ok && lz4_block_size(r@)->Ok_0 == bytes@.len(),
        gives(lz4_expanded(r@, bytes@.len()), bytes@),
{
    lz4_flex::block::compress(bytes)
}

/// Expands an LZ4 block whose size is not known beforehand.
pub fn decompress_lz4_raw(compressed: &[u8]) -> (r: Result<Vec<u8>>)
    ensures
        match lz4_block_size(compressed@) {
            Err(f) => reports(r, Some(f)),
            Ok(n) => if !lz4_within(compressed@, 0, lz4_most(n)) {
                reports(r, Some(lz4_length_fault()))
            } else {
                match lz4_expanded(compressed@, n) {
                    Ok(d) => r is Ok && r->Ok_0@ == d,
                    Err(t) => reports(r, Some(codec_fault("lz4_raw: "@, t))),
                }
            },
        },
{
    let mut out: Vec<u8> = Vec::new();
    match decompress_lz4_raw_into(compressed, &mut out) {
        Ok(_) => Ok(out),
        Err(e) => Err(e),
    }
}

/// Expands an LZ4 block into the caller's buffer, whose contents are
/// replaced. The size comes from a scan of the block's tokens.
pub fn decompress_lz4_raw_into(compressed: &[u8], out: &mut Vec<u8>) -> (r: Result<()>)
    ensures
        match lz4_block_size(compressed@) {
            Err(f) => reports(r, Some(f)) && final(out)@.len() == 0,
            Ok(n) => if !lz4_within(compressed@, 0, lz4_most(n)) {
                reports(r, Some(lz4_length_fault())) && final(out)@.len() == 0
            } else {
                match lz4_expanded(compressed@, n) {
                    Ok(d) => r is Ok && final(out)@ == d,
                    Err(t) => reports(r, Some(codec_fault("lz4_raw: "@, t)))
                        && final(out)@.len() == n,
                }
            },
        },
{
    out.clear();
    let size: usize = match lz4_raw_uncompressed_size(compressed) {
        Ok(n) => n,
        Err(e) => {
            return Err(e);
        },
    };
    match check_lz4_lengths(compressed, size) {
        Ok(_) => {},
        Err(e) => {
            return Err(e);
        },
    }
    out.resize(size, 0);
    match lz4_fill(compressed, out) {
        Ok(k) => {
            out.truncate(k);
            Ok(())
        },
        Err(t) => Err(codec_err("lz4_raw: ", &t)),
    }
}

/// The fault of a block that expands to another size than was declared.
pub open spec fn declared_fault(decoded: nat, declared: nat) -> Option<Fault> {
    if decoded != declared {
        Some(
            Fault::Decompress(
                "lz4_raw: decoded "@ + dec(decoded) + " bytes, page header declared "@ + dec(
                    declared,
                ) + ""@,
            ),
        )
    } else {
        None
    }
}

/// Refuses a decoded size other than the declared one.
pub fn check_declared(decoded: usize, declared: usize) -> (r: Result<()>)
    ensures
        reports(r, declared_fault(decoded as nat, declared as nat)),
{
    if decoded != declared {
        return Err(
            CodecError::Decompress(
                text2(
                    "lz4_raw: decoded ",
                    decoded as u128,
                    " bytes, page header declared ",
                    declared as u128,
                    "",
                ),
            ),
        );
    }
    Ok(())
}

/// Expands an LZ4 block of a known size into the caller's buffer, whose
/// contents are replaced.
pub fn decompress_lz4_raw_into_sized(
    compressed: &[u8],
    uncompressed_size: usize,
    out: &mut Vec<u8>,
) -> (r: Result<()>)
    ensures
        final(out)@.len() == uncompressed_size,
        if !lz4_within(compressed@, 0, lz4_most(uncompressed_size as nat)) {
            reports(r, Some(lz4_length_fault()))
        } else {
            match lz4_expanded(compressed@, uncompressed_size as nat) {
                Ok(d) => reports(r, declared_fault(d.len(), uncompressed_size as nat))
                    && final(out)@.take(d.len() as int) == d && (r is Ok ==> final(out)@ == d),
                Err(t) => reports(r, Some(codec_fault("lz4_raw: "@, t))),
            }
        },
{
    out.clear();
    out.resize(uncompressed_size, 0);
    match check_lz4_lengths(compressed, uncompressed_size) {
        Ok(_) => {},
        Err(e) => {
            return Err(e);
        },
    }
    match lz4_fill(compressed, out) {
        Ok(k) => {
            proof {
                if k == uncompressed_size {
                    assert(out@.take(k as int) =~= out@);
                }
            }
            check_declared(k, uncompressed_size)
        },
        Err(t) => Err(codec_err("lz4_raw: ", &t)),
    }
}

/// Compresses into one LZ4 block, without framing and without its size.
pub fn compress_lz4_raw(uncompressed: &[u8]) -> (r: Result<Vec<u8>>)
    requires
        lz4_packable(uncompressed@.len()),
    ensures
        r is Ok,
        lz4_holds(r->Ok_0@, uncompressed@),
{
    let block: Vec<u8> = lz4_pack(uncompressed);
    proof {
        lemma_lz4_within_size(block@, 0, lz4_most(uncompressed@.len()));
    }
    Ok(block)
}

/// That an LZ4 block expands to `d`: none of its lengths is refused, and its
/// sequences spell out the size of `d`.
pub open spec fn lz4_holds(block: Seq<u8>, d: Seq<u8>) -> bool {
    &&& lz4_block_size(block) is Ok && lz4_block_size(block)->Ok_0 == d.len()
    &&& lz4_within(block, 0, lz4_most(d.len()))
    &&& gives(lz4_expanded(block, d.len()), d)
}

/// What was compressed as a snappy block is what the block expands to.
pub proof fn law_snappy_round_trip(bytes: Seq<u8>, block: Seq<u8>)
    requires
        states(snappy_stated_len(block), bytes.len()),
        gives(snappy_expanded(block, bytes.len()), bytes),
    ensures
        gives(snappy_expanded(block, snappy_stated_len(block)->Ok_0), bytes),
{
}

/// A zstd stream that holds `d` is read whole, without a cap and with any
/// declared size that is not short of it by more than the slack.
pub proof fn law_zstd_reads_back(stream: Seq<u8>, d: Seq<u8>, declared: nat)
    requires
        zstd_holds(stream, d),
        d.len() <= u64::MAX,
        d.len() <= cap_of(declared),
    ensures
        zstd_content(stream).1,
        at_most(zstd_content(stream).0, u64::MAX as nat) == d,
        at_most(zstd_content(stream).0, limit_of(cap_of(declared))) == d,
        cap_fault(d.len(), cap_of(declared), "zstd"@) is None,
{
}

/// A gzip stream that expands to `d` is read whole, without a cap and with any
/// declared size that is not short of it by more than the slack.
pub proof fn law_gzip_reads_back(stream: Seq<u8>, d: Seq<u8>, declared: nat)
    requires
        gzip_holds(stream, d),
        d.len() <= u64::MAX,
        d.len() <= cap_of(declared),
    ensures
        gives(gzip_expanded(stream, u64::MAX as nat), d),
        gives(gzip_expanded(stream, limit_of(cap_of(declared))), d),
        cap_fault(d.len(), cap_of(declared), "gzip"@) is None,
{
}

/// The same of brotli streams.
pub proof fn law_brotli_reads_back(stream: Seq<u8>, buffer: nat, d: Seq<u8>, declared: nat)
    requires
        brotli_holds(stream, buffer, d),
        d.len() <= u64::MAX,
        d.len() <= cap_of(declared),
    ensures
        gives(brotli_expanded(stream, buffer, u64::MAX as nat), d),
        gives(brotli_expanded(stream, buffer, limit_of(cap_of(declared))), d),
        cap_fault(d.len(), cap_of(declared), "brotli"@) is None,
{
}

/// No length of a block exceeds what the block expands to.
proof fn lemma_lz4_within_size(buf: Seq<u8>, pos: nat, most: int)
    requires
        lz4_size(buf, pos) is Ok,
        lz4_size(buf, pos)->Ok_0 <= most,
    ensures
        lz4_within(buf, pos, most),
    decreases buf.len() - pos,
{
    if pos < buf.len() {
        lemma_lz4_step(buf, pos);
        let token = buf[pos as int] as nat;
        let (literal, after) = lz4_length(buf, pos + 1, token / 16);
        let next = after + literal;
        if next + 2 <= buf.len() {
            let (copied, end) = lz4_length(buf, next + 2, token % 16);
            lemma_lz4_within_size(buf, end, most);
        }
    }
}

/// What was compressed as an LZ4 block is what the block expands to, by the
/// size that its sequences spell out and by the declared one.
pub proof fn law_lz4_round_trip(bytes: Seq<u8>, block: Seq<u8>)
    requires
        lz4_holds(block, bytes),
    ensures
        lz4_within(block, 0, lz4_most(lz4_block_size(block)->Ok_0)),
        gives(lz4_expanded(block, lz4_block_size(block)->Ok_0), bytes),
        declared_fault(bytes.len(), bytes.len()) is None,
{
}

/// A stream may expand to its declared size and 64 bytes more; what expands
/// further is refused, and one byte beyond the cap is enough to show it.
pub proof fn law_cap_leaves_its_slack(declared: nat, actual: nat, codec: Seq<char>)
    requires
        declared <= usize::MAX,
        actual <= usize::MAX,
    ensures
        cap_fault(actual, cap_of(declared), codec) is Some <==> actual > declared + 64,
        cap_of(declared) < u64::MAX ==> limit_of(cap_of(declared)) > cap_of(declared),
        limit_of(cap_of(declared)) <= cap_of(declared) + 1,
{
}

/// A sequence of an LZ4 block as a writer sees it: literals, and where and how
/// much of what came before is copied after them.
pub struct Lz4Sequence {
    pub literals: Seq<u8>,
    pub offset: Seq<u8>,
    pub copied: nat,
}

/// The half of a token that a length takes.
pub open spec fn lz4_nibble(n: nat) -> nat {
    if n < 15 {
        n
    } else {
        15
    }
}

/// What a length that does not fit its half has over: bytes that are summed,
/// up to the first below 255.
pub open spec fn lz4_summands(over: nat) -> Seq<u8>
    decreases over,
{
    if over < 255 {
        seq![over as u8]
    } else {
        seq![255u8] + lz4_summands((over - 255) as nat)
    }
}

/// The bytes of a length beyond its half of the token.
pub open spec fn lz4_more(n: nat) -> Seq<u8> {
    if n < 15 {
        Seq::empty()
    } else {
        lz4_summands((n - 15) as nat)
    }
}

/// A block: the sequences, then literals to the end.
pub open spec fn lz4_block_bytes(sequences: Seq<Lz4Sequence>, last: Seq<u8>) -> Seq<u8>
    decreases sequences.len(),
{
    if sequences.len() == 0 {
        seq![(16 * lz4_nibble(last.len())) as u8] + lz4_more(last.len()) + last
    } else {
        let s = sequences[0];
        let over = (s.copied - 4) as nat;
        seq![(16 * lz4_nibble(s.literals.len()) + lz4_nibble(over)) as u8] + lz4_more(
            s.literals.len(),
        ) + s.literals + s.offset + lz4_more(over) + lz4_block_bytes(sequences.skip(1), last)
    }
}

/// The bytes that a block stands for: all literals, and all that is copied.
pub open spec fn lz4_total(sequences: Seq<Lz4Sequence>, last: Seq<u8>) -> nat
    decreases sequences.len(),
{
    if sequences.len() == 0 {
        last.len()
    } else {
        sequences[0].literals.len() + sequences[0].copied + lz4_total(sequences.skip(1), last)
    }
}

proof fn lemma_lz4_summands(before: Seq<u8>, over: nat, after: Seq<u8>, sum: nat)
    ensures
        lz4_chain(before + lz4_summands(over) + after, before.len(), sum) == (
            sum + over,
            before.len() + lz4_summands(over).len(),
        ),
    decreases over,
{
    let buf = before + lz4_summands(over) + after;
    assert(buf[before.len() as int] == lz4_summands(over)[0]);
    if over >= 255 {
        let rest = (over - 255) as nat;
        lemma_lz4_summands(before.push(255), rest, after, sum + 255);
        assert(before.push(255) + lz4_summands(rest) + after =~= buf);
    }
}

proof fn lemma_lz4_more(before: Seq<u8>, n: nat, after: Seq<u8>)
    ensures
        lz4_length(before + lz4_more(n) + after, before.len(), lz4_nibble(n)) == (
            n,
            before.len() + lz4_more(n).len(),
        ),
{
    if n >= 15 {
        lemma_lz4_summands(before, (n - 15) as nat, after, 15);
    }
}

#[verifier::rlimit(100)]
#[verifier::spinoff_prover]
proof fn lemma_lz4_size(before: Seq<u8>, sequences: Seq<Lz4Sequence>, last: Seq<u8>)
    requires
        forall|i: int|
            0 <= i < sequences.len() ==> (#[trigger] sequences[i]).offset.len() == 2
                && sequences[i].copied >= 4,
    ensures
        lz4_size(before + lz4_block_bytes(sequences, last), before.len()) == Ok::<nat, Fault>(
            lz4_total(sequences, last),
        ),
    decreases sequences.len(),
{
    let buf = before + lz4_block_bytes(sequences, last);
    if sequences.len() == 0 {
        let token = (16 * lz4_nibble(last.len())) as u8;
        lemma_lz4_more(before.push(token), last.len(), last);
        assert(before.push(token) + lz4_more(last.len()) + last =~= buf);
        assert(buf[before.len() as int] == token);
    } else {
        let s = sequences[0];
        let rest = sequences.skip(1);
        let tail = lz4_block_bytes(rest, last);
        let n = s.literals.len();
        let over = (s.copied - 4) as nat;
        let token = (16 * lz4_nibble(n) + lz4_nibble(over)) as u8;
        assert(s.offset.len() == 2 && s.copied >= 4);
        let a = before.push(token);
        assert(a + lz4_more(n) + (s.literals + s.offset + lz4_more(over) + tail) =~= buf);
        lemma_lz4_more(a, n, s.literals + s.offset + lz4_more(over) + tail);
        let b = a + lz4_more(n) + s.literals + s.offset;
        assert(b + lz4_more(over) + tail =~= buf);
        lemma_lz4_more(b, over, tail);
        assert(buf[before.len() as int] == token);
        assert(token as nat / 16 == lz4_nibble(n));
        assert(token as nat % 16 == lz4_nibble(over));
        assert forall|i: int| 0 <= i < rest.len() implies (#[trigger] rest[i]).offset.len() == 2
            && rest[i].copied >= 4 by {
            assert(rest[i] == sequences[i + 1]);
        }
        let c = b + lz4_more(over);
        assert(c + tail =~= buf);
        lemma_lz4_size(c, rest, last);
        lemma_lz4_block_is_not_empty(rest, last);
    }
}

proof fn lemma_lz4_block_is_not_empty(sequences: Seq<Lz4Sequence>, last: Seq<u8>)
    ensures
        lz4_block_bytes(sequences, last).len() > 0,
{
}

/// The expanded size of a block is that of all its literals and copies.
pub proof fn law_lz4_size_counts_the_sequences(sequences: Seq<Lz4Sequence>, last: Seq<u8>)
    requires
        forall|i: int|
            0 <= i < sequences.len() ==> (#[trigger] sequences[i]).offset.len() == 2
                && sequences[i].copied >= 4,
        lz4_total(sequences, last) <= usize::MAX,
    ensures
        lz4_block_size(lz4_block_bytes(sequences, last)) == Ok::<nat, Fault>(
            lz4_total(sequences, last),
        ),
{
    let none = Seq::<u8>::empty();
    lemma_lz4_size(none, sequences, last);
    assert(none + lz4_block_bytes(sequences, last) =~= lz4_block_bytes(sequences, last));
}

} // verus!
