//! Split-block bloom filters.
//!
//! A filter is a sequence of blocks of eight 32-bit words. The upper half of
//! a value's hash picks a block, the lower half one bit in each of the
//! block's words. A value is possibly present where all eight bits are set,
//! and certainly absent otherwise. The hash of a value is the XXH64 of its
//! plainly encoded bytes, with seed zero.

use vstd::arithmetic::power2::{lemma_pow2_adds, pow2};
use vstd::prelude::*;
use vstd::slice::slice_subrange;

use crate::bits::{
    bit, byte_bit, byte_has, field, lemma_byte_or, lemma_byte_plain, read_field, read_wide_field,
    BitPos,
};
use crate::cursor::{
    begins, law_uvarint_round_trip, law_zigzag_round_trip, lemma_uvarint_bounds,
    lemma_uvarint_local, uvarint_bytes, write_zigzag_i32, zigzag, zigzag_i32, Cursor,
};
use crate::error::{CodecError, Fault, FormatError, Result};
use crate::text::{dec, text1, text2};
use crate::thrift::{
    field_head, lemma_field_head_local, lemma_value_local, read_field_head, skip_value, value_len,
    FieldHead, MAX_DEPTH,
};
use crate::wrap::wrap32;

verus! {

pub const P1: u64 = 0x9E37_79B1_85EB_CA87;

pub const P2: u64 = 0xC2B2_AE3D_27D4_EB4F;

pub const P3: u64 = 0x1656_67B1_9E37_79F9;

pub const P4: u64 = 0x85EB_CA77_C2B2_AE63;

pub const P5: u64 = 0x27D4_EB2F_1656_67C5;

/// `x` rotated left by `r` bits.
#[verifier::opaque]
pub open spec fn rotated(x: u64, r: u64) -> u64 {
    (x << r) | (x >> ((64 - r) as u64))
}

/// One accumulation step of the hash.
#[verifier::opaque]
pub open spec fn round_of(acc: u64, lane: u64) -> u64 {
    rotated(acc.wrapping_add(lane.wrapping_mul(P2)), 31).wrapping_mul(P1)
}

#[verifier::opaque]
pub open spec fn merged(acc: u64, v: u64) -> u64 {
    (acc ^ round_of(0, v)).wrapping_mul(P1).wrapping_add(P4)
}

/// The four accumulators of the hash.
pub struct Lanes {
    pub v1: u64,
    pub v2: u64,
    pub v3: u64,
    pub v4: u64,
}

/// The 64-bit little-endian number at byte `i`.
pub open spec fn word64(input: Seq<u8>, i: nat) -> u64 {
    field(input, 8 * i, 64) as u64
}

/// The accumulators after the whole stripes of 32 bytes from `i` on.
pub open spec fn striped(lanes: Lanes, input: Seq<u8>, i: nat) -> Lanes
    decreases input.len() - i,
{
    if i + 32 > input.len() {
        lanes
    } else {
        striped(
            Lanes {
                v1: round_of(lanes.v1, word64(input, i)),
                v2: round_of(lanes.v2, word64(input, i + 8)),
                v3: round_of(lanes.v3, word64(input, i + 16)),
                v4: round_of(lanes.v4, word64(input, i + 24)),
            },
            input,
            i + 32,
        )
    }
}

/// Four accumulators folded into one.
#[verifier::opaque]
pub open spec fn folded(l: Lanes) -> u64 {
    merged(
        merged(
            merged(
                merged(
                    rotated(l.v1, 1).wrapping_add(rotated(l.v2, 7)).wrapping_add(
                        rotated(l.v3, 12),
                    ).wrapping_add(rotated(l.v4, 18)),
                    l.v1,
                ),
                l.v2,
            ),
            l.v3,
        ),
        l.v4,
    )
}

/// A single byte mixed in.
#[verifier::opaque]
pub open spec fn mix_byte(acc: u64, b: u8) -> u64 {
    rotated(acc ^ (b as u64).wrapping_mul(P5), 11).wrapping_mul(P1)
}

/// Four bytes mixed in.
#[verifier::opaque]
pub open spec fn mix_half(acc: u64, w: u64) -> u64 {
    rotated(acc ^ w.wrapping_mul(P1), 23).wrapping_mul(P2).wrapping_add(P3)
}

/// Eight bytes mixed in.
#[verifier::opaque]
pub open spec fn mix_word(acc: u64, w: u64) -> u64 {
    rotated(acc ^ round_of(0, w), 27).wrapping_mul(P1).wrapping_add(P4)
}

/// The single bytes from `i` on, mixed in.
pub open spec fn tail_bytes(acc: u64, input: Seq<u8>, i: nat) -> u64
    decreases input.len() - i,
{
    if i >= input.len() {
        acc
    } else {
        tail_bytes(mix_byte(acc, input[i as int]), input, i + 1)
    }
}

/// The input from `i` on, mixed in eight bytes at a time, then four, then
/// one.
pub open spec fn tail(acc: u64, input: Seq<u8>, i: nat) -> u64
    decreases input.len() - i,
{
    if i + 8 <= input.len() {
        tail(mix_word(acc, word64(input, i)), input, i + 8)
    } else if i + 4 <= input.len() {
        tail_bytes(mix_half(acc, field(input, 8 * i, 32) as u64), input, i + 4)
    } else {
        tail_bytes(acc, input, i)
    }
}

/// The final mixing of the hash.
#[verifier::opaque]
pub open spec fn avalanche(acc: u64) -> u64 {
    let a = (acc ^ (acc >> 33)).wrapping_mul(P2);
    let b = (a ^ (a >> 29)).wrapping_mul(P3);
    b ^ (b >> 32)
}

/// XXH64 of `input` with a seed.
pub open spec fn xxh64(input: Seq<u8>, seed: u64) -> u64 {
    let stripes: nat = (input.len() / 32) * 32;
    let acc = if input.len() >= 32 {
        folded(
            striped(
                Lanes {
                    v1: seed.wrapping_add(P1).wrapping_add(P2),
                    v2: seed.wrapping_add(P2),
                    v3: seed,
                    v4: seed.wrapping_sub(P1),
                },
                input,
                0,
            ),
        )
    } else {
        seed.wrapping_add(P5)
    };
    avalanche(tail(acc.wrapping_add(input.len() as u64), input, stripes))
}

fn rotate(x: u64, r: u64) -> (y: u64)
    requires
        0 < r < 64,
    ensures
        y == rotated(x, r),
{
    proof {
        reveal(rotated);
    }
    (x << r) | (x >> (64 - r))
}

fn round(acc: u64, input: u64) -> (r: u64)
    ensures
        r == round_of(acc, input),
{
    proof {
        reveal(round_of);
    }
    rotate(acc.wrapping_add(input.wrapping_mul(P2)), 31).wrapping_mul(P1)
}

fn merge_round(acc: u64, val: u64) -> (r: u64)
    ensures
        r == merged(acc, val),
{
    proof {
        reveal(merged);
    }
    let v: u64 = round(0, val);
    (acc ^ v).wrapping_mul(P1).wrapping_add(P4)
}

fn read_u64_le(input: &[u8], i: usize) -> (w: u64)
    requires
        i + 8 <= input@.len(),
    ensures
        w == word64(input@, i as nat),
{
    read_wide_field(input, &BitPos { byte: i, shift: 0 }, 64)
}

/// XXH64 with seed zero, the hash that bloom filters use.
pub fn parquet_xxh64(input: &[u8]) -> (h: u64)
    ensures
        h == xxh64(input@, 0),
{
    parquet_xxh64_seed(input, 0)
}

/// The accumulator after the whole stripes of an input of at least one.
fn fold_stripes(input: &[u8], seed: u64) -> (acc: u64)
    ensures
        acc == folded(
            striped(
                Lanes {
                    v1: seed.wrapping_add(P1).wrapping_add(P2),
                    v2: seed.wrapping_add(P2),
                    v3: seed,
                    v4: seed.wrapping_sub(P1),
                },
                input@,
                0,
            ),
        ),
{
    let len: usize = input.len();
    let mut v1: u64 = seed.wrapping_add(P1).wrapping_add(P2);
    let mut v2: u64 = seed.wrapping_add(P2);
    let mut v3: u64 = seed;
    let mut v4: u64 = seed.wrapping_sub(P1);
    let ghost whole = striped(Lanes { v1, v2, v3, v4 }, input@, 0);
    let mut i: usize = 0;
    while len - i >= 32
        invariant
            i <= len == input@.len(),
            whole == striped(Lanes { v1, v2, v3, v4 }, input@, i as nat),
        decreases len - i,
    {
        v1 = round(v1, read_u64_le(input, i));
        v2 = round(v2, read_u64_le(input, i + 8));
        v3 = round(v3, read_u64_le(input, i + 16));
        v4 = round(v4, read_u64_le(input, i + 24));
        i = i + 32;
    }
    proof {
        reveal(folded);
    }
    let mut acc: u64 = rotate(v1, 1).wrapping_add(rotate(v2, 7)).wrapping_add(
        rotate(v3, 12),
    ).wrapping_add(rotate(v4, 18));
    acc = merge_round(acc, v1);
    acc = merge_round(acc, v2);
    acc = merge_round(acc, v3);
    merge_round(acc, v4)
}

/// Mixes in the input from byte `start` on.
fn mix_tail(acc: u64, input: &[u8], start: usize) -> (r: u64)
    requires
        start <= input@.len(),
    ensures
        r == tail(acc, input@, start as nat),
{
    let len: usize = input.len();
    let mut acc: u64 = acc;
    let mut i: usize = start;
    let ghost mixed = tail(acc, input@, i as nat);
    while len - i >= 8
        invariant
            i <= len == input@.len(),
            mixed == tail(acc, input@, i as nat),
        decreases len - i,
    {
        proof {
            reveal(mix_word);
        }
        let k: u64 = round(0, read_u64_le(input, i));
        acc = rotate(acc ^ k, 27).wrapping_mul(P1).wrapping_add(P4);
        i = i + 8;
    }
    if len - i >= 4 {
        proof {
            reveal(mix_half);
        }
        let k: u64 = read_field(input, &BitPos { byte: i, shift: 0 }, 32) as u64;
        acc = rotate(acc ^ k.wrapping_mul(P1), 23).wrapping_mul(P2).wrapping_add(P3);
        i = i + 4;
    }
    while i < len
        invariant
            i <= len == input@.len(),
            mixed == tail_bytes(acc, input@, i as nat),
        decreases len - i,
    {
        proof {
            reveal(mix_byte);
        }
        let k: u64 = input[i] as u64;
        acc = rotate(acc ^ k.wrapping_mul(P5), 11).wrapping_mul(P1);
        i = i + 1;
    }
    acc
}

/// XXH64 with any seed.
pub fn parquet_xxh64_seed(input: &[u8], seed: u64) -> (h: u64)
    ensures
        h == xxh64(input@, seed),
{
    let len: usize = input.len();
    let mut acc: u64 = if len >= 32 {
        fold_stripes(input, seed)
    } else {
        seed.wrapping_add(P5)
    };
    acc = mix_tail(acc.wrapping_add(len as u64), input, (len / 32) * 32);
    proof {
        reveal(avalanche);
    }
    acc = (acc ^ (acc >> 33)).wrapping_mul(P2);
    acc = (acc ^ (acc >> 29)).wrapping_mul(P3);
    acc ^ (acc >> 32)
}

/// The multiplier of word `i` of a block.
pub open spec fn salt_of(i: int) -> u32 {
    if i == 0 {
        0x47b6_137b
    } else if i == 1 {
        0x4497_4d91
    } else if i == 2 {
        0x8824_ad5b
    } else if i == 3 {
        0xa2b7_289d
    } else if i == 4 {
        0x7054_95c7
    } else if i == 5 {
        0x2df1_424b
    } else if i == 6 {
        0x9efc_4947
    } else {
        0x5c6b_fb31
    }
}

fn salt(i: u32) -> (s: u32)
    requires
        i < 8,
    ensures
        s == salt_of(i as int),
{
    match i {
        0 => 0x47b6_137b,
        1 => 0x4497_4d91,
        2 => 0x8824_ad5b,
        3 => 0xa2b7_289d,
        4 => 0x7054_95c7,
        5 => 0x2df1_424b,
        6 => 0x9efc_4947,
        _ => 0x5c6b_fb31,
    }
}

/// The block, out of `num_blocks`, that a hash belongs to.
pub open spec fn block_of(h: u64, num_blocks: nat) -> nat {
    ((h as nat / 0x1_0000_0000) * num_blocks) / 0x1_0000_0000
}

/// The bit of the bitset that a hash claims in word `i` of its block.
pub open spec fn probe(h: u64, num_blocks: nat, i: int) -> nat {
    (256 * block_of(h, num_blocks) + 32 * i + (((h as nat % 0x1_0000_0000) * salt_of(i) as nat)
        % 0x1_0000_0000) / 0x800_0000) as nat
}

/// That all eight bits of a hash are set; an empty filter contains nothing.
pub open spec fn contains(bitset: Seq<u8>, h: u64) -> bool {
    &&& bitset.len() / 32 > 0
    &&& forall|i: int|
        0 <= i < 8 ==> bit(bitset, #[trigger] probe(h, (bitset.len() / 32) as nat, i)) == 1
}

/// That `after` is `before` with the eight bits of a hash set.
pub open spec fn inserted(before: Seq<u8>, after: Seq<u8>, h: u64) -> bool {
    &&& after.len() == before.len()
    &&& forall|k: nat|
        k < 8 * before.len() ==> (#[trigger] bit(after, k) == 1) == (bit(before, k) == 1 || exists|
            i: int,
        |
            0 <= i < 8 && before.len() / 32 > 0 && k == #[trigger] probe(
                h,
                (before.len() / 32) as nat,
                i,
            ))
}

pub proof fn lemma_probe_bounds(h: u64, num_blocks: nat, i: int)
    requires
        0 < num_blocks,
        0 <= i < 8,
    ensures
        block_of(h, num_blocks) < num_blocks,
        256 * block_of(h, num_blocks) + 32 * i <= probe(h, num_blocks, i) < 256 * block_of(
            h,
            num_blocks,
        ) + 32 * i + 32,
        probe(h, num_blocks, i) < 256 * num_blocks,
{
    let hi: int = h as int / 0x1_0000_0000;
    let n: int = num_blocks as int;
    assert(hi * n < 0x1_0000_0000 * n) by (nonlinear_arith)
        requires
            0 <= hi < 0x1_0000_0000,
            n > 0,
    ;
    assert(hi * n >= 0) by (nonlinear_arith)
        requires
            0 <= hi,
            n > 0,
    ;
}

/// The bit that a hash claims in word `i` of its block: its byte, and its
/// place in the byte.
fn probe_bit(h: u64, num_blocks: u32, i: u32) -> (at: (usize, u32))
    requires
        0 < num_blocks,
        32 * num_blocks <= usize::MAX,
        i < 8,
    ensures
        8 * at.0 + at.1 == probe(h, num_blocks as nat, i as int),
        at.0 < 32 * num_blocks,
        at.1 < 8,
{
    proof {
        lemma_probe_bounds(h, num_blocks as nat, i as int);
        assert((h / 0x1_0000_0000) * num_blocks <= 0xffff_ffff * 0xffff_ffff) by (nonlinear_arith)
            requires
                h / 0x1_0000_0000 <= 0xffff_ffff,
                num_blocks <= 0xffff_ffff,
        ;
    }
    let block: usize = (((h / 0x1_0000_0000) * num_blocks as u64) / 0x1_0000_0000) as usize;
    let low: u32 = (h % 0x1_0000_0000) as u32;
    let mask_bit: u32 = low.wrapping_mul(salt(i)) / 0x800_0000;
    (32 * block + 4 * (i as usize) + (mask_bit / 8) as usize, mask_bit % 8)
}

/// The kind of a filter.
#[derive(Debug, Clone, Copy, PartialEq, Eq, Structural)]
pub enum BloomFilterAlgorithm {
    SplitBlock,
    Other,
}

/// The hash that a filter uses.
#[derive(Debug, Clone, Copy, PartialEq, Eq, Structural)]
pub enum BloomFilterHash {
    XxHash,
    Other,
}

/// The compression of a filter's bitset.
#[derive(Debug, Clone, Copy, PartialEq, Eq, Structural)]
pub enum BloomFilterCompression {
    Uncompressed,
    Other,
}

/// The struct that precedes a filter's bitset.
#[derive(Debug, Clone, Copy, PartialEq, Eq, Structural)]
pub struct BloomFilterHeader {
    pub num_bytes: i32,
    pub algorithm: BloomFilterAlgorithm,
    pub hash: BloomFilterHash,
    pub compression: BloomFilterCompression,
}

/// The fields of a header that have been read: the size, and which
/// alternative each of the three unions holds.
pub struct HeaderFields {
    pub num_bytes: Option<i32>,
    pub algorithm: Option<bool>,
    pub hash: Option<bool>,
    pub compression: Option<bool>,
}

/// How far the fields of a struct can still reach.
pub open spec fn left_from(bytes: Seq<u8>, pos: nat) -> nat {
    if pos < bytes.len() {
        (bytes.len() - pos) as nat
    } else {
        0
    }
}

#[via_fn]
proof fn union_decreases(bytes: Seq<u8>, pos: nat, last: int, first_set: bool) {
    lemma_uvarint_bounds(bytes, pos + 1);
}

/// A union of empty structs: whether its first alternative is the one that
/// was set last, and the bytes it takes.
pub open spec fn union_at(bytes: Seq<u8>, pos: nat, last: int, first_set: bool) -> std::result::Result<
    (bool, nat),
    FormatError,
>
    decreases left_from(bytes, pos),
    via union_decreases
{
    match field_head(bytes, pos, last) {
        Err(e) => Err(e),
        Ok(FieldHead::Stop { next }) => Ok((first_set, (next - pos) as nat)),
        Ok(FieldHead::Value { ty, id, next }) => match value_len(
            bytes,
            next,
            ty,
            MAX_DEPTH as nat,
        ) {
            Err(e) => Err(e),
            Ok(len) => match union_at(bytes, next + len, id, id == 1) {
                Err(e) => Err(e),
                Ok((set, more)) => Ok((set, (next + len + more - pos) as nat)),
            },
        },
    }
}

pub open spec fn set_union(fields: HeaderFields, id: int, first: bool) -> HeaderFields {
    if id == 2 {
        HeaderFields { algorithm: Some(first), ..fields }
    } else if id == 3 {
        HeaderFields { hash: Some(first), ..fields }
    } else {
        HeaderFields { compression: Some(first), ..fields }
    }
}

#[via_fn]
proof fn fields_decreases(bytes: Seq<u8>, pos: nat, last: int, fields: HeaderFields) {
    lemma_uvarint_bounds(bytes, pos + 1);
    if let Ok(FieldHead::Value { ty, id, next }) = field_head(bytes, pos, last) {
        lemma_uvarint_bounds(bytes, next);
    }
}

/// The fields of a header struct, and the position after it. Fields that
/// are not part of a header are passed over.
#[verifier::opaque]
pub open spec fn fields_at(
    bytes: Seq<u8>,
    pos: nat,
    last: int,
    fields: HeaderFields,
) -> std::result::Result<(HeaderFields, nat), FormatError>
    decreases left_from(bytes, pos),
    via fields_decreases
{
    match field_head(bytes, pos, last) {
        Err(e) => Err(e),
        Ok(FieldHead::Stop { next }) => Ok((fields, next)),
        Ok(FieldHead::Value { ty, id, next }) => if id == 1 && ty == 5 {
            match zigzag_i32(bytes, next) {
                Err(e) => Err(e),
                Ok((n, end)) => fields_at(
                    bytes,
                    end,
                    id,
                    HeaderFields { num_bytes: Some(n as i32), ..fields },
                ),
            }
        } else if 2 <= id <= 4 && ty == 12 {
            match union_at(bytes, next, 0, false) {
                Err(e) => Err(e),
                Ok((first, len)) => fields_at(bytes, next + len, id, set_union(fields, id, first)),
            }
        } else {
            match value_len(bytes, next, ty, MAX_DEPTH as nat) {
                Err(e) => Err(e),
                Ok(len) => fields_at(bytes, next + len, id, fields),
            }
        },
    }
}

/// A header of the fields that were read, all of which must be there.
pub open spec fn header_of(f: HeaderFields) -> std::result::Result<BloomFilterHeader, FormatError> {
    if f.num_bytes is None {
        Err(FormatError::MissingField(1))
    } else if f.algorithm is None {
        Err(FormatError::MissingField(2))
    } else if f.hash is None {
        Err(FormatError::MissingField(3))
    } else if f.compression is None {
        Err(FormatError::MissingField(4))
    } else {
        Ok(
            BloomFilterHeader {
                num_bytes: f.num_bytes->Some_0,
                algorithm: if f.algorithm->Some_0 {
                    BloomFilterAlgorithm::SplitBlock
                } else {
                    BloomFilterAlgorithm::Other
                },
                hash: if f.hash->Some_0 {
                    BloomFilterHash::XxHash
                } else {
                    BloomFilterHash::Other
                },
                compression: if f.compression->Some_0 {
                    BloomFilterCompression::Uncompressed
                } else {
                    BloomFilterCompression::Other
                },
            },
        )
    }
}

pub open spec fn no_fields() -> HeaderFields {
    HeaderFields { num_bytes: None, algorithm: None, hash: None, compression: None }
}

/// The header at `pos` and the position after it.
pub open spec fn header_at(bytes: Seq<u8>, pos: nat) -> std::result::Result<
    (BloomFilterHeader, nat),
    FormatError,
> {
    match fields_at(bytes, pos, 0, no_fields()) {
        Err(e) => Err(e),
        Ok((fields, end)) => match header_of(fields) {
            Err(e) => Err(e),
            Ok(h) => Ok((h, end)),
        },
    }
}

fn read_union(cur: &mut Cursor<'_>) -> (r: std::result::Result<bool, FormatError>)
    ensures
        final(cur).bytes() == old(cur).bytes(),
        match union_at(old(cur).bytes(), old(cur).at(), 0, false) {
            Err(e) => r is Err && r->Err_0 == e,
            Ok((set, len)) => r is Ok && r->Ok_0 == set && final(cur).at() == old(cur).at() + len,
        },
{
    let ghost start = cur.at();
    let ghost bytes = cur.bytes();
    let ghost whole = union_at(bytes, start, 0, false);
    let mut last: i128 = 0;
    let mut set: bool = false;
    let mut here: usize = cur.position();
    loop
        invariant
            here == cur.at(),
            here <= bytes.len(),
            cur.bytes() == bytes,
            bytes == old(cur).bytes(),
            start == old(cur).at(),
            start <= cur.at(),
            last <= i32::MAX + 15 * cur.at(),
            whole == union_at(bytes, start, 0, false),
            match union_at(bytes, cur.at(), last as int, set) {
                Err(e) => whole == Err::<(bool, nat), FormatError>(e),
                Ok((s, len)) => whole == Ok::<(bool, nat), FormatError>(
                    (s, (cur.at() - start + len) as nat),
                ),
            },
        decreases bytes.len() - here,
    {
        proof {
            lemma_uvarint_bounds(bytes, cur.at() + 1);
        }
        let head = match read_field_head(cur, last) {
            Ok(h) => h,
            Err(e) => {
                return Err(e);
            },
        };
        match head {
            None => {
                return Ok(set);
            },
            Some((ty, id)) => {
                match skip_value(cur, ty, MAX_DEPTH) {
                    Ok(_) => {},
                    Err(e) => {
                        return Err(e);
                    },
                }
                set = id == 1;
                last = id;
                here = cur.position();
            },
        }
    }
}

/// Reads the struct that precedes a filter's bitset.
pub fn read_bloom_filter_header(cur: &mut Cursor<'_>) -> (r: std::result::Result<
    BloomFilterHeader,
    FormatError,
>)
    ensures
        final(cur).bytes() == old(cur).bytes(),
        match header_at(old(cur).bytes(), old(cur).at()) {
            Err(e) => r is Err && r->Err_0 == e,
            Ok((h, end)) => r is Ok && r->Ok_0 == h && final(cur).at() == end,
        },
{
    let ghost start = cur.at();
    let ghost bytes = cur.bytes();
    let mut fields = HeaderFields {
        num_bytes: None,
        algorithm: None,
        hash: None,
        compression: None,
    };
    let mut last: i128 = 0;
    let mut here: usize = cur.position();
    loop
        invariant_except_break
            here == cur.at(),
            here <= bytes.len(),
            last <= i32::MAX + 15 * cur.at(),
            fields_at(bytes, start, 0, no_fields()) == fields_at(
                bytes,
                cur.at(),
                last as int,
                fields,
            ),
        invariant
            cur.bytes() == bytes,
            bytes == old(cur).bytes(),
            start == old(cur).at(),
        ensures
            fields_at(bytes, start, 0, no_fields()) == Ok::<(HeaderFields, nat), FormatError>(
                (fields, cur.at()),
            ),
        decreases bytes.len() - here,
    {
        proof {
            lemma_uvarint_bounds(bytes, cur.at() + 1);
            reveal_with_fuel(fields_at, 1);
        }
        let head = match read_field_head(cur, last) {
            Ok(h) => h,
            Err(e) => {
                return Err(e);
            },
        };
        match head {
            None => {
                break ;
            },
            Some((ty, id)) => {
                proof {
                    lemma_uvarint_bounds(bytes, cur.at());
                }
                if id == 1 && ty == 5 {
                    match cur.read_zigzag_i32() {
                        Ok(n) => {
                            fields.num_bytes = Some(n);
                        },
                        Err(e) => {
                            return Err(e);
                        },
                    }
                } else if 2 <= id && id <= 4 && ty == 12 {
                    match read_union(cur) {
                        Ok(first) => {
                            if id == 2 {
                                fields.algorithm = Some(first);
                            } else if id == 3 {
                                fields.hash = Some(first);
                            } else {
                                fields.compression = Some(first);
                            }
                        },
                        Err(e) => {
                            return Err(e);
                        },
                    }
                } else {
                    match skip_value(cur, ty, MAX_DEPTH) {
                        Ok(_) => {},
                        Err(e) => {
                            return Err(e);
                        },
                    }
                }
                last = id;
                here = cur.position();
            },
        }
    }
    let num_bytes: i32 = match fields.num_bytes {
        Some(n) => n,
        None => {
            return Err(FormatError::MissingField(1));
        },
    };
    let algorithm = match fields.algorithm {
        Some(true) => BloomFilterAlgorithm::SplitBlock,
        Some(false) => BloomFilterAlgorithm::Other,
        None => {
            return Err(FormatError::MissingField(2));
        },
    };
    let hash = match fields.hash {
        Some(true) => BloomFilterHash::XxHash,
        Some(false) => BloomFilterHash::Other,
        None => {
            return Err(FormatError::MissingField(3));
        },
    };
    let compression = match fields.compression {
        Some(true) => BloomFilterCompression::Uncompressed,
        Some(false) => BloomFilterCompression::Other,
        None => {
            return Err(FormatError::MissingField(4));
        },
    };
    Ok(BloomFilterHeader { num_bytes, algorithm, hash, compression })
}

/// A size, read as an unsigned number of the address space.
pub open spec fn unsigned_size(n: i32) -> nat {
    if n < 0 {
        (n + usize::MAX + 1) as nat
    } else {
        n as nat
    }
}

fn as_unsigned_size(n: i32) -> (size: u128)
    ensures
        size == unsigned_size(n),
        size <= usize::MAX + i32::MAX,
{
    if n < 0 {
        (n as i128 + usize::MAX as i128 + 1) as u128
    } else {
        n as u128
    }
}

/// Whether a size is one of whole blocks.
fn is_block_multiple(n: i32) -> (b: bool)
    ensures
        b == (n % 32 == 0),
{
    let shifted: i64 = n as i64 + 0x8000_0000;
    shifted % 32 == 0
}

/// Why the bytes at the start of `bytes` are no filter that this library
/// reads, or the bitset of the one that they are.
pub open spec fn filter_in(bytes: Seq<u8>) -> std::result::Result<Seq<u8>, Fault> {
    match header_at(bytes, 0) {
        Err(e) => Err(Fault::InvalidInput("format: "@ + e.text())),
        Ok((h, start)) => if h.algorithm != BloomFilterAlgorithm::SplitBlock {
            Err(Fault::Unsupported("bloom filter algorithm not supported: Other"@))
        } else if h.hash != BloomFilterHash::XxHash {
            Err(Fault::Unsupported("bloom filter hash not supported: Other"@))
        } else if h.compression != BloomFilterCompression::Uncompressed {
            Err(Fault::Unsupported("bloom filter compression not supported: Other"@))
        } else if h.num_bytes % 32 != 0 {
            Err(
                Fault::InvalidInput(
                    "bloom filter num_bytes must be a multiple of 32, got "@ + dec(
                        unsigned_size(h.num_bytes),
                    ) + ""@,
                ),
            )
        } else if h.num_bytes < 0 || bytes.len() < start + h.num_bytes {
            Err(
                Fault::InvalidInput(
                    "bloom filter byte buffer too short: have "@ + dec(bytes.len()) + ", need "@
                        + dec(start + unsigned_size(h.num_bytes)) + ""@,
                ),
            )
        } else {
            Ok(bytes.subrange(start as int, start + h.num_bytes))
        },
    }
}

/// A filter over a borrowed bitset.
pub struct SplitBlockBloomFilter<'a> {
    bitset: &'a [u8],
}

impl<'a> SplitBlockBloomFilter<'a> {
    /// The filter's bits.
    pub closed spec fn bits(&self) -> Seq<u8> {
        self.bitset@
    }

    #[verifier::type_invariant]
    spec fn whole_blocks(&self) -> bool {
        &&& self.bitset@.len() % 32 == 0
        &&& self.bitset@.len() <= i32::MAX
    }

    /// Reads the header at the start of `bytes` and attaches the bitset that
    /// follows it.
    pub fn from_bytes(bytes: &'a [u8]) -> (r: Result<Self>)
        ensures
            match filter_in(bytes@) {
                Err(f) => r is Err && r->Err_0@ == f,
                Ok(bitset) => r is Ok && r->Ok_0.bits() == bitset,
            },
    {
        let mut cur = Cursor::new(bytes);
        let header = match read_bloom_filter_header(&mut cur) {
            Ok(h) => h,
            Err(e) => {
                return Err(format_to_codec(e));
            },
        };
        if header.algorithm != BloomFilterAlgorithm::SplitBlock {
            return Err(
                CodecError::Unsupported("bloom filter algorithm not supported: Other".to_string()),
            );
        }
        if header.hash != BloomFilterHash::XxHash {
            return Err(
                CodecError::Unsupported("bloom filter hash not supported: Other".to_string()),
            );
        }
        if header.compression != BloomFilterCompression::Uncompressed {
            return Err(
                CodecError::Unsupported(
                    "bloom filter compression not supported: Other".to_string(),
                ),
            );
        }
        if !is_block_multiple(header.num_bytes) {
            return Err(
                CodecError::InvalidInput(
                    text1(
                        "bloom filter num_bytes must be a multiple of 32, got ",
                        as_unsigned_size(header.num_bytes),
                        "",
                    ),
                ),
            );
        }
        let header_len: usize = cur.position();
        if header.num_bytes < 0 || bytes.len() - header_len < header.num_bytes as usize {
            return Err(
                CodecError::InvalidInput(
                    text2(
                        "bloom filter byte buffer too short: have ",
                        bytes.len() as u128,
                        ", need ",
                        header_len as u128 + as_unsigned_size(header.num_bytes),
                        "",
                    ),
                ),
            );
        }
        let num_bytes: usize = header.num_bytes as usize;
        Ok(
            SplitBlockBloomFilter {
                bitset: slice_subrange(bytes, header_len, header_len + num_bytes),
            },
        )
    }

    /// The number of blocks of the filter.
    pub fn num_blocks(&self) -> (n: usize)
        ensures
            n == self.bits().len() / 32,
    {
        self.bitset.len() / 32
    }

    /// Whether a value with this hash is possibly present: `false` means
    /// certainly absent.
    pub fn contains_hash(&self, h: u64) -> (r: bool)
        ensures
            r == contains(self.bits(), h),
    {
        proof {
            use_type_invariant(self);
        }
        let num_blocks: u32 = (self.bitset.len() / 32) as u32;
        if num_blocks == 0 {
            return false;
        }
        let ghost n = num_blocks as nat;
        let mut i: u32 = 0;
        while i < 8
            invariant
                i <= 8,
                0 < num_blocks,
                n == num_blocks,
                n == self.bitset@.len() / 32,
                self.bitset@.len() % 32 == 0,
                self.bitset@.len() <= i32::MAX,
                forall|j: int| 0 <= j < i ==> bit(self.bitset@, #[trigger] probe(h, n, j)) == 1,
            decreases 8 - i,
        {
            let (byte, shift): (usize, u32) = probe_bit(h, num_blocks, i);
            if !byte_has(self.bitset[byte], shift) {
                proof {
                    assert(bit(self.bitset@, probe(h, n, i as int)) != 1);
                }
                return false;
            }
            i = i + 1;
        }
        true
    }

    /// Whether a value with these bytes is possibly present.
    pub fn contains_bytes(&self, bytes: &[u8]) -> (r: bool)
        ensures
            r == contains(self.bits(), xxh64(bytes@, 0)),
    {
        self.contains_hash(parquet_xxh64(bytes))
    }
}

fn format_to_codec(e: FormatError) -> (r: CodecError)
    ensures
        r@ == Fault::InvalidInput("format: "@ + e.text()),
{
    let mut s: String = "format: ".to_string();
    s.append(e.to_string().as_str());
    CodecError::InvalidInput(s)
}

/// A filter that values are inserted into.
pub struct SplitBlockBloomFilterBuilder {
    bitset: Vec<u8>,
    num_blocks: u32,
}

impl SplitBlockBloomFilterBuilder {
    /// The filter's bits.
    pub closed spec fn bits(&self) -> Seq<u8> {
        self.bitset@
    }

    /// The bitset has as many blocks as the builder was made with.
    pub closed spec fn wf(&self) -> bool {
        self.bitset@.len() == 32 * self.num_blocks
    }

    /// An empty filter of `num_blocks` blocks.
    pub fn new(num_blocks: u32) -> (b: Self)
        requires
            32 * num_blocks <= usize::MAX,
        ensures
            b.wf(),
            b.bits() == Seq::new((32 * num_blocks) as nat, |i: int| 0u8),
    {
        let bitset: Vec<u8> = vec![0u8; 32 * num_blocks as usize];
        proof {
            assert(bitset@ =~= Seq::new((32 * num_blocks) as nat, |i: int| 0u8));
        }
        SplitBlockBloomFilterBuilder { bitset, num_blocks }
    }

    /// Inserts a value by its hash.
    pub fn insert_hash(&mut self, h: u64)
        requires
            old(self).wf(),
        ensures
            final(self).wf(),
            inserted(old(self).bits(), final(self).bits(), h),
    {
        let num_blocks: u32 = self.num_blocks;
        let len: usize = self.bitset.len();
        let ghost before = self.bitset@;
        let ghost n = num_blocks as nat;
        if num_blocks == 0 {
            return ;
        }
        let mut i: u32 = 0;
        while i < 8
            invariant
                i <= 8,
                0 < num_blocks,
                n == num_blocks,
                self.num_blocks == num_blocks,
                self.bitset@.len() == before.len(),
                before.len() == 32 * num_blocks <= usize::MAX,
                forall|k: nat|
                    k < 8 * before.len() ==> (#[trigger] bit(self.bitset@, k) == 1) == (bit(
                        before,
                        k,
                    ) == 1 || exists|j: int| 0 <= j < i && k == #[trigger] probe(h, n, j)),
            decreases 8 - i,
        {
            let (byte, shift): (usize, u32) = probe_bit(h, num_blocks, i);
            let ghost current = self.bitset@;
            let b: u8 = self.bitset[byte];
            let shift: u8 = shift as u8;
            self.bitset.set(byte, b | (1u8 << shift));
            proof {
                lemma_byte_or(b, shift);
                assert forall|m: nat| m < 8 * before.len() implies (#[trigger] bit(self.bitset@, m)
                    == 1) == (bit(before, m) == 1 || exists|j: int|
                    0 <= j < i + 1 && m == #[trigger] probe(h, n, j)) by {
                    assert((bit(current, m) == 1) == (bit(before, m) == 1 || exists|j: int|
                        0 <= j < i && m == #[trigger] probe(h, n, j)));
                    if m / 8 == byte {
                        assert(byte_bit(b | (1u8 << shift), m % 8) == if m % 8 == shift {
                            1
                        } else {
                            byte_bit(b, m % 8)
                        });
                    }
                    if m == 8 * byte + shift {
                        assert(m == probe(h, n, i as int));
                    }
                }
            }
            i = i + 1;
        }
    }

    /// Inserts a value by its bytes.
    pub fn insert_bytes(&mut self, bytes: &[u8])
        requires
            old(self).wf(),
        ensures
            final(self).wf(),
            inserted(old(self).bits(), final(self).bits(), xxh64(bytes@, 0)),
    {
        self.insert_hash(parquet_xxh64(bytes));
    }

    /// The number of blocks of the filter.
    pub fn num_blocks(&self) -> (n: u32)
        requires
            self.wf(),
        ensures
            self.bits().len() == 32 * n,
    {
        self.num_blocks
    }

    /// The filter as it is stored: its header and its bitset.
    pub fn into_bytes(self) -> (out: Vec<u8>)
        ensures
            out@ == header_bytes(wrap32(self.bits().len() as int)) + self.bits(),
    {
        let mut out: Vec<u8> = Vec::new();
        write_bloom_filter_header(&mut out, low_i32(self.bitset.len()));
        out.extend_from_slice(self.bitset.as_slice());
        proof {
            assert(out@ =~= header_bytes(wrap32(self.bits().len() as int)) + self.bits());
        }
        out
    }
}

/// A length cut to 32 bits.
fn low_i32(n: usize) -> (r: i32)
    ensures
        r == wrap32(n as int),
{
    let low: i64 = ((n as u64 % 0x1_0000_0000 + 0x8000_0000) % 0x1_0000_0000) as i64;
    (low - 0x8000_0000) as i32
}

/// A union whose first alternative, an empty struct, is set.
pub open spec fn first_union() -> Seq<u8> {
    seq![0x1cu8, 0x1cu8, 0u8, 0u8]
}

/// The header of an uncompressed split-block filter of `num_bytes` bytes.
pub open spec fn header_bytes(num_bytes: i32) -> Seq<u8> {
    seq![0x15u8] + uvarint_bytes(zigzag(num_bytes as int)) + first_union() + first_union()
        + first_union() + seq![0u8]
}

fn push_first_union(out: &mut Vec<u8>)
    ensures
        final(out)@ == old(out)@ + first_union(),
{
    out.push(0x1c);
    out.push(0x1c);
    out.push(0);
    out.push(0);
    proof {
        assert(out@ =~= old(out)@ + first_union());
    }
}

fn write_bloom_filter_header(out: &mut Vec<u8>, num_bytes: i32)
    ensures
        final(out)@ == old(out)@ + header_bytes(num_bytes),
{
    out.push(0x15);
    write_zigzag_i32(out, num_bytes);
    push_first_union(out);
    push_first_union(out);
    push_first_union(out);
    out.push(0);
    proof {
        assert(out@ =~= old(out)@ + header_bytes(num_bytes));
    }
}

/// What was inserted is contained: a filter has no false negatives.
pub proof fn law_inserted_is_contained(before: Seq<u8>, after: Seq<u8>, h: u64)
    requires
        inserted(before, after, h),
        before.len() >= 32,
    ensures
        contains(after, h),
{
    let n = (before.len() / 32) as nat;
    assert forall|i: int| 0 <= i < 8 implies bit(after, #[trigger] probe(h, n, i)) == 1 by {
        lemma_probe_bounds(h, n, i);
        let k = probe(h, n, i);
        assert(k < 8 * before.len());
    }
}

/// What a filter contains it still contains after any insertion.
pub proof fn law_insertion_keeps_members(before: Seq<u8>, after: Seq<u8>, h: u64, member: u64)
    requires
        inserted(before, after, h),
        contains(before, member),
    ensures
        contains(after, member),
{
    let n = (before.len() / 32) as nat;
    assert forall|i: int| 0 <= i < 8 implies bit(after, #[trigger] probe(member, n, i)) == 1 by {
        lemma_probe_bounds(member, n, i);
        let k = probe(member, n, i);
        assert(bit(before, k) == 1);
    }
}

/// A filter without insertions contains nothing.
pub proof fn law_empty_filter_contains_nothing(num_blocks: nat, h: u64)
    ensures
        !contains(Seq::new(32 * num_blocks, |i: int| 0u8), h),
{
    let bitset = Seq::new(32 * num_blocks, |i: int| 0u8);
    if num_blocks > 0 {
        lemma_probe_bounds(h, num_blocks, 0);
        let k = probe(h, num_blocks, 0);
        lemma_byte_plain(k % 8);
        assert(bitset.len() / 32 == num_blocks);
        assert(bit(bitset, k) == 0);
    }
}

/// Reading a union whose first alternative is set.
proof fn lemma_first_union(bytes: Seq<u8>, pos: nat)
    requires
        pos + 3 <= bytes.len(),
        bytes[pos as int] == 0x1c,
        bytes[(pos + 1) as int] == 0,
        bytes[(pos + 2) as int] == 0,
    ensures
        union_at(bytes, pos, 0, false) == Ok::<(bool, nat), FormatError>((true, 3)),
{
    reveal_with_fuel(union_at, 3);
    reveal_with_fuel(value_len, 2);
    reveal_with_fuel(crate::thrift::struct_len, 2);
    assert(field_head(bytes, pos, 0) == Ok::<FieldHead, FormatError>(
        FieldHead::Value { ty: 12, id: 1, next: pos + 1 },
    ));
    assert(field_head(bytes, pos + 1, 0) == Ok::<FieldHead, FormatError>(
        FieldHead::Stop { next: pos + 2 },
    ));
    assert(field_head(bytes, pos + 2, 1) == Ok::<FieldHead, FormatError>(
        FieldHead::Stop { next: pos + 3 },
    ));
    assert(value_len(bytes, pos + 1, 12, MAX_DEPTH as nat) == Ok::<nat, FormatError>(1));
}

/// Reading a union field whose first alternative is set.
proof fn lemma_union_field(bytes: Seq<u8>, pos: nat, id: int, fields: HeaderFields)
    requires
        1 <= id <= 3,
        pos + 4 <= bytes.len(),
        bytes.subrange(pos as int, (pos + 4) as int) == first_union(),
    ensures
        fields_at(bytes, pos, id, fields) == fields_at(
            bytes,
            pos + 4,
            id + 1,
            set_union(fields, id + 1, true),
        ),
{
    let u = bytes.subrange(pos as int, (pos + 4) as int);
    assert(u[0] == bytes[pos as int] && u[1] == bytes[(pos + 1) as int] && u[2] == bytes[(pos + 2) as int] && u[3]
        == bytes[(pos + 3) as int]);
    lemma_first_union(bytes, pos + 1);
    reveal_with_fuel(fields_at, 1);
    assert(field_head(bytes, pos, id) == Ok::<FieldHead, FormatError>(
        FieldHead::Value { ty: 12, id: id + 1, next: pos + 1 },
    ));
}

/// Reading the size field of a stored header.
proof fn lemma_size_field(n: i32, rest: Seq<u8>)
    ensures
        ({
            let num = uvarint_bytes(zigzag(n as int));
            let bytes = seq![0x15u8] + num + rest;
            fields_at(bytes, 0, 0, no_fields()) == fields_at(
                bytes,
                1 + num.len(),
                1,
                HeaderFields { num_bytes: Some(n), ..no_fields() },
            )
        }),
{
    let num = uvarint_bytes(zigzag(n as int));
    let bytes = seq![0x15u8] + num + rest;
    law_uvarint_round_trip(seq![0x15u8], zigzag(n as int), rest);
    law_zigzag_round_trip(n as int);
    assert(bytes[0] == 0x15);
    reveal_with_fuel(fields_at, 1);
    assert(field_head(bytes, 0, 0) == Ok::<FieldHead, FormatError>(
        FieldHead::Value { ty: 5, id: 1, next: 1 },
    ));
    assert(zigzag_i32(bytes, 1) == Ok::<(int, nat), FormatError>((n as int, 1 + num.len())));
}

/// Reading the three unions and the end of a stored header.
proof fn lemma_union_fields(bytes: Seq<u8>, pos: nat, fields: HeaderFields)
    requires
        pos + 13 <= bytes.len(),
        bytes.subrange(pos as int, (pos + 13) as int) == first_union() + first_union()
            + first_union() + seq![0u8],
    ensures
        fields_at(bytes, pos, 1, fields) == Ok::<(HeaderFields, nat), FormatError>(
            (
                set_union(set_union(set_union(fields, 2, true), 3, true), 4, true),
                pos + 13,
            ),
        ),
{
    let part = bytes.subrange(pos as int, (pos + 13) as int);
    let f2 = set_union(fields, 2, true);
    let f3 = set_union(f2, 3, true);
    let f4 = set_union(f3, 4, true);
    assert(bytes.subrange(pos as int, (pos + 4) as int) =~= part.subrange(0, 4));
    assert(part.subrange(0, 4) =~= first_union());
    lemma_union_field(bytes, pos, 1, fields);
    assert(bytes.subrange((pos + 4) as int, (pos + 8) as int) =~= part.subrange(4, 8));
    assert(part.subrange(4, 8) =~= first_union());
    lemma_union_field(bytes, pos + 4, 2, f2);
    assert(bytes.subrange((pos + 8) as int, (pos + 12) as int) =~= part.subrange(8, 12));
    assert(part.subrange(8, 12) =~= first_union());
    lemma_union_field(bytes, pos + 8, 3, f3);
    assert(bytes[(pos + 12) as int] == part[12]);
    assert(fields_at(bytes, pos + 12, 4, f4) == Ok::<(HeaderFields, nat), FormatError>(
        (f4, pos + 13),
    )) by {
        reveal_with_fuel(fields_at, 1);
    }
}

/// The header of a stored filter, and where it ends.
proof fn lemma_stored_header(bitset: Seq<u8>)
    requires
        bitset.len() % 32 == 0,
        bitset.len() <= i32::MAX,
    ensures
        ({
            let n = wrap32(bitset.len() as int);
            header_at(header_bytes(n) + bitset, 0) == Ok::<(BloomFilterHeader, nat), FormatError>(
                (
                    BloomFilterHeader {
                        num_bytes: n,
                        algorithm: BloomFilterAlgorithm::SplitBlock,
                        hash: BloomFilterHash::XxHash,
                        compression: BloomFilterCompression::Uncompressed,
                    },
                    header_bytes(n).len(),
                ),
            )
        }),
{
    let n = wrap32(bitset.len() as int);
    assert(n == bitset.len());
    let num = uvarint_bytes(zigzag(n as int));
    let bytes = header_bytes(n) + bitset;
    let unions = first_union() + first_union() + first_union() + seq![0u8];
    let pos: nat = 1 + num.len();
    assert(bytes =~= seq![0x15u8] + num + (unions + bitset));
    lemma_size_field(n, unions + bitset);
    assert(bytes.subrange(pos as int, (pos + 13) as int) =~= unions);
    lemma_union_fields(bytes, pos, HeaderFields { num_bytes: Some(n), ..no_fields() });
}

/// A stored filter is read back with the bits it had.
pub proof fn law_stored_filter_reads_back(bitset: Seq<u8>)
    requires
        bitset.len() % 32 == 0,
        bitset.len() <= i32::MAX,
    ensures
        filter_in(header_bytes(wrap32(bitset.len() as int)) + bitset) == Ok::<Seq<u8>, Fault>(
            bitset,
        ),
{
    let n = wrap32(bitset.len() as int);
    let head = header_bytes(n);
    lemma_stored_header(bitset);
    assert((head + bitset).subrange(head.len() as int, head.len() + n) =~= bitset);
}

proof fn lemma_union_local(
    part: Seq<u8>,
    whole: Seq<u8>,
    pos: nat,
    last: int,
    first_set: bool,
)
    requires
        begins(whole, part),
        pos <= part.len(),
    ensures
        union_at(part, pos, last, first_set) is Ok ==> union_at(whole, pos, last, first_set)
            == union_at(part, pos, last, first_set) && pos + union_at(
            part,
            pos,
            last,
            first_set,
        )->Ok_0.1 <= part.len(),
    decreases part.len() - pos,
{
    lemma_field_head_local(part, whole, pos, last);
    if let Ok(FieldHead::Value { ty, id, next }) = field_head(part, pos, last) {
        lemma_value_local(part, whole, next, ty, MAX_DEPTH as nat);
        if let Ok(len) = value_len(part, next, ty, MAX_DEPTH as nat) {
            lemma_union_local(part, whole, next + len, id, id == 1);
        }
    }
}

proof fn lemma_fields_local(
    part: Seq<u8>,
    whole: Seq<u8>,
    pos: nat,
    last: int,
    fields: HeaderFields,
)
    requires
        begins(whole, part),
        pos <= part.len(),
    ensures
        fields_at(part, pos, last, fields) is Ok ==> fields_at(whole, pos, last, fields)
            == fields_at(part, pos, last, fields) && fields_at(
            part,
            pos,
            last,
            fields,
        )->Ok_0.1 <= part.len(),
    decreases part.len() - pos,
{
    reveal_with_fuel(fields_at, 1);
    lemma_field_head_local(part, whole, pos, last);
    if let Ok(FieldHead::Value { ty, id, next }) = field_head(part, pos, last) {
        if id == 1 && ty == 5 {
            lemma_uvarint_bounds(part, next);
            lemma_uvarint_local(part, whole, next);
            if let Ok((n, end)) = zigzag_i32(part, next) {
                lemma_fields_local(
                    part,
                    whole,
                    end,
                    id,
                    HeaderFields { num_bytes: Some(n as i32), ..fields },
                );
            }
        } else if 2 <= id <= 4 && ty == 12 {
            lemma_union_local(part, whole, next, 0, false);
            if let Ok((first, len)) = union_at(part, next, 0, false) {
                lemma_fields_local(part, whole, next + len, id, set_union(fields, id, first));
            }
        } else {
            lemma_value_local(part, whole, next, ty, MAX_DEPTH as nat);
            if let Ok(len) = value_len(part, next, ty, MAX_DEPTH as nat) {
                lemma_fields_local(part, whole, next + len, id, fields);
            }
        }
    }
}

/// A header that can be read is the same whatever bytes follow.
proof fn lemma_header_local(part: Seq<u8>, whole: Seq<u8>)
    requires
        begins(whole, part),
    ensures
        header_at(part, 0) is Ok ==> header_at(whole, 0) == header_at(part, 0) && header_at(
            part,
            0,
        )->Ok_0.1 <= part.len(),
{
    lemma_fields_local(part, whole, 0, 0, no_fields());
}

/// Bytes after a filter change nothing: it is read with the same bits.
pub proof fn law_bytes_after_a_filter_are_ignored(bytes: Seq<u8>, rest: Seq<u8>)
    requires
        filter_in(bytes) is Ok,
    ensures
        filter_in(bytes + rest) == filter_in(bytes),
{
    let whole = bytes + rest;
    assert(begins(whole, bytes));
    lemma_header_local(bytes, whole);
    let (h, start) = header_at(bytes, 0)->Ok_0;
    assert(whole.subrange(start as int, start + h.num_bytes) =~= bytes.subrange(
        start as int,
        start + h.num_bytes,
    ));
}

/// A filter that is cut short is refused as invalid input, wherever it is cut.
pub proof fn law_filter_cut_short_is_refused(bitset: Seq<u8>, k: nat)
    requires
        bitset.len() % 32 == 0,
        bitset.len() <= i32::MAX,
        k < (header_bytes(wrap32(bitset.len() as int)) + bitset).len(),
    ensures
        filter_in((header_bytes(wrap32(bitset.len() as int)) + bitset).take(k as int)) is Err,
        filter_in(
            (header_bytes(wrap32(bitset.len() as int)) + bitset).take(k as int),
        )->Err_0 is InvalidInput,
{
    let n = wrap32(bitset.len() as int);
    let whole = header_bytes(n) + bitset;
    let part = whole.take(k as int);
    lemma_stored_header(bitset);
    assert(begins(whole, part));
    lemma_header_local(part, whole);
}

/// The smallest power of two of blocks that holds `bytes` bytes, at least
/// one block.
pub fn num_blocks_for_bytes(bytes: u64) -> (n: u32)
    ensures
        exists|k: nat| #[trigger] is_block_count(n, bytes, k),
{
    let wanted: u64 = if bytes % 32 == 0 {
        bytes / 32
    } else {
        bytes / 32 + 1
    };
    let mut blocks: u64 = 1;
    let mut k: u32 = 0;
    proof {
        vstd::arithmetic::power2::lemma2_to64();
    }
    while blocks < wanted
        invariant
            k <= 59,
            blocks == pow2(k as nat),
            wanted <= 0x800_0000_0000_0000,
            k > 0 ==> blocks <= 2 * (wanted - 1),
        decreases 60 - k,
    {
        proof {
            lemma_pow2_adds(1, k as nat);
            vstd::arithmetic::power2::lemma2_to64();
            vstd::arithmetic::power2::lemma2_to64_rest();
        }
        blocks = blocks * 2;
        k = k + 1;
    }
    let n: u32 = if blocks > 0xffff_ffff {
        0xffff_ffff
    } else {
        blocks as u32
    };
    proof {
        assert(is_block_count(n, bytes, k as nat));
    }
    n
}

/// That `2^k` is the least power of two of 32-byte blocks that holds
/// `bytes` bytes, and `n` is it, cut to 32 bits' maximum.
pub open spec fn is_block_count(n: u32, bytes: u64, k: nat) -> bool {
    &&& bytes <= 32 * pow2(k)
    &&& k > 0 ==> bytes > 16 * pow2(k)
    &&& n == if pow2(k) > u32::MAX {
        u32::MAX as nat
    } else {
        pow2(k)
    }
}

/// The odd numbers that spread a hash over the words of a block.
pub open spec fn spreading() -> Seq<nat> {
    seq![
        1203114875nat,
        1150766481nat,
        2284105051nat,
        2729912477nat,
        1884591559nat,
        770785867nat,
        2667333959nat,
        1550580529nat,
    ]
}

/// Where a hash claims its bits: in the block that stands to all blocks as
/// the hash's upper half to 2^32, and in each of the block's eight words the
/// bit that stands to all 32 as the spread lower half to 2^32.
pub proof fn law_hash_claims_its_place(h: u64, num_blocks: nat, i: int)
    requires
        0 < num_blocks,
        0 <= i < 8,
    ensures
        ({
            let p = probe(h, num_blocks, i);
            let upper = (h / 0x1_0000_0000) as int;
            let lower = (h % 0x1_0000_0000) as int;
            let block = (p / 256) as int;
            let place = (p % 32) as int;
            let share = (lower * spreading()[i]) % 0x1_0000_0000;
            &&& block * 0x1_0000_0000 <= upper * num_blocks < (block + 1) * 0x1_0000_0000
            &&& (p % 256) / 32 == i
            &&& place * 0x800_0000 <= share < (place + 1) * 0x800_0000
        }),
{
    lemma_probe_bounds(h, num_blocks, i);
    assert(spreading()[i] == salt_of(i));
}

/// One clear bit among the eight of a hash rules it out, and nothing else
/// does.
pub proof fn law_a_clear_bit_rules_out(bitset: Seq<u8>, h: u64)
    requires
        bitset.len() >= 32,
    ensures
        !contains(bitset, h) <==> exists|i: int|
            0 <= i < 8 && bit(bitset, #[trigger] probe(h, (bitset.len() / 32) as nat, i)) != 1,
{
}

/// An insertion leaves every bit alone that the hash does not claim.
pub proof fn law_insertion_sets_its_bits_only(
    before: Seq<u8>,
    after: Seq<u8>,
    h: u64,
    k: nat,
)
    requires
        inserted(before, after, h),
        k < 8 * before.len(),
        forall|i: int| 0 <= i < 8 ==> k != #[trigger] probe(h, (before.len() / 32) as nat, i),
    ensures
        after.len() == before.len(),
        (bit(after, k) == 1) == (bit(before, k) == 1),
{
}

} // verus!
