//! Plainly encoded integers: little-endian words, back to back.

use vstd::prelude::*;

use crate::bits::{field, read_field, read_wide_field, BitPos};
use crate::error::{reports, CodecError, Fault, Result};
use crate::wrap::{signed32, signed64, wrap32, wrap64};

verus! {

/// The 64-bit integers that a buffer holds.
pub open spec fn plain_i64(bytes: Seq<u8>) -> Seq<i64> {
    Seq::new(
        (bytes.len() / 8) as nat,
        |i: int| wrap64(field(bytes, (64 * i) as nat, 64) as int),
    )
}

/// The 32-bit integers that a buffer holds.
pub open spec fn plain_i32(bytes: Seq<u8>) -> Seq<i32> {
    Seq::new(
        (bytes.len() / 4) as nat,
        |i: int| wrap32(field(bytes, (32 * i) as nat, 32) as int),
    )
}

/// The fault of a buffer that is no whole number of words.
pub open spec fn unaligned(width: nat, len: nat) -> Option<Fault> {
    if len % width != 0 {
        Some(
            Fault::UnalignedPlainBuffer { value_width: width as usize, buffer_len: len as usize },
        )
    } else {
        None
    }
}

/// Word `i` of a buffer of 64-bit integers.
pub fn plain_word(bytes: &[u8], i: usize) -> (v: i64)
    requires
        i < bytes@.len() / 8,
    ensures
        v == plain_i64(bytes@)[i as int],
{
    let len: usize = bytes.len();
    signed64(read_wide_field(bytes, &BitPos { byte: 8 * i, shift: 0 }, 64))
}

/// Decodes a buffer of 64-bit integers.
pub fn decode_plain_i64(bytes: &[u8]) -> (r: Result<Vec<i64>>)
    ensures
        reports(r, unaligned(8, bytes@.len())),
        r is Ok ==> r->Ok_0@ == plain_i64(bytes@),
{
    let len: usize = bytes.len();
    if len % 8 != 0 {
        return Err(CodecError::UnalignedPlainBuffer { value_width: 8, buffer_len: len });
    }
    let mut out: Vec<i64> = Vec::new();
    let mut i: usize = 0;
    while i < len / 8
        invariant
            i <= len / 8,
            len == bytes@.len(),
            out@ == plain_i64(bytes@).take(i as int),
        decreases len / 8 - i,
    {
        out.push(plain_word(bytes, i));
        proof {
            assert(out@ =~= plain_i64(bytes@).take(i + 1));
        }
        i = i + 1;
    }
    proof {
        assert(plain_i64(bytes@).take(i as int) =~= plain_i64(bytes@));
    }
    Ok(out)
}

/// Decodes a buffer of 32-bit integers.
pub fn decode_plain_i32(bytes: &[u8]) -> (r: Result<Vec<i32>>)
    ensures
        reports(r, unaligned(4, bytes@.len())),
        r is Ok ==> r->Ok_0@ == plain_i32(bytes@),
{
    let len: usize = bytes.len();
    if len % 4 != 0 {
        return Err(CodecError::UnalignedPlainBuffer { value_width: 4, buffer_len: len });
    }
    let mut out: Vec<i32> = Vec::new();
    let mut i: usize = 0;
    while i < len / 4
        invariant
            i <= len / 4,
            len == bytes@.len(),
            out@ == plain_i32(bytes@).take(i as int),
        decreases len / 4 - i,
    {
        out.push(signed32(read_field(bytes, &BitPos { byte: 4 * i, shift: 0 }, 32)));
        proof {
            assert(out@ =~= plain_i32(bytes@).take(i + 1));
        }
        i = i + 1;
    }
    proof {
        assert(plain_i32(bytes@).take(i as int) =~= plain_i32(bytes@));
    }
    Ok(out)
}

/// The `n` low bytes of a number, lowest first.
pub open spec fn le_bytes(u: nat, n: nat) -> Seq<u8>
    decreases n,
{
    if n == 0 {
        Seq::empty()
    } else {
        seq![(u % 256) as u8] + le_bytes(u / 256, (n - 1) as nat)
    }
}

/// The plain encoding of a 64-bit integer.
pub open spec fn plain_bytes_i64(v: i64) -> Seq<u8> {
    le_bytes((v as int % 0x1_0000_0000_0000_0000) as nat, 8)
}

/// The plain encoding of a 32-bit integer.
pub open spec fn plain_bytes_i32(v: i32) -> Seq<u8> {
    le_bytes((v as int % 0x1_0000_0000) as nat, 4)
}

fn push_le_bytes(u: u64, n: u32) -> (out: Vec<u8>)
    ensures
        out@ == le_bytes(u as nat, n as nat),
{
    let mut out: Vec<u8> = Vec::new();
    let mut rest: u64 = u;
    let mut left: u32 = n;
    proof {
        assert(out@ + le_bytes(u as nat, n as nat) =~= le_bytes(u as nat, n as nat));
    }
    while left > 0
        invariant
            out@ + le_bytes(rest as nat, left as nat) == le_bytes(u as nat, n as nat),
        decreases left,
    {
        let ghost before = out@;
        let b: u8 = (rest % 256) as u8;
        out.push(b);
        proof {
            assert(before + (seq![b] + le_bytes(rest as nat / 256, (left - 1) as nat)) =~= out@
                + le_bytes(rest as nat / 256, (left - 1) as nat));
        }
        rest = rest / 256;
        left = left - 1;
    }
    proof {
        assert(out@ + le_bytes(rest as nat, 0) =~= out@);
    }
    out
}

/// Encodes a 64-bit integer.
pub fn encode_plain_i64(v: i64) -> (out: Vec<u8>)
    ensures
        out@ == plain_bytes_i64(v),
{
    let u: u64 = if v >= 0 {
        v as u64
    } else {
        (v as i128 + 0x1_0000_0000_0000_0000) as u64
    };
    push_le_bytes(u, 8)
}

/// Encodes a 32-bit integer.
pub fn encode_plain_i32(v: i32) -> (out: Vec<u8>)
    ensures
        out@ == plain_bytes_i32(v),
{
    let u: u64 = if v >= 0 {
        v as u64
    } else {
        (v as i64 + 0x1_0000_0000) as u64
    };
    push_le_bytes(u, 4)
}

} // verus!
