//! Byte-stream-split columns.
//!
//! A column of `n` fixed-width values is stored as one stream per byte
//! position: the lowest byte of every value, then the next byte of every
//! value, and so on. Floating-point values pass through as their bit
//! patterns, so every value, not-a-numbers and signed zeros among them, is
//! kept exactly.

use vstd::arithmetic::power2::{lemma2_to64, lemma_pow2_adds, lemma_pow2_pos, pow2};
use vstd::prelude::*;

use crate::error::{reports, CodecError, Fault, Result};

verus! {

/// Byte `k` of a bit pattern, lowest first.
pub open spec fn byte_of(v: nat, k: nat) -> u8
    decreases k,
{
    if k == 0 {
        (v % 256) as u8
    } else {
        byte_of(v / 256, (k - 1) as nat)
    }
}

/// The bit pattern of value `i` of `n`, from byte position `k` to `width`.
pub open spec fn joined(bytes: Seq<u8>, n: nat, i: int, k: nat, width: nat) -> nat
    decreases width - k,
{
    if k >= width {
        0
    } else {
        bytes[k * n + i] as nat + 256 * joined(bytes, n, i, k + 1, width)
    }
}

/// That `bytes` stores `values` of `width` bytes as split streams.
pub open spec fn is_split(bytes: Seq<u8>, values: Seq<nat>, width: nat) -> bool {
    &&& bytes.len() == width * values.len()
    &&& forall|k: nat, i: int| #![trigger bytes[k * values.len() + i]]
        k < width && 0 <= i < values.len() ==> bytes[k * values.len() + i] == byte_of(
            values[i],
            k,
        )
}

/// The fault of a body that is not `n` values of `width` bytes.
pub open spec fn size_fault(len: nat, n: nat, width: nat) -> Option<Fault> {
    if len != n * width {
        Some(
            Fault::UnalignedPlainBuffer { value_width: width as usize, buffer_len: len as usize },
        )
    } else {
        None
    }
}

/// Decodes a page body of `num_values` 32-bit floats into their bit
/// patterns.
pub fn decode_byte_stream_split_f32(bytes: &[u8], num_values: usize) -> (r: Result<Vec<u32>>)
    ensures
        reports(r, size_fault(bytes@.len(), num_values as nat, 4)),
        r is Ok ==> r->Ok_0@ == Seq::new(
            num_values as nat,
            |i: int| joined(bytes@, num_values as nat, i, 0, 4) as u32,
        ),
{
    let n: usize = num_values;
    if bytes.len() % 4 != 0 || bytes.len() / 4 != n {
        return Err(CodecError::UnalignedPlainBuffer { value_width: 4, buffer_len: bytes.len() });
    }
    let ghost whole = Seq::new(n as nat, |i: int| joined(bytes@, n as nat, i, 0, 4) as u32);
    let mut out: Vec<u32> = Vec::new();
    let mut i: usize = 0;
    while i < n
        invariant
            i <= n,
            bytes@.len() == 4 * n <= usize::MAX,
            whole == Seq::new(n as nat, |i: int| joined(bytes@, n as nat, i, 0, 4) as u32),
            out@ == whole.take(i as int),
        decreases n - i,
    {
        let v: u32 = bytes[i] as u32 + 256 * (bytes[n + i] as u32 + 256 * (bytes[2 * n + i] as u32
            + 256 * (bytes[3 * n + i] as u32)));
        proof {
            reveal_with_fuel(joined, 5);
            assert(v == joined(bytes@, n as nat, i as int, 0, 4));
        }
        out.push(v);
        proof {
            assert(out@ =~= whole.take(i + 1));
        }
        i = i + 1;
    }
    proof {
        assert(whole.take(n as int) =~= whole);
    }
    Ok(out)
}

/// Decodes a page body of `num_values` 64-bit floats into their bit
/// patterns.
pub fn decode_byte_stream_split_f64(bytes: &[u8], num_values: usize) -> (r: Result<Vec<u64>>)
    ensures
        reports(r, size_fault(bytes@.len(), num_values as nat, 8)),
        r is Ok ==> r->Ok_0@ == Seq::new(
            num_values as nat,
            |i: int| joined(bytes@, num_values as nat, i, 0, 8) as u64,
        ),
{
    let n: usize = num_values;
    if bytes.len() % 8 != 0 || bytes.len() / 8 != n {
        return Err(CodecError::UnalignedPlainBuffer { value_width: 8, buffer_len: bytes.len() });
    }
    let ghost whole = Seq::new(n as nat, |i: int| joined(bytes@, n as nat, i, 0, 8) as u64);
    let mut out: Vec<u64> = Vec::new();
    let mut i: usize = 0;
    while i < n
        invariant
            i <= n,
            bytes@.len() == 8 * n <= usize::MAX,
            whole == Seq::new(n as nat, |i: int| joined(bytes@, n as nat, i, 0, 8) as u64),
            out@ == whole.take(i as int),
        decreases n - i,
    {
        let low: u64 = bytes[i] as u64 + 256 * (bytes[n + i] as u64 + 256 * (bytes[2 * n + i] as u64
            + 256 * (bytes[3 * n + i] as u64)));
        let high: u64 = bytes[4 * n + i] as u64 + 256 * (bytes[5 * n + i] as u64 + 256 * (bytes[6
            * n + i] as u64 + 256 * (bytes[7 * n + i] as u64)));
        let v: u64 = low + 0x1_0000_0000 * high;
        proof {
            reveal_with_fuel(joined, 9);
            assert(v == joined(bytes@, n as nat, i as int, 0, 8));
        }
        out.push(v);
        proof {
            assert(out@ =~= whole.take(i + 1));
        }
        i = i + 1;
    }
    proof {
        assert(whole.take(n as int) =~= whole);
    }
    Ok(out)
}

/// Appends byte `k` of each value.
fn push_stream(values: &[u64], k: u32, out: &mut Vec<u8>)
    requires
        k < 8,
    ensures
        final(out)@ == old(out)@ + Seq::new(
            values@.len(),
            |i: int| byte_of(values@[i] as nat, k as nat),
        ),
{
    let ghost start = out@;
    let ghost stream = Seq::new(values@.len(), |i: int| byte_of(values@[i] as nat, k as nat));
    let mut i: usize = 0;
    while i < values.len()
        invariant
            i <= values@.len(),
            k < 8,
            stream == Seq::new(values@.len(), |i: int| byte_of(values@[i] as nat, k as nat)),
            out@ == start + stream.take(i as int),
        decreases values@.len() - i,
    {
        let mut v: u64 = values[i];
        let mut left: u32 = k;
        while left > 0
            invariant
                left <= k,
                byte_of(v as nat, left as nat) == byte_of(values@[i as int] as nat, k as nat),
            decreases left,
        {
            v = v / 256;
            left = left - 1;
        }
        out.push((v % 256) as u8);
        proof {
            assert(out@ =~= start + stream.take(i + 1));
        }
        i = i + 1;
    }
    proof {
        assert(stream.take(i as int) =~= stream);
    }
}

/// Appends all streams of values of `width` bytes.
fn push_streams(values: &[u64], width: u32) -> (out: Vec<u8>)
    requires
        width <= 8,
    ensures
        is_split(out@, values@.map_values(|v: u64| v as nat), width as nat),
{
    let ghost n = values@.len();
    let ghost nats = values@.map_values(|v: u64| v as nat);
    let mut out: Vec<u8> = Vec::new();
    let mut k: u32 = 0;
    while k < width
        invariant
            k <= width <= 8,
            n == values@.len(),
            nats == values@.map_values(|v: u64| v as nat),
            is_split(out@, nats, k as nat),
        decreases width - k,
    {
        let ghost before = out@;
        push_stream(values, k, &mut out);
        proof {
            assert((k + 1) * n == k * n + n) by (nonlinear_arith);
            assert forall|j: nat, i: int| #![trigger out@[j * n + i]]
                j < k + 1 && 0 <= i < n implies out@[j * n + i] == byte_of(nats[i], j) by {
                if j < k {
                    assert(j * n + i < k * n) by (nonlinear_arith)
                        requires
                            j < k,
                            0 <= i < n,
                    ;
                    assert(0 <= j * n) by (nonlinear_arith);
                    assert(out@[j * n + i] == before[j * n + i]);
                } else {
                    assert(j * n == k * n);
                    assert(out@[k * n + i] == byte_of(values@[i] as nat, k as nat));
                }
            }
        }
        k = k + 1;
    }
    out
}

/// Encodes the bit patterns of 32-bit floats.
pub fn encode_byte_stream_split_f32(values: &[u32]) -> (out: Vec<u8>)
    ensures
        is_split(out@, values@.map_values(|v: u32| v as nat), 4),
{
    let mut wide: Vec<u64> = Vec::new();
    let mut i: usize = 0;
    while i < values.len()
        invariant
            i <= values@.len(),
            wide@ == values@.take(i as int).map_values(|v: u32| v as u64),
        decreases values@.len() - i,
    {
        wide.push(values[i] as u64);
        proof {
            assert(wide@ =~= values@.take(i + 1).map_values(|v: u32| v as u64));
        }
        i = i + 1;
    }
    proof {
        assert(values@.take(i as int) =~= values@);
        assert(wide@.map_values(|v: u64| v as nat) =~= values@.map_values(|v: u32| v as nat));
    }
    push_streams(wide.as_slice(), 4)
}

/// Encodes the bit patterns of 64-bit floats.
pub fn encode_byte_stream_split_f64(values: &[u64]) -> (out: Vec<u8>)
    ensures
        is_split(out@, values@.map_values(|v: u64| v as nat), 8),
{
    push_streams(values, 8)
}

/// The number that the bytes of `v` from position `k` to `width` spell.
proof fn lemma_joined_bytes(
    bytes: Seq<u8>,
    values: Seq<nat>,
    width: nat,
    i: int,
    k: nat,
    rest: nat,
)
    requires
        is_split(bytes, values, width),
        0 <= i < values.len(),
        k <= width,
        rest < vstd::arithmetic::power::pow(256, (width - k) as nat),
        forall|j: nat| k <= j < width ==> #[trigger] byte_of(values[i], j) == byte_of(rest, (j - k) as nat),
    ensures
        joined(bytes, values.len(), i, k, width) == rest,
    decreases width - k,
{
    reveal(vstd::arithmetic::power::pow);
    if k < width {
        let m = (width - k) as nat;
        assert(bytes[k * values.len() + i] == byte_of(values[i], k));
        assert(byte_of(rest, 0) == rest % 256);
        assert forall|j: nat| k + 1 <= j < width implies #[trigger] byte_of(values[i], j)
            == byte_of(rest / 256, (j - (k + 1)) as nat) by {
            assert(byte_of(rest, (j - k) as nat) == byte_of(rest / 256, (j - k - 1) as nat));
        }
        assert(vstd::arithmetic::power::pow(256, m) == 256 * vstd::arithmetic::power::pow(
            256,
            (m - 1) as nat,
        ));
        lemma_joined_bytes(bytes, values, width, i, k + 1, rest / 256);
    }
}

/// Decoding what was encoded gives every bit pattern back, for both widths.
pub proof fn law_split_round_trips(bytes: Seq<u8>, values: Seq<nat>, width: nat, i: int)
    requires
        is_split(bytes, values, width),
        0 <= i < values.len(),
        values[i] < vstd::arithmetic::power::pow(256, width),
    ensures
        joined(bytes, values.len(), i, 0, width) == values[i],
{
    lemma_joined_bytes(bytes, values, width, i, 0, values[i]);
}

/// Stream `k` holds the bytes that count the 256^k of their values.
pub proof fn law_streams_are_digits(v: nat, k: nat)
    ensures
        byte_of(v, k) == (v / pow2(8 * k)) % 256,
    decreases k,
{
    lemma2_to64();
    if k > 0 {
        let j: nat = (k - 1) as nat;
        law_streams_are_digits(v / 256, j);
        lemma_pow2_adds(8, 8 * j);
        lemma_pow2_pos(8 * j);
        vstd::arithmetic::div_mod::lemma_div_denominator(v as int, 256, pow2(8 * j) as int);
        assert(8 + 8 * j == 8 * k);
    } else {
        assert(v / 1 == v);
    }
}

} // verus!
