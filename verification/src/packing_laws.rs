//! What is read back of numbers as a writer lays them out: little-endian
//! words, and values packed back to back.

use vstd::arithmetic::div_mod::{lemma_div_denominator, lemma_fundamental_div_mod_converse};
use vstd::arithmetic::power2::{
    lemma2_to64, lemma2_to64_rest, lemma_pow2_adds, lemma_pow2_pos, lemma_pow2_strictly_increases,
    pow2,
};
use vstd::prelude::*;

use crate::bitpack::lemma_field_inside;
use crate::bits::{
    bit, field, lemma_field_byte, lemma_field_extract, lemma_field_split, packed_len, unpacked,
};
use crate::plain::{le_bytes, plain_bytes_i32, plain_bytes_i64, plain_i32, plain_i64};
use crate::wrap::{wrap32, wrap64};

verus! {

/// Powers of two grow with their exponents.
pub proof fn lemma_pow2_monotone(a: nat, b: nat)
    requires
        a <= b,
    ensures
        pow2(a) <= pow2(b),
{
    if a < b {
        lemma_pow2_strictly_increases(a, b);
    }
}

/// A field depends on the bytes that it lies in alone.
pub proof fn lemma_field_local(a: Seq<u8>, b: Seq<u8>, start: nat, width: nat)
    requires
        start + width <= 8 * a.len(),
        a.len() <= b.len(),
        forall|i: int| 0 <= i < a.len() ==> #[trigger] a[i] == b[i],
    ensures
        field(a, start, width) == field(b, start, width),
    decreases width,
{
    if width > 0 {
        assert(a[(start / 8) as int] == b[(start / 8) as int]);
        lemma_field_local(a, b, start + 1, (width - 1) as nat);
    }
}

/// A field after `k` bytes is the same field of what follows them.
pub proof fn lemma_field_skip(bytes: Seq<u8>, k: nat, start: nat, width: nat)
    requires
        8 * k + start + width <= 8 * bytes.len(),
    ensures
        field(bytes, 8 * k + start, width) == field(bytes.skip(k as int), start, width),
    decreases width,
{
    if width > 0 {
        assert((8 * k + start) / 8 == k + start / 8);
        assert((8 * k + start) % 8 == start % 8);
        assert(bytes.skip(k as int)[(start / 8) as int] == bytes[(k + start / 8) as int]);
        lemma_field_skip(bytes, k, start + 1, (width - 1) as nat);
    }
}

pub proof fn lemma_le_bytes_len(u: nat, n: nat)
    ensures
        le_bytes(u, n).len() == n,
    decreases n,
{
    if n > 0 {
        lemma_le_bytes_len(u / 256, (n - 1) as nat);
    }
}

/// Byte `i` of a little-endian number counts its 256^i.
pub proof fn law_bytes_are_digits(u: nat, n: nat, i: nat)
    requires
        i < n,
    ensures
        le_bytes(u, n).len() == n,
        le_bytes(u, n)[i as int] == (u / pow2(8 * i)) % 256,
    decreases n,
{
    lemma2_to64();
    lemma_le_bytes_len(u, n);
    lemma_le_bytes_len(u / 256, (n - 1) as nat);
    if i > 0 {
        let j: nat = (i - 1) as nat;
        law_bytes_are_digits(u / 256, (n - 1) as nat, j);
        lemma_pow2_adds(8, 8 * j);
        lemma_pow2_pos(8 * j);
        lemma_div_denominator(u as int, 256, pow2(8 * j) as int);
        assert(8 + 8 * j == 8 * i);
    } else {
        assert(u / 1 == u);
    }
}

/// A number that `n` bytes hold is what a field over them reads.
pub proof fn law_field_reads_a_number(u: nat, n: nat)
    requires
        u < pow2(8 * n),
    ensures
        field(le_bytes(u, n), 0, 8 * n) == u,
    decreases n,
{
    lemma2_to64();
    if n > 0 {
        let bytes = le_bytes(u, n);
        let m: nat = (n - 1) as nat;
        let rest: nat = u / 256;
        lemma_le_bytes_len(u, n);
        lemma_le_bytes_len(rest, m);
        lemma_pow2_adds(8, 8 * m);
        assert(8 + 8 * m == 8 * n);
        assert(rest < pow2(8 * m)) by (nonlinear_arith)
            requires
                u < 256 * pow2(8 * m),
                rest == u / 256,
        ;
        law_field_reads_a_number(rest, m);
        assert(bytes.skip(1) =~= le_bytes(rest, m));
        lemma_field_skip(bytes, 1, 0, 8 * m);
        lemma_field_split(bytes, 0, 8, 8 * m);
        lemma_field_byte(bytes, 0);
        assert(bytes[0] == u % 256);
    }
}

/// A number at the front of a buffer, whatever follows it.
pub proof fn lemma_field_of_prefix(u: nat, n: nat, after: Seq<u8>)
    requires
        u < pow2(8 * n),
    ensures
        field(le_bytes(u, n) + after, 0, 8 * n) == u,
{
    law_field_reads_a_number(u, n);
    lemma_le_bytes_len(u, n);
    lemma_field_local(le_bytes(u, n), le_bytes(u, n) + after, 0, 8 * n);
}

// ---- Values packed back to back ----

/// Values of `width` bits as one number, the first lowest.
pub open spec fn joined(values: Seq<nat>, width: nat) -> nat
    decreases values.len(),
{
    if values.len() == 0 {
        0
    } else {
        values[0] + pow2(width) * joined(values.skip(1), width)
    }
}

/// That every value fits `width` bits.
pub open spec fn fit(values: Seq<nat>, width: nat) -> bool {
    forall|i: int| 0 <= i < values.len() ==> #[trigger] values[i] < pow2(width)
}

/// Values packed back to back: their joint number in as few bytes as hold
/// every value's bits.
pub open spec fn packed_bytes(values: Seq<nat>, width: nat) -> Seq<u8> {
    le_bytes(joined(values, width), packed_len(values.len(), width))
}

proof fn lemma_joined_bound(values: Seq<nat>, width: nat)
    requires
        fit(values, width),
    ensures
        joined(values, width) < pow2(values.len() * width),
    decreases values.len(),
{
    lemma2_to64();
    if values.len() > 0 {
        let rest = values.skip(1);
        assert forall|i: int| 0 <= i < rest.len() implies #[trigger] rest[i] < pow2(width) by {
            assert(rest[i] == values[i + 1]);
        }
        lemma_joined_bound(rest, width);
        let n: nat = rest.len();
        assert(values.len() * width == width + n * width) by (nonlinear_arith)
            requires
                values.len() == n + 1,
        ;
        lemma_pow2_adds(width, n * width);
        let p: int = pow2(width) as int;
        let j: int = joined(rest, width) as int;
        let q: int = pow2(n * width) as int;
        let v: int = values[0] as int;
        assert(v + p * j < p * q) by (nonlinear_arith)
            requires
                0 <= v < p,
                j + 1 <= q,
        ;
    } else {
        assert(0 * width == 0);
    }
}

proof fn lemma_joined_digit(values: Seq<nat>, width: nat, i: nat)
    requires
        fit(values, width),
        i < values.len(),
    ensures
        (joined(values, width) / pow2(i * width)) % pow2(width) == values[i as int],
    decreases i,
{
    lemma2_to64();
    let p: int = pow2(width) as int;
    let rest = values.skip(1);
    let v: int = values[0] as int;
    let j: int = joined(rest, width) as int;
    lemma_pow2_pos(width);
    assert forall|k: int| 0 <= k < rest.len() implies #[trigger] rest[k] < pow2(width) by {
        assert(rest[k] == values[k + 1]);
    }
    assert(v + p * j == j * p + v) by (nonlinear_arith);
    lemma_fundamental_div_mod_converse(v + p * j, p, j, v);
    if i == 0 {
        assert(0 * width == 0);
        assert(joined(values, width) / 1 == joined(values, width));
    } else {
        let m: nat = (i - 1) as nat;
        lemma_joined_digit(rest, width, m);
        assert(i * width == width + m * width) by (nonlinear_arith)
            requires
                i == m + 1,
        ;
        lemma_pow2_adds(width, m * width);
        lemma_pow2_pos(m * width);
        lemma_div_denominator(v + p * j, p, pow2(m * width) as int);
        assert(rest[m as int] == values[i as int]);
    }
}

/// Packed values are unpacked as they were, and bytes that follow change
/// nothing.
pub proof fn law_packing_round_trips(values: Seq<nat>, width: nat, after: Seq<u8>)
    requires
        fit(values, width),
    ensures
        packed_bytes(values, width).len() == packed_len(values.len(), width),
        unpacked(packed_bytes(values, width) + after, width, values.len()) == values,
        forall|n: nat|
            n <= values.len() ==> #[trigger] unpacked(
                packed_bytes(values, width) + after,
                width,
                n,
            ) == values.take(n as int),
{
    let len = packed_len(values.len(), width);
    let bytes = packed_bytes(values, width);
    let u = joined(values, width);
    lemma_le_bytes_len(u, len);
    lemma_joined_bound(values, width);
    lemma_pow2_monotone(values.len() * width, 8 * len);
    law_field_reads_a_number(u, len);
    assert forall|i: int| 0 <= i < values.len() implies #[trigger] field(
        bytes + after,
        (i * width) as nat,
        width,
    ) == values[i] by {
        lemma_field_inside(len, width, values.len(), i as nat);
        lemma_field_local(bytes, bytes + after, (i * width) as nat, width);
        lemma_field_extract(bytes, 0, 8 * len, (i * width) as nat, width);
        lemma_joined_digit(values, width, i as nat);
    }
    assert(unpacked(bytes + after, width, values.len()) =~= values);
    assert forall|n: nat| n <= values.len() implies #[trigger] unpacked(bytes + after, width, n)
        == values.take(n as int) by {
        assert(unpacked(bytes + after, width, n) =~= values.take(n as int));
    }
}

// ---- Plain words ----

/// The plain encodings of 64-bit integers, back to back.
pub open spec fn plain_stream_i64(values: Seq<i64>) -> Seq<u8>
    decreases values.len(),
{
    if values.len() == 0 {
        Seq::empty()
    } else {
        plain_bytes_i64(values[0]) + plain_stream_i64(values.skip(1))
    }
}

/// The plain encodings of 32-bit integers, back to back.
pub open spec fn plain_stream_i32(values: Seq<i32>) -> Seq<u8>
    decreases values.len(),
{
    if values.len() == 0 {
        Seq::empty()
    } else {
        plain_bytes_i32(values[0]) + plain_stream_i32(values.skip(1))
    }
}

/// The field over a plainly encoded 64-bit integer, as a signed number, is
/// that integer.
pub proof fn law_plain_i64_reads_back(v: i64, after: Seq<u8>)
    ensures
        plain_bytes_i64(v).len() == 8,
        wrap64(field(plain_bytes_i64(v) + after, 0, 64) as int) == v,
{
    lemma2_to64();
    lemma2_to64_rest();
    let u = (v as int % 0x1_0000_0000_0000_0000) as nat;
    lemma_le_bytes_len(u, 8);
    lemma_field_of_prefix(u, 8, after);
}

/// The field over a plainly encoded 32-bit integer, as a signed number, is
/// that integer.
pub proof fn law_plain_i32_reads_back(v: i32, after: Seq<u8>)
    ensures
        plain_bytes_i32(v).len() == 4,
        wrap32(field(plain_bytes_i32(v) + after, 0, 32) as int) == v,
{
    lemma2_to64();
    let u = (v as int % 0x1_0000_0000) as nat;
    lemma_le_bytes_len(u, 4);
    lemma_field_of_prefix(u, 4, after);
}

/// A buffer of plainly encoded 64-bit integers holds them, in order.
pub proof fn law_plain_stream_i64_round_trips(values: Seq<i64>)
    ensures
        plain_stream_i64(values).len() == 8 * values.len(),
        plain_i64(plain_stream_i64(values)) == values,
    decreases values.len(),
{
    if values.len() > 0 {
        let head = plain_bytes_i64(values[0]);
        let tail = plain_stream_i64(values.skip(1));
        let bytes = plain_stream_i64(values);
        law_plain_stream_i64_round_trips(values.skip(1));
        law_plain_i64_reads_back(values[0], tail);
        assert(bytes.skip(8) =~= tail);
        assert forall|i: int| 0 <= i < values.len() implies plain_i64(bytes)[i] == values[i] by {
            if i > 0 {
                lemma_field_skip(bytes, 8, (64 * (i - 1)) as nat, 64);
                assert(plain_i64(tail)[i - 1] == values.skip(1)[i - 1]);
                assert(8 * 8 + (64 * (i - 1)) as nat == (64 * i) as nat);
            }
        }
    }
    assert(plain_i64(plain_stream_i64(values)) =~= values);
}

/// A buffer of plainly encoded 32-bit integers holds them, in order.
pub proof fn law_plain_stream_i32_round_trips(values: Seq<i32>)
    ensures
        plain_stream_i32(values).len() == 4 * values.len(),
        plain_i32(plain_stream_i32(values)) == values,
    decreases values.len(),
{
    if values.len() > 0 {
        let head = plain_bytes_i32(values[0]);
        let tail = plain_stream_i32(values.skip(1));
        let bytes = plain_stream_i32(values);
        law_plain_stream_i32_round_trips(values.skip(1));
        law_plain_i32_reads_back(values[0], tail);
        assert(bytes.skip(4) =~= tail);
        assert forall|i: int| 0 <= i < values.len() implies plain_i32(bytes)[i] == values[i] by {
            if i > 0 {
                lemma_field_skip(bytes, 4, (32 * (i - 1)) as nat, 32);
                assert(plain_i32(tail)[i - 1] == values.skip(1)[i - 1]);
                assert(8 * 4 + (32 * (i - 1)) as nat == (32 * i) as nat);
            }
        }
    }
    assert(plain_i32(plain_stream_i32(values)) =~= values);
}

} // verus!
