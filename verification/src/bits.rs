//! Bits of a byte stream, least significant first, and the unsigned fields
//! that runs of them spell out.

use vstd::arithmetic::power2::{lemma2_to64, lemma_pow2_adds, lemma_pow2_pos, pow2};
use vstd::prelude::*;

verus! {

/// Bit `i` of a byte; bit 0 is the lowest.
pub open spec fn byte_bit(b: u8, i: nat) -> nat {
    (b as nat / pow2(i)) % 2
}

/// Bit `k` of a byte stream; bit 0 is the lowest bit of byte 0.
pub open spec fn bit(bytes: Seq<u8>, k: nat) -> nat {
    byte_bit(bytes[(k / 8) as int], k % 8)
}

/// The unsigned number spelled by `width` bits from bit `start` on, lowest
/// bit first.
pub open spec fn field(bytes: Seq<u8>, start: nat, width: nat) -> nat
    decreases width,
{
    if width == 0 {
        0
    } else {
        bit(bytes, start) + 2 * field(bytes, start + 1, (width - 1) as nat)
    }
}

/// The bytes that `n` fields of `width` bits occupy.
pub open spec fn packed_len(n: nat, width: nat) -> nat {
    (n * width + 7) as nat / 8
}

pub proof fn lemma_field_bound(bytes: Seq<u8>, start: nat, width: nat)
    ensures
        field(bytes, start, width) < pow2(width),
    decreases width,
{
    lemma2_to64();
    if width > 0 {
        lemma_field_bound(bytes, start + 1, (width - 1) as nat);
        lemma_pow2_adds(1, (width - 1) as nat);
    }
}

/// A field of `a + b` bits is its low `a` bits and its high `b` bits.
pub proof fn lemma_field_split(bytes: Seq<u8>, start: nat, a: nat, b: nat)
    ensures
        field(bytes, start, a + b) == field(bytes, start, a) + pow2(a) * field(bytes, start + a, b),
    decreases a,
{
    lemma2_to64();
    if a > 0 {
        lemma_field_split(bytes, start + 1, (a - 1) as nat, b);
        lemma_pow2_adds(1, (a - 1) as nat);
        let f: nat = field(bytes, start + a, b);
        let p: nat = pow2((a - 1) as nat);
        assert(start + 1 + (a - 1) as nat == start + a);
        assert((a + b - 1) as nat == (a - 1) as nat + b);
        let g: nat = field(bytes, start + 1, (a - 1) as nat);
        assert(2 * (g + p * f) == 2 * g + (2 * p) * f) by (nonlinear_arith);
        assert(field(bytes, start, a) == bit(bytes, start) + 2 * g);
        assert(field(bytes, start, a + b) == bit(bytes, start) + 2 * (g + p * f));
    } else {
        let f: nat = field(bytes, start, b);
        assert(1 * f == f);
    }
}

proof fn lemma_bit_in_byte(bytes: Seq<u8>, k: nat, i: nat)
    requires
        i < 8,
    ensures
        bit(bytes, 8 * k + i) == (bytes[k as int] as nat / pow2(i)) % 2,
{
    assert((8 * k + i) / 8 == k);
    assert((8 * k + i) % 8 == i);
}

proof fn lemma_byte_from_bits(b: nat)
    requires
        b < 256,
    ensures
        b == b % 2 + 2 * ((b / 2) % 2 + 2 * ((b / 4) % 2 + 2 * ((b / 8) % 2 + 2 * ((b / 16) % 2 + 2
            * ((b / 32) % 2 + 2 * ((b / 64) % 2 + 2 * ((b / 128) % 2))))))),
{
    let b1: nat = b / 2;
    let b2: nat = b1 / 2;
    let b3: nat = b2 / 2;
    let b4: nat = b3 / 2;
    let b5: nat = b4 / 2;
    let b6: nat = b5 / 2;
    let b7: nat = b6 / 2;
    assert(b2 == b / 4);
    assert(b3 == b / 8);
    assert(b4 == b / 16);
    assert(b5 == b / 32);
    assert(b6 == b / 64);
    assert(b7 == b / 128);
    assert(b7 == b7 % 2);
    assert(b6 == b6 % 2 + 2 * b7);
    assert(b5 == b5 % 2 + 2 * b6);
    assert(b4 == b4 % 2 + 2 * b5);
    assert(b3 == b3 % 2 + 2 * b4);
    assert(b2 == b2 % 2 + 2 * b3);
    assert(b1 == b1 % 2 + 2 * b2);
}

/// Eight bits on a byte boundary are that byte.
pub proof fn lemma_field_byte(bytes: Seq<u8>, k: nat)
    ensures
        field(bytes, 8 * k, 8) == bytes[k as int],
{
    lemma2_to64();
    let b: nat = bytes[k as int] as nat;
    let s: nat = 8 * k;
    lemma_bit_in_byte(bytes, k, 0);
    lemma_bit_in_byte(bytes, k, 1);
    lemma_bit_in_byte(bytes, k, 2);
    lemma_bit_in_byte(bytes, k, 3);
    lemma_bit_in_byte(bytes, k, 4);
    lemma_bit_in_byte(bytes, k, 5);
    lemma_bit_in_byte(bytes, k, 6);
    lemma_bit_in_byte(bytes, k, 7);
    assert(field(bytes, s + 8, 0) == 0);
    assert(field(bytes, s + 7, 1) == (b / 128) % 2 + 2 * field(bytes, s + 8, 0));
    assert(field(bytes, s + 6, 2) == (b / 64) % 2 + 2 * field(bytes, s + 7, 1));
    assert(field(bytes, s + 5, 3) == (b / 32) % 2 + 2 * field(bytes, s + 6, 2));
    assert(field(bytes, s + 4, 4) == (b / 16) % 2 + 2 * field(bytes, s + 5, 3));
    assert(field(bytes, s + 3, 5) == (b / 8) % 2 + 2 * field(bytes, s + 4, 4));
    assert(field(bytes, s + 2, 6) == (b / 4) % 2 + 2 * field(bytes, s + 3, 5));
    assert(field(bytes, s + 1, 7) == (b / 2) % 2 + 2 * field(bytes, s + 2, 6));
    assert(field(bytes, s, 8) == b % 2 + 2 * field(bytes, s + 1, 7));
    lemma_byte_from_bits(b);
}

/// Dropping `shift` low bits of a field and keeping `width` of the rest is
/// the field that starts `shift` bits later.
pub proof fn lemma_field_extract(bytes: Seq<u8>, base: nat, total: nat, shift: nat, width: nat)
    requires
        shift + width <= total,
    ensures
        (field(bytes, base, total) / pow2(shift)) % pow2(width) == field(
            bytes,
            base + shift,
            width,
        ),
{
    let rest: nat = (total - shift - width) as nat;
    lemma_field_split(bytes, base, shift, width + rest);
    lemma_field_split(bytes, base + shift, width, rest);
    lemma_field_bound(bytes, base, shift);
    lemma_field_bound(bytes, base + shift, width);
    lemma_pow2_pos(shift);
    lemma_pow2_pos(width);
    let low: int = field(bytes, base, shift) as int;
    let mid: int = field(bytes, base + shift, width) as int;
    let high: int = field(bytes, base + shift + width, rest) as int;
    let ps: int = pow2(shift) as int;
    let pw: int = pow2(width) as int;
    assert(shift + (width + rest) == total);
    assert(field(bytes, base, total) == low + ps * (mid + pw * high));
    vstd::arithmetic::div_mod::lemma_fundamental_div_mod_converse(
        low + ps * (mid + pw * high),
        ps,
        mid + pw * high,
        low,
    );
    vstd::arithmetic::div_mod::lemma_fundamental_div_mod_converse(mid + pw * high, pw, high, mid);
}

/// A bit position: a byte and a bit within it.
pub struct BitPos {
    pub byte: usize,
    pub shift: u32,
}

impl BitPos {
    pub open spec fn wf(&self) -> bool {
        self.shift < 8
    }

    /// The number of bits before the position.
    pub open spec fn bit(&self) -> nat {
        (8 * self.byte + self.shift) as nat
    }

    /// The position of the first bit.
    pub fn start() -> (p: Self)
        ensures
            p.wf(),
            p.bit() == 0,
    {
        BitPos { byte: 0, shift: 0 }
    }

    /// The position `width` bits later.
    pub fn advance(&mut self, width: u8)
        requires
            old(self).wf(),
            old(self).bit() + width <= 8 * usize::MAX,
        ensures
            final(self).wf(),
            final(self).bit() == old(self).bit() + width,
    {
        let bits: u32 = self.shift + width as u32;
        self.byte = self.byte + (bits / 8) as usize;
        self.shift = bits % 8;
    }
}

/// Reads the unsigned field of up to 32 bits at a position.
pub fn read_field(bytes: &[u8], at: &BitPos, width: u32) -> (value: u32)
    requires
        width <= 32,
        at.wf(),
        at.bit() + width <= 8 * bytes@.len(),
    ensures
        value == field(bytes@, at.bit(), width as nat),
{
    if width == 0 {
        return 0;
    }
    let len: usize = bytes.len();
    let first: usize = at.byte;
    let shift: u32 = at.shift;
    let count: usize = ((width + shift + 7) / 8) as usize;
    let mut acc: u64 = 0;
    let mut j: usize = count;
    proof {
        lemma2_to64();
    }
    while j > 0
        invariant
            j <= count <= 5,
            first + count <= bytes@.len() == len,
            acc == field(bytes@, (8 * (first + j)) as nat, (8 * (count - j)) as nat),
            acc < pow2((8 * (count - j)) as nat),
        decreases j,
    {
        j = j - 1;
        proof {
            let old_bits: nat = (8 * (count - j - 1)) as nat;
            vstd::arithmetic::power2::lemma_pow2_strictly_increases(old_bits, 40);
            lemma2_to64();
            lemma_field_split(bytes@, (8 * (first + j)) as nat, 8, old_bits);
            lemma_field_byte(bytes@, (first + j) as nat);
            lemma_field_bound(bytes@, (8 * (first + j)) as nat, (8 * (count - j)) as nat);
            assert((8 * (first + j)) as nat + 8 == (8 * (first + j + 1)) as nat);
            assert(8 + old_bits == (8 * (count - j)) as nat);
        }
        acc = acc * 256 + bytes[first + j] as u64;
    }
    let ghost total: nat = (8 * count) as nat;
    proof {
        lemma_field_extract(bytes@, (8 * first) as nat, total, shift as nat, width as nat);
        lemma_field_bound(bytes@, at.bit(), width as nat);
        lemma2_to64();
        if width < 32 {
            vstd::arithmetic::power2::lemma_pow2_strictly_increases(width as nat, 32);
        }
        vstd::bits::lemma_u64_shr_is_div(acc, shift as u64);
        vstd::bits::lemma_u64_shl_is_mul(1, width as u64);
        vstd::bits::lemma_u64_low_bits_mask_is_mod(acc >> shift, width as nat);
    }
    let mask: u64 = (1u64 << width) - 1;
    ((acc >> shift) & mask) as u32
}

/// Reads the unsigned field of up to 64 bits at a position.
pub fn read_wide_field(bytes: &[u8], at: &BitPos, width: u32) -> (value: u64)
    requires
        width <= 64,
        at.wf(),
        at.bit() + width <= 8 * bytes@.len(),
    ensures
        value == field(bytes@, at.bit(), width as nat),
{
    if width <= 32 {
        return read_field(bytes, at, width) as u64;
    }
    proof {
        lemma_field_split(bytes@, at.bit(), 32, (width - 32) as nat);
        lemma2_to64();
    }
    let len: usize = bytes.len();
    let low: u32 = read_field(bytes, at, 32);
    let above = BitPos { byte: at.byte + 4, shift: at.shift };
    let high: u32 = read_field(bytes, &above, width - 32);
    (low as u64) + 0x1_0000_0000 * (high as u64)
}

/// Bit `k` of `bytes`.
pub fn get_bit(bytes: &[u8], k: usize) -> (set: bool)
    requires
        k < 8 * bytes@.len(),
    ensures
        set == (bit(bytes@, k as nat) == 1),
{
    byte_has(bytes[k / 8], (k % 8) as u32)
}

/// Bit `i` of a byte.
pub fn byte_has(b: u8, i: u32) -> (set: bool)
    requires
        i < 8,
    ensures
        set == (byte_bit(b, i as nat) == 1),
{
    proof {
        lemma_byte_bit(b, i as u8);
    }
    (b >> i) & 1 == 1
}

pub proof fn lemma_byte_bit(b: u8, i: u8)
    requires
        i < 8,
    ensures
        byte_bit(b, i as nat) == (b >> i) & 1,
        (b >> i) & 1 <= 1,
{
    vstd::bits::lemma_u8_shr_is_div(b, i);
    let x: u8 = b >> i;
    assert(x & 1 == x % 2) by (bit_vector);
}

/// Setting one bit of a byte leaves the others.
pub proof fn lemma_byte_or(b: u8, j: u8)
    requires
        j < 8,
    ensures
        forall|i: nat| i < 8 ==> #[trigger] byte_bit(b | (1u8 << j), i) == if i == j {
            1
        } else {
            byte_bit(b, i)
        },
{
    assert forall|i: nat| i < 8 implies #[trigger] byte_bit(b | (1u8 << j), i) == if i == j {
        1
    } else {
        byte_bit(b, i)
    } by {
        let i8: u8 = i as u8;
        lemma_byte_bit(b, i8);
        lemma_byte_bit(b | (1u8 << j), i8);
        assert(((b | (1u8 << j)) >> i8) & 1 == if i8 == j {
            1u8
        } else {
            (b >> i8) & 1
        }) by (bit_vector)
            requires
                i8 < 8,
                j < 8,
        ;
    }
}

/// The bits of an empty and of a full byte.
pub proof fn lemma_byte_plain(i: nat)
    requires
        i < 8,
    ensures
        byte_bit(0, i) == 0,
        byte_bit(0xff, i) == 1,
{
    let i8: u8 = i as u8;
    lemma_byte_bit(0, i8);
    lemma_byte_bit(0xff, i8);
    assert((0u8 >> i8) & 1 == 0 && (0xffu8 >> i8) & 1 == 1) by (bit_vector)
        requires
            i8 < 8,
    ;
}

/// Sets bit `k` of the bitmap that starts at byte `base`.
pub fn set_bit(bytes: &mut Vec<u8>, base: usize, k: usize)
    requires
        base + k / 8 < old(bytes)@.len(),
    ensures
        final(bytes)@.len() == old(bytes)@.len(),
        final(bytes)@.take(base as int) == old(bytes)@.take(base as int),
        forall|i: nat|
            i < 8 * (old(bytes)@.len() - base) ==> #[trigger] bit(
                final(bytes)@.skip(base as int),
                i,
            ) == if i == k {
                1
            } else {
                bit(old(bytes)@.skip(base as int), i)
            },
{
    let len: usize = bytes.len();
    let at: usize = base + k / 8;
    let b: u8 = bytes[at];
    let j: u8 = (k % 8) as u8;
    proof {
        lemma_byte_or(b, j);
    }
    bytes.set(at, b | (1u8 << j));
    proof {
        let before = old(bytes)@.skip(base as int);
        let after = bytes@.skip(base as int);
        assert(bytes@.take(base as int) =~= old(bytes)@.take(base as int));
        assert(after =~= before.update(k as int / 8, b | (1u8 << j)));
    }
}

/// Sets bits `[start_row, end_row)` of the bitmap that starts at byte
/// `base`.
pub fn set_range_bits(out: &mut Vec<u8>, base: usize, start_row: usize, end_row: usize)
    requires
        start_row <= end_row,
        base + (end_row + 7) / 8 <= old(out)@.len(),
    ensures
        final(out)@.len() == old(out)@.len(),
        final(out)@.take(base as int) == old(out)@.take(base as int),
        forall|i: nat|
            i < 8 * (old(out)@.len() - base) ==> (#[trigger] bit(final(out)@.skip(base as int), i)
                == 1) == (start_row <= i < end_row || bit(old(out)@.skip(base as int), i) == 1),
{
    let ghost before = out@.skip(base as int);
    let len: usize = out.len();
    let mut row: usize = start_row;
    while row < end_row
        invariant
            start_row <= row <= end_row,
            len == out@.len() == old(out)@.len(),
            base + (end_row + 7) / 8 <= len,
            out@.take(base as int) == old(out)@.take(base as int),
            before == old(out)@.skip(base as int),
            forall|i: nat|
                i < 8 * (len - base) ==> (#[trigger] bit(out@.skip(base as int), i) == 1) == (
                start_row <= i < row || bit(before, i) == 1),
        decreases end_row - row,
    {
        let ghost current = out@.skip(base as int);
        if row % 8 == 0 && end_row - row >= 8 {
            let at: usize = base + row / 8;
            out.set(at, 0xff);
            proof {
                assert(out@.take(base as int) =~= old(out)@.take(base as int));
                assert(out@.skip(base as int) =~= current.update(row as int / 8, 0xff));
                assert forall|i: nat| i < 8 * (len - base) implies (#[trigger] bit(
                    out@.skip(base as int),
                    i,
                ) == 1) == (start_row <= i < row + 8 || bit(before, i) == 1) by {
                    lemma_byte_plain(i % 8);
                    assert((bit(current, i) == 1) == (start_row <= i < row || bit(before, i)
                        == 1));
                }
            }
            row = row + 8;
        } else {
            set_bit(out, base, row);
            proof {
                assert forall|i: nat| i < 8 * (len - base) implies (#[trigger] bit(
                    out@.skip(base as int),
                    i,
                ) == 1) == (start_row <= i < row + 1 || bit(before, i) == 1) by {
                    assert((bit(current, i) == 1) == (start_row <= i < row || bit(before, i)
                        == 1));
                }
            }
            row = row + 1;
        }
    }
}

/// That a bitmap holds exactly `rows`, one bit per row, and zeros after
/// them.
pub open spec fn holds_rows(bitmap: Seq<u8>, rows: Seq<bool>) -> bool {
    forall|i: nat|
        i < 8 * bitmap.len() ==> (#[trigger] bit(bitmap, i) == 1) == (i < rows.len()
            && rows[i as int])
}

/// The `n` consecutive fields of `width` bits at the start of a stream.
pub open spec fn unpacked(bytes: Seq<u8>, width: nat, n: nat) -> Seq<nat> {
    Seq::new(n, |i: int| field(bytes, (i * width) as nat, width))
}

/// Numbers below 2^32 as machine words.
pub open spec fn as_u32s(values: Seq<nat>) -> Seq<u32> {
    values.map_values(|v: nat| v as u32)
}

/// One bit as a number.
pub open spec fn as_bit(b: bool) -> nat {
    if b {
        1
    } else {
        0
    }
}

/// Row `i`, or false beyond the rows.
pub open spec fn row_at(rows: Seq<bool>, i: int) -> bool {
    0 <= i < rows.len() && rows[i]
}

/// Eight rows as one byte, the first in the lowest bit.
pub open spec fn packed_byte(rows: Seq<bool>, k: int) -> u8 {
    (as_bit(row_at(rows, 8 * k)) + 2 * (as_bit(row_at(rows, 8 * k + 1)) + 2 * (as_bit(
        row_at(rows, 8 * k + 2),
    ) + 2 * (as_bit(row_at(rows, 8 * k + 3)) + 2 * (as_bit(row_at(rows, 8 * k + 4)) + 2 * (as_bit(
        row_at(rows, 8 * k + 5),
    ) + 2 * (as_bit(row_at(rows, 8 * k + 6)) + 2 * as_bit(row_at(rows, 8 * k + 7))))))))) as u8
}

/// Rows as a bitmap, zeros after the last row.
pub open spec fn pack(rows: Seq<bool>) -> Seq<u8> {
    Seq::new(((rows.len() + 7) / 8) as nat, |k: int| packed_byte(rows, k))
}

proof fn lemma_byte_is_its_bits(b: u8)
    ensures
        b == byte_bit(b, 0) + 2 * (byte_bit(b, 1) + 2 * (byte_bit(b, 2) + 2 * (byte_bit(b, 3) + 2
            * (byte_bit(b, 4) + 2 * (byte_bit(b, 5) + 2 * (byte_bit(b, 6) + 2 * byte_bit(b, 7))))))),
{
    lemma2_to64();
    lemma_byte_from_bits(b as nat);
}

/// A bitmap that holds given rows is the packing of them.
pub proof fn lemma_pack_unique(bitmap: Seq<u8>, rows: Seq<bool>)
    requires
        bitmap.len() == (rows.len() + 7) / 8,
        holds_rows(bitmap, rows),
    ensures
        bitmap == pack(rows),
{
    assert forall|k: int| 0 <= k < bitmap.len() implies bitmap[k] == packed_byte(rows, k) by {
        let b = bitmap[k];
        lemma_byte_is_its_bits(b);
        assert forall|i: nat| i < 8 implies byte_bit(b, i) == #[trigger] as_bit(
            row_at(rows, 8 * k + i),
        ) by {
            let j: nat = (8 * k + i) as nat;
            assert(j / 8 == k && j % 8 == i);
            assert((bit(bitmap, j) == 1) == (j < rows.len() && rows[j as int]));
        }
        assert(byte_bit(b, 0) == as_bit(row_at(rows, 8 * k + 0)));
        assert(byte_bit(b, 1) == as_bit(row_at(rows, 8 * k + 1)));
        assert(byte_bit(b, 2) == as_bit(row_at(rows, 8 * k + 2)));
        assert(byte_bit(b, 3) == as_bit(row_at(rows, 8 * k + 3)));
        assert(byte_bit(b, 4) == as_bit(row_at(rows, 8 * k + 4)));
        assert(byte_bit(b, 5) == as_bit(row_at(rows, 8 * k + 5)));
        assert(byte_bit(b, 6) == as_bit(row_at(rows, 8 * k + 6)));
        assert(byte_bit(b, 7) == as_bit(row_at(rows, 8 * k + 7)));
    }
    assert(bitmap =~= pack(rows));
}

proof fn lemma_bits_of_sum(b: u8, c: spec_fn(nat) -> nat)
    requires
        forall|i: nat| i < 8 ==> #[trigger] c(i) <= 1,
        b == c(0) + 2 * (c(1) + 2 * (c(2) + 2 * (c(3) + 2 * (c(4) + 2 * (c(5) + 2 * (c(6) + 2 * c(
            7,
        ))))))),
    ensures
        forall|i: nat| i < 8 ==> byte_bit(b, i) == #[trigger] c(i),
{
    lemma2_to64();
    assert(c(0) <= 1 && c(1) <= 1 && c(2) <= 1 && c(3) <= 1 && c(4) <= 1 && c(5) <= 1 && c(6) <= 1
        && c(7) <= 1);
    let s7: nat = c(7);
    let s6: nat = c(6) + 2 * s7;
    let s5: nat = c(5) + 2 * s6;
    let s4: nat = c(4) + 2 * s5;
    let s3: nat = c(3) + 2 * s4;
    let s2: nat = c(2) + 2 * s3;
    let s1: nat = c(1) + 2 * s2;
    let n: nat = b as nat;
    assert(n / 2 == s1);
    assert(n / 4 == s2);
    assert(n / 8 == s3);
    assert(n / 16 == s4);
    assert(n / 32 == s5);
    assert(n / 64 == s6);
    assert(n / 128 == s7);
    assert(byte_bit(b, 0) == c(0));
    assert(byte_bit(b, 1) == c(1));
    assert(byte_bit(b, 2) == c(2));
    assert(byte_bit(b, 3) == c(3));
    assert(byte_bit(b, 4) == c(4));
    assert(byte_bit(b, 5) == c(5));
    assert(byte_bit(b, 6) == c(6));
    assert(byte_bit(b, 7) == c(7));
    assert forall|i: nat| i < 8 implies byte_bit(b, i) == #[trigger] c(i) by {
        assert(i == 0 || i == 1 || i == 2 || i == 3 || i == 4 || i == 5 || i == 6 || i == 7);
    }
}

/// The packing of rows holds them.
pub proof fn lemma_pack_holds(rows: Seq<bool>)
    ensures
        holds_rows(pack(rows), rows),
{
    let bitmap = pack(rows);
    assert forall|j: nat| j < 8 * bitmap.len() implies (#[trigger] bit(bitmap, j) == 1) == (j
        < rows.len() && rows[j as int]) by {
        let k: int = j as int / 8;
        let c = |i: nat| as_bit(row_at(rows, 8 * k + i));
        assert(c(0) == as_bit(row_at(rows, 8 * k)));
        lemma_bits_of_sum(bitmap[k], c);
        assert(byte_bit(bitmap[k], j % 8) == c(j % 8));
    }
}

} // verus!
