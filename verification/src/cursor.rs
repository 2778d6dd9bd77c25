//! A read position in a byte buffer, and the variable-length integers read
//! through it.

use vstd::arithmetic::power2::{lemma2_to64, lemma2_to64_rest, pow2};
use vstd::prelude::*;

use crate::error::FormatError;

verus! {

/// The base-128 number at `pos`, lowest group first, and the position after
/// it; `k` groups of it have been read. A number that does not fit 64 bits
/// overflows.
pub open spec fn uvarint_group(bytes: Seq<u8>, pos: nat, k: nat) -> Result<
    (nat, nat),
    FormatError,
>
    decreases 10 - k,
{
    if pos >= bytes.len() {
        Err(FormatError::UnexpectedEof)
    } else if k >= 9 && bytes[pos as int] > 1 {
        Err(FormatError::VarintOverflow)
    } else if bytes[pos as int] < 128 {
        Ok((bytes[pos as int] as nat, pos + 1))
    } else {
        match uvarint_group(bytes, pos + 1, k + 1) {
            Ok((rest, next)) => Ok(((bytes[pos as int] - 128 + 128 * rest) as nat, next)),
            Err(e) => Err(e),
        }
    }
}

/// The unsigned variable-length integer at `pos` and the position after it.
pub open spec fn uvarint(bytes: Seq<u8>, pos: nat) -> Result<(nat, nat), FormatError> {
    uvarint_group(bytes, pos, 0)
}

/// Zigzag: 0, 1, 2, 3, 4, ... stand for 0, -1, 1, -2, 2, ...
pub open spec fn unzigzag(n: nat) -> int {
    if n % 2 == 0 {
        (n / 2) as int
    } else {
        -((n / 2) as int) - 1
    }
}

/// The signed variable-length integer of 64 bits at `pos`.
pub open spec fn zigzag_i64(bytes: Seq<u8>, pos: nat) -> Result<(int, nat), FormatError> {
    match uvarint(bytes, pos) {
        Ok((n, next)) => Ok((unzigzag(n), next)),
        Err(e) => Err(e),
    }
}

/// The signed variable-length integer of 32 bits at `pos`.
pub open spec fn zigzag_i32(bytes: Seq<u8>, pos: nat) -> Result<(int, nat), FormatError> {
    match uvarint(bytes, pos) {
        Ok((n, next)) => if n > u32::MAX {
            Err(FormatError::VarintOverflow)
        } else {
            Ok((unzigzag(n), next))
        },
        Err(e) => Err(e),
    }
}

/// What is left for the groups from the `k`-th on.
spec fn group_limit(k: nat) -> nat {
    pow2((64 - 7 * k) as nat)
}

proof fn lemma_group_limit(k: nat)
    requires
        k <= 9,
    ensures
        k < 9 ==> group_limit(k) == 128 * group_limit(k + 1),
        k < 9 ==> group_limit(k) >= 128,
        group_limit(9) == 2,
        group_limit(k) <= 0x1_0000_0000_0000_0000,
{
    lemma2_to64();
    lemma2_to64_rest();
    if k < 9 {
        vstd::arithmetic::power2::lemma_pow2_adds(7, (64 - 7 * (k + 1)) as nat);
        if 64 - 7 * k > 7 {
            vstd::arithmetic::power2::lemma_pow2_strictly_increases(7, (64 - 7 * k) as nat);
        }
        if k > 0 {
            vstd::arithmetic::power2::lemma_pow2_strictly_increases((64 - 7 * k) as nat, 64);
        }
    }
}

/// A variable-length integer takes at least one byte, stays inside the
/// buffer, and fits 64 bits.
pub proof fn lemma_uvarint_bounds(bytes: Seq<u8>, pos: nat)
    ensures
        uvarint(bytes, pos) matches Ok((n, next)) ==> pos < next <= bytes.len() && n <= u64::MAX,
{
    lemma_uvarint_group_bounds(bytes, pos, 0);
    lemma_group_limit(0);
}

proof fn lemma_uvarint_group_bounds(bytes: Seq<u8>, pos: nat, k: nat)
    requires
        k <= 9,
    ensures
        uvarint_group(bytes, pos, k) matches Ok((n, next)) ==> pos < next <= bytes.len() && n
            < group_limit(k),
    decreases 9 - k,
{
    lemma_group_limit(k);
    if k < 9 {
        lemma_uvarint_group_bounds(bytes, pos + 1, k + 1);
    }
}

/// A buffer and the position of the next byte to read from it.
pub struct Cursor<'a> {
    buf: &'a [u8],
    pos: usize,
}

impl<'a> Cursor<'a> {
    /// The bytes that are read.
    pub closed spec fn bytes(&self) -> Seq<u8> {
        self.buf@
    }

    /// The position of the next byte.
    pub closed spec fn at(&self) -> nat {
        self.pos as nat
    }

    #[verifier::type_invariant]
    spec fn inside(&self) -> bool {
        self.pos <= self.buf@.len()
    }

    /// A cursor at the start of `buf`.
    pub fn new(buf: &'a [u8]) -> (cur: Self)
        ensures
            cur.bytes() == buf@,
            cur.at() == 0,
    {
        Cursor { buf, pos: 0 }
    }

    /// The position of the next byte.
    pub fn position(&self) -> (pos: usize)
        ensures
            pos == self.at(),
            pos <= self.bytes().len(),
    {
        proof {
            use_type_invariant(self);
        }
        self.pos
    }

    /// How many bytes are left.
    pub fn remaining(&self) -> (n: usize)
        ensures
            n == self.bytes().len() - self.at(),
    {
        proof {
            use_type_invariant(self);
        }
        self.buf.len() - self.pos
    }

    /// Reads one byte.
    pub fn read_u8(&mut self) -> (r: Result<u8, FormatError>)
        ensures
            final(self).bytes() == old(self).bytes(),
            match r {
                Ok(b) => old(self).at() < old(self).bytes().len() && b
                    == old(self).bytes()[old(self).at() as int] && final(self).at() == old(
                    self,
                ).at() + 1,
                Err(e) => old(self).at() >= old(self).bytes().len() && e
                    == FormatError::UnexpectedEof && final(self).at() == old(self).at(),
            },
    {
        proof {
            use_type_invariant(&*self);
        }
        if self.pos < self.buf.len() {
            let b: u8 = self.buf[self.pos];
            self.pos = self.pos + 1;
            Ok(b)
        } else {
            Err(FormatError::UnexpectedEof)
        }
    }

    /// Reads `n` bytes as a slice of the buffer.
    pub fn take(&mut self, n: usize) -> (r: Result<&'a [u8], FormatError>)
        ensures
            final(self).bytes() == old(self).bytes(),
            match r {
                Ok(s) => old(self).at() + n <= old(self).bytes().len() && s@ == old(
                    self,
                ).bytes().subrange(old(self).at() as int, old(self).at() + n) && final(self).at()
                    == old(self).at() + n,
                Err(e) => old(self).at() + n > old(self).bytes().len() && e
                    == FormatError::UnexpectedEof && final(self).at() == old(self).at(),
            },
    {
        proof {
            use_type_invariant(&*self);
        }
        if n <= self.buf.len() - self.pos {
            let s = vstd::slice::slice_subrange(self.buf, self.pos, self.pos + n);
            self.pos = self.pos + n;
            Ok(s)
        } else {
            Err(FormatError::UnexpectedEof)
        }
    }

    fn read_group(&mut self, k: u32) -> (r: Result<u64, FormatError>)
        requires
            k <= 9,
        ensures
            final(self).bytes() == old(self).bytes(),
            match uvarint_group(old(self).bytes(), old(self).at(), k as nat) {
                Ok((n, next)) => r is Ok && r->Ok_0 == n && final(self).at() == next,
                Err(e) => r == Err::<u64, FormatError>(e),
            },
        decreases 9 - k,
    {
        let ghost bytes = self.bytes();
        let ghost pos = self.at();
        proof {
            lemma_group_limit(k as nat);
            lemma_uvarint_group_bounds(bytes, pos, k as nat);
        }
        let b: u8 = match self.read_u8() {
            Ok(b) => b,
            Err(e) => {
                return Err(e);
            },
        };
        if k >= 9 && b > 1 {
            return Err(FormatError::VarintOverflow);
        }
        if b < 128 {
            return Ok(b as u64);
        }
        proof {
            lemma_uvarint_group_bounds(bytes, pos + 1, (k + 1) as nat);
        }
        match self.read_group(k + 1) {
            Ok(rest) => Ok((b as u64 - 128) + 128 * rest),
            Err(e) => Err(e),
        }
    }

    /// Reads an unsigned variable-length integer.
    pub fn read_uvarint(&mut self) -> (r: Result<u64, FormatError>)
        ensures
            final(self).bytes() == old(self).bytes(),
            match uvarint(old(self).bytes(), old(self).at()) {
                Ok((n, next)) => r is Ok && r->Ok_0 == n && final(self).at() == next,
                Err(e) => r == Err::<u64, FormatError>(e),
            },
    {
        self.read_group(0)
    }

    /// Reads a signed variable-length integer of 64 bits.
    pub fn read_zigzag_i64(&mut self) -> (r: Result<i64, FormatError>)
        ensures
            final(self).bytes() == old(self).bytes(),
            match zigzag_i64(old(self).bytes(), old(self).at()) {
                Ok((n, next)) => r is Ok && r->Ok_0 == n && final(self).at() == next,
                Err(e) => r == Err::<i64, FormatError>(e),
            },
    {
        match self.read_uvarint() {
            Ok(n) => {
                if n % 2 == 0 {
                    Ok((n / 2) as i64)
                } else {
                    Ok(-((n / 2) as i64) - 1)
                }
            },
            Err(e) => Err(e),
        }
    }

    /// Reads a signed variable-length integer of 32 bits.
    pub fn read_zigzag_i32(&mut self) -> (r: Result<i32, FormatError>)
        ensures
            final(self).bytes() == old(self).bytes(),
            match zigzag_i32(old(self).bytes(), old(self).at()) {
                Ok((n, next)) => r is Ok && r->Ok_0 == n && final(self).at() == next,
                Err(e) => r == Err::<i32, FormatError>(e),
            },
    {
        match self.read_uvarint() {
            Ok(n) => {
                if n > 0xffff_ffff {
                    Err(FormatError::VarintOverflow)
                } else if n % 2 == 0 {
                    Ok((n / 2) as i32)
                } else {
                    Ok(-((n / 2) as i32) - 1)
                }
            },
            Err(e) => Err(e),
        }
    }
}

/// The bytes of `z` as an unsigned variable-length integer, as few as
/// possible.
pub open spec fn uvarint_bytes(z: nat) -> Seq<u8>
    decreases z,
{
    if z < 128 {
        seq![z as u8]
    } else {
        seq![(z % 128 + 128) as u8] + uvarint_bytes(z / 128)
    }
}

/// The zigzag number of a signed integer.
pub open spec fn zigzag(v: int) -> nat {
    if v >= 0 {
        (2 * v) as nat
    } else {
        (-2 * v - 1) as nat
    }
}

/// Appends an unsigned variable-length integer.
pub fn write_uvarint(out: &mut Vec<u8>, z: u64)
    ensures
        final(out)@ == old(out)@ + uvarint_bytes(z as nat),
    decreases z,
{
    if z < 128 {
        out.push(z as u8);
        proof {
            assert(out@ =~= old(out)@ + uvarint_bytes(z as nat));
        }
    } else {
        out.push((z % 128 + 128) as u8);
        write_uvarint(out, z / 128);
        proof {
            assert(out@ =~= old(out)@ + uvarint_bytes(z as nat));
        }
    }
}

/// Appends a signed variable-length integer of 32 bits.
pub fn write_zigzag_i32(out: &mut Vec<u8>, v: i32)
    ensures
        final(out)@ == old(out)@ + uvarint_bytes(zigzag(v as int)),
{
    let z: u64 = if v >= 0 {
        2 * (v as u64)
    } else {
        2 * ((-(v as i64)) as u64) - 1
    };
    write_uvarint(out, z)
}

proof fn lemma_group_round_trip(before: Seq<u8>, z: nat, after: Seq<u8>, k: nat)
    requires
        k <= 9,
        z < group_limit(k),
    ensures
        uvarint_group(before + uvarint_bytes(z) + after, before.len(), k) == Ok::<
            (nat, nat),
            FormatError,
        >((z, before.len() + uvarint_bytes(z).len())),
    decreases z,
{
    let bytes = before + uvarint_bytes(z) + after;
    lemma_group_limit(k);
    if z >= 128 {
        let head = seq![(z % 128 + 128) as u8];
        lemma_group_round_trip(before + head, z / 128, after, k + 1);
        assert(before + head + uvarint_bytes(z / 128) + after =~= bytes);
    }
    assert(bytes[before.len() as int] == uvarint_bytes(z)[0]);
}

/// Reading a variable-length integer gives back the one that was written,
/// and stops after it.
pub proof fn law_uvarint_round_trip(before: Seq<u8>, z: nat, after: Seq<u8>)
    requires
        z <= u64::MAX,
    ensures
        uvarint(before + uvarint_bytes(z) + after, before.len()) == Ok::<(nat, nat), FormatError>(
            (z, before.len() + uvarint_bytes(z).len()),
        ),
{
    lemma_group_limit(0);
    lemma2_to64_rest();
    lemma_group_round_trip(before, z, after, 0);
}

/// Zigzag numbers stand for the integers they were made of.
pub proof fn law_zigzag_round_trip(v: int)
    ensures
        unzigzag(zigzag(v)) == v,
{
}

/// That `whole` starts with `part`.
pub open spec fn begins(whole: Seq<u8>, part: Seq<u8>) -> bool {
    &&& part.len() <= whole.len()
    &&& forall|i: int| 0 <= i < part.len() ==> #[trigger] whole[i] == part[i]
}

proof fn lemma_uvarint_group_local(part: Seq<u8>, whole: Seq<u8>, pos: nat, k: nat)
    requires
        begins(whole, part),
        uvarint_group(part, pos, k) is Ok,
    ensures
        uvarint_group(whole, pos, k) == uvarint_group(part, pos, k),
    decreases 10 - k,
{
    if !(k >= 9 && part[pos as int] > 1) && part[pos as int] >= 128 {
        lemma_uvarint_group_local(part, whole, pos + 1, k + 1);
    }
}

/// An integer that can be read is the same whatever bytes follow.
pub proof fn lemma_uvarint_local(part: Seq<u8>, whole: Seq<u8>, pos: nat)
    requires
        begins(whole, part),
    ensures
        uvarint(part, pos) is Ok ==> uvarint(whole, pos) == uvarint(part, pos),
        zigzag_i32(part, pos) is Ok ==> zigzag_i32(whole, pos) == zigzag_i32(part, pos),
{
    if uvarint(part, pos) is Ok {
        lemma_uvarint_group_local(part, whole, pos, 0);
    }
}

/// The number that groups of seven bits make, the lowest first.
pub open spec fn groups_value(groups: Seq<nat>) -> nat
    decreases groups.len(),
{
    if groups.len() == 0 {
        0
    } else {
        groups[0] + 128 * groups_value(groups.skip(1))
    }
}

/// Groups of seven bits, each but the last with the bit that says that one
/// more follows.
pub open spec fn groups_bytes(groups: Seq<nat>) -> Seq<u8> {
    Seq::new(
        groups.len(),
        |i: int|
            if i < groups.len() - 1 {
                (groups[i] + 128) as u8
            } else {
                groups[i] as u8
            },
    )
}

/// That groups make a 64-bit number: there are ten at most, and a tenth has
/// only one bit left.
pub open spec fn groups_fit(groups: Seq<nat>) -> bool {
    &&& 0 < groups.len() <= 10
    &&& forall|i: int| 0 <= i < groups.len() ==> #[trigger] groups[i] < 128
    &&& groups.len() == 10 ==> groups[9] <= 1
}

proof fn lemma_groups_read_back(before: Seq<u8>, groups: Seq<nat>, after: Seq<u8>, k: nat)
    requires
        0 < groups.len(),
        k + groups.len() <= 10,
        forall|i: int| 0 <= i < groups.len() ==> #[trigger] groups[i] < 128,
        k + groups.len() == 10 ==> groups.last() <= 1,
    ensures
        uvarint_group(before + groups_bytes(groups) + after, before.len(), k) == Ok::<
            (nat, nat),
            FormatError,
        >((groups_value(groups), before.len() + groups.len())),
    decreases groups.len(),
{
    let bytes = before + groups_bytes(groups) + after;
    let b = groups_bytes(groups)[0];
    assert(bytes[before.len() as int] == b);
    assert(groups[0] < 128);
    if groups.len() == 1 {
        assert(groups_value(groups.skip(1)) == 0);
    } else {
        let rest = groups.skip(1);
        assert forall|i: int| 0 <= i < rest.len() implies #[trigger] rest[i] < 128 by {
            assert(rest[i] == groups[i + 1]);
        }
        lemma_groups_read_back(before.push(b), rest, after, k + 1);
        assert(before.push(b) + groups_bytes(rest) + after =~= bytes);
    }
}

/// A variable-length integer is read by its groups of seven bits, also where
/// it has more of them than it needs.
pub proof fn law_uvarint_sums_its_groups(before: Seq<u8>, groups: Seq<nat>, after: Seq<u8>)
    requires
        groups_fit(groups),
    ensures
        uvarint(before + groups_bytes(groups) + after, before.len()) == Ok::<
            (nat, nat),
            FormatError,
        >((groups_value(groups), before.len() + groups.len())),
{
    lemma_groups_read_back(before, groups, after, 0);
}

/// Zigzag numbers tell signs apart by their lowest bit: even ones are twice
/// the integer, odd ones stand for the negative integers from minus one on.
pub proof fn law_zigzag_alternates(n: nat)
    ensures
        unzigzag(2 * n) == n,
        unzigzag(2 * n + 1) == -(n as int) - 1,
        zigzag(n as int) == 2 * n,
        zigzag(-(n as int) - 1) == 2 * n + 1,
{
}

} // verus!
