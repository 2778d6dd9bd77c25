//! Narrowing of 64-bit integer columns on decode.
//!
//! Where the range of a column fits a narrower width, it is decoded into
//! that width; where only its span does, into the offsets from its
//! minimum. Both keep equality and order, and re-widen without loss.

use vstd::prelude::*;

use crate::error::{reports, CodecError, Result};
use crate::plain::{decode_plain_i64, plain_i64, plain_word, unaligned};
use crate::wrap::{
    as_i16, as_i32, as_i8, as_u16, as_u32, as_u8, law_cutting_keeps_residues, low16, low32, low8, wrap16, wrap32, wrap8,
};

verus! {

/// An integer width that a column can be narrowed to.
#[derive(Debug, Clone, Copy, PartialEq, Eq, Structural)]
pub enum IntTarget {
    I8,
    U8,
    I16,
    U16,
    I32,
    U32,
    /// No narrowing: the range needs the full 64 bits.
    I64,
}

impl IntTarget {
    /// The least integer of the target.
    pub open spec fn min(self) -> int {
        match self {
            IntTarget::I8 => -0x80,
            IntTarget::I16 => -0x8000,
            IntTarget::I32 => -0x8000_0000,
            IntTarget::I64 => -0x8000_0000_0000_0000,
            _ => 0,
        }
    }

    /// The greatest integer of the target.
    pub open spec fn max(self) -> int {
        match self {
            IntTarget::I8 => 0x7f,
            IntTarget::U8 => 0xff,
            IntTarget::I16 => 0x7fff,
            IntTarget::U16 => 0xffff,
            IntTarget::I32 => 0x7fff_ffff,
            IntTarget::U32 => 0xffff_ffff,
            IntTarget::I64 => 0x7fff_ffff_ffff_ffff,
        }
    }

    /// Bytes per value.
    pub open spec fn width(self) -> nat {
        match self {
            IntTarget::I8 | IntTarget::U8 => 1,
            IntTarget::I16 | IntTarget::U16 => 2,
            IntTarget::I32 | IntTarget::U32 => 4,
            IntTarget::I64 => 8,
        }
    }

    pub open spec fn signed(self) -> bool {
        match self {
            IntTarget::U8 | IntTarget::U16 | IntTarget::U32 => false,
            _ => true,
        }
    }

    /// That the target has every integer of a range.
    pub open spec fn holds(self, lo: int, hi: int) -> bool {
        self.min() <= lo && hi <= self.max()
    }

    /// `x` cut to the target's width.
    pub open spec fn cut(self, x: int) -> int {
        match self {
            IntTarget::I8 => wrap8(x) as int,
            IntTarget::U8 => low8(x) as int,
            IntTarget::I16 => wrap16(x) as int,
            IntTarget::U16 => low16(x) as int,
            IntTarget::I32 => wrap32(x) as int,
            IntTarget::U32 => low32(x) as int,
            IntTarget::I64 => x,
        }
    }

    /// Bytes per value in the narrowed representation.
    pub fn width_bytes(self) -> (n: usize)
        ensures
            n == self.width(),
    {
        match self {
            IntTarget::I8 => 1,
            IntTarget::U8 => 1,
            IntTarget::I16 => 2,
            IntTarget::U16 => 2,
            IntTarget::I32 => 4,
            IntTarget::U32 => 4,
            IntTarget::I64 => 8,
        }
    }

    /// Whether the target is narrower than 64 bits.
    pub fn is_narrowing(self) -> (b: bool)
        ensures
            b == (self.width() < 8),
            b == (self != IntTarget::I64),
    {
        self.width_bytes() < 8
    }
}

/// That `t` is the narrowest target that holds a range, the signed one
/// where both of a width do.
pub open spec fn is_narrowest(t: IntTarget, lo: int, hi: int) -> bool {
    &&& t.holds(lo, hi)
    &&& forall|other: IntTarget| #[trigger]
        other.holds(lo, hi) ==> t.width() < other.width() || (t.width() == other.width() && (
        t.signed() || !other.signed()))
}

/// The narrowest target that holds every value of `[min, max]`: the
/// smallest width, and within it the signed target where it reaches.
pub fn narrowest_int_target(min: i64, max: i64) -> (t: IntTarget)
    requires
        min <= max,
    ensures
        is_narrowest(t, min as int, max as int),
{
    if min >= -0x80 && max <= 0x7f {
        return IntTarget::I8;
    }
    if min >= 0 && max <= 0xff {
        return IntTarget::U8;
    }
    if min >= -0x8000 && max <= 0x7fff {
        return IntTarget::I16;
    }
    if min >= 0 && max <= 0xffff {
        return IntTarget::U16;
    }
    if min >= -0x8000_0000 && max <= 0x7fff_ffff {
        return IntTarget::I32;
    }
    if min >= 0 && max <= 0xffff_ffff {
        return IntTarget::U32;
    }
    IntTarget::I64
}

/// Narrowed values, in the target that they were narrowed to.
#[derive(Debug, Clone, PartialEq, Eq)]
pub enum NarrowedI64 {
    I8(Vec<i8>),
    U8(Vec<u8>),
    I16(Vec<i16>),
    U16(Vec<u16>),
    I32(Vec<i32>),
    U32(Vec<u32>),
    I64(Vec<i64>),
}

impl NarrowedI64 {
    /// The values as integers.
    pub open spec fn ints(self) -> Seq<int> {
        match self {
            NarrowedI64::I8(v) => v@.map_values(|x: i8| x as int),
            NarrowedI64::U8(v) => v@.map_values(|x: u8| x as int),
            NarrowedI64::I16(v) => v@.map_values(|x: i16| x as int),
            NarrowedI64::U16(v) => v@.map_values(|x: u16| x as int),
            NarrowedI64::I32(v) => v@.map_values(|x: i32| x as int),
            NarrowedI64::U32(v) => v@.map_values(|x: u32| x as int),
            NarrowedI64::I64(v) => v@.map_values(|x: i64| x as int),
        }
    }

    /// The target of the values.
    pub open spec fn kind(self) -> IntTarget {
        match self {
            NarrowedI64::I8(_) => IntTarget::I8,
            NarrowedI64::U8(_) => IntTarget::U8,
            NarrowedI64::I16(_) => IntTarget::I16,
            NarrowedI64::U16(_) => IntTarget::U16,
            NarrowedI64::I32(_) => IntTarget::I32,
            NarrowedI64::U32(_) => IntTarget::U32,
            NarrowedI64::I64(_) => IntTarget::I64,
        }
    }

    pub fn len(&self) -> (n: usize)
        ensures
            n == self.ints().len(),
    {
        match self {
            NarrowedI64::I8(v) => v.len(),
            NarrowedI64::U8(v) => v.len(),
            NarrowedI64::I16(v) => v.len(),
            NarrowedI64::U16(v) => v.len(),
            NarrowedI64::I32(v) => v.len(),
            NarrowedI64::U32(v) => v.len(),
            NarrowedI64::I64(v) => v.len(),
        }
    }

    pub fn is_empty(&self) -> (b: bool)
        ensures
            b == (self.ints().len() == 0),
    {
        self.len() == 0
    }

    /// The target that the values were decoded to.
    pub fn target(&self) -> (t: IntTarget)
        ensures
            t == self.kind(),
    {
        match self {
            NarrowedI64::I8(_) => IntTarget::I8,
            NarrowedI64::U8(_) => IntTarget::U8,
            NarrowedI64::I16(_) => IntTarget::I16,
            NarrowedI64::U16(_) => IntTarget::U16,
            NarrowedI64::I32(_) => IntTarget::I32,
            NarrowedI64::U32(_) => IntTarget::U32,
            NarrowedI64::I64(_) => IntTarget::I64,
        }
    }

    /// The bytes that the values take.
    pub fn byte_size(&self) -> (n: usize)
        requires
            self.ints().len() * self.kind().width() <= usize::MAX,
        ensures
            n == self.ints().len() * self.kind().width(),
    {
        self.len() * self.target().width_bytes()
    }

    /// The values as 64-bit integers.
    pub fn to_i64(&self) -> (out: Vec<i64>)
        ensures
            out@.map_values(|x: i64| x as int) == self.ints(),
    {
        let mut out: Vec<i64> = Vec::new();
        let n: usize = self.len();
        let mut i: usize = 0;
        while i < n
            invariant
                i <= n == self.ints().len(),
                out@.map_values(|x: i64| x as int) == self.ints().take(i as int),
            decreases n - i,
        {
            let v: i64 = match self {
                NarrowedI64::I8(v) => v[i] as i64,
                NarrowedI64::U8(v) => v[i] as i64,
                NarrowedI64::I16(v) => v[i] as i64,
                NarrowedI64::U16(v) => v[i] as i64,
                NarrowedI64::I32(v) => v[i] as i64,
                NarrowedI64::U32(v) => v[i] as i64,
                NarrowedI64::I64(v) => v[i],
            };
            let ghost before = out@;
            out.push(v);
            proof {
                assert(self.ints()[i as int] == v);
                assert(out@.map_values(|x: i64| x as int) =~= before.map_values(
                    |x: i64| x as int,
                ).push(v as int));
                assert(self.ints().take(i + 1) =~= self.ints().take(i as int).push(v as int));
            }
            i = i + 1;
        }
        proof {
            assert(self.ints().take(n as int) =~= self.ints());
        }
        out
    }
}

/// Reads each 64-bit word of a buffer and maps it through `f`.
fn narrow_decode<T, F: Fn(i64) -> T>(bytes: &[u8], f: F) -> (r: Result<Vec<T>>)
    requires
        forall|v: i64| #[trigger] call_requires(f, (v,)),
    ensures
        reports(r, unaligned(8, bytes@.len())),
        r is Ok ==> {
            &&& r->Ok_0@.len() == plain_i64(bytes@).len()
            &&& forall|i: int|
                0 <= i < r->Ok_0@.len() ==> call_ensures(
                    f,
                    (plain_i64(bytes@)[i],),
                    #[trigger] r->Ok_0@[i],
                )
        },
{
    let len: usize = bytes.len();
    if len % 8 != 0 {
        return Err(CodecError::UnalignedPlainBuffer { value_width: 8, buffer_len: len });
    }
    let mut out: Vec<T> = Vec::new();
    let mut i: usize = 0;
    while i < len / 8
        invariant
            i <= len / 8,
            len == bytes@.len(),
            out@.len() == i,
            forall|v: i64| #[trigger] call_requires(f, (v,)),
            forall|k: int|
                0 <= k < i ==> call_ensures(f, (plain_i64(bytes@)[k],), #[trigger] out@[k]),
        decreases len / 8 - i,
    {
        let v: i64 = plain_word(bytes, i);
        let t: T = f(v);
        out.push(t);
        i = i + 1;
    }
    Ok(out)
}

/// Decodes a buffer of 64-bit integers, each cut to `i8`.
pub fn decode_plain_i64_as_i8(bytes: &[u8]) -> (r: Result<Vec<i8>>)
    ensures
        reports(r, unaligned(8, bytes@.len())),
        r is Ok ==> r->Ok_0@ == plain_i64(bytes@).map_values(|v: i64| wrap8(v as int)),
{
    let cut = |v: i64| -> (d: i8)
        ensures
            d == wrap8(v as int),
        { as_i8(v as i128) };
    let r = narrow_decode(bytes, cut);
    proof {
        if r is Ok {
            assert(r->Ok_0@ =~= plain_i64(bytes@).map_values(|v: i64| wrap8(v as int)));
        }
    }
    r
}

/// Decodes a buffer of 64-bit integers into their distances from `offset`,
/// each cut to `i8`.
fn frame_as_i8(bytes: &[u8], offset: i64) -> (r: Result<Vec<i8>>)
    ensures
        reports(r, unaligned(8, bytes@.len())),
        r is Ok ==> r->Ok_0@ == plain_i64(bytes@).map_values(|v: i64| wrap8(v - offset)),
{
    let cut = |v: i64| -> (d: i8)
        ensures
            d == wrap8(v - offset),
        { as_i8(v as i128 - offset as i128) };
    let r = narrow_decode(bytes, cut);
    proof {
        if r is Ok {
            assert(r->Ok_0@ =~= plain_i64(bytes@).map_values(|v: i64| wrap8(v - offset)));
        }
    }
    r
}

/// Decodes a buffer of 64-bit integers, each cut to `u8`.
pub fn decode_plain_i64_as_u8(bytes: &[u8]) -> (r: Result<Vec<u8>>)
    ensures
        reports(r, unaligned(8, bytes@.len())),
        r is Ok ==> r->Ok_0@ == plain_i64(bytes@).map_values(|v: i64| low8(v as int)),
{
    let cut = |v: i64| -> (d: u8)
        ensures
            d == low8(v as int),
        { as_u8(v as i128) };
    let r = narrow_decode(bytes, cut);
    proof {
        if r is Ok {
            assert(r->Ok_0@ =~= plain_i64(bytes@).map_values(|v: i64| low8(v as int)));
        }
    }
    r
}

/// Decodes a buffer of 64-bit integers into their distances from `offset`,
/// each cut to `u8`.
fn frame_as_u8(bytes: &[u8], offset: i64) -> (r: Result<Vec<u8>>)
    ensures
        reports(r, unaligned(8, bytes@.len())),
        r is Ok ==> r->Ok_0@ == plain_i64(bytes@).map_values(|v: i64| low8(v - offset)),
{
    let cut = |v: i64| -> (d: u8)
        ensures
            d == low8(v - offset),
        { as_u8(v as i128 - offset as i128) };
    let r = narrow_decode(bytes, cut);
    proof {
        if r is Ok {
            assert(r->Ok_0@ =~= plain_i64(bytes@).map_values(|v: i64| low8(v - offset)));
        }
    }
    r
}

/// Decodes a buffer of 64-bit integers, each cut to `i16`.
pub fn decode_plain_i64_as_i16(bytes: &[u8]) -> (r: Result<Vec<i16>>)
    ensures
        reports(r, unaligned(8, bytes@.len())),
        r is Ok ==> r->Ok_0@ == plain_i64(bytes@).map_values(|v: i64| wrap16(v as int)),
{
    let cut = |v: i64| -> (d: i16)
        ensures
            d == wrap16(v as int),
        { as_i16(v as i128) };
    let r = narrow_decode(bytes, cut);
    proof {
        if r is Ok {
            assert(r->Ok_0@ =~= plain_i64(bytes@).map_values(|v: i64| wrap16(v as int)));
        }
    }
    r
}

/// Decodes a buffer of 64-bit integers into their distances from `offset`,
/// each cut to `i16`.
fn frame_as_i16(bytes: &[u8], offset: i64) -> (r: Result<Vec<i16>>)
    ensures
        reports(r, unaligned(8, bytes@.len())),
        r is Ok ==> r->Ok_0@ == plain_i64(bytes@).map_values(|v: i64| wrap16(v - offset)),
{
    let cut = |v: i64| -> (d: i16)
        ensures
            d == wrap16(v - offset),
        { as_i16(v as i128 - offset as i128) };
    let r = narrow_decode(bytes, cut);
    proof {
        if r is Ok {
            assert(r->Ok_0@ =~= plain_i64(bytes@).map_values(|v: i64| wrap16(v - offset)));
        }
    }
    r
}

/// Decodes a buffer of 64-bit integers, each cut to `u16`.
pub fn decode_plain_i64_as_u16(bytes: &[u8]) -> (r: Result<Vec<u16>>)
    ensures
        reports(r, unaligned(8, bytes@.len())),
        r is Ok ==> r->Ok_0@ == plain_i64(bytes@).map_values(|v: i64| low16(v as int)),
{
    let cut = |v: i64| -> (d: u16)
        ensures
            d == low16(v as int),
        { as_u16(v as i128) };
    let r = narrow_decode(bytes, cut);
    proof {
        if r is Ok {
            assert(r->Ok_0@ =~= plain_i64(bytes@).map_values(|v: i64| low16(v as int)));
        }
    }
    r
}

/// Decodes a buffer of 64-bit integers into their distances from `offset`,
/// each cut to `u16`.
fn frame_as_u16(bytes: &[u8], offset: i64) -> (r: Result<Vec<u16>>)
    ensures
        reports(r, unaligned(8, bytes@.len())),
        r is Ok ==> r->Ok_0@ == plain_i64(bytes@).map_values(|v: i64| low16(v - offset)),
{
    let cut = |v: i64| -> (d: u16)
        ensures
            d == low16(v - offset),
        { as_u16(v as i128 - offset as i128) };
    let r = narrow_decode(bytes, cut);
    proof {
        if r is Ok {
            assert(r->Ok_0@ =~= plain_i64(bytes@).map_values(|v: i64| low16(v - offset)));
        }
    }
    r
}

/// Decodes a buffer of 64-bit integers, each cut to `i32`.
pub fn decode_plain_i64_as_i32(bytes: &[u8]) -> (r: Result<Vec<i32>>)
    ensures
        reports(r, unaligned(8, bytes@.len())),
        r is Ok ==> r->Ok_0@ == plain_i64(bytes@).map_values(|v: i64| wrap32(v as int)),
{
    let cut = |v: i64| -> (d: i32)
        ensures
            d == wrap32(v as int),
        { as_i32(v as i128) };
    let r = narrow_decode(bytes, cut);
    proof {
        if r is Ok {
            assert(r->Ok_0@ =~= plain_i64(bytes@).map_values(|v: i64| wrap32(v as int)));
        }
    }
    r
}

/// Decodes a buffer of 64-bit integers into their distances from `offset`,
/// each cut to `i32`.
fn frame_as_i32(bytes: &[u8], offset: i64) -> (r: Result<Vec<i32>>)
    ensures
        reports(r, unaligned(8, bytes@.len())),
        r is Ok ==> r->Ok_0@ == plain_i64(bytes@).map_values(|v: i64| wrap32(v - offset)),
{
    let cut = |v: i64| -> (d: i32)
        ensures
            d == wrap32(v - offset),
        { as_i32(v as i128 - offset as i128) };
    let r = narrow_decode(bytes, cut);
    proof {
        if r is Ok {
            assert(r->Ok_0@ =~= plain_i64(bytes@).map_values(|v: i64| wrap32(v - offset)));
        }
    }
    r
}

/// Decodes a buffer of 64-bit integers, each cut to `u32`.
pub fn decode_plain_i64_as_u32(bytes: &[u8]) -> (r: Result<Vec<u32>>)
    ensures
        reports(r, unaligned(8, bytes@.len())),
        r is Ok ==> r->Ok_0@ == plain_i64(bytes@).map_values(|v: i64| low32(v as int)),
{
    let cut = |v: i64| -> (d: u32)
        ensures
            d == low32(v as int),
        { as_u32(v as i128) };
    let r = narrow_decode(bytes, cut);
    proof {
        if r is Ok {
            assert(r->Ok_0@ =~= plain_i64(bytes@).map_values(|v: i64| low32(v as int)));
        }
    }
    r
}

/// Decodes a buffer of 64-bit integers into their distances from `offset`,
/// each cut to `u32`.
fn frame_as_u32(bytes: &[u8], offset: i64) -> (r: Result<Vec<u32>>)
    ensures
        reports(r, unaligned(8, bytes@.len())),
        r is Ok ==> r->Ok_0@ == plain_i64(bytes@).map_values(|v: i64| low32(v - offset)),
{
    let cut = |v: i64| -> (d: u32)
        ensures
            d == low32(v - offset),
        { as_u32(v as i128 - offset as i128) };
    let r = narrow_decode(bytes, cut);
    proof {
        if r is Ok {
            assert(r->Ok_0@ =~= plain_i64(bytes@).map_values(|v: i64| low32(v - offset)));
        }
    }
    r
}

/// Decodes a buffer of 64-bit integers, each cut to `target`.
///
/// Nothing is lost where the target holds every value; see
/// [`narrowest_int_target`].
pub fn decode_plain_i64_narrowed(bytes: &[u8], target: IntTarget) -> (r: Result<NarrowedI64>)
    ensures
        reports(r, unaligned(8, bytes@.len())),
        r is Ok ==> r->Ok_0.kind() == target && r->Ok_0.ints() == plain_i64(bytes@).map_values(
            |v: i64| target.cut(v as int),
        ),
{
    let data = match target {
        IntTarget::I8 => match decode_plain_i64_as_i8(bytes) {
            Ok(v) => NarrowedI64::I8(v),
            Err(e) => {
                return Err(e);
            },
        },
        IntTarget::U8 => match decode_plain_i64_as_u8(bytes) {
            Ok(v) => NarrowedI64::U8(v),
            Err(e) => {
                return Err(e);
            },
        },
        IntTarget::I16 => match decode_plain_i64_as_i16(bytes) {
            Ok(v) => NarrowedI64::I16(v),
            Err(e) => {
                return Err(e);
            },
        },
        IntTarget::U16 => match decode_plain_i64_as_u16(bytes) {
            Ok(v) => NarrowedI64::U16(v),
            Err(e) => {
                return Err(e);
            },
        },
        IntTarget::I32 => match decode_plain_i64_as_i32(bytes) {
            Ok(v) => NarrowedI64::I32(v),
            Err(e) => {
                return Err(e);
            },
        },
        IntTarget::U32 => match decode_plain_i64_as_u32(bytes) {
            Ok(v) => NarrowedI64::U32(v),
            Err(e) => {
                return Err(e);
            },
        },
        IntTarget::I64 => match decode_plain_i64(bytes) {
            Ok(v) => NarrowedI64::I64(v),
            Err(e) => {
                return Err(e);
            },
        },
    };
    proof {
        assert(data.ints() =~= plain_i64(bytes@).map_values(|v: i64| target.cut(v as int)));
    }
    Ok(data)
}

/// Decodes a buffer of 64-bit integers whose values lie in `[min, max]`
/// into the narrowest target that holds them.
pub fn decode_plain_i64_auto(bytes: &[u8], min: i64, max: i64) -> (r: Result<NarrowedI64>)
    requires
        min <= max,
    ensures
        reports(r, unaligned(8, bytes@.len())),
        r is Ok ==> {
            let target = r->Ok_0.kind();
            &&& is_narrowest(target, min as int, max as int)
            &&& r->Ok_0.ints() == plain_i64(bytes@).map_values(|v: i64| target.cut(v as int))
        },
{
    decode_plain_i64_narrowed(bytes, narrowest_int_target(min, max))
}

/// Values as narrowed distances from an offset.
#[derive(Debug, Clone, PartialEq, Eq)]
pub struct FrameNarrowed {
    /// What was taken off every value; zero where nothing was narrowed.
    pub offset: i64,
    /// The distances.
    pub data: NarrowedI64,
}

impl FrameNarrowed {
    pub fn len(&self) -> (n: usize)
        ensures
            n == self.data.ints().len(),
    {
        self.data.len()
    }

    pub fn is_empty(&self) -> (b: bool)
        ensures
            b == (self.data.ints().len() == 0),
    {
        self.data.is_empty()
    }

    /// The target that the distances were narrowed to.
    pub fn target(&self) -> (t: IntTarget)
        ensures
            t == self.data.kind(),
    {
        self.data.target()
    }

    /// The bytes that the distances take.
    pub fn byte_size(&self) -> (n: usize)
        requires
            self.data.ints().len() * self.data.kind().width() <= usize::MAX,
        ensures
            n == self.data.ints().len() * self.data.kind().width(),
    {
        self.data.byte_size()
    }

    /// The values as 64-bit integers.
    pub fn to_i64(&self) -> (out: Vec<i64>)
        requires
            forall|i: int|
                0 <= i < self.data.ints().len() ==> i64::MIN <= #[trigger] self.data.ints()[i]
                    + self.offset <= i64::MAX,
        ensures
            out@.map_values(|x: i64| x as int) == self.data.ints().map_values(
                |d: int| d + self.offset,
            ),
    {
        let distances: Vec<i64> = self.data.to_i64();
        let mut out: Vec<i64> = Vec::new();
        let mut i: usize = 0;
        while i < distances.len()
            invariant
                i <= distances@.len(),
                distances@.map_values(|x: i64| x as int) == self.data.ints(),
                forall|k: int|
                    0 <= k < self.data.ints().len() ==> i64::MIN <= #[trigger] self.data.ints()[k]
                        + self.offset <= i64::MAX,
                out@.len() == i,
                forall|k: int| 0 <= k < i ==> #[trigger] out@[k] == distances@[k] + self.offset,
            decreases distances@.len() - i,
        {
            proof {
                assert(self.data.ints()[i as int] == distances@[i as int]);
            }
            out.push(distances[i] + self.offset);
            i = i + 1;
        }
        proof {
            assert(out@.map_values(|x: i64| x as int) =~= self.data.ints().map_values(
                |d: int| d + self.offset,
            )) by {
                assert forall|k: int| 0 <= k < out@.len() implies out@[k] as int
                    == self.data.ints()[k] + self.offset by {
                    assert(self.data.ints()[k] == distances@.map_values(|x: i64| x as int)[k]);
                }
            }
        }
        out
    }
}

/// The offset and target for values in `[min, max]`: the minimum, and the
/// narrowest target that holds the span; or no narrowing where the span
/// needs more than 32 bits.
pub fn frame_of_reference_target(min: i64, max: i64) -> (r: (i64, IntTarget))
    requires
        min <= max,
    ensures
        max - min <= u32::MAX ==> r.0 == min && is_narrowest(r.1, 0, max - min),
        max - min > u32::MAX ==> r == (0i64, IntTarget::I64),
{
    let span: i128 = max as i128 - min as i128;
    if span <= 0xffff_ffff {
        (min, narrowest_int_target(0, span as i64))
    } else {
        (0, IntTarget::I64)
    }
}

/// Decodes a buffer of 64-bit integers into distances from `offset`, each
/// cut to `target`. A target of 64 bits keeps the values as they are: it
/// goes with offset zero.
pub fn decode_plain_i64_frame(bytes: &[u8], offset: i64, target: IntTarget) -> (r: Result<
    FrameNarrowed,
>)
    ensures
        reports(r, unaligned(8, bytes@.len())),
        r is Ok ==> {
            &&& r->Ok_0.offset == offset
            &&& r->Ok_0.data.kind() == target
            &&& r->Ok_0.data.ints() == plain_i64(bytes@).map_values(
                |v: i64|
                    if target == IntTarget::I64 {
                        v as int
                    } else {
                        target.cut(v - offset)
                    },
            )
        },
{
    let data = match target {
        IntTarget::I8 => match frame_as_i8(bytes, offset) {
            Ok(v) => NarrowedI64::I8(v),
            Err(e) => {
                return Err(e);
            },
        },
        IntTarget::U8 => match frame_as_u8(bytes, offset) {
            Ok(v) => NarrowedI64::U8(v),
            Err(e) => {
                return Err(e);
            },
        },
        IntTarget::I16 => match frame_as_i16(bytes, offset) {
            Ok(v) => NarrowedI64::I16(v),
            Err(e) => {
                return Err(e);
            },
        },
        IntTarget::U16 => match frame_as_u16(bytes, offset) {
            Ok(v) => NarrowedI64::U16(v),
            Err(e) => {
                return Err(e);
            },
        },
        IntTarget::I32 => match frame_as_i32(bytes, offset) {
            Ok(v) => NarrowedI64::I32(v),
            Err(e) => {
                return Err(e);
            },
        },
        IntTarget::U32 => match frame_as_u32(bytes, offset) {
            Ok(v) => NarrowedI64::U32(v),
            Err(e) => {
                return Err(e);
            },
        },
        IntTarget::I64 => match decode_plain_i64(bytes) {
            Ok(v) => NarrowedI64::I64(v),
            Err(e) => {
                return Err(e);
            },
        },
    };
    proof {
        assert(data.ints() =~= plain_i64(bytes@).map_values(
            |v: i64|
                if target == IntTarget::I64 {
                    v as int
                } else {
                    target.cut(v - offset)
                },
        ));
    }
    Ok(FrameNarrowed { offset, data })
}

/// Decodes a buffer of 64-bit integers whose values lie in `[min, max]`
/// into distances from the minimum, where that narrows them.
pub fn decode_plain_i64_frame_auto(bytes: &[u8], min: i64, max: i64) -> (r: Result<FrameNarrowed>)
    requires
        min <= max,
    ensures
        reports(r, unaligned(8, bytes@.len())),
        r is Ok ==> {
            let target = r->Ok_0.data.kind();
            let offset = r->Ok_0.offset;
            &&& max - min <= u32::MAX ==> offset == min && is_narrowest(target, 0, max - min)
            &&& max - min > u32::MAX ==> offset == 0 && target == IntTarget::I64
            &&& r->Ok_0.data.ints() == plain_i64(bytes@).map_values(
                |v: i64|
                    if target == IntTarget::I64 {
                        v as int
                    } else {
                        target.cut(v - offset)
                    },
            )
        },
{
    let (offset, target) = frame_of_reference_target(min, max);
    decode_plain_i64_frame(bytes, offset, target)
}

/// Cutting an integer to a target that holds it changes nothing.
pub proof fn law_cut_is_lossless(target: IntTarget, x: int)
    requires
        target.holds(x, x),
    ensures
        target.cut(x) == x,
{
}

/// Narrowing a column to a target that holds its range, and widening it
/// again, gives the plain values.
pub proof fn law_narrowing_round_trips(bytes: Seq<u8>, target: IntTarget, lo: int, hi: int)
    requires
        target.holds(lo, hi),
        forall|i: int|
            0 <= i < plain_i64(bytes).len() ==> lo <= #[trigger] plain_i64(bytes)[i] <= hi,
    ensures
        plain_i64(bytes).map_values(|v: i64| target.cut(v as int)) == plain_i64(bytes).map_values(
            |v: i64| v as int,
        ),
{
    assert forall|i: int| 0 <= i < plain_i64(bytes).len() implies target.cut(
        #[trigger] plain_i64(bytes)[i] as int,
    ) == plain_i64(bytes)[i] by {
        law_cut_is_lossless(target, plain_i64(bytes)[i] as int);
    }
    assert(plain_i64(bytes).map_values(|v: i64| target.cut(v as int)) =~= plain_i64(
        bytes,
    ).map_values(|v: i64| v as int));
}

/// Narrowing a column to distances from its minimum, and adding the minimum
/// again, gives the plain values.
pub proof fn law_frame_round_trips(bytes: Seq<u8>, target: IntTarget, lo: int, hi: int)
    requires
        target.holds(0, hi - lo),
        forall|i: int|
            0 <= i < plain_i64(bytes).len() ==> lo <= #[trigger] plain_i64(bytes)[i] <= hi,
    ensures
        plain_i64(bytes).map_values(|v: i64| target.cut(v - lo) + lo) == plain_i64(
            bytes,
        ).map_values(|v: i64| v as int),
{
    assert forall|i: int| 0 <= i < plain_i64(bytes).len() implies target.cut(
        #[trigger] plain_i64(bytes)[i] - lo,
    ) == plain_i64(bytes)[i] - lo by {
        law_cut_is_lossless(target, plain_i64(bytes)[i] - lo);
    }
    assert(plain_i64(bytes).map_values(|v: i64| target.cut(v - lo) + lo) =~= plain_i64(
        bytes,
    ).map_values(|v: i64| v as int));
}

/// Distances from a common offset keep order and equality.
pub proof fn law_frame_keeps_order(target: IntTarget, lo: int, hi: int, a: int, b: int)
    requires
        target.holds(0, hi - lo),
        lo <= a <= hi,
        lo <= b <= hi,
    ensures
        (a < b) == (target.cut(a - lo) < target.cut(b - lo)),
        (a == b) == (target.cut(a - lo) == target.cut(b - lo)),
{
    law_cut_is_lossless(target, a - lo);
    law_cut_is_lossless(target, b - lo);
}

/// A span never needs a wider target than the range itself.
pub proof fn law_frame_is_never_wider(absolute: IntTarget, frame: IntTarget, lo: int, hi: int)
    requires
        lo <= hi,
        is_narrowest(absolute, lo, hi),
        is_narrowest(frame, 0, hi - lo),
    ensures
        frame.width() <= absolute.width(),
{
    let same_width = match absolute {
        IntTarget::I8 => IntTarget::U8,
        IntTarget::I16 => IntTarget::U16,
        IntTarget::I32 => IntTarget::U32,
        _ => absolute,
    };
    assert(absolute.width() < 8 ==> same_width.holds(0, hi - lo));
}

/// The targets are the machine's integer types: their least and greatest
/// integers, and their sizes.
pub proof fn law_targets_are_machine_types()
    ensures
        IntTarget::I8.min() == i8::MIN && IntTarget::I8.max() == i8::MAX,
        IntTarget::U8.min() == u8::MIN && IntTarget::U8.max() == u8::MAX,
        IntTarget::I16.min() == i16::MIN && IntTarget::I16.max() == i16::MAX,
        IntTarget::U16.min() == u16::MIN && IntTarget::U16.max() == u16::MAX,
        IntTarget::I32.min() == i32::MIN && IntTarget::I32.max() == i32::MAX,
        IntTarget::U32.min() == u32::MIN && IntTarget::U32.max() == u32::MAX,
        IntTarget::I64.min() == i64::MIN && IntTarget::I64.max() == i64::MAX,
        forall|t: IntTarget|
            t != IntTarget::I64 ==> (#[trigger] t.max()) - t.min() + 1 == vstd::arithmetic::power2::pow2(
                8 * t.width(),
            ),
        IntTarget::I64.width() == 8,
        forall|t: IntTarget| (#[trigger] t.min()) < 0 <==> t.signed(),
{
    vstd::arithmetic::power2::lemma2_to64();
}

/// Whatever a value, its cut lies in the target and differs from it by whole
/// turns of the target.
pub proof fn law_cut_keeps_residues(target: IntTarget, x: int)
    requires
        target != IntTarget::I64,
    ensures
        target.holds(target.cut(x), target.cut(x)),
        (target.cut(x) - x) % (target.max() - target.min() + 1) == 0,
{
    law_cutting_keeps_residues(x);
}

} // verus!
