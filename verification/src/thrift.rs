//! Structs of the compact binary protocol that headers are written in.
//!
//! A struct is a sequence of fields and a zero byte. A field opens with a
//! byte whose low half is the value's type and whose high half is the
//! distance from the previous field's id, or zero where the id follows as a
//! signed variable-length integer.

use vstd::prelude::*;

use crate::cursor::{
    begins, lemma_uvarint_bounds, lemma_uvarint_local, uvarint, zigzag_i32, Cursor,
};
use crate::error::FormatError;

verus! {

/// The nesting of values that is followed at most.
pub const MAX_DEPTH: u32 = 16;

/// A field's type and id, and the position of its value; or the end of the
/// struct.
pub enum FieldHead {
    Stop { next: nat },
    Value { ty: u8, id: int, next: nat },
}

/// The field header at `pos`, after a field with id `last`.
pub open spec fn field_head(bytes: Seq<u8>, pos: nat, last: int) -> Result<FieldHead, FormatError> {
    if pos >= bytes.len() {
        Err(FormatError::UnexpectedEof)
    } else if bytes[pos as int] == 0 {
        Ok(FieldHead::Stop { next: pos + 1 })
    } else if bytes[pos as int] / 16 != 0 {
        Ok(
            FieldHead::Value {
                ty: bytes[pos as int] % 16,
                id: last + bytes[pos as int] / 16,
                next: pos + 1,
            },
        )
    } else {
        match zigzag_i32(bytes, pos + 1) {
            Ok((id, next)) => Ok(FieldHead::Value { ty: bytes[pos as int] % 16, id, next }),
            Err(e) => Err(e),
        }
    }
}

/// `len` bytes at `pos`, if they are there.
pub open spec fn span(bytes: Seq<u8>, pos: nat, len: nat) -> Result<nat, FormatError> {
    if pos + len > bytes.len() {
        Err(FormatError::UnexpectedEof)
    } else {
        Ok(len)
    }
}

/// The bytes that a value of type `ty` at `pos` takes.
pub open spec fn value_len(bytes: Seq<u8>, pos: nat, ty: u8, depth: nat) -> Result<nat, FormatError>
    decreases depth, 0nat,
{
    if ty == 1 || ty == 2 {
        Ok(0)
    } else if ty == 3 {
        span(bytes, pos, 1)
    } else if 4 <= ty <= 6 {
        match uvarint(bytes, pos) {
            Ok((_, next)) => Ok((next - pos) as nat),
            Err(e) => Err(e),
        }
    } else if ty == 7 {
        span(bytes, pos, 8)
    } else if ty == 8 {
        match uvarint(bytes, pos) {
            Ok((len, next)) => match span(bytes, next, len) {
                Ok(_) => Ok((next - pos + len) as nat),
                Err(e) => Err(e),
            },
            Err(e) => Err(e),
        }
    } else if depth == 0 {
        Err(FormatError::NestingTooDeep)
    } else if ty == 9 || ty == 10 {
        if pos >= bytes.len() {
            Err(FormatError::UnexpectedEof)
        } else if bytes[pos as int] / 16 != 15 {
            plus(
                1,
                items_len(
                    bytes,
                    pos + 1,
                    bytes[pos as int] % 16,
                    (bytes[pos as int] / 16) as nat,
                    (depth - 1) as nat,
                ),
            )
        } else {
            match uvarint(bytes, pos + 1) {
                Ok((count, next)) => plus(
                    (next - pos) as nat,
                    items_len(bytes, next, bytes[pos as int] % 16, count, (depth - 1) as nat),
                ),
                Err(e) => Err(e),
            }
        }
    } else if ty == 11 {
        match uvarint(bytes, pos) {
            Ok((count, next)) => if count == 0 {
                Ok((next - pos) as nat)
            } else if next >= bytes.len() {
                Err(FormatError::UnexpectedEof)
            } else {
                plus(
                    (next + 1 - pos) as nat,
                    pairs_len(
                        bytes,
                        next + 1,
                        bytes[next as int] / 16,
                        bytes[next as int] % 16,
                        count,
                        (depth - 1) as nat,
                    ),
                )
            },
            Err(e) => Err(e),
        }
    } else if ty == 12 {
        struct_len(bytes, pos, 0, (depth - 1) as nat)
    } else {
        Err(FormatError::UnknownType(ty))
    }
}

pub open spec fn plus(len: nat, more: Result<nat, FormatError>) -> Result<nat, FormatError> {
    match more {
        Ok(n) => Ok(len + n),
        Err(e) => Err(e),
    }
}

/// The bytes of one item of a list, set or map: a truth value takes a byte
/// there.
pub open spec fn item_len(bytes: Seq<u8>, pos: nat, ty: u8, depth: nat) -> Result<nat, FormatError>
    decreases depth, 1nat,
{
    if ty == 1 || ty == 2 {
        span(bytes, pos, 1)
    } else {
        value_len(bytes, pos, ty, depth)
    }
}

/// The bytes of `count` items.
pub open spec fn items_len(bytes: Seq<u8>, pos: nat, ty: u8, count: nat, depth: nat) -> Result<
    nat,
    FormatError,
>
    decreases depth, count + 2,
{
    if count == 0 {
        Ok(0)
    } else {
        match item_len(bytes, pos, ty, depth) {
            Ok(len) => plus(len, items_len(bytes, pos + len, ty, (count - 1) as nat, depth)),
            Err(e) => Err(e),
        }
    }
}

/// The bytes of `count` pairs of a map.
pub open spec fn pairs_len(
    bytes: Seq<u8>,
    pos: nat,
    key: u8,
    value: u8,
    count: nat,
    depth: nat,
) -> Result<nat, FormatError>
    decreases depth, count + 2,
{
    if count == 0 {
        Ok(0)
    } else {
        match item_len(bytes, pos, key, depth) {
            Ok(a) => match item_len(bytes, pos + a, value, depth) {
                Ok(b) => plus(
                    a + b,
                    pairs_len(bytes, pos + a + b, key, value, (count - 1) as nat, depth),
                ),
                Err(e) => Err(e),
            },
            Err(e) => Err(e),
        }
    }
}

/// The bytes of a struct whose fields are of no interest.
pub open spec fn struct_len(bytes: Seq<u8>, pos: nat, last: int, depth: nat) -> Result<
    nat,
    FormatError,
>
    decreases
            depth,
            (if pos < bytes.len() {
                bytes.len() - pos + 2
            } else {
                2
            }),
    via struct_len_decreases
{
    match field_head(bytes, pos, last) {
        Err(e) => Err(e),
        Ok(FieldHead::Stop { next }) => Ok((next - pos) as nat),
        Ok(FieldHead::Value { ty, id, next }) => match value_len(bytes, next, ty, depth) {
            Err(e) => Err(e),
            Ok(len) => plus(
                (next + len - pos) as nat,
                struct_len(bytes, next + len, id, depth),
            ),
        },
    }
}

#[via_fn]
proof fn struct_len_decreases(bytes: Seq<u8>, pos: nat, last: int, depth: nat) {
    lemma_uvarint_bounds(bytes, pos + 1);
}

/// That a reader followed `want` from where the cursor stood: it moved by
/// that many bytes, or failed in the same way.
pub open spec fn moved(
    before: Cursor<'_>,
    after: Cursor<'_>,
    r: Result<(), FormatError>,
    want: Result<nat, FormatError>,
) -> bool {
    &&& after.bytes() == before.bytes()
    &&& match want {
        Ok(len) => r is Ok && after.at() == before.at() + len,
        Err(e) => r is Err && r->Err_0 == e,
    }
}

fn skip_bytes(cur: &mut Cursor<'_>, len: u64) -> (r: Result<(), FormatError>)
    ensures
        moved(*old(cur), *final(cur), r, span(old(cur).bytes(), old(cur).at(), len as nat)),
{
    if len > cur.remaining() as u64 {
        return Err(FormatError::UnexpectedEof);
    }
    match cur.take(len as usize) {
        Ok(_) => Ok(()),
        Err(e) => Err(e),
    }
}

/// Moves past a value of type `ty`.
pub fn skip_value(cur: &mut Cursor<'_>, ty: u8, depth: u32) -> (r: Result<(), FormatError>)
    ensures
        moved(
            *old(cur),
            *final(cur),
            r,
            value_len(old(cur).bytes(), old(cur).at(), ty, depth as nat),
        ),
    decreases depth, 0nat,
{
    proof {
        lemma_uvarint_bounds(cur.bytes(), cur.at());
        lemma_uvarint_bounds(cur.bytes(), cur.at() + 1);
    }
    if ty == 1 || ty == 2 {
        Ok(())
    } else if ty == 3 {
        skip_bytes(cur, 1)
    } else if 4 <= ty && ty <= 6 {
        match cur.read_uvarint() {
            Ok(_) => Ok(()),
            Err(e) => Err(e),
        }
    } else if ty == 7 {
        skip_bytes(cur, 8)
    } else if ty == 8 {
        match cur.read_uvarint() {
            Ok(len) => skip_bytes(cur, len),
            Err(e) => Err(e),
        }
    } else if depth == 0 {
        Err(FormatError::NestingTooDeep)
    } else if ty == 9 || ty == 10 {
        let head: u8 = match cur.read_u8() {
            Ok(b) => b,
            Err(e) => {
                return Err(e);
            },
        };
        let count: u64 = if head / 16 != 15 {
            (head / 16) as u64
        } else {
            match cur.read_uvarint() {
                Ok(n) => n,
                Err(e) => {
                    return Err(e);
                },
            }
        };
        skip_items(cur, head % 16, count, depth - 1)
    } else if ty == 11 {
        let count: u64 = match cur.read_uvarint() {
            Ok(n) => n,
            Err(e) => {
                return Err(e);
            },
        };
        if count == 0 {
            return Ok(());
        }
        let types: u8 = match cur.read_u8() {
            Ok(b) => b,
            Err(e) => {
                return Err(e);
            },
        };
        skip_pairs(cur, types / 16, types % 16, count, depth - 1)
    } else if ty == 12 {
        skip_struct(cur, depth - 1)
    } else {
        Err(FormatError::UnknownType(ty))
    }
}

fn skip_item(cur: &mut Cursor<'_>, ty: u8, depth: u32) -> (r: Result<(), FormatError>)
    ensures
        moved(
            *old(cur),
            *final(cur),
            r,
            item_len(old(cur).bytes(), old(cur).at(), ty, depth as nat),
        ),
    decreases depth, 1nat,
{
    if ty == 1 || ty == 2 {
        skip_bytes(cur, 1)
    } else {
        skip_value(cur, ty, depth)
    }
}

fn skip_items(cur: &mut Cursor<'_>, ty: u8, count: u64, depth: u32) -> (r: Result<(), FormatError>)
    ensures
        moved(
            *old(cur),
            *final(cur),
            r,
            items_len(old(cur).bytes(), old(cur).at(), ty, count as nat, depth as nat),
        ),
    decreases depth, 2nat,
{
    let ghost start = cur.at();
    let ghost bytes = cur.bytes();
    let ghost whole = items_len(bytes, start, ty, count as nat, depth as nat);
    let mut left: u64 = count;
    while left > 0
        invariant
            left <= count,
            cur.bytes() == bytes,
            bytes == old(cur).bytes(),
            start == old(cur).at(),
            start <= cur.at(),
            whole == items_len(bytes, start, ty, count as nat, depth as nat),
            whole == plus(
                (cur.at() - start) as nat,
                items_len(bytes, cur.at(), ty, left as nat, depth as nat),
            ),
        decreases left,
    {
        match skip_item(cur, ty, depth) {
            Ok(_) => {},
            Err(e) => {
                return Err(e);
            },
        }
        left = left - 1;
    }
    Ok(())
}

fn skip_pairs(cur: &mut Cursor<'_>, key: u8, value: u8, count: u64, depth: u32) -> (r: Result<
    (),
    FormatError,
>)
    ensures
        moved(
            *old(cur),
            *final(cur),
            r,
            pairs_len(old(cur).bytes(), old(cur).at(), key, value, count as nat, depth as nat),
        ),
    decreases depth, 2nat,
{
    let ghost start = cur.at();
    let ghost bytes = cur.bytes();
    let ghost whole = pairs_len(bytes, start, key, value, count as nat, depth as nat);
    let mut left: u64 = count;
    while left > 0
        invariant
            left <= count,
            cur.bytes() == bytes,
            bytes == old(cur).bytes(),
            start == old(cur).at(),
            start <= cur.at(),
            whole == pairs_len(bytes, start, key, value, count as nat, depth as nat),
            whole == plus(
                (cur.at() - start) as nat,
                pairs_len(bytes, cur.at(), key, value, left as nat, depth as nat),
            ),
        decreases left,
    {
        match skip_item(cur, key, depth) {
            Ok(_) => {},
            Err(e) => {
                return Err(e);
            },
        }
        match skip_item(cur, value, depth) {
            Ok(_) => {},
            Err(e) => {
                return Err(e);
            },
        }
        left = left - 1;
    }
    Ok(())
}

fn skip_struct(cur: &mut Cursor<'_>, depth: u32) -> (r: Result<(), FormatError>)
    ensures
        moved(
            *old(cur),
            *final(cur),
            r,
            struct_len(old(cur).bytes(), old(cur).at(), 0, depth as nat),
        ),
    decreases depth, 2nat,
{
    let ghost start = cur.at();
    let ghost bytes = cur.bytes();
    let ghost whole = struct_len(bytes, start, 0, depth as nat);
    let mut last: i128 = 0;
    let mut here: usize = cur.position();
    loop
        invariant
            here == cur.at(),
            here <= bytes.len(),
            cur.bytes() == bytes,
            bytes == old(cur).bytes(),
            start == old(cur).at(),
            start <= cur.at(),
            last <= i32::MAX + 15 * cur.at(),
            whole == struct_len(bytes, start, 0, depth as nat),
            whole == plus(
                (cur.at() - start) as nat,
                struct_len(bytes, cur.at(), last as int, depth as nat),
            ),
        decreases bytes.len() - here,
    {
        proof {
            lemma_uvarint_bounds(bytes, cur.at() + 1);
        }
        let head = match read_field_head(cur, last) {
            Ok(h) => h,
            Err(e) => {
                return Err(e);
            },
        };
        match head {
            None => {
                return Ok(());
            },
            Some((ty, id)) => {
                match skip_value(cur, ty, depth) {
                    Ok(_) => {},
                    Err(e) => {
                        return Err(e);
                    },
                }
                last = id;
                here = cur.position();
            },
        }
    }
}

/// Reads a field header: its type and id, or nothing at the end of the
/// struct.
pub fn read_field_head(cur: &mut Cursor<'_>, last: i128) -> (r: Result<
    Option<(u8, i128)>,
    FormatError,
>)
    requires
        last <= 0x1000_0000_0000_0000_0000_0000_0000_0000,
    ensures
        final(cur).bytes() == old(cur).bytes(),
        match field_head(old(cur).bytes(), old(cur).at(), last as int) {
            Err(e) => r is Err && r->Err_0 == e,
            Ok(FieldHead::Stop { next }) => r is Ok && r->Ok_0 is None && final(cur).at() == next,
            Ok(FieldHead::Value { ty, id, next }) => r is Ok && r->Ok_0 == Some((ty, id as i128))
                && id as i128 == id && final(cur).at() == next,
        },
{
    let head: u8 = match cur.read_u8() {
        Ok(b) => b,
        Err(e) => {
            return Err(e);
        },
    };
    if head == 0 {
        return Ok(None);
    }
    if head / 16 != 0 {
        return Ok(Some((head % 16, last + (head / 16) as i128)));
    }
    match cur.read_zigzag_i32() {
        Ok(id) => Ok(Some((head % 16, id as i128))),
        Err(e) => Err(e),
    }
}

// ---- What is read does not depend on what follows ----

/// A field header that can be read is the same whatever bytes follow.
pub proof fn lemma_field_head_local(part: Seq<u8>, whole: Seq<u8>, pos: nat, last: int)
    requires
        begins(whole, part),
    ensures
        match field_head(part, pos, last) {
            Err(_) => true,
            Ok(h) => field_head(whole, pos, last) == Ok::<FieldHead, FormatError>(h) && match h {
                FieldHead::Stop { next } => pos < next <= part.len(),
                FieldHead::Value { next, .. } => pos < next <= part.len(),
            },
        },
{
    lemma_uvarint_bounds(part, pos + 1);
    lemma_uvarint_local(part, whole, pos + 1);
}

/// A value that can be passed over takes the same bytes whatever follows.
pub proof fn lemma_value_local(part: Seq<u8>, whole: Seq<u8>, pos: nat, ty: u8, depth: nat)
    requires
        begins(whole, part),
        pos <= part.len(),
    ensures
        value_len(part, pos, ty, depth) is Ok ==> value_len(whole, pos, ty, depth) == value_len(part, pos, ty, depth)
            && pos + value_len(part, pos, ty, depth)->Ok_0 <= part.len(),
    decreases depth, 0nat,
{
    lemma_uvarint_bounds(part, pos);
    lemma_uvarint_local(part, whole, pos);
    lemma_uvarint_bounds(part, pos + 1);
    lemma_uvarint_local(part, whole, pos + 1);
    if depth > 0 && pos < part.len() && (ty == 9 || ty == 10) {
        let head = part[pos as int];
        if head / 16 != 15 {
            lemma_items_local(
                part,
                whole,
                pos + 1,
                head % 16,
                (head / 16) as nat,
                (depth - 1) as nat,
            );
        } else if let Ok((count, next)) = uvarint(part, pos + 1) {
            lemma_items_local(part, whole, next, head % 16, count, (depth - 1) as nat);
        }
    } else if depth > 0 && ty == 11 {
        if let Ok((count, next)) = uvarint(part, pos) {
            if count > 0 && next < part.len() {
                let types = part[next as int];
                lemma_pairs_local(
                    part,
                    whole,
                    next + 1,
                    types / 16,
                    types % 16,
                    count,
                    (depth - 1) as nat,
                );
            }
        }
    } else if depth > 0 && ty == 12 {
        lemma_struct_local(part, whole, pos, 0, (depth - 1) as nat);
    }
}

proof fn lemma_item_local(part: Seq<u8>, whole: Seq<u8>, pos: nat, ty: u8, depth: nat)
    requires
        begins(whole, part),
        pos <= part.len(),
    ensures
        item_len(part, pos, ty, depth) is Ok ==> item_len(whole, pos, ty, depth) == item_len(part, pos, ty, depth)
            && pos + item_len(part, pos, ty, depth)->Ok_0 <= part.len(),
    decreases depth, 1nat,
{
    lemma_value_local(part, whole, pos, ty, depth);
}

proof fn lemma_items_local(
    part: Seq<u8>,
    whole: Seq<u8>,
    pos: nat,
    ty: u8,
    count: nat,
    depth: nat,
)
    requires
        begins(whole, part),
        pos <= part.len(),
    ensures
        items_len(part, pos, ty, count, depth) is Ok ==> items_len(whole, pos, ty, count, depth) == items_len(part, pos, ty, count, depth)
            && pos + items_len(part, pos, ty, count, depth)->Ok_0 <= part.len(),
    decreases depth, count + 2,
{
    if count > 0 {
        lemma_item_local(part, whole, pos, ty, depth);
        if let Ok(len) = item_len(part, pos, ty, depth) {
            lemma_items_local(part, whole, pos + len, ty, (count - 1) as nat, depth);
        }
    }
}

proof fn lemma_pairs_local(
    part: Seq<u8>,
    whole: Seq<u8>,
    pos: nat,
    key: u8,
    value: u8,
    count: nat,
    depth: nat,
)
    requires
        begins(whole, part),
        pos <= part.len(),
    ensures
        pairs_len(part, pos, key, value, count, depth) is Ok ==> pairs_len(whole, pos, key, value, count, depth) == pairs_len(part, pos, key, value, count, depth)
            && pos + pairs_len(part, pos, key, value, count, depth)->Ok_0 <= part.len(),
    decreases depth, count + 2,
{
    if count > 0 {
        lemma_item_local(part, whole, pos, key, depth);
        if let Ok(a) = item_len(part, pos, key, depth) {
            lemma_item_local(part, whole, pos + a, value, depth);
            if let Ok(b) = item_len(part, pos + a, value, depth) {
                lemma_pairs_local(
                    part,
                    whole,
                    pos + a + b,
                    key,
                    value,
                    (count - 1) as nat,
                    depth,
                );
            }
        }
    }
}

proof fn lemma_struct_local(part: Seq<u8>, whole: Seq<u8>, pos: nat, last: int, depth: nat)
    requires
        begins(whole, part),
        pos <= part.len(),
    ensures
        struct_len(part, pos, last, depth) is Ok ==> struct_len(whole, pos, last, depth) == struct_len(part, pos, last, depth)
            && pos + struct_len(part, pos, last, depth)->Ok_0 <= part.len(),
    decreases depth, part.len() - pos + 2,
{
    lemma_field_head_local(part, whole, pos, last);
    if let Ok(FieldHead::Value { ty, id, next }) = field_head(part, pos, last) {
        lemma_value_local(part, whole, next, ty, depth);
        if let Ok(len) = value_len(part, next, ty, depth) {
            lemma_struct_local(part, whole, next + len, id, depth);
        }
    }
}

} // verus!
