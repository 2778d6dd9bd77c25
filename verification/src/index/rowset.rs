//! Row sets of a page: which of its rows an index entry stands for.
//!
//! The older form is a bare bitmap. The newer form opens with a tag: a
//! bitmap, or where that is smaller, the page's row count and the list of
//! row positions.

use vstd::arithmetic::power2::lemma2_to64;
use vstd::prelude::*;
use vstd::slice::{slice_subrange, slice_to_vec};

use crate::bits::{
    bit, field, lemma_byte_plain, lemma_field_byte, lemma_field_split, lemma_pack_unique, pack,
    read_field, set_bit, BitPos,
};
use crate::error::{reports, CodecError, Fault, Result};
use crate::text::{dec, hex_padded, push_hex_padded, text1, text2};

verus! {

pub const TAG_BITMAP: u8 = 0;

pub const TAG_SPARSE: u8 = 1;

/// How stored row sets are read.
#[derive(Debug, Clone, Copy, PartialEq, Eq, Structural)]
pub enum RowsetFormat {
    /// A bare bitmap.
    V1Raw,
    /// A tag and a payload.
    V2Tagged,
}

/// The four bytes of a 32-bit number, lowest first.
pub open spec fn le32(n: nat) -> Seq<u8> {
    seq![
        (n % 256) as u8,
        ((n / 256) % 256) as u8,
        ((n / 0x1_0000) % 256) as u8,
        ((n / 0x100_0000) % 256) as u8,
    ]
}

/// Row positions, four bytes each.
pub open spec fn le32s(positions: Seq<u32>) -> Seq<u8>
    decreases positions.len(),
{
    if positions.len() == 0 {
        Seq::empty()
    } else {
        le32s(positions.drop_last()) + le32(positions.last() as nat)
    }
}

/// For each of `n` rows, whether it is among the positions.
pub open spec fn marked(positions: Seq<u32>, n: nat) -> Seq<bool> {
    Seq::new(n, |r: int| positions.contains(r as u32))
}

/// The tagged form of the positions of a page of `n` rows: the list where it
/// is shorter than the bitmap.
pub open spec fn tagged(positions: Seq<u32>, n: nat) -> Seq<u8> {
    if 9 + 4 * positions.len() < 1 + (n + 7) / 8 {
        seq![TAG_SPARSE] + le32(n) + le32(positions.len()) + le32s(positions)
    } else {
        seq![TAG_BITMAP] + pack(marked(positions, n))
    }
}

/// Appends four bytes.
fn push_le32(out: &mut Vec<u8>, n: u32)
    ensures
        final(out)@ == old(out)@ + le32(n as nat),
{
    out.push((n % 256) as u8);
    out.push(((n / 256) % 256) as u8);
    out.push(((n / 0x1_0000) % 256) as u8);
    out.push(((n / 0x100_0000) % 256) as u8);
    proof {
        assert(out@ =~= old(out)@ + le32(n as nat));
    }
}

/// Appends a bitmap of `n` rows in which the positions are set.
fn push_marks(out: &mut Vec<u8>, positions: &[u32], n: usize)
    requires
        n <= u32::MAX,
        forall|i: int| 0 <= i < positions@.len() ==> #[trigger] positions@[i] < n,
    ensures
        final(out)@ == old(out)@ + pack(marked(positions@, n as nat)),
{
    let ghost start = out@;
    let base: usize = out.len();
    let bytes: usize = n / 8 + if n % 8 == 0 { 0usize } else { 1usize };
    let mut k: usize = 0;
    while k < bytes
        invariant
            k <= bytes,
            base == start.len(),
            out@ == start + Seq::new(k as nat, |i: int| 0u8),
        decreases bytes - k,
    {
        out.push(0);
        proof {
            assert(out@ =~= start + Seq::new((k + 1) as nat, |i: int| 0u8));
        }
        k = k + 1;
    }
    proof {
        assert(out@.take(base as int) =~= start);
        assert(out@.skip(base as int) =~= Seq::new(bytes as nat, |i: int| 0u8));
        assert forall|j: nat| j < 8 * bytes implies #[trigger] bit(out@.skip(base as int), j)
            == 0 by {
            lemma_byte_plain(j % 8);
        }
    }
    let mut i: usize = 0;
    while i < positions.len()
        invariant
            i <= positions@.len(),
            n <= u32::MAX,
            bytes == (n + 7) / 8,
            base == start.len(),
            out@.len() == base + bytes,
            out@.take(base as int) == start,
            forall|j: int| 0 <= j < positions@.len() ==> #[trigger] positions@[j] < n,
            forall|j: nat|
                j < 8 * bytes ==> (#[trigger] bit(out@.skip(base as int), j) == 1) == (j
                    <= u32::MAX && positions@.take(i as int).contains(j as u32)),
        decreases positions@.len() - i,
    {
        let p: u32 = positions[i];
        let ghost before = out@.skip(base as int);
        proof {
            assert(positions@.take(i + 1) =~= positions@.take(i as int).push(p));
        }
        set_bit(out, base, p as usize);
        proof {
            assert forall|j: nat| j < 8 * bytes implies (#[trigger] bit(out@.skip(base as int), j)
                == 1) == (j <= u32::MAX && positions@.take(i + 1).contains(j as u32)) by {
                assert((bit(before, j) == 1) == (j <= u32::MAX && positions@.take(
                    i as int,
                ).contains(j as u32)));
                let taken = positions@.take(i as int);
                if j <= u32::MAX && taken.push(p).contains(j as u32) && j != p {
                    let q = choose|q: int|
                        0 <= q < taken.push(p).len() && taken.push(p)[q] == j as u32;
                    assert(taken[q] == j as u32);
                }
                if j <= u32::MAX && taken.contains(j as u32) {
                    let q = choose|q: int| 0 <= q < taken.len() && taken[q] == j as u32;
                    assert(taken.push(p)[q] == j as u32);
                }
                if j == p {
                    assert(taken.push(p)[i as int] == p);
                }
            }
        }
        i = i + 1;
    }
    proof {
        let rows = marked(positions@, n as nat);
        let bitmap = out@.skip(base as int);
        assert(positions@.take(i as int) =~= positions@);
        assert forall|j: nat| j < 8 * bitmap.len() implies (#[trigger] bit(bitmap, j) == 1) == (j
            < rows.len() && rows[j as int]) by {
            if j >= n && j <= u32::MAX && positions@.contains(j as u32) {
                let q = choose|q: int| 0 <= q < positions@.len() && positions@[q] == j as u32;
                assert(positions@[q] < n);
            }
        }
        lemma_pack_unique(bitmap, rows);
        assert(out@ =~= start + bitmap);
    }
}

/// Encodes the row positions of a page in whichever tagged form is smaller.
pub fn encode_tagged(positions: &[u32], num_page_values: usize) -> (out: Vec<u8>)
    requires
        num_page_values <= u32::MAX,
        forall|i: int| 0 <= i < positions@.len() ==> #[trigger] positions@[i] < num_page_values,
    ensures
        out@ == tagged(positions@, num_page_values as nat),
{
    let n: usize = num_page_values;
    let bitmap_len: u64 = (n as u64 + 7) / 8;
    let mut out: Vec<u8> = Vec::new();
    if bitmap_len > 8 && (positions.len() as u64) < (bitmap_len - 8 + 3) / 4 {
        out.push(TAG_SPARSE);
        push_le32(&mut out, n as u32);
        push_le32(&mut out, positions.len() as u32);
        let ghost head = out@;
        let mut i: usize = 0;
        while i < positions.len()
            invariant
                i <= positions@.len(),
                out@ == head + le32s(positions@.take(i as int)),
            decreases positions@.len() - i,
        {
            let ghost before = out@;
            push_le32(&mut out, positions[i]);
            proof {
                assert(positions@.take(i + 1).drop_last() =~= positions@.take(i as int));
                assert(out@ =~= head + le32s(positions@.take(i + 1)));
            }
            i = i + 1;
        }
        proof {
            assert(positions@.take(i as int) =~= positions@);
            assert(out@ =~= tagged(positions@, n as nat));
        }
    } else {
        out.push(TAG_BITMAP);
        push_marks(&mut out, positions, n);
        proof {
            assert(out@ =~= tagged(positions@, n as nat));
        }
    }
    out
}

/// Position `i` of a list of row positions that starts at byte nine.
pub open spec fn stored_row(bytes: Seq<u8>, i: int) -> u32 {
    field(bytes, (8 * (9 + 4 * i)) as nat, 32) as u32
}

/// The first `count` stored row positions.
pub open spec fn stored_rows(bytes: Seq<u8>, count: nat) -> Seq<u32> {
    Seq::new(count, |i: int| stored_row(bytes, i))
}

/// The first position from `from` on that lies outside a page of `n` rows.
pub open spec fn first_stray(positions: Seq<u32>, n: nat, from: nat) -> nat
    decreases positions.len() - from,
{
    if from >= positions.len() || positions[from as int] >= n {
        from
    } else {
        first_stray(positions, n, from + 1)
    }
}

/// The bitmap that stored bytes stand for, or why they stand for none.
pub open spec fn bitmap_in(bytes: Seq<u8>, format: RowsetFormat) -> std::result::Result<
    Seq<u8>,
    Fault,
> {
    if format == RowsetFormat::V1Raw {
        Ok(bytes)
    } else if bytes.len() == 0 {
        Err(Fault::InvalidInput("v2 rowset is empty"@))
    } else if bytes[0] == TAG_BITMAP {
        Ok(bytes.skip(1))
    } else if bytes[0] != TAG_SPARSE {
        Err(
            Fault::InvalidInput(
                "v2 rowset has unknown tag 0x"@ + hex_padded(bytes[0] as nat, 2),
            ),
        )
    } else if bytes.len() < 9 {
        Err(
            Fault::InvalidInput(
                "v2 sparse rowset truncated: "@ + dec(bytes.len()) + " bytes"@,
            ),
        )
    } else {
        let n = field(bytes, 8, 32);
        let count = field(bytes, 40, 32);
        let rows = stored_rows(bytes, count);
        let stray = first_stray(rows, n, 0);
        if bytes.len() != 9 + 4 * count {
            Err(
                Fault::InvalidInput(
                    "v2 sparse rowset length mismatch: "@ + dec(bytes.len())
                        + " bytes for count="@ + dec(count) + ""@,
                ),
            )
        } else if stray < count {
            Err(
                Fault::InvalidInput(
                    "v2 sparse rowset row "@ + dec(rows[stray as int] as nat)
                        + " out of page range "@ + dec(n) + ""@,
                ),
            )
        } else {
            Ok(pack(marked(rows, n)))
        }
    }
}

proof fn lemma_first_stray(positions: Seq<u32>, n: nat, from: nat)
    requires
        from <= positions.len(),
    ensures
        from <= first_stray(positions, n, from) <= positions.len(),
        forall|i: int| from <= i < first_stray(positions, n, from) ==> positions[i] < n,
        first_stray(positions, n, from) < positions.len() ==> positions[first_stray(
            positions,
            n,
            from,
        ) as int] >= n,
    decreases positions.len() - from,
{
    if from < positions.len() && positions[from as int] < n {
        lemma_first_stray(positions, n, from + 1);
    }
}

/// Turns stored bytes into the bitmap they stand for.
pub fn to_bitmap(bytes: &[u8], format: RowsetFormat) -> (r: Result<Vec<u8>>)
    ensures
        match bitmap_in(bytes@, format) {
            Ok(bitmap) => r is Ok && r->Ok_0@ == bitmap,
            Err(f) => reports(r, Some(f)),
        },
{
    if format == RowsetFormat::V1Raw {
        return Ok(slice_to_vec(bytes));
    }
    let len: usize = bytes.len();
    if len == 0 {
        return Err(CodecError::InvalidInput("v2 rowset is empty".to_string()));
    }
    let tag: u8 = bytes[0];
    if tag == TAG_BITMAP {
        let rest = slice_subrange(bytes, 1, len);
        proof {
            assert(rest@ =~= bytes@.skip(1));
        }
        return Ok(slice_to_vec(rest));
    }
    if tag != TAG_SPARSE {
        let mut s: String = "v2 rowset has unknown tag 0x".to_string();
        push_hex_padded(&mut s, tag as u32, 2);
        return Err(CodecError::InvalidInput(s));
    }
    if len < 9 {
        return Err(
            CodecError::InvalidInput(
                text1("v2 sparse rowset truncated: ", len as u128, " bytes"),
            ),
        );
    }
    let n: u32 = read_field(bytes, &BitPos { byte: 1, shift: 0 }, 32);
    let count: u32 = read_field(bytes, &BitPos { byte: 5, shift: 0 }, 32);
    if (len - 9) % 4 != 0 || (len - 9) / 4 != count as usize {
        return Err(
            CodecError::InvalidInput(
                text2(
                    "v2 sparse rowset length mismatch: ",
                    len as u128,
                    " bytes for count=",
                    count as u128,
                    "",
                ),
            ),
        );
    }
    let ghost rows = stored_rows(bytes@, count as nat);
    let mut positions: Vec<u32> = Vec::new();
    let mut i: u32 = 0;
    while i < count
        invariant
            i <= count,
            len == bytes@.len(),
            len == 9 + 4 * count,
            rows == stored_rows(bytes@, count as nat),
            positions@ == rows.take(i as int),
            first_stray(rows, n as nat, 0) == first_stray(rows, n as nat, i as nat),
            forall|j: int| 0 <= j < i ==> #[trigger] positions@[j] < n,
            bitmap_in(bytes@, format) == (if first_stray(rows, n as nat, 0) < count {
                Err(
                    Fault::InvalidInput(
                        "v2 sparse rowset row "@ + dec(
                            rows[first_stray(rows, n as nat, 0) as int] as nat,
                        ) + " out of page range "@ + dec(n as nat) + ""@,
                    ),
                )
            } else {
                Ok(pack(marked(rows, n as nat)))
            }),
        decreases count - i,
    {
        let at: usize = 9 + 4 * i as usize;
        let row: u32 = read_field(bytes, &BitPos { byte: at, shift: 0 }, 32);
        proof {
            assert(rows[i as int] == row);
        }
        if row >= n {
            return Err(
                CodecError::InvalidInput(
                    text2(
                        "v2 sparse rowset row ",
                        row as u128,
                        " out of page range ",
                        n as u128,
                        "",
                    ),
                ),
            );
        }
        positions.push(row);
        proof {
            assert(positions@ =~= rows.take(i + 1));
        }
        i = i + 1;
    }
    proof {
        assert(rows.take(i as int) =~= rows);
    }
    let mut bitmap: Vec<u8> = Vec::new();
    push_marks(&mut bitmap, positions.as_slice(), n as usize);
    proof {
        assert(bitmap@ =~= pack(marked(rows, n as nat)));
    }
    Ok(bitmap)
}

proof fn lemma_le32_field(bytes: Seq<u8>, at: nat, n: nat)
    requires
        n <= u32::MAX,
        at + 4 <= bytes.len(),
        bytes.subrange(at as int, (at + 4) as int) == le32(n),
    ensures
        field(bytes, 8 * at, 32) == n,
{
    let part = bytes.subrange(at as int, (at + 4) as int);
    assert(part[0] == bytes[at as int] && part[1] == bytes[(at + 1) as int] && part[2]
        == bytes[(at + 2) as int] && part[3] == bytes[(at + 3) as int]);
    lemma_field_split(bytes, 8 * at, 8, 24);
    lemma_field_split(bytes, 8 * at + 8, 8, 16);
    lemma_field_split(bytes, 8 * at + 16, 8, 8);
    lemma_field_byte(bytes, at);
    lemma_field_byte(bytes, at + 1);
    lemma_field_byte(bytes, at + 2);
    lemma_field_byte(bytes, at + 3);
    lemma2_to64();
    assert(8 * (at + 1) == 8 * at + 8);
    assert(8 * (at + 2) == 8 * at + 16);
    assert(8 * (at + 3) == 8 * at + 24);
}

proof fn lemma_le32s_at(positions: Seq<u32>, i: int)
    requires
        0 <= i < positions.len(),
    ensures
        le32s(positions).len() == 4 * positions.len(),
        le32s(positions).subrange(4 * i, 4 * i + 4) == le32(positions[i] as nat),
    decreases positions.len(),
{
    let head = positions.drop_last();
    if head.len() == 0 {
        assert(le32s(head).len() == 0);
    } else {
        lemma_le32s_at(head, 0);
    }
    if i < head.len() {
        lemma_le32s_at(head, i);
        assert(le32s(positions).subrange(4 * i, 4 * i + 4) =~= le32s(head).subrange(
            4 * i,
            4 * i + 4,
        ));
    } else {
        assert(le32s(positions).subrange(4 * i, 4 * i + 4) =~= le32(positions[i] as nat));
    }
}

/// Encoding row positions and reading them back gives the bitmap in which
/// exactly those rows are set, in either tagged form.
pub proof fn law_tagged_round_trip(positions: Seq<u32>, n: nat)
    requires
        n <= u32::MAX,
        forall|i: int| 0 <= i < positions.len() ==> #[trigger] positions[i] < n,
    ensures
        bitmap_in(tagged(positions, n), RowsetFormat::V2Tagged) == Ok::<Seq<u8>, Fault>(
            pack(marked(positions, n)),
        ),
{
    let bytes = tagged(positions, n);
    if 9 + 4 * positions.len() < 1 + (n + 7) / 8 {
        let count = positions.len();
        if count > 0 {
            lemma_le32s_at(positions, 0);
        }
        assert(bytes.len() == 9 + 4 * count);
        assert(bytes[0] == TAG_SPARSE);
        assert(bytes.subrange(1, 5) =~= le32(n));
        lemma_le32_field(bytes, 1, n);
        assert(bytes.subrange(5, 9) =~= le32(count));
        lemma_le32_field(bytes, 5, count);
        let rows = stored_rows(bytes, count);
        assert forall|i: int| 0 <= i < count implies rows[i] == positions[i] by {
            lemma_le32s_at(positions, i);
            let at: nat = (9 + 4 * i) as nat;
            assert(bytes.subrange(at as int, (at + 4) as int) =~= le32s(positions).subrange(
                4 * i,
                4 * i + 4,
            ));
            lemma_le32_field(bytes, at, positions[i] as nat);
        }
        assert(rows =~= positions);
        lemma_first_stray(rows, n, 0);
    } else {
        assert(bytes[0] == TAG_BITMAP);
        assert(bytes.skip(1) =~= pack(marked(positions, n)));
    }
}

/// The tagged form is never longer than a tagged bitmap.
pub proof fn law_tagged_picks_the_smaller(positions: Seq<u32>, n: nat)
    ensures
        tagged(positions, n).len() <= 1 + (n + 7) / 8,
        tagged(positions, n)[0] == TAG_SPARSE <==> 9 + 4 * positions.len() < 1 + (n + 7) / 8,
{
    if 9 + 4 * positions.len() < 1 + (n + 7) / 8 {
        if positions.len() > 0 {
            lemma_le32s_at(positions, 0);
        }
    }
}

} // verus!
