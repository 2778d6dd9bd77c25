//! Dictionary-encoded data pages.
//!
//! The body of such a page is one byte, the bit width of the index stream,
//! and then the hybrid stream of indices into the column's dictionary.

use vstd::arithmetic::power2::{lemma2_to64, lemma_pow2_strictly_increases, pow2};
use vstd::prelude::*;

use crate::bitpack::{
    first_outside, lemma_field_inside, lemma_first_outside, lemma_none_outside, lookup_values,
    unpack_indices_into, unpack_lookup_into,
};
use crate::bits::{
    as_u32s, bit, field, get_bit, holds_rows, lemma_byte_plain, lemma_field_bound,
    lemma_pack_unique, packed_len, read_field, set_bit, set_range_bits, unpacked, BitPos,
};
use crate::cursor::Cursor;
use crate::error::{reports, CodecError, Fault, Outcome, Result};
use crate::rle::{lemma_next_run, next_run, read_run, repeat_run, step_values, walk, Run, RunBody};
use crate::text::{dec, text1, text3};

verus! {

/// What `step` makes of the runs of a dictionary-encoded page body.
///
/// Width zero stores no runs: every row has index zero.
pub open spec fn page<T>(
    body: Seq<u8>,
    num_values: nat,
    step: spec_fn(Run, nat) -> Outcome<T>,
) -> Outcome<T> {
    if body.len() == 0 {
        Outcome { emitted: Seq::empty(), fault: Some(Fault::EmptyDictPageBody) }
    } else if body[0] > 32 {
        Outcome { emitted: Seq::empty(), fault: Some(Fault::BitWidthOutOfRange(body[0])) }
    } else if num_values == 0 {
        Outcome { emitted: Seq::empty(), fault: None }
    } else if body[0] == 0 {
        step(repeat_run(0, num_values), 0)
    } else {
        walk(body.skip(1), 0, body[0] as nat, 0, num_values, step)
    }
}

/// The indices of a page.
pub open spec fn page_indices(body: Seq<u8>, num_values: nat) -> Outcome<nat> {
    page(body, num_values, step_values())
}

/// The dictionary fault of an index outside the dictionary.
pub open spec fn outside(index: nat, size: nat) -> Fault {
    Fault::DictIndexOutOfRange { index: index as u32, dict_size: size as usize }
}

/// A run looked up in a dictionary. A repeated index is checked even where
/// the run repeats it zero times.
pub open spec fn lookup_run<T>(run: Run, dict: Seq<T>) -> Outcome<T> {
    if run.repeated && run.value >= dict.len() {
        Outcome { emitted: Seq::empty(), fault: Some(outside(run.value, dict.len())) }
    } else {
        lookup_values(run.values, dict)
    }
}

pub open spec fn step_lookup<T>(dict: Seq<T>) -> spec_fn(Run, nat) -> Outcome<T> {
    |run: Run, row: nat| lookup_run(run, dict)
}

/// The rows' values of a page, looked up in its dictionary.
pub open spec fn page_lookup<T>(body: Seq<u8>, num_values: nat, dict: Seq<T>) -> Outcome<T> {
    page(body, num_values, step_lookup(dict))
}

/// Decodes the `num_values` dictionary indices of a page body.
pub fn decode_rle_dictionary_indices(body: &[u8], num_values: usize) -> (r: Result<Vec<u32>>)
    ensures
        reports(r, page_indices(body@, num_values as nat).fault),
        r is Ok ==> r->Ok_0@ == as_u32s(page_indices(body@, num_values as nat).emitted),
{
    if body.len() == 0 {
        return Err(CodecError::EmptyDictPageBody);
    }
    let bit_width: u8 = body[0];
    if bit_width > 32 {
        return Err(CodecError::BitWidthOutOfRange(bit_width));
    }
    let mut out: Vec<u32> = Vec::new();
    let ghost n = num_values as nat;
    let ghost whole = page_indices(body@, n);
    if num_values == 0 {
        proof {
            assert(out@ =~= as_u32s(whole.emitted));
        }
        return Ok(out);
    }
    if bit_width == 0 {
        out.resize(num_values, 0);
        proof {
            assert(out@ =~= as_u32s(whole.emitted));
        }
        return Ok(out);
    }
    let tail = vstd::slice::slice_subrange(body, 1, body.len());
    let mut cur = Cursor::new(tail);
    let ghost w = bit_width as nat;
    let ghost mut done: Seq<nat> = Seq::empty();
    proof {
        assert(tail@ == body@.skip(1));
        assert(whole.emitted =~= done + whole.emitted);
        assert(out@ =~= as_u32s(done));
    }
    while out.len() < num_values
        invariant
            1 <= bit_width <= 32,
            w == bit_width,
            n == num_values,
            cur.bytes() == tail@,
            out@.len() <= num_values,
            out@ == as_u32s(done),
            whole == page_indices(body@, n),
            whole == walk(tail@, cur.at(), w, out@.len(), n, step_values()).after(done),
        decreases tail@.len() - cur.at(),
    {
        let need: usize = num_values - out.len();
        proof {
            lemma_next_run(tail@, cur.at(), w, need as nat);
        }
        let run_body = match read_run(&mut cur, bit_width, need) {
            Ok(b) => b,
            Err(e) => {
                return Err(CodecError::Wire(e));
            },
        };
        let ghost values = run_body.run(w).values;
        let ghost before = out@;
        match run_body {
            RunBody::Packed { chunk, count } => {
                unpack_indices_into(chunk, count, bit_width, &mut out)?;
            },
            RunBody::Repeat { value, count } => {
                out.resize(out.len() + count, value as u32);
            },
        }
        proof {
            assert(out@ =~= before + as_u32s(values));
            let rest = walk(tail@, cur.at(), w, out@.len(), n, step_values());
            assert((done + values) + rest.emitted =~= done + (values + rest.emitted));
            done = done + values;
            assert(out@ =~= as_u32s(done));
        }
    }
    proof {
        assert(whole.emitted =~= done);
    }
    Ok(out)
}

/// Decodes a page body and appends each row's dictionary value to `out`.
///
/// Where the page is faulty, the values before the fault have been appended.
pub fn decode_rle_dictionary_into<T: Copy>(
    body: &[u8],
    dict: &[T],
    num_values: usize,
    out: &mut Vec<T>,
) -> (r: Result<()>)
    ensures
        reports(r, page_lookup(body@, num_values as nat, dict@).fault),
        final(out)@ == old(out)@ + page_lookup(body@, num_values as nat, dict@).emitted,
{
    let ghost n = num_values as nat;
    let ghost step = step_lookup(dict@);
    let ghost whole = page_lookup(body@, n, dict@);
    let ghost start = out@;
    if body.len() == 0 {
        proof {
            assert(start =~= start + whole.emitted);
        }
        return Err(CodecError::EmptyDictPageBody);
    }
    let bit_width: u8 = body[0];
    if bit_width > 32 {
        proof {
            assert(start =~= start + whole.emitted);
        }
        return Err(CodecError::BitWidthOutOfRange(bit_width));
    }
    if num_values == 0 {
        proof {
            assert(start =~= start + whole.emitted);
        }
        return Ok(());
    }
    let dict_size: usize = dict.len();
    if bit_width == 0 {
        if dict_size == 0 {
            proof {
                assert(start =~= start + whole.emitted);
            }
            return Err(CodecError::DictIndexOutOfRange { index: 0, dict_size: 0 });
        }
        push_repeated(dict, 0, num_values, out);
        return Ok(());
    }
    let tail = vstd::slice::slice_subrange(body, 1, body.len());
    let mut cur = Cursor::new(tail);
    let ghost w = bit_width as nat;
    let ghost mut done: Seq<T> = Seq::empty();
    let mut emitted: usize = 0;
    proof {
        assert(tail@ == body@.skip(1));
        assert(whole.emitted =~= done + whole.emitted);
        assert(start =~= start + done);
    }
    while emitted < num_values
        invariant
            1 <= bit_width <= 32,
            w == bit_width,
            n == num_values,
            dict_size == dict@.len(),
            cur.bytes() == tail@,
            emitted <= num_values,
            start == old(out)@,
            step == step_lookup(dict@),
            out@ == start + done,
            whole == page_lookup(body@, n, dict@),
            whole == walk(tail@, cur.at(), w, emitted as nat, n, step).after(done),
        decreases tail@.len() - cur.at(),
    {
        let need: usize = num_values - emitted;
        proof {
            lemma_next_run(tail@, cur.at(), w, need as nat);
        }
        let run_body = match read_run(&mut cur, bit_width, need) {
            Ok(b) => b,
            Err(e) => {
                proof {
                    assert(out@ =~= start + whole.emitted);
                }
                return Err(CodecError::Wire(e));
            },
        };
        let ghost run = run_body.run(w);
        let ghost first = lookup_run(run, dict@);
        match run_body {
            RunBody::Packed { chunk, count } => {
                let looked_up = unpack_lookup_into(chunk, count, bit_width, dict, out);
                proof {
                    assert(out@ =~= start + (done + first.emitted));
                }
                if looked_up.is_err() {
                    return looked_up;
                }
                emitted = emitted + count;
            },
            RunBody::Repeat { value, count } => {
                if value >= dict_size as u64 {
                    proof {
                        assert(out@ =~= start + whole.emitted);
                    }
                    return Err(
                        CodecError::DictIndexOutOfRange { index: value as u32, dict_size },
                    );
                }
                push_repeated(dict, value as usize, count, out);
                proof {
                    assert(out@ =~= start + (done + first.emitted));
                }
                emitted = emitted + count;
            },
        }
        proof {
            let rest = walk(tail@, cur.at(), w, emitted as nat, n, step);
            lemma_first_outside(run.values, dict@.len(), 0);
            assert((done + first.emitted) + rest.emitted =~= done + (first.emitted
                + rest.emitted));
            done = done + first.emitted;
        }
    }
    proof {
        assert(whole.emitted =~= done);
    }
    Ok(())
}

/// Appends `dict[index]` `count` times.
fn push_repeated<T: Copy>(dict: &[T], index: usize, count: usize, out: &mut Vec<T>)
    requires
        index < dict@.len(),
    ensures
        lookup_values(repeat_run(index as nat, count as nat).values, dict@).fault is None,
        final(out)@ == old(out)@ + lookup_values(
            repeat_run(index as nat, count as nat).values,
            dict@,
        ).emitted,
{
    let ghost start = out@;
    let ghost values = repeat_run(index as nat, count as nat).values;
    proof {
        lemma_none_outside(values, dict@.len());
    }
    let v: T = dict[index];
    let mut i: usize = 0;
    while i < count
        invariant
            i <= count,
            index < dict@.len(),
            v == dict@[index as int],
            out@ == start + Seq::new(i as nat, |k: int| dict@[index as int]),
        decreases count - i,
    {
        out.push(v);
        proof {
            assert(out@ =~= start + Seq::new((i + 1) as nat, |k: int| dict@[index as int]));
        }
        i = i + 1;
    }
    proof {
        assert(out@ =~= start + lookup_values(values, dict@).emitted);
    }
}

/// Looks `indices` up in `dict`.
pub fn lookup_dict<T: Copy>(dict: &[T], indices: &[u32]) -> (r: Result<Vec<T>>)
    ensures
        reports(r, lookup_values(indices@.map_values(|i: u32| i as nat), dict@).fault),
        r is Ok ==> r->Ok_0@ == indices@.map_values(|i: u32| dict@[i as int]),
{
    let ghost values = indices@.map_values(|i: u32| i as nat);
    let n: usize = dict.len();
    let mut out: Vec<T> = Vec::new();
    let mut k: usize = 0;
    while k < indices.len()
        invariant
            k <= indices@.len(),
            n == dict@.len(),
            values == indices@.map_values(|i: u32| i as nat),
            first_outside(values, n as nat, 0) == first_outside(values, n as nat, k as nat),
            out@ == indices@.take(k as int).map_values(|i: u32| dict@[i as int]),
        decreases indices@.len() - k,
    {
        let idx: u32 = indices[k];
        proof {
            assert(values[k as int] == idx);
        }
        if idx as usize >= n {
            return Err(CodecError::DictIndexOutOfRange { index: idx, dict_size: n });
        }
        out.push(dict[idx as usize]);
        proof {
            assert(out@ =~= indices@.take(k + 1).map_values(|i: u32| dict@[i as int]));
        }
        k = k + 1;
    }
    proof {
        assert(indices@.take(k as int) =~= indices@);
    }
    Ok(out)
}

/// A run's rows tested against a predicate mask over the `limit` indices
/// that the page can address.
pub open spec fn mask_run(run: Run, mask: Seq<u8>, limit: nat) -> Outcome<bool> {
    if run.repeated && run.value >= limit {
        Outcome { emitted: Seq::empty(), fault: Some(outside(run.value, limit)) }
    } else {
        Outcome { emitted: run.values.map_values(|v: nat| mask[v as int] != 0), fault: None }
    }
}

pub open spec fn step_mask(mask: Seq<u8>, limit: nat) -> spec_fn(Run, nat) -> Outcome<bool> {
    |run: Run, row: nat| mask_run(run, mask, limit)
}

/// For each row of a page, whether the mask accepts its index.
pub open spec fn page_mask(body: Seq<u8>, num_values: nat, mask: Seq<u8>) -> Outcome<bool> {
    page(body, num_values, step_mask(mask, pow2(body[0] as nat)))
}

/// Why a page and a predicate mask are refused before any row is decoded:
/// the mask must cover every index of the page's bit width.
pub open spec fn mask_refusal(body: Seq<u8>, mask: Seq<u8>) -> Option<Fault> {
    if body.len() == 0 {
        Some(Fault::EmptyDictPageBody)
    } else if body[0] >= 32 {
        Some(Fault::BitWidthOutOfRange(body[0]))
    } else if mask.len() < pow2(body[0] as nat) {
        Some(
            Fault::Decompress(
                "dict_mask must be ≥ "@ + dec(pow2(body[0] as nat)) + " entries for bw="@ + dec(
                    body[0] as nat,
                ) + " (got "@ + dec(mask.len()) + ")"@,
            ),
        )
    } else {
        None
    }
}

/// That every entry of a predicate mask is a plain zero or one.
pub open spec fn is_mask(mask: Seq<u8>) -> bool {
    forall|i: int| 0 <= i < mask.len() ==> #[trigger] mask[i] <= 1
}

/// That `after` is `before` with one bit per row of a page: whether `mask`
/// accepts the row's index. Where the page and the mask are refused, nothing
/// was appended; where the stream is faulty, the rows before the fault.
pub open spec fn appends_bitmap(
    r: Result<()>,
    before: Seq<u8>,
    after: Seq<u8>,
    body: Seq<u8>,
    num_values: nat,
    mask: Seq<u8>,
) -> bool {
    match mask_refusal(body, mask) {
        Some(f) => reports(r, Some(f)) && after == before,
        None => {
            let o = page_mask(body, num_values, mask);
            &&& reports(r, o.fault)
            &&& after.len() == before.len() + (num_values + 7) / 8
            &&& after.take(before.len() as int) == before
            &&& holds_rows(after.skip(before.len() as int), o.emitted)
        },
    }
}

/// Appends to `out` one bit per row of a page: whether `dict_mask` accepts
/// the row's dictionary index. Unused bits of the last byte are zero.
///
/// Where the stream is faulty, the bitmap has been appended with the rows
/// before the fault.
pub fn decode_rle_dictionary_predicate_bitmap(
    body: &[u8],
    num_values: usize,
    dict_mask: &[u8],
    out: &mut Vec<u8>,
) -> (r: Result<()>)
    requires
        is_mask(dict_mask@),
        old(out)@.len() + (num_values + 7) / 8 <= usize::MAX,
    ensures
        appends_bitmap(r, old(out)@, final(out)@, body@, num_values as nat, dict_mask@),
{
    if body.len() == 0 {
        return Err(CodecError::EmptyDictPageBody);
    }
    let bit_width: u8 = body[0];
    if bit_width >= 32 {
        return Err(CodecError::BitWidthOutOfRange(bit_width));
    }
    proof {
        lemma2_to64();
        lemma_pow2_strictly_increases(bit_width as nat, 32);
        vstd::bits::lemma_u64_shl_is_mul(1, bit_width as u64);
    }
    let required: u64 = 1u64 << bit_width;
    if (dict_mask.len() as u64) < required {
        return Err(
            CodecError::Decompress(
                text3(
                    "dict_mask must be ≥ ",
                    required as u128,
                    " entries for bw=",
                    bit_width as u128,
                    " (got ",
                    dict_mask.len() as u128,
                    ")",
                ),
            ),
        );
    }
    let ghost n = num_values as nat;
    let ghost step = step_mask(dict_mask@, required as nat);
    let ghost whole = page_mask(body@, n, dict_mask@);
    let base: usize = out.len();
    let ghost start = out@;
    if num_values == 0 {
        proof {
            assert(out@.take(base as int) =~= start);
            assert(out@.skip(base as int).len() == 0);
        }
        return Ok(());
    }
    let bitmap_bytes: usize = num_values / 8 + if num_values % 8 == 0 { 0usize } else { 1usize };
    out.resize(base + bitmap_bytes, 0);
    proof {
        assert(out@.take(base as int) =~= start);
        assert forall|i: nat| i < 8 * out@.skip(base as int).len() implies #[trigger] bit(
            out@.skip(base as int),
            i,
        ) == 0 by {
            lemma_byte_plain(i % 8);
        }
    }
    if bit_width == 0 {
        if dict_mask[0] != 0 {
            set_range_bits(out, base, 0, num_values);
        }
        return Ok(());
    }
    let tail = vstd::slice::slice_subrange(body, 1, body.len());
    let mut cur = Cursor::new(tail);
    let ghost w = bit_width as nat;
    let ghost mut done: Seq<bool> = Seq::empty();
    let mut emitted: usize = 0;
    proof {
        assert(tail@ == body@.skip(1));
        assert(whole.emitted =~= done + whole.emitted);
    }
    while emitted < num_values
        invariant
            1 <= bit_width < 32,
            w == bit_width,
            n == num_values,
            required == pow2(w),
            required <= dict_mask@.len(),
            cur.bytes() == tail@,
            emitted <= num_values,
            done.len() == emitted,
            start == old(out)@,
            base == start.len(),
            out@.len() == base + (num_values + 7) / 8,
            out@.take(base as int) == start,
            mask_refusal(body@, dict_mask@) is None,
            step == step_mask(dict_mask@, required as nat),
            holds_rows(out@.skip(base as int), done),
            whole == page_mask(body@, n, dict_mask@),
            whole == walk(tail@, cur.at(), w, emitted as nat, n, step).after(done),
        decreases tail@.len() - cur.at(),
    {
        let need: usize = num_values - emitted;
        proof {
            lemma_next_run(tail@, cur.at(), w, need as nat);
        }
        let run_body = match read_run(&mut cur, bit_width, need) {
            Ok(b) => b,
            Err(e) => {
                proof {
                    assert(done =~= whole.emitted);
                }
                return Err(CodecError::Wire(e));
            },
        };
        let ghost run = run_body.run(w);
        let ghost first = mask_run(run, dict_mask@, required as nat);
        let ghost before = out@.skip(base as int);
        let ghost row = emitted;
        match run_body {
            RunBody::Packed { chunk, count } => {
                fused_bitmap_chunk(chunk, bit_width, count, dict_mask, out, base, emitted);
                emitted = emitted + count;
            },
            RunBody::Repeat { value, count } => {
                if value >= required {
                    proof {
                        lemma2_to64();
                        assert(done =~= whole.emitted);
                    }
                    return Err(
                        CodecError::DictIndexOutOfRange {
                            index: value as u32,
                            dict_size: required as usize,
                        },
                    );
                }
                if dict_mask[value as usize] != 0 {
                    set_range_bits(out, base, emitted, emitted + count);
                }
                emitted = emitted + count;
            },
        }
        proof {
            let rest = walk(tail@, cur.at(), w, emitted as nat, n, step);
            let rows = done + first.emitted;
            let after = out@.skip(base as int);
            assert(rows + rest.emitted =~= done + (first.emitted + rest.emitted));
            assert forall|i: nat| i < 8 * after.len() implies (#[trigger] bit(after, i) == 1) == (i
                < rows.len() && rows[i as int]) by {
                assert((bit(before, i) == 1) == (i < done.len() && done[i as int]));
            }
            done = rows;
        }
    }
    proof {
        assert(done =~= whole.emitted);
    }
    Ok(())
}

/// Sets, for each of `n` packed indices that the mask accepts, the bit of
/// its row, counted from `row` on.
pub(crate) fn fused_bitmap_chunk(
    chunk: &[u8],
    bit_width: u8,
    n: usize,
    dict_mask: &[u8],
    out: &mut Vec<u8>,
    base: usize,
    row: usize,
)
    requires
        bit_width < 32,
        pow2(bit_width as nat) <= dict_mask@.len(),
        packed_len(n as nat, bit_width as nat) <= chunk@.len(),
        row + n <= usize::MAX,
        base + (row + n + 7) / 8 <= old(out)@.len(),
    ensures
        final(out)@.len() == old(out)@.len(),
        final(out)@.take(base as int) == old(out)@.take(base as int),
        forall|i: nat|
            i < 8 * (old(out)@.len() - base) ==> (#[trigger] bit(final(out)@.skip(base as int), i)
                == 1) == ((row <= i < row + n && dict_mask@[unpacked(
                chunk@,
                bit_width as nat,
                n as nat,
            )[i - row] as int] != 0) || bit(old(out)@.skip(base as int), i) == 1),
{
    let ghost values = unpacked(chunk@, bit_width as nat, n as nat);
    let ghost before = out@.skip(base as int);
    let len: usize = out.len();
    let chunk_len: usize = chunk.len();
    let mut k: usize = 0;
    let mut at = BitPos::start();
    while k < n
        invariant
            k <= n,
            bit_width < 32,
            pow2(bit_width as nat) <= dict_mask@.len(),
            packed_len(n as nat, bit_width as nat) <= chunk@.len(),
            chunk_len == chunk@.len(),
            at.wf(),
            at.bit() == k * bit_width,
            row + n <= usize::MAX,
            values == unpacked(chunk@, bit_width as nat, n as nat),
            len == out@.len() == old(out)@.len(),
            base + (row + n + 7) / 8 <= len,
            out@.take(base as int) == old(out)@.take(base as int),
            before == old(out)@.skip(base as int),
            forall|i: nat|
                i < 8 * (len - base) ==> (#[trigger] bit(out@.skip(base as int), i) == 1) == ((row
                    <= i < row + k && dict_mask@[values[i - row] as int] != 0) || bit(before, i)
                    == 1),
        decreases n - k,
    {
        let ghost current = out@.skip(base as int);
        proof {
            lemma_field_inside(chunk@.len(), bit_width as nat, n as nat, k as nat);
            lemma_field_bound(chunk@, at.bit(), bit_width as nat);
            assert(values[k as int] == field(chunk@, at.bit(), bit_width as nat));
        }
        let idx: u32 = read_field(chunk, &at, bit_width as u32);
        if dict_mask[idx as usize] != 0 {
            set_bit(out, base, row + k);
        }
        at.advance(bit_width);
        proof {
            assert((k + 1) * bit_width == k * bit_width + bit_width) by (nonlinear_arith);
            assert forall|i: nat| i < 8 * (len - base) implies (#[trigger] bit(
                out@.skip(base as int),
                i,
            ) == 1) == ((row <= i < row + k + 1 && dict_mask@[values[i - row] as int] != 0) || bit(
                before,
                i,
            ) == 1) by {
                assert((bit(current, i) == 1) == ((row <= i < row + k && dict_mask@[values[i
                    - row] as int] != 0) || bit(before, i) == 1));
            }
        }
        k = k + 1;
    }
}

/// The same for pages of width twelve only; any other width is refused.
pub fn decode_rle_dictionary_predicate_bitmap_bw12(
    body: &[u8],
    num_values: usize,
    dict_mask: &[u8],
    out: &mut Vec<u8>,
) -> (r: Result<()>)
    requires
        is_mask(dict_mask@),
        old(out)@.len() + (num_values + 7) / 8 <= usize::MAX,
    ensures
        body@.len() > 0 && body@[0] != 12 ==> reports(
            r,
            Some(
                Fault::Decompress(
                    "decode_rle_dictionary_predicate_bitmap_bw12: expected bit_width=12, got "@
                        + dec(body@[0] as nat) + ""@,
                ),
            ),
        ) && final(out)@ == old(out)@,
        body@.len() == 0 || body@[0] == 12 ==> appends_bitmap(
            r,
            old(out)@,
            final(out)@,
            body@,
            num_values as nat,
            dict_mask@,
        ),
{
    if body.len() == 0 {
        return Err(CodecError::EmptyDictPageBody);
    }
    let bit_width: u8 = body[0];
    if bit_width != 12 {
        return Err(
            CodecError::Decompress(
                text1(
                    "decode_rle_dictionary_predicate_bitmap_bw12: expected bit_width=12, got ",
                    bit_width as u128,
                    "",
                ),
            ),
        );
    }
    decode_rle_dictionary_predicate_bitmap(body, num_values, dict_mask, out)
}

/// The values whose bit is set, where value `i` belongs to bit `first + i`.
pub open spec fn selected<T>(values: Seq<T>, bitmap: Seq<u8>, first: nat) -> Seq<T>
    decreases values.len(),
{
    if values.len() == 0 {
        Seq::empty()
    } else {
        let before = selected(values.drop_last(), bitmap, first);
        if bit(bitmap, (first + values.len() - 1) as nat) == 1 {
            before.push(values.last())
        } else {
            before
        }
    }
}

/// The selected rows of a run, looked up. An index is checked where its row
/// is selected; a repeated index is checked in any case.
pub open spec fn gather_run<T>(run: Run, bitmap: Seq<u8>, first: nat, dict: Seq<T>) -> Outcome<T> {
    if run.repeated && run.value >= dict.len() {
        Outcome { emitted: Seq::empty(), fault: Some(outside(run.value, dict.len())) }
    } else {
        lookup_values(selected(run.values, bitmap, first), dict)
    }
}

pub open spec fn step_gather<T>(bitmap: Seq<u8>, offset: nat, dict: Seq<T>) -> spec_fn(
    Run,
    nat,
) -> Outcome<T> {
    |run: Run, row: nat| gather_run(run, bitmap, offset + row, dict)
}

/// The dictionary values of the rows of a page that a bitmap selects; row 0
/// belongs to bit `offset`.
pub open spec fn page_gather<T>(
    body: Seq<u8>,
    num_values: nat,
    bitmap: Seq<u8>,
    offset: nat,
    dict: Seq<T>,
) -> Outcome<T> {
    page(body, num_values, step_gather(bitmap, offset, dict))
}

/// The rows of a run whose bits are read: all, or those up to the first that
/// is selected with an index outside the dictionary.
pub open spec fn rows_reached(
    values: Seq<nat>,
    bitmap: Seq<u8>,
    first: nat,
    limit: nat,
    from: nat,
) -> nat
    decreases values.len() - from,
{
    if from >= values.len() {
        values.len()
    } else if bit(bitmap, first + from) == 1 && values[from as int] >= limit {
        from + 1
    } else {
        rows_reached(values, bitmap, first, limit, from + 1)
    }
}

pub open spec fn step_reach<T>(bitmap: Seq<u8>, offset: nat, dict: Seq<T>) -> spec_fn(
    Run,
    nat,
) -> Outcome<nat> {
    |run: Run, row: nat|
        Outcome {
            emitted: if run.repeated && run.value >= dict.len() {
                Seq::empty()
            } else {
                run.values.take(
                    rows_reached(run.values, bitmap, offset + row, dict.len(), 0) as int,
                )
            },
            fault: gather_run(run, bitmap, offset + row, dict).fault,
        }
}

/// The rows of a page whose bits are read when it is gathered: those before
/// its first fault.
pub open spec fn page_reached<T>(
    body: Seq<u8>,
    num_values: nat,
    bitmap: Seq<u8>,
    offset: nat,
    dict: Seq<T>,
) -> nat {
    page(body, num_values, step_reach(bitmap, offset, dict)).emitted.len()
}

/// That a bitmap has a bit for each of `n` rows from bit `first` on, where
/// there are any.
pub open spec fn covers_rows(bitmap: Seq<u8>, first: nat, n: nat) -> bool {
    n > 0 ==> first + n <= 8 * bitmap.len() && first + n <= usize::MAX
}

proof fn lemma_reached_bounds(
    values: Seq<nat>,
    bitmap: Seq<u8>,
    first: nat,
    limit: nat,
    from: nat,
)
    ensures
        from < values.len() ==> from + 1 <= rows_reached(values, bitmap, first, limit, from),
        rows_reached(values, bitmap, first, limit, from) <= values.len(),
    decreases values.len() - from,
{
    if from < values.len() {
        lemma_reached_bounds(values, bitmap, first, limit, from + 1);
    }
}

/// A selected row is among the selected.
proof fn lemma_selected_contains(values: Seq<nat>, bitmap: Seq<u8>, first: nat, r: int)
    requires
        0 <= r < values.len(),
        bit(bitmap, (first + r) as nat) == 1,
    ensures
        selected(values, bitmap, first).contains(values[r]),
    decreases values.len(),
{
    let all = selected(values, bitmap, first);
    let before = selected(values.drop_last(), bitmap, first);
    if r == values.len() - 1 {
        assert(all[all.len() - 1] == values[r]);
    } else {
        lemma_selected_contains(values.drop_last(), bitmap, first, r);
        let k = choose|k: int| 0 <= k < before.len() && before[k] == values[r];
        assert(all[k] == values[r]);
    }
}

/// Where no selected row has an index outside the dictionary, all are reached.
proof fn lemma_reached_all<T>(
    values: Seq<nat>,
    bitmap: Seq<u8>,
    first: nat,
    dict: Seq<T>,
    from: nat,
)
    requires
        lookup_values(selected(values, bitmap, first), dict).fault is None,
    ensures
        rows_reached(values, bitmap, first, dict.len(), from) == values.len(),
    decreases values.len() - from,
{
    if from < values.len() {
        if bit(bitmap, first + from) == 1 {
            let chosen = selected(values, bitmap, first);
            lemma_selected_contains(values, bitmap, first, from as int);
            lemma_first_outside(chosen, dict.len(), 0);
            let k = choose|k: int| 0 <= k < chosen.len() && chosen[k] == values[from as int];
            assert(chosen[k] < dict.len());
        }
        lemma_reached_all(values, bitmap, first, dict, from + 1);
    }
}

/// Rows under an empty byte do not stop a walk.
proof fn lemma_reached_empty_byte(
    values: Seq<nat>,
    k: nat,
    j: nat,
    bitmap: Seq<u8>,
    first: nat,
    limit: nat,
)
    requires
        j <= 8,
        k + j <= values.len(),
        (first + k) % 8 == 0,
        bitmap[(first + k) as int / 8] == 0,
    ensures
        rows_reached(values, bitmap, first, limit, k) == rows_reached(
            values,
            bitmap,
            first,
            limit,
            k + j,
        ),
    decreases j,
{
    if j > 0 {
        let i: nat = (first + k + j - 1) as nat;
        lemma_reached_empty_byte(values, k, (j - 1) as nat, bitmap, first, limit);
        lemma_byte_plain(i % 8);
        assert(bit(bitmap, i) == 0);
        assert(first + (k + j - 1) as nat == i);
    }
}

/// That `new` is `old` with clones of `more` appended.
pub open spec fn appends<T: Clone>(old: Seq<T>, new: Seq<T>, more: Seq<T>) -> bool {
    &&& new.len() == old.len() + more.len()
    &&& new.take(old.len() as int) == old
    &&& forall|i: int| #![trigger more[i]]
        0 <= i < more.len() ==> cloned(more[i], new[old.len() + i])
}

proof fn lemma_appends_step<T: Clone>(a: Seq<T>, b: Seq<T>, c: Seq<T>, m1: Seq<T>, m2: Seq<T>)
    requires
        appends(a, b, m1),
        appends(b, c, m2),
    ensures
        appends(a, c, m1 + m2),
{
    let more = m1 + m2;
    assert(c.take(a.len() as int) =~= c.take(b.len() as int).take(a.len() as int));
    assert forall|i: int| #![trigger more[i]] 0 <= i < more.len() implies cloned(
        more[i],
        c[a.len() + i],
    ) by {
        if i < m1.len() {
            assert(more[i] == m1[i]);
            assert(c.take(b.len() as int)[a.len() + i] == b[a.len() + i]);
        } else {
            assert(more[i] == m2[i - m1.len()]);
        }
    }
}

/// A lookup that faults within a prefix faults there in the whole; one that
/// does not goes on with what follows.
proof fn lemma_lookup_push<T>(values: Seq<nat>, v: nat, dict: Seq<T>)
    requires
        lookup_values(values, dict).fault is None,
    ensures
        lookup_values(values.push(v), dict).fault == (if v >= dict.len() {
            Some(outside(v, dict.len()))
        } else {
            None
        }),
        lookup_values(values.push(v), dict).emitted == (if v >= dict.len() {
            lookup_values(values, dict).emitted
        } else {
            lookup_values(values, dict).emitted.push(dict[v as int])
        }),
{
    let all = values.push(v);
    lemma_first_outside(values, dict.len(), 0);
    lemma_first_outside(all, dict.len(), 0);
    let good = first_outside(all, dict.len(), 0);
    if good < values.len() {
        assert(all[good as int] == values[good as int]);
    }
    if v >= dict.len() {
        assert(good == values.len()) by {
            if good > values.len() {
                assert(all[values.len() as int] == v);
            }
        }
        assert(lookup_values(all, dict).emitted =~= lookup_values(values, dict).emitted);
    } else {
        assert(good == all.len());
        assert(lookup_values(all, dict).emitted =~= lookup_values(values, dict).emitted.push(
            dict[v as int],
        ));
    }
}

proof fn lemma_lookup_prefix<T>(values: Seq<nat>, all: Seq<nat>, dict: Seq<T>)
    requires
        values.is_prefix_of(all),
        lookup_values(values, dict).fault is Some,
    ensures
        lookup_values(all, dict) == lookup_values(values, dict),
{
    lemma_first_outside(values, dict.len(), 0);
    lemma_first_outside(all, dict.len(), 0);
    let k = first_outside(values, dict.len(), 0);
    let good = first_outside(all, dict.len(), 0);
    assert(values =~= all.take(values.len() as int));
    assert(forall|i: int| 0 <= i < values.len() ==> values[i] == all[i]);
    if good < k {
        assert(all[good as int] == values[good as int]);
    }
    if good > k {
        assert(all[k as int] == values[k as int]);
    }
    assert(lookup_values(all, dict).emitted =~= lookup_values(values, dict).emitted);
}

proof fn lemma_selected_prefix(values: Seq<nat>, k: int, bitmap: Seq<u8>, first: nat)
    requires
        0 <= k <= values.len(),
    ensures
        selected(values.take(k), bitmap, first).is_prefix_of(selected(values, bitmap, first)),
    decreases values.len(),
{
    if k == values.len() {
        assert(values.take(k) =~= values);
    } else {
        lemma_selected_prefix(values.drop_last(), k, bitmap, first);
        assert(values.drop_last().take(k) =~= values.take(k));
    }
}

/// Eight rows under an empty byte select nothing.
proof fn lemma_selected_empty_byte(values: Seq<nat>, k: nat, j: nat, bitmap: Seq<u8>, first: nat)
    requires
        j <= 8,
        k + j <= values.len(),
        (first + k) % 8 == 0,
        bitmap[(first + k) as int / 8] == 0,
    ensures
        selected(values.take((k + j) as int), bitmap, first) == selected(
            values.take(k as int),
            bitmap,
            first,
        ),
    decreases j,
{
    if j > 0 {
        let i: nat = (first + k + j - 1) as nat;
        lemma_selected_empty_byte(values, k, (j - 1) as nat, bitmap, first);
        assert(i / 8 == (first + k) / 8);
        lemma_byte_plain(i % 8);
        assert(values.take((k + j) as int).drop_last() =~= values.take((k + j - 1) as int));
    }
}

/// How many bits of `[start, end)` are set.
pub open spec fn count_bits(bitmap: Seq<u8>, start: nat, end: nat) -> nat
    decreases end,
{
    if start >= end {
        0
    } else {
        count_bits(bitmap, start, (end - 1) as nat) + bit(bitmap, (end - 1) as nat)
    }
}

pub proof fn lemma_count_bits_bound(bitmap: Seq<u8>, start: nat, end: nat)
    ensures
        start <= end ==> count_bits(bitmap, start, end) <= end - start,
    decreases end,
{
    if start < end {
        lemma_count_bits_bound(bitmap, start, (end - 1) as nat);
    }
}

proof fn lemma_selected_repeat(value: nat, count: nat, bitmap: Seq<u8>, first: nat)
    ensures
        selected(repeat_run(value, count).values, bitmap, first) == repeat_run(
            value,
            count_bits(bitmap, first, first + count),
        ).values,
    decreases count,
{
    let values = repeat_run(value, count).values;
    if count == 0 {
        assert(selected(values, bitmap, first) =~= repeat_run(
            value,
            count_bits(bitmap, first, first + count),
        ).values);
    } else {
        lemma_selected_repeat(value, (count - 1) as nat, bitmap, first);
        assert(values.drop_last() =~= repeat_run(value, (count - 1) as nat).values);
        assert(selected(values, bitmap, first) =~= repeat_run(
            value,
            count_bits(bitmap, first, first + count),
        ).values);
    }
}

/// Counts the set bits of `[start_bit, end_bit)`.
pub fn popcount_range(bitmap: &[u8], start_bit: usize, end_bit: usize) -> (n: usize)
    requires
        start_bit < end_bit ==> end_bit <= 8 * bitmap@.len(),
    ensures
        n == count_bits(bitmap@, start_bit as nat, end_bit as nat),
{
    if start_bit >= end_bit {
        return 0;
    }
    let mut total: usize = 0;
    let mut k: usize = start_bit;
    while k < end_bit
        invariant
            start_bit <= k <= end_bit <= 8 * bitmap@.len(),
            total == count_bits(bitmap@, start_bit as nat, k as nat),
        decreases end_bit - k,
    {
        proof {
            lemma_count_bits_bound(bitmap@, start_bit as nat, k as nat);
        }
        if get_bit(bitmap, k) {
            total = total + 1;
        }
        k = k + 1;
    }
    total
}

/// Appends the dictionary values of the selected rows of a packed run; row 0
/// belongs to bit `first`.
fn gather_packed<T: Clone>(
    chunk: &[u8],
    count: usize,
    bit_width: u8,
    bitmap: &[u8],
    first: usize,
    dict: &[T],
    out: &mut Vec<T>,
) -> (r: Result<()>)
    requires
        bit_width <= 32,
        packed_len(count as nat, bit_width as nat) <= chunk@.len(),
        covers_rows(
            bitmap@,
            first as nat,
            rows_reached(
                unpacked(chunk@, bit_width as nat, count as nat),
                bitmap@,
                first as nat,
                dict@.len(),
                0,
            ),
        ),
    ensures
        ({
            let o = lookup_values(
                selected(
                    unpacked(chunk@, bit_width as nat, count as nat),
                    bitmap@,
                    first as nat,
                ),
                dict@,
            );
            reports(r, o.fault) && appends(old(out)@, final(out)@, o.emitted)
        }),
{
    let ghost values = unpacked(chunk@, bit_width as nat, count as nat);
    let ghost chosen = selected(values, bitmap@, first as nat);
    let ghost start = out@;
    let ghost reached = rows_reached(values, bitmap@, first as nat, dict@.len(), 0);
    let dict_size: usize = dict.len();
    let chunk_len: usize = chunk.len();
    let mut k: usize = 0;
    let mut at = BitPos::start();
    let ghost mut so_far = lookup_values(selected(values.take(0), bitmap@, first as nat), dict@);
    proof {
        assert(out@.take(start.len() as int) =~= start);
    }
    while k < count
        invariant
            k <= count,
            bit_width <= 32,
            packed_len(count as nat, bit_width as nat) <= chunk@.len(),
            chunk_len == chunk@.len(),
            dict_size == dict@.len(),
            at.wf(),
            at.bit() == k * bit_width,
            covers_rows(bitmap@, first as nat, reached),
            reached == rows_reached(values, bitmap@, first as nat, dict@.len(), k as nat),
            values == unpacked(chunk@, bit_width as nat, count as nat),
            chosen == selected(values, bitmap@, first as nat),
            start == old(out)@,
            so_far == lookup_values(selected(values.take(k as int), bitmap@, first as nat), dict@),
            so_far.fault is None,
            appends(start, out@, so_far.emitted),
        decreases count - k,
    {
        proof {
            lemma_reached_bounds(values, bitmap@, first as nat, dict@.len(), k as nat);
        }
        let bit_pos: usize = first + k;
        if bit_pos % 8 == 0 && count - k >= 8 && bitmap[bit_pos / 8] == 0 {
            proof {
                lemma_selected_empty_byte(values, k as nat, 8, bitmap@, first as nat);
                lemma_reached_empty_byte(
                    values,
                    k as nat,
                    8,
                    bitmap@,
                    first as nat,
                    dict@.len(),
                );
                lemma_field_inside(
                    chunk@.len(),
                    bit_width as nat,
                    count as nat,
                    (k + 7) as nat,
                );
                assert((k + 8) * bit_width == k * bit_width + 8 * bit_width) by (nonlinear_arith);
                assert((k + 7) * bit_width == k * bit_width + 7 * bit_width) by (nonlinear_arith);
            }
            at = BitPos { byte: at.byte + bit_width as usize, shift: at.shift };
            k = k + 8;
            continue ;
        }
        proof {
            lemma_field_inside(chunk@.len(), bit_width as nat, count as nat, k as nat);
            assert(values[k as int] == field(chunk@, at.bit(), bit_width as nat));
            assert(values.take(k + 1).drop_last() =~= values.take(k as int));
        }
        if get_bit(bitmap, bit_pos) {
            let idx: u32 = read_field(chunk, &at, bit_width as u32);
            let ghost sel = selected(values.take(k as int), bitmap@, first as nat);
            proof {
                lemma_lookup_push(sel, idx as nat, dict@);
                lemma_selected_prefix(values, k + 1, bitmap@, first as nat);
                assert(selected(values.take(k + 1), bitmap@, first as nat) == sel.push(
                    idx as nat,
                ));
                if idx >= dict_size {
                    lemma_lookup_prefix(sel.push(idx as nat), chosen, dict@);
                }
            }
            if idx as usize >= dict_size {
                return Err(CodecError::DictIndexOutOfRange { index: idx, dict_size });
            }
            let v: T = dict[idx as usize].clone();
            let ghost before = out@;
            out.push(v);
            proof {
                let item = dict@[idx as int];
                assert(out@.take(before.len() as int) =~= before);
                assert(appends(before, out@, seq![item]));
                lemma_appends_step(start, before, out@, so_far.emitted, seq![item]);
                assert(so_far.emitted + seq![item] =~= so_far.emitted.push(item));
                so_far = lookup_values(sel.push(idx as nat), dict@);
            }
        }
        at.advance(bit_width);
        proof {
            assert((k + 1) * bit_width == k * bit_width + bit_width) by (nonlinear_arith);
        }
        k = k + 1;
    }
    proof {
        assert(values.take(count as int) =~= values);
    }
    Ok(())
}

/// Appends clones of `dict[index]`, `count` of them.
fn push_clones<T: Clone>(dict: &[T], index: usize, count: usize, out: &mut Vec<T>)
    requires
        index < dict@.len(),
    ensures
        lookup_values(repeat_run(index as nat, count as nat).values, dict@).fault is None,
        appends(
            old(out)@,
            final(out)@,
            lookup_values(repeat_run(index as nat, count as nat).values, dict@).emitted,
        ),
{
    let ghost start = out@;
    let ghost values = repeat_run(index as nat, count as nat).values;
    let ghost item = dict@[index as int];
    proof {
        lemma_none_outside(values, dict@.len());
        assert(out@.take(start.len() as int) =~= start);
    }
    let mut i: usize = 0;
    while i < count
        invariant
            i <= count,
            index < dict@.len(),
            item == dict@[index as int],
            appends(start, out@, Seq::new(i as nat, |k: int| item)),
        decreases count - i,
    {
        let v: T = dict[index].clone();
        let ghost before = out@;
        out.push(v);
        proof {
            assert(out@.take(before.len() as int) =~= before);
            assert(appends(before, out@, seq![item]));
            let so_far = Seq::new(i as nat, |k: int| item);
            lemma_appends_step(start, before, out@, so_far, seq![item]);
            assert(so_far + seq![item] =~= Seq::new((i + 1) as nat, |k: int| item));
        }
        i = i + 1;
    }
    proof {
        assert(lookup_values(values, dict@).emitted =~= Seq::new(count as nat, |k: int| item));
    }
}

/// All rows of a repeated index inside the dictionary are reached.
proof fn lemma_reached_repeat<T>(
    value: nat,
    count: nat,
    bitmap: Seq<u8>,
    first: nat,
    dict: Seq<T>,
)
    requires
        value < dict.len(),
    ensures
        rows_reached(repeat_run(value, count).values, bitmap, first, dict.len(), 0) == count,
{
    let values = repeat_run(value, count).values;
    let chosen = selected(values, bitmap, first);
    lemma_selected_repeat(value, count, bitmap, first);
    lemma_none_outside(chosen, dict.len());
    lemma_reached_all(values, bitmap, first, dict, 0);
}

/// Appends clones of the dictionary values of the rows of a page that a
/// bitmap selects. Row 0 of the page belongs to bit `bitmap_offset`.
///
/// Where the page is faulty, the values before the fault have been appended.
pub fn gather_dict_at_bitmap_into<T: Clone>(
    body: &[u8],
    num_values: usize,
    bitmap: &[u8],
    bitmap_offset: usize,
    dict: &[T],
    out: &mut Vec<T>,
) -> (r: Result<()>)
    requires
        covers_rows(
            bitmap@,
            bitmap_offset as nat,
            page_reached(
                body@,
                num_values as nat,
                bitmap@,
                bitmap_offset as nat,
                dict@,
            ),
        ),
    ensures
        ({
            let o = page_gather(
                body@,
                num_values as nat,
                bitmap@,
                bitmap_offset as nat,
                dict@,
            );
            reports(r, o.fault) && appends(old(out)@, final(out)@, o.emitted)
        }),
{
    let ghost n = num_values as nat;
    let ghost step = step_gather(bitmap@, bitmap_offset as nat, dict@);
    let ghost reach = step_reach(bitmap@, bitmap_offset as nat, dict@);
    let ghost whole = page_gather(body@, n, bitmap@, bitmap_offset as nat, dict@);
    let ghost start = out@;
    proof {
        assert(out@.take(start.len() as int) =~= start);
    }
    if body.len() == 0 {
        return Err(CodecError::EmptyDictPageBody);
    }
    let bit_width: u8 = body[0];
    if bit_width > 32 {
        return Err(CodecError::BitWidthOutOfRange(bit_width));
    }
    if num_values == 0 {
        return Ok(());
    }
    let dict_size: usize = dict.len();
    if bit_width == 0 {
        if dict_size == 0 {
            return Err(CodecError::DictIndexOutOfRange { index: 0, dict_size: 0 });
        }
        proof {
            lemma_selected_repeat(0, n, bitmap@, bitmap_offset as nat);
            lemma_reached_repeat(0, n, bitmap@, bitmap_offset as nat, dict@);
        }
        let matched: usize = popcount_range(bitmap, bitmap_offset, bitmap_offset + num_values);
        push_clones(dict, 0, matched, out);
        return Ok(());
    }
    let tail = vstd::slice::slice_subrange(body, 1, body.len());
    let mut cur = Cursor::new(tail);
    let ghost w = bit_width as nat;
    let ghost mut done: Seq<T> = Seq::empty();
    let mut row: usize = 0;
    proof {
        assert(tail@ == body@.skip(1));
        assert(whole.emitted =~= done + whole.emitted);
    }
    while row < num_values
        invariant
            1 <= bit_width <= 32,
            w == bit_width,
            n == num_values,
            dict_size == dict@.len(),
            cur.bytes() == tail@,
            row <= num_values,
            reach == step_reach(bitmap@, bitmap_offset as nat, dict@),
            covers_rows(
                bitmap@,
                bitmap_offset as nat,
                row as nat + walk(tail@, cur.at(), w, row as nat, n, reach).emitted.len(),
            ),
            start == old(out)@,
            step == step_gather(bitmap@, bitmap_offset as nat, dict@),
            appends(start, out@, done),
            whole == page_gather(body@, n, bitmap@, bitmap_offset as nat, dict@),
            whole == walk(tail@, cur.at(), w, row as nat, n, step).after(done),
        decreases tail@.len() - cur.at(),
    {
        let need: usize = num_values - row;
        proof {
            lemma_next_run(tail@, cur.at(), w, need as nat);
        }
        let run_body = match read_run(&mut cur, bit_width, need) {
            Ok(b) => b,
            Err(e) => {
                proof {
                    assert(done =~= whole.emitted);
                }
                return Err(CodecError::Wire(e));
            },
        };
        let ghost run = run_body.run(w);
        let ghost first = gather_run(run, bitmap@, (bitmap_offset + row) as nat, dict@);
        let ghost before = out@;
        proof {
            lemma_reached_bounds(
                run.values,
                bitmap@,
                (bitmap_offset + row) as nat,
                dict@.len(),
                0,
            );
            if first.fault is None {
                lemma_reached_all(
                    run.values,
                    bitmap@,
                    (bitmap_offset + row) as nat,
                    dict@,
                    0,
                );
                assert(run.values.take(run.values.len() as int) =~= run.values);
            }
        }
        match run_body {
            RunBody::Packed { chunk, count } => {
                let gathered = gather_packed(
                    chunk,
                    count,
                    bit_width,
                    bitmap,
                    bitmap_offset + row,
                    dict,
                    out,
                );
                proof {
                    lemma_appends_step(start, before, out@, done, first.emitted);
                }
                if gathered.is_err() {
                    return gathered;
                }
                row = row + count;
            },
            RunBody::Repeat { value, count } => {
                if value >= dict_size as u64 {
                    proof {
                        assert(done =~= whole.emitted);
                    }
                    return Err(
                        CodecError::DictIndexOutOfRange { index: value as u32, dict_size },
                    );
                }
                proof {
                    lemma_selected_repeat(
                        value as nat,
                        count as nat,
                        bitmap@,
                        (bitmap_offset + row) as nat,
                    );
                    lemma_reached_repeat(
                        value as nat,
                        count as nat,
                        bitmap@,
                        (bitmap_offset + row) as nat,
                        dict@,
                    );
                }
                let matched: usize = popcount_range(
                    bitmap,
                    bitmap_offset + row,
                    bitmap_offset + row + count,
                );
                push_clones(dict, value as usize, matched, out);
                proof {
                    lemma_appends_step(start, before, out@, done, first.emitted);
                }
                row = row + count;
            },
        }
        proof {
            let rest = walk(tail@, cur.at(), w, row as nat, n, step);
            assert((done + first.emitted) + rest.emitted =~= done + (first.emitted
                + rest.emitted));
            done = done + first.emitted;
        }
    }
    proof {
        assert(whole.emitted =~= done);
    }
    Ok(())
}

/// The mask of a dictionary under a predicate: one byte per index of
/// `bit_width` bits, one where the predicate accepts the entry, zero
/// elsewhere and beyond the dictionary.
///
/// `bit_width` is the width that the data pages of the chunk carry.
pub fn build_dict_predicate_mask<T, P: Fn(&T) -> bool>(
    dict: &[T],
    bit_width: u8,
    pred: P,
) -> (r: Result<Vec<u8>>)
    requires
        bit_width < usize::BITS || bit_width > 32,
        forall|i: int| 0 <= i < dict@.len() ==> call_requires(pred, (&#[trigger] dict@[i],)),
    ensures
        bit_width == 0 || bit_width > 32 ==> reports(r, Some(Fault::BitWidthOutOfRange(bit_width))),
        1 <= bit_width <= 32 && dict@.len() > pow2(bit_width as nat) ==> reports(
            r,
            Some(
                Fault::Decompress(
                    "dict has "@ + dec(dict@.len()) + " entries, exceeds bit_width="@ + dec(
                        bit_width as nat,
                    ) + " addressable space ("@ + dec(pow2(bit_width as nat)) + ")"@,
                ),
            ),
        ),
        1 <= bit_width <= 32 && dict@.len() <= pow2(bit_width as nat) ==> {
            &&& r is Ok
            &&& r->Ok_0@.len() == pow2(bit_width as nat)
            &&& is_mask(r->Ok_0@)
            &&& forall|i: int|
                0 <= i < dict@.len() ==> call_ensures(
                    pred,
                    (&dict@[i],),
                    #[trigger] r->Ok_0@[i] == 1,
                )
            &&& forall|i: int|
                dict@.len() <= i < r->Ok_0@.len() ==> #[trigger] r->Ok_0@[i] == 0
        },
{
    if bit_width > 32 || bit_width == 0 {
        return Err(CodecError::BitWidthOutOfRange(bit_width));
    }
    proof {
        lemma2_to64();
        if bit_width < 32 {
            lemma_pow2_strictly_increases(bit_width as nat, 32);
        }
        vstd::bits::lemma_usize_shl_is_mul(1, bit_width as usize);
    }
    let len: usize = 1usize << bit_width;
    if dict.len() > len {
        return Err(
            CodecError::Decompress(
                text3(
                    "dict has ",
                    dict.len() as u128,
                    " entries, exceeds bit_width=",
                    bit_width as u128,
                    " addressable space (",
                    len as u128,
                    ")",
                ),
            ),
        );
    }
    let mut mask: Vec<u8> = vec![0u8; len];
    let mut k: usize = 0;
    while k < dict.len()
        invariant
            k <= dict@.len() <= len,
            mask@.len() == len,
            forall|i: int| 0 <= i < dict@.len() ==> call_requires(pred, (&#[trigger] dict@[i],)),
            forall|i: int| 0 <= i < len ==> #[trigger] mask@[i] <= 1,
            forall|i: int|
                0 <= i < k ==> call_ensures(pred, (&dict@[i],), #[trigger] mask@[i] == 1),
            forall|i: int| k <= i < len ==> #[trigger] mask@[i] == 0,
        decreases dict@.len() - k,
    {
        let accepted: bool = pred(&dict[k]);
        if accepted {
            mask.set(k, 1);
        }
        k = k + 1;
    }
    Ok(mask)
}

proof fn lemma_walk_lookup<T>(
    bytes: Seq<u8>,
    pos: nat,
    width: nat,
    row: nat,
    total: nat,
    dict: Seq<T>,
)
    requires
        walk(bytes, pos, width, row, total, step_lookup(dict)).fault is None,
    ensures
        ({
            let indices = walk(bytes, pos, width, row, total, step_values());
            &&& indices.fault is None
            &&& forall|i: int|
                0 <= i < indices.emitted.len() ==> #[trigger] indices.emitted[i] < dict.len()
            &&& walk(bytes, pos, width, row, total, step_lookup(dict)).emitted
                == indices.emitted.map_values(|v: nat| dict[v as int])
        }),
    decreases bytes.len() - pos,
{
    let looked = walk(bytes, pos, width, row, total, step_lookup(dict));
    let indices = walk(bytes, pos, width, row, total, step_values());
    if row < total {
        lemma_next_run(bytes, pos, width, (total - row) as nat);
        if let Ok((run, next)) = next_run(bytes, pos, width, (total - row) as nat) {
            lemma_first_outside(run.values, dict.len(), 0);
            assert(lookup_run(run, dict).fault is None);
            lemma_walk_lookup(bytes, next, width, row + run.values.len(), total, dict);
            let rest = walk(bytes, next, width, row + run.values.len(), total, step_values());
            assert forall|i: int| 0 <= i < indices.emitted.len() implies #[trigger] indices.emitted[i]
                < dict.len() by {
                if i >= run.values.len() {
                    assert(indices.emitted[i] == rest.emitted[i - run.values.len()]);
                }
            }
            assert(looked.emitted =~= indices.emitted.map_values(|v: nat| dict[v as int]));
        }
    } else {
        assert(looked.emitted =~= indices.emitted.map_values(|v: nat| dict[v as int]));
    }
}

/// Decoding a page straight into values gives what decoding its indices and
/// looking them up gives.
pub proof fn law_fused_decode_is_lookup<T>(body: Seq<u8>, num_values: nat, dict: Seq<T>)
    requires
        page_lookup(body, num_values, dict).fault is None,
    ensures
        page_indices(body, num_values).fault is None,
        lookup_values(page_indices(body, num_values).emitted, dict).fault is None,
        page_lookup(body, num_values, dict).emitted == lookup_values(
            page_indices(body, num_values).emitted,
            dict,
        ).emitted,
{
    let indices = page_indices(body, num_values);
    let looked = page_lookup(body, num_values, dict);
    if num_values > 0 {
        if body[0] == 0 {
            lemma_none_outside(indices.emitted, dict.len());
        } else {
            lemma_walk_lookup(body.skip(1), 0, body[0] as nat, 0, num_values, dict);
            lemma_none_outside(indices.emitted, dict.len());
        }
    }
    lemma_first_outside(indices.emitted, dict.len(), 0);
    assert(looked.emitted =~= lookup_values(indices.emitted, dict).emitted);
}

/// A page without fault hands out exactly the rows asked for.
pub proof fn law_page_row_count(body: Seq<u8>, num_values: nat)
    requires
        page_indices(body, num_values).fault is None,
    ensures
        page_indices(body, num_values).emitted.len() == num_values,
{
    if num_values > 0 && body[0] != 0 {
        lemma_walk_len(body.skip(1), 0, body[0] as nat, 0, num_values);
    }
}

proof fn lemma_walk_len(bytes: Seq<u8>, pos: nat, width: nat, row: nat, total: nat)
    requires
        row <= total,
        walk(bytes, pos, width, row, total, step_values()).fault is None,
    ensures
        walk(bytes, pos, width, row, total, step_values()).emitted.len() == total - row,
    decreases bytes.len() - pos,
{
    if row < total {
        lemma_next_run(bytes, pos, width, (total - row) as nat);
        if let Ok((run, next)) = next_run(bytes, pos, width, (total - row) as nat) {
            lemma_walk_len(bytes, next, width, row + run.values.len(), total);
        }
    }
}

proof fn lemma_walk_mask(
    bytes: Seq<u8>,
    pos: nat,
    width: nat,
    row: nat,
    total: nat,
    mask: Seq<u8>,
    limit: nat,
)
    requires
        walk(bytes, pos, width, row, total, step_mask(mask, limit)).fault is None,
    ensures
        walk(bytes, pos, width, row, total, step_values()).fault is None,
        walk(bytes, pos, width, row, total, step_mask(mask, limit)).emitted == walk(
            bytes,
            pos,
            width,
            row,
            total,
            step_values(),
        ).emitted.map_values(|v: nat| mask[v as int] != 0),
    decreases bytes.len() - pos,
{
    let masked = walk(bytes, pos, width, row, total, step_mask(mask, limit));
    let indices = walk(bytes, pos, width, row, total, step_values());
    if row < total {
        lemma_next_run(bytes, pos, width, (total - row) as nat);
        if let Ok((run, next)) = next_run(bytes, pos, width, (total - row) as nat) {
            lemma_walk_mask(bytes, next, width, row + run.values.len(), total, mask, limit);
            assert(masked.emitted =~= indices.emitted.map_values(|v: nat| mask[v as int] != 0));
        }
    } else {
        assert(masked.emitted =~= indices.emitted.map_values(|v: nat| mask[v as int] != 0));
    }
}

/// Bit `i` of a page's predicate bitmap is what the mask says of the index
/// of row `i`.
pub proof fn law_bitmap_is_mask_of_indices(body: Seq<u8>, num_values: nat, mask: Seq<u8>)
    requires
        mask_refusal(body, mask) is None,
        page_mask(body, num_values, mask).fault is None,
    ensures
        page_indices(body, num_values).fault is None,
        page_mask(body, num_values, mask).emitted == page_indices(
            body,
            num_values,
        ).emitted.map_values(|v: nat| mask[v as int] != 0),
{
    let indices = page_indices(body, num_values);
    let masked = page_mask(body, num_values, mask);
    if num_values > 0 && body[0] != 0 {
        lemma_walk_mask(
            body.skip(1),
            0,
            body[0] as nat,
            0,
            num_values,
            mask,
            pow2(body[0] as nat),
        );
    }
    assert(masked.emitted =~= indices.emitted.map_values(|v: nat| mask[v as int] != 0));
}

proof fn lemma_selected_concat<T>(a: Seq<T>, b: Seq<T>, bitmap: Seq<u8>, first: nat)
    ensures
        selected(a + b, bitmap, first) == selected(a, bitmap, first) + selected(
            b,
            bitmap,
            first + a.len(),
        ),
    decreases b.len(),
{
    if b.len() == 0 {
        assert(a + b =~= a);
        assert(selected(a, bitmap, first) + selected(b, bitmap, first + a.len()) =~= selected(
            a,
            bitmap,
            first,
        ));
    } else {
        lemma_selected_concat(a, b.drop_last(), bitmap, first);
        assert((a + b).drop_last() =~= a + b.drop_last());
        assert(selected(a + b, bitmap, first) =~= selected(a, bitmap, first) + selected(
            b,
            bitmap,
            first + a.len(),
        ));
    }
}

/// Selecting rows and looking their indices up is looking all up and
/// selecting.
proof fn lemma_selected_lookup<T>(values: Seq<nat>, bitmap: Seq<u8>, first: nat, dict: Seq<T>)
    requires
        lookup_values(values, dict).fault is None,
    ensures
        lookup_values(selected(values, bitmap, first), dict).fault is None,
        lookup_values(selected(values, bitmap, first), dict).emitted == selected(
            lookup_values(values, dict).emitted,
            bitmap,
            first,
        ),
    decreases values.len(),
{
    lemma_first_outside(values, dict.len(), 0);
    let all = lookup_values(values, dict).emitted;
    if values.len() == 0 {
        assert(lookup_values(selected(values, bitmap, first), dict).emitted =~= selected(
            all,
            bitmap,
            first,
        ));
    } else {
        lemma_none_outside(values.drop_last(), dict.len());
        lemma_selected_lookup(values.drop_last(), bitmap, first, dict);
        assert(all.drop_last() =~= lookup_values(values.drop_last(), dict).emitted);
        lemma_lookup_push(
            selected(values.drop_last(), bitmap, first),
            values.last(),
            dict,
        );
    }
}

proof fn lemma_walk_gather<T>(
    bytes: Seq<u8>,
    pos: nat,
    width: nat,
    row: nat,
    total: nat,
    bitmap: Seq<u8>,
    offset: nat,
    dict: Seq<T>,
)
    requires
        walk(bytes, pos, width, row, total, step_lookup(dict)).fault is None,
    ensures
        walk(bytes, pos, width, row, total, step_gather(bitmap, offset, dict)).fault is None,
        walk(bytes, pos, width, row, total, step_gather(bitmap, offset, dict)).emitted == selected(
            walk(bytes, pos, width, row, total, step_lookup(dict)).emitted,
            bitmap,
            offset + row,
        ),
    decreases bytes.len() - pos,
{
    if row < total {
        lemma_next_run(bytes, pos, width, (total - row) as nat);
        if let Ok((run, next)) = next_run(bytes, pos, width, (total - row) as nat) {
            let first = lookup_run(run, dict);
            lemma_first_outside(run.values, dict.len(), 0);
            lemma_selected_lookup(run.values, bitmap, offset + row, dict);
            lemma_walk_gather(
                bytes,
                next,
                width,
                row + run.values.len(),
                total,
                bitmap,
                offset,
                dict,
            );
            let rest = walk(
                bytes,
                next,
                width,
                row + run.values.len(),
                total,
                step_lookup(dict),
            );
            lemma_selected_concat(first.emitted, rest.emitted, bitmap, offset + row);
        }
    }
}

/// Gathering the rows that a bitmap selects gives what decoding the whole
/// page and keeping the selected rows gives.
pub proof fn law_gather_is_selection<T>(
    body: Seq<u8>,
    num_values: nat,
    bitmap: Seq<u8>,
    offset: nat,
    dict: Seq<T>,
)
    requires
        page_lookup(body, num_values, dict).fault is None,
    ensures
        page_gather(body, num_values, bitmap, offset, dict).fault is None,
        page_gather(body, num_values, bitmap, offset, dict).emitted == selected(
            page_lookup(body, num_values, dict).emitted,
            bitmap,
            offset,
        ),
{
    if num_values > 0 {
        if body[0] == 0 {
            lemma_selected_lookup(repeat_run(0, num_values).values, bitmap, offset, dict);
        } else {
            lemma_walk_gather(
                body.skip(1),
                0,
                body[0] as nat,
                0,
                num_values,
                bitmap,
                offset,
                dict,
            );
        }
    }
}

/// Where the mask of a dictionary goes by a predicate, the bits of a page go
/// by the predicate of its values: filtering before the lookup is filtering
/// after it.
pub proof fn law_fused_filter_is_filter_of_values<T>(
    body: Seq<u8>,
    num_values: nat,
    dict: Seq<T>,
    mask: Seq<u8>,
    accepts: spec_fn(T) -> bool,
)
    requires
        mask_refusal(body, mask) is None,
        page_mask(body, num_values, mask).fault is None,
        page_lookup(body, num_values, dict).fault is None,
        forall|v: int| 0 <= v < dict.len() ==> (#[trigger] mask[v] != 0) == accepts(dict[v]),
    ensures
        page_mask(body, num_values, mask).emitted == page_lookup(
            body,
            num_values,
            dict,
        ).emitted.map_values(accepts),
{
    law_bitmap_is_mask_of_indices(body, num_values, mask);
    law_fused_decode_is_lookup(body, num_values, dict);
    let indices = page_indices(body, num_values).emitted;
    let values = page_lookup(body, num_values, dict).emitted;
    let rows = page_mask(body, num_values, mask).emitted;
    lemma_first_outside(indices, dict.len(), 0);
    assert forall|i: int| 0 <= i < rows.len() implies rows[i] == values.map_values(accepts)[i] by {
        assert(indices[i] < dict.len());
        assert(rows[i] == (mask[indices[i] as int] != 0));
        assert(values[i] == dict[indices[i] as int]);
    }
    assert(rows =~= values.map_values(accepts));
}

/// As many values are selected as bits are set.
pub proof fn law_selection_counts_bits<T>(values: Seq<T>, bitmap: Seq<u8>, first: nat)
    ensures
        selected(values, bitmap, first).len() == count_bits(bitmap, first, first + values.len()),
    decreases values.len(),
{
    if values.len() > 0 {
        law_selection_counts_bits(values.drop_last(), bitmap, first);
    }
}

/// What a page and a mask append is determined: two decoders that both do so
/// fail alike and leave the same bytes, whatever runs the page is made of.
pub proof fn law_appended_bitmap_is_determined(
    r1: Result<()>,
    r2: Result<()>,
    before: Seq<u8>,
    after1: Seq<u8>,
    after2: Seq<u8>,
    body: Seq<u8>,
    num_values: nat,
    mask: Seq<u8>,
)
    requires
        appends_bitmap(r1, before, after1, body, num_values, mask),
        appends_bitmap(r2, before, after2, body, num_values, mask),
    ensures
        after1 == after2,
        r1 is Ok == r2 is Ok,
        r1 is Err ==> r1->Err_0@ == r2->Err_0@,
{
    if mask_refusal(body, mask) is None {
        let n = before.len() as int;
        let rows = page_mask(body, num_values, mask).emitted;
        let (a, b) = (after1.skip(n), after2.skip(n));
        let bits = Seq::new(8 * a.len(), |i: int| i < rows.len() && rows[i]);
        lemma_pack_unique(a, bits);
        lemma_pack_unique(b, bits);
        assert(after1 =~= after1.take(n) + a);
        assert(after2 =~= after2.take(n) + b);
    }
}

/// The runs of a page.
pub open spec fn page_runs(body: Seq<u8>, num_values: nat) -> Seq<Run> {
    page(body, num_values, step_runs()).emitted
}

pub open spec fn step_runs() -> spec_fn(Run, nat) -> Outcome<Run> {
    |run: Run, row: nat| Outcome { emitted: seq![run], fault: None }
}

/// That every index that a run repeats, though it be zero times, is below a
/// limit.
pub open spec fn repeats_below(runs: Seq<Run>, limit: nat) -> bool {
    forall|k: int| 0 <= k < runs.len() && (#[trigger] runs[k]).repeated ==> runs[k].value < limit
}

proof fn lemma_walk_readable<T>(
    bytes: Seq<u8>,
    pos: nat,
    width: nat,
    row: nat,
    total: nat,
    dict: Seq<T>,
)
    requires
        walk(bytes, pos, width, row, total, step_values()).fault is None,
        forall|i: int|
            0 <= i < walk(bytes, pos, width, row, total, step_values()).emitted.len()
                ==> #[trigger] walk(bytes, pos, width, row, total, step_values()).emitted[i]
                < dict.len(),
        repeats_below(walk(bytes, pos, width, row, total, step_runs()).emitted, dict.len()),
    ensures
        walk(bytes, pos, width, row, total, step_lookup(dict)).fault is None,
    decreases bytes.len() - pos,
{
    if row < total {
        lemma_next_run(bytes, pos, width, (total - row) as nat);
        let (run, next) = next_run(bytes, pos, width, (total - row) as nat)->Ok_0;
        let rest = walk(bytes, next, width, row + run.values.len(), total, step_values()).emitted;
        let all = walk(bytes, pos, width, row, total, step_values()).emitted;
        let later = walk(bytes, next, width, row + run.values.len(), total, step_runs()).emitted;
        let runs = walk(bytes, pos, width, row, total, step_runs()).emitted;
        assert(all == run.values + rest);
        assert(runs == seq![run] + later);
        assert(runs[0] == run);
        assert forall|i: int| 0 <= i < run.values.len() implies run.values[i] < dict.len() by {
            assert(all[i] == run.values[i]);
        }
        assert forall|i: int| 0 <= i < rest.len() implies #[trigger] rest[i] < dict.len() by {
            assert(all[run.values.len() + i] == rest[i]);
        }
        assert forall|k: int| 0 <= k < later.len() && (#[trigger] later[k]).repeated implies later[k].value
            < dict.len() by {
            assert(runs[k + 1] == later[k]);
        }
        lemma_none_outside(run.values, dict.len());
        lemma_walk_readable(bytes, next, width, row + run.values.len(), total, dict);
    }
}

/// A page whose indices can be read and lie in the dictionary is decoded
/// into the dictionary's values, row by row.
pub proof fn law_readable_page_is_looked_up<T>(body: Seq<u8>, num_values: nat, dict: Seq<T>)
    requires
        page_indices(body, num_values).fault is None,
        forall|i: int|
            0 <= i < page_indices(body, num_values).emitted.len() ==> #[trigger] page_indices(
                body,
                num_values,
            ).emitted[i] < dict.len(),
        repeats_below(page_runs(body, num_values), dict.len()),
    ensures
        page_lookup(body, num_values, dict).fault is None,
        page_lookup(body, num_values, dict).emitted == page_indices(
            body,
            num_values,
        ).emitted.map_values(|v: nat| dict[v as int]),
{
    if num_values > 0 {
        if body[0] == 0 {
            assert(page_runs(body, num_values)[0] == repeat_run(0, num_values));
            lemma_none_outside(repeat_run(0, num_values).values, dict.len());
        } else {
            lemma_walk_readable(body.skip(1), 0, body[0] as nat, 0, num_values, dict);
        }
    }
    law_fused_decode_is_lookup(body, num_values, dict);
    lemma_none_outside(page_indices(body, num_values).emitted, dict.len());
    assert(page_lookup(body, num_values, dict).emitted =~= page_indices(
        body,
        num_values,
    ).emitted.map_values(|v: nat| dict[v as int]));
}

proof fn lemma_walk_maskable(
    bytes: Seq<u8>,
    pos: nat,
    width: nat,
    row: nat,
    total: nat,
    mask: Seq<u8>,
    limit: nat,
)
    requires
        walk(bytes, pos, width, row, total, step_values()).fault is None,
        repeats_below(walk(bytes, pos, width, row, total, step_runs()).emitted, limit),
    ensures
        walk(bytes, pos, width, row, total, step_mask(mask, limit)).fault is None,
    decreases bytes.len() - pos,
{
    if row < total {
        lemma_next_run(bytes, pos, width, (total - row) as nat);
        let (run, next) = next_run(bytes, pos, width, (total - row) as nat)->Ok_0;
        let later = walk(bytes, next, width, row + run.values.len(), total, step_runs()).emitted;
        let runs = walk(bytes, pos, width, row, total, step_runs()).emitted;
        assert(runs == seq![run] + later);
        assert(runs[0] == run);
        assert forall|k: int| 0 <= k < later.len() && (#[trigger] later[k]).repeated implies later[k].value
            < limit by {
            assert(runs[k + 1] == later[k]);
        }
        lemma_walk_maskable(bytes, next, width, row + run.values.len(), total, mask, limit);
    }
}

/// A page whose indices can be read, under a mask that covers its width, is
/// decoded into one bit per row: that of the row's index. Which runs the
/// indices came in does not matter.
pub proof fn law_readable_page_is_masked(body: Seq<u8>, num_values: nat, mask: Seq<u8>)
    requires
        page_indices(body, num_values).fault is None,
        mask_refusal(body, mask) is None,
        repeats_below(page_runs(body, num_values), pow2(body[0] as nat)),
    ensures
        page_mask(body, num_values, mask).fault is None,
        page_mask(body, num_values, mask).emitted == page_indices(
            body,
            num_values,
        ).emitted.map_values(|v: nat| mask[v as int] != 0),
{
    if num_values > 0 {
        if body[0] == 0 {
            assert(page_runs(body, num_values)[0] == repeat_run(0, num_values));
        } else {
            lemma_walk_maskable(
                body.skip(1),
                0,
                body[0] as nat,
                0,
                num_values,
                mask,
                pow2(body[0] as nat),
            );
        }
    }
    law_bitmap_is_mask_of_indices(body, num_values, mask);
}

/// Gathering a page whose indices can be read and lie in the dictionary gives
/// the dictionary's values of the selected rows, in order.
pub proof fn law_readable_page_is_gathered<T>(
    body: Seq<u8>,
    num_values: nat,
    bitmap: Seq<u8>,
    offset: nat,
    dict: Seq<T>,
)
    requires
        page_indices(body, num_values).fault is None,
        forall|i: int|
            0 <= i < page_indices(body, num_values).emitted.len() ==> #[trigger] page_indices(
                body,
                num_values,
            ).emitted[i] < dict.len(),
        repeats_below(page_runs(body, num_values), dict.len()),
    ensures
        page_gather(body, num_values, bitmap, offset, dict).fault is None,
        page_gather(body, num_values, bitmap, offset, dict).emitted == selected(
            page_indices(body, num_values).emitted.map_values(|v: nat| dict[v as int]),
            bitmap,
            offset,
        ),
{
    law_readable_page_is_looked_up(body, num_values, dict);
    law_gather_is_selection(body, num_values, bitmap, offset, dict);
}

/// Bits beyond the rows do not matter: bitmaps that agree on the rows select
/// the same.
pub proof fn law_selection_reads_its_rows_only<T>(
    values: Seq<T>,
    a: Seq<u8>,
    b: Seq<u8>,
    first: nat,
)
    requires
        forall|i: nat| first <= i < first + values.len() ==> #[trigger] bit(a, i) == bit(b, i),
    ensures
        selected(values, a, first) == selected(values, b, first),
    decreases values.len(),
{
    if values.len() > 0 {
        law_selection_reads_its_rows_only(values.drop_last(), a, b, first);
        assert(bit(a, (first + values.len() - 1) as nat) == bit(
            b,
            (first + values.len() - 1) as nat,
        ));
    }
}

/// Bits that are all set select every row.
pub proof fn law_set_bits_select_all<T>(values: Seq<T>, bitmap: Seq<u8>, first: nat)
    requires
        forall|i: nat| first <= i < first + values.len() ==> #[trigger] bit(bitmap, i) == 1,
    ensures
        selected(values, bitmap, first) == values,
    decreases values.len(),
{
    if values.len() > 0 {
        law_set_bits_select_all(values.drop_last(), bitmap, first);
        assert(bit(bitmap, (first + values.len() - 1) as nat) == 1);
        assert(values.drop_last().push(values.last()) =~= values);
    }
}

/// Bits of which none is set select nothing.
pub proof fn law_clear_bits_select_nothing<T>(values: Seq<T>, bitmap: Seq<u8>, first: nat)
    requires
        forall|i: nat| first <= i < first + values.len() ==> #[trigger] bit(bitmap, i) != 1,
    ensures
        selected(values, bitmap, first).len() == 0,
    decreases values.len(),
{
    if values.len() > 0 {
        law_clear_bits_select_nothing(values.drop_last(), bitmap, first);
        assert(bit(bitmap, (first + values.len() - 1) as nat) != 1);
    }
}

} // verus!
