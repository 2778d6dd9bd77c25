//! Unpacking in blocks of rows.
//!
//! A kernel of one bit width unpacks whole blocks first and the rows after
//! them one by one. A block may read beyond the bytes that its own rows take,
//! so the last block of a short input is left to the rows. Where an index of
//! a block is outside the dictionary, nothing is appended; where one of the
//! rows after the blocks is, the values before it have been.

use vstd::arithmetic::power2::pow2;
use vstd::prelude::*;

use crate::bitpack::{lemma_first_outside, lookup_values, unpack_indices_into, unpack_lookup_into};
use crate::bits::{
    as_u32s, bit, lemma_byte_plain, lemma_field_bound, lemma_pack_unique, pack, packed_len,
    unpacked,
};
use crate::dict::fused_bitmap_chunk;
use crate::error::{reports, CodecError, Fault, Result};
use crate::text::{dec, joined, text2};

verus! {

/// The fault of packed bytes that end early.
pub open spec fn short_input(kernel: Seq<char>, len: nat, need: nat) -> Fault {
    Fault::Decompress(
        kernel + ": packed has "@ + dec(len) + " bytes, need "@ + dec(need) + ""@,
    )
}

fn short_err(kernel: &str, len: usize, need: u128) -> (e: CodecError)
    ensures
        e@ == short_input(kernel@, len as nat, need as nat),
{
    let rest: String = text2(": packed has ", len as u128, " bytes, need ", need, "");
    let s: String = joined(kernel, rest.as_str());
    proof {
        assert(s@ =~= kernel@ + ": packed has "@ + dec(len as nat) + " bytes, need "@ + dec(
            need as nat,
        ) + ""@);
    }
    CodecError::Decompress(s)
}

/// The bytes of `n` fields.
fn bytes_for(n: usize, width: u8) -> (b: u128)
    requires
        width <= 32,
    ensures
        b == packed_len(n as nat, width as nat),
{
    proof {
        assert(n * width <= usize::MAX * 32) by (nonlinear_arith)
            requires
                n <= usize::MAX,
                width <= 32,
        ;
    }
    (n as u128 * width as u128 + 7) / 8
}

/// What an unpacking kernel does: nothing where no rows are asked for, a
/// fault where bytes are missing, and otherwise the indices appended.
pub open spec fn unpacks(
    r: Result<()>,
    before: Seq<u32>,
    after: Seq<u32>,
    kernel: Seq<char>,
    width: nat,
    packed: Seq<u8>,
    n: nat,
) -> bool {
    if n == 0 {
        r is Ok && after == before
    } else if packed.len() < packed_len(n, width) {
        reports(r, Some(short_input(kernel, packed.len(), packed_len(n, width)))) && after
            == before
    } else {
        r is Ok && after == before + as_u32s(unpacked(packed, width, n))
    }
}

/// An unpacking kernel.
pub(crate) fn unpack_kernel(
    kernel: &str,
    width: u8,
    packed: &[u8],
    num_values: usize,
    out: &mut Vec<u32>,
) -> (r: Result<()>)
    requires
        width <= 32,
    ensures
        unpacks(
            r,
            old(out)@,
            final(out)@,
            kernel@,
            width as nat,
            packed@,
            num_values as nat,
        ),
{
    if num_values == 0 {
        return Ok(());
    }
    let need: u128 = bytes_for(num_values, width);
    if (packed.len() as u128) < need {
        return Err(short_err(kernel, packed.len(), need));
    }
    unpack_indices_into(packed, num_values, width, out)
}

/// The rows of whole blocks of `block` rows.
pub open spec fn whole_blocks(n: nat, block: nat) -> nat {
    n / block * block
}

/// The rows of blocks of eight whose windows of `window` bytes lie within
/// the input; only the last can lie beyond it.
pub open spec fn windowed_blocks(len: nat, width: nat, n: nat, window: nat) -> nat {
    let full = n / 8;
    if full == 0 {
        0
    } else if len >= width * (full - 1) + window {
        8 * full
    } else {
        (8 * (full - 1)) as nat
    }
}

/// The rows of blocks of eight whose loads of sixteen bytes lie within the
/// input.
pub open spec fn loaded_blocks(len: nat, width: nat, n: nat) -> nat {
    let full = n / 8;
    if len < 16 || width == 0 || width > 16 {
        0
    } else {
        let fit = (len - (16 - width)) / width as int;
        8 * if fit < full {
            fit as nat
        } else {
            full
        }
    }
}

/// How many rows a kernel unpacks in blocks.
pub enum Blocks {
    Whole(usize),
    Windowed(usize),
    Loaded,
}

/// The rows that a kernel unpacks in blocks.
pub open spec fn block_rows(blocks: Blocks, len: nat, width: nat, n: nat) -> nat {
    match blocks {
        Blocks::Whole(block) => whole_blocks(n, block as nat),
        Blocks::Windowed(window) => windowed_blocks(len, width, n, window as nat),
        Blocks::Loaded => loaded_blocks(len, width, n),
    }
}

fn count_block_rows(blocks: &Blocks, len: usize, width: u8, n: usize) -> (rows: u128)
    requires
        0 < width <= 32,
        *blocks matches Blocks::Whole(block) ==> block > 0,
    ensures
        rows == block_rows(*blocks, len as nat, width as nat, n as nat),
{
    match blocks {
        Blocks::Whole(block) => {
            proof {
                assert(n / *block * *block <= n) by (nonlinear_arith)
                    requires
                        *block > 0,
                ;
            }
            (n / *block * *block) as u128
        },
        Blocks::Windowed(window) => {
            let full: u128 = (n / 8) as u128;
            if full == 0 {
                0
            } else {
                proof {
                    assert(0 <= width * (full - 1) <= 32 * usize::MAX) by (nonlinear_arith)
                        requires
                            1 <= full <= usize::MAX,
                            width <= 32,
                    ;
                }
                if len as u128 >= width as u128 * (full - 1) + *window as u128 {
                    8 * full
                } else {
                    8 * (full - 1)
                }
            }
        },
        Blocks::Loaded => {
            let full: u128 = (n / 8) as u128;
            if len < 16 || width > 16 {
                0
            } else {
                let fit: u128 = (len as u128 - (16 - width as u128)) / width as u128;
                if fit < full {
                    8 * fit
                } else {
                    8 * full
                }
            }
        },
    }
}

/// What a lookup kernel does: nothing where no rows are asked for, a fault
/// where the dictionary is empty, bytes are missing or an index is outside
/// the dictionary, and otherwise the values appended.
pub open spec fn looks_up<T>(
    r: Result<()>,
    before: Seq<T>,
    after: Seq<T>,
    kernel: Seq<char>,
    width: nat,
    blocks: Blocks,
    packed: Seq<u8>,
    n: nat,
    dict: Seq<T>,
) -> bool {
    if n == 0 {
        r is Ok && after == before
    } else if dict.len() == 0 {
        reports(r, Some(Fault::DictIndexOutOfRange { index: 0, dict_size: 0 })) && after == before
    } else if packed.len() < packed_len(n, width) {
        reports(r, Some(short_input(kernel, packed.len(), packed_len(n, width)))) && after
            == before
    } else {
        let o = lookup_values(unpacked(packed, width, n), dict);
        &&& reports(r, o.fault)
        &&& after == if o.fault is Some && o.emitted.len() < block_rows(
            blocks,
            packed.len(),
            width,
            n,
        ) {
            before
        } else {
            before + o.emitted
        }
    }
}

/// A lookup kernel.
pub(crate) fn lookup_kernel<T: Copy>(
    kernel: &str,
    width: u8,
    blocks: &Blocks,
    packed: &[u8],
    num_values: usize,
    dict: &[T],
    out: &mut Vec<T>,
) -> (r: Result<()>)
    requires
        0 < width <= 32,
        *blocks matches Blocks::Whole(block) ==> block > 0,
    ensures
        looks_up(
            r,
            old(out)@,
            final(out)@,
            kernel@,
            width as nat,
            *blocks,
            packed@,
            num_values as nat,
            dict@,
        ),
{
    if num_values == 0 {
        return Ok(());
    }
    if dict.len() == 0 {
        return Err(CodecError::DictIndexOutOfRange { index: 0, dict_size: 0 });
    }
    let need: u128 = bytes_for(num_values, width);
    if (packed.len() as u128) < need {
        return Err(short_err(kernel, packed.len(), need));
    }
    let start: usize = out.len();
    let ghost before = out@;
    let rows: u128 = count_block_rows(blocks, packed.len(), width, num_values);
    match unpack_lookup_into(packed, num_values, width, dict, out) {
        Ok(_) => Ok(()),
        Err(e) => {
            if ((out.len() - start) as u128) < rows {
                out.truncate(start);
                proof {
                    assert(out@ =~= before);
                }
            }
            Err(e)
        },
    }
}

/// For each of `n` packed indices, whether the mask accepts it.
pub open spec fn mask_rows(packed: Seq<u8>, width: nat, n: nat, mask: Seq<u8>) -> Seq<bool> {
    unpacked(packed, width, n).map_values(|v: nat| mask[v as int] != 0)
}

/// What a mask kernel does: a fault where the mask does not cover the bit
/// width or bytes are missing, and otherwise one bit per row appended.
pub open spec fn judges(
    r: Result<()>,
    before: Seq<u8>,
    after: Seq<u8>,
    kernel: Seq<char>,
    width: nat,
    packed: Seq<u8>,
    n: nat,
    mask: Seq<u8>,
) -> bool {
    if mask.len() < pow2(width) {
        reports(
            r,
            Some(
                Fault::Decompress(
                    kernel + ": dict_mask must be ≥ "@ + dec(pow2(width)) + " entries (got "@ + dec(
                        mask.len(),
                    ) + ")"@,
                ),
            ),
        ) && after == before
    } else if n == 0 {
        r is Ok && after == before
    } else if packed.len() < packed_len(n, width) {
        reports(r, Some(short_input(kernel, packed.len(), packed_len(n, width)))) && after
            == before
    } else {
        r is Ok && after == before + pack(mask_rows(packed, width, n, mask))
    }
}

/// A mask kernel.
pub(crate) fn mask_kernel(
    kernel: &str,
    width: u8,
    entries: usize,
    packed: &[u8],
    num_values: usize,
    dict_mask: &[u8],
    out: &mut Vec<u8>,
) -> (r: Result<()>)
    requires
        0 < width < 32,
        entries == pow2(width as nat),
        old(out)@.len() + (num_values + 7) / 8 <= usize::MAX,
    ensures
        judges(
            r,
            old(out)@,
            final(out)@,
            kernel@,
            width as nat,
            packed@,
            num_values as nat,
            dict_mask@,
        ),
{
    if dict_mask.len() < entries {
        let rest: String = text2(
            ": dict_mask must be ≥ ",
            entries as u128,
            " entries (got ",
            dict_mask.len() as u128,
            ")",
        );
        let s: String = joined(kernel, rest.as_str());
        proof {
            assert(s@ =~= kernel@ + ": dict_mask must be ≥ "@ + dec(pow2(width as nat))
                + " entries (got "@ + dec(dict_mask@.len()) + ")"@);
        }
        return Err(CodecError::Decompress(s));
    }
    if num_values == 0 {
        return Ok(());
    }
    let need: u128 = bytes_for(num_values, width);
    if (packed.len() as u128) < need {
        return Err(short_err(kernel, packed.len(), need));
    }
    let start: usize = out.len();
    let ghost before = out@;
    let ghost rows = mask_rows(packed@, width as nat, num_values as nat, dict_mask@);
    let bytes: usize = num_values / 8 + if num_values % 8 == 0 { 0usize } else { 1usize };
    out.resize(start + bytes, 0);
    let ghost blank = out@.skip(start as int);
    proof {
        assert(out@.take(start as int) =~= before);
        assert forall|i: nat| i < 8 * bytes implies #[trigger] bit(blank, i) == 0 by {
            assert(blank[i as int / 8] == 0);
            lemma_byte_plain(i % 8);
        }
    }
    fused_bitmap_chunk(packed, width, num_values, dict_mask, out, start, 0);
    proof {
        let tail = out@.skip(start as int);
        assert forall|i: nat| i < 8 * tail.len() implies (#[trigger] bit(tail, i) == 1) == (i
            < rows.len() && rows[i as int]) by {
            assert(bit(blank, i) == 0);
        }
        lemma_pack_unique(tail, rows);
        assert(out@ =~= before + tail) by {
            assert(out@.take(start as int) == before);
        }
    }
    Ok(())
}

/// A kernel's values are those of looking up the indices that it unpacks.
pub proof fn law_lookup_kernel_is_unpack_and_lookup<T>(
    packed: Seq<u8>,
    width: nat,
    n: nat,
    dict: Seq<T>,
)
    requires
        width <= 32,
        pow2(width) <= dict.len(),
    ensures
        lookup_values(unpacked(packed, width, n), dict).fault is None,
        lookup_values(unpacked(packed, width, n), dict).emitted == unpacked(
            packed,
            width,
            n,
        ).map_values(|v: nat| dict[v as int]),
{
    let values = unpacked(packed, width, n);
    lemma_first_outside(values, dict.len(), 0);
    assert forall|i: int| 0 <= i < values.len() implies values[i] < dict.len() by {
        lemma_field_bound(packed, (i * width) as nat, width);
    }
    assert(lookup_values(values, dict).emitted =~= values.map_values(|v: nat| dict[v as int]));
}

} // verus!
