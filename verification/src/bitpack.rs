//! Unpacking of bit-packed index runs, bare or fused with a dictionary
//! lookup.
//!
//! A packed run stores its values back to back, lowest bit first, each in
//! `bit_width` bits.

use vstd::prelude::*;

use crate::bits::{as_u32s, field, packed_len, read_field, unpacked, BitPos};
use crate::error::{reports, CodecError, Fault, Outcome, Result};

verus! {

/// The first position from `from` on whose value is not below `limit`.
pub open spec fn first_outside(values: Seq<nat>, limit: nat, from: nat) -> nat
    decreases values.len() - from,
{
    if from >= values.len() || values[from as int] >= limit {
        from
    } else {
        first_outside(values, limit, from + 1)
    }
}

/// Dictionary lookup in order, up to the first index outside the
/// dictionary.
pub open spec fn lookup_values<T>(values: Seq<nat>, dict: Seq<T>) -> Outcome<T> {
    let good = first_outside(values, dict.len(), 0);
    Outcome {
        emitted: Seq::new(good, |i: int| dict[values[i] as int]),
        fault: if good < values.len() {
            Some(
                Fault::DictIndexOutOfRange {
                    index: values[good as int] as u32,
                    dict_size: dict.len() as usize,
                },
            )
        } else {
            None
        },
    }
}

pub proof fn lemma_first_outside(values: Seq<nat>, limit: nat, from: nat)
    requires
        from <= values.len(),
    ensures
        from <= first_outside(values, limit, from) <= values.len(),
        forall|i: int| from <= i < first_outside(values, limit, from) ==> values[i] < limit,
        first_outside(values, limit, from) < values.len() ==> values[first_outside(
            values,
            limit,
            from,
        ) as int] >= limit,
    decreases values.len() - from,
{
    if from < values.len() && values[from as int] < limit {
        lemma_first_outside(values, limit, from + 1);
    }
}

/// Values that all lie below the limit are all looked up.
pub proof fn lemma_none_outside(values: Seq<nat>, limit: nat)
    requires
        forall|i: int| 0 <= i < values.len() ==> values[i] < limit,
    ensures
        first_outside(values, limit, 0) == values.len(),
{
    lemma_first_outside(values, limit, 0);
}

/// Field `i` of a run of `n` fields lies inside the packed bytes.
pub proof fn lemma_field_inside(len: nat, width: nat, n: nat, i: nat)
    requires
        i < n,
        packed_len(n, width) <= len,
    ensures
        i * width + width <= 8 * len,
{
    assert(i * width + width <= n * width) by (nonlinear_arith)
        requires
            i < n,
    ;
}

/// Decodes `num_values` indices of `bit_width` bits each, looks each up in
/// `dict` and appends the values to `out`.
///
/// An index outside the dictionary ends the decoding: the values before it
/// have been appended by then.
pub fn unpack_lookup_into<T: Copy>(
    packed: &[u8],
    num_values: usize,
    bit_width: u8,
    dict: &[T],
    out: &mut Vec<T>,
) -> (r: Result<()>)
    requires
        bit_width <= 32 ==> packed_len(num_values as nat, bit_width as nat) <= packed@.len(),
    ensures
        bit_width > 32 ==> reports(r, Some(Fault::BitWidthOutOfRange(bit_width))) && final(out)@
            == old(out)@,
        bit_width <= 32 ==> {
            let o = lookup_values(
                unpacked(packed@, bit_width as nat, num_values as nat),
                dict@,
            );
            reports(r, o.fault) && final(out)@ == old(out)@ + o.emitted
        },
{
    if bit_width > 32 {
        return Err(CodecError::BitWidthOutOfRange(bit_width));
    }
    let ghost values = unpacked(packed@, bit_width as nat, num_values as nat);
    let ghost start = out@;
    let ghost good = first_outside(values, dict@.len(), 0);
    let dict_size: usize = dict.len();
    proof {
        lemma_first_outside(values, dict@.len(), 0);
    }
    let mut i: usize = 0;
    let mut at = BitPos::start();
    let len: usize = packed.len();
    while i < num_values
        invariant
            i <= num_values,
            bit_width <= 32,
            dict_size == dict@.len(),
            at.wf(),
            at.bit() == i * bit_width,
            len == packed@.len(),
            values == unpacked(packed@, bit_width as nat, num_values as nat),
            packed_len(num_values as nat, bit_width as nat) <= packed@.len(),
            good == first_outside(values, dict@.len(), 0),
            good == first_outside(values, dict@.len(), i as nat),
            i <= good <= values.len(),
            forall|k: int| 0 <= k < good ==> values[k] < dict@.len(),
            start == old(out)@,
            out@ == start + Seq::new(i as nat, |k: int| dict@[values[k] as int]),
        decreases num_values - i,
    {
        proof {
            lemma_field_inside(packed@.len(), bit_width as nat, num_values as nat, i as nat);
            assert(values[i as int] == field(packed@, at.bit(), bit_width as nat));
        }
        let idx: u32 = read_field(packed, &at, bit_width as u32);
        if idx as usize >= dict_size {
            proof {
                assert(out@ =~= start + lookup_values(values, dict@).emitted);
            }
            return Err(CodecError::DictIndexOutOfRange { index: idx, dict_size });
        }
        out.push(dict[idx as usize]);
        proof {
            lemma_first_outside(values, dict@.len(), (i + 1) as nat);
            assert(out@ =~= start + Seq::new((i + 1) as nat, |k: int| dict@[values[k] as int]));
        }
        at.advance(bit_width);
        proof {
            assert((i + 1) * bit_width == i * bit_width + bit_width) by (nonlinear_arith);
        }
        i = i + 1;
    }
    Ok(())
}

/// Decodes `num_values` indices of `bit_width` bits each and appends them
/// to `out`.
pub fn unpack_indices_into(
    packed: &[u8],
    num_values: usize,
    bit_width: u8,
    out: &mut Vec<u32>,
) -> (r: Result<()>)
    requires
        bit_width <= 32 ==> packed_len(num_values as nat, bit_width as nat) <= packed@.len(),
    ensures
        bit_width > 32 ==> reports(r, Some(Fault::BitWidthOutOfRange(bit_width))) && final(out)@
            == old(out)@,
        bit_width <= 32 ==> r is Ok && final(out)@ == old(out)@ + as_u32s(
            unpacked(packed@, bit_width as nat, num_values as nat),
        ),
{
    if bit_width > 32 {
        return Err(CodecError::BitWidthOutOfRange(bit_width));
    }
    let ghost values = unpacked(packed@, bit_width as nat, num_values as nat);
    let ghost start = out@;
    let len: usize = packed.len();
    let mut i: usize = 0;
    let mut at = BitPos::start();
    while i < num_values
        invariant
            i <= num_values,
            bit_width <= 32,
            at.wf(),
            at.bit() == i * bit_width,
            len == packed@.len(),
            values == unpacked(packed@, bit_width as nat, num_values as nat),
            packed_len(num_values as nat, bit_width as nat) <= packed@.len(),
            out@ == start + as_u32s(values.take(i as int)),
        decreases num_values - i,
    {
        proof {
            lemma_field_inside(packed@.len(), bit_width as nat, num_values as nat, i as nat);
            assert(values[i as int] == field(packed@, at.bit(), bit_width as nat));
        }
        let idx: u32 = read_field(packed, &at, bit_width as u32);
        out.push(idx);
        at.advance(bit_width);
        proof {
            assert((i + 1) * bit_width == i * bit_width + bit_width) by (nonlinear_arith);
            assert(out@ =~= start + as_u32s(values.take(i + 1)));
        }
        i = i + 1;
    }
    proof {
        assert(values.take(num_values as int) =~= values);
    }
    Ok(())
}

} // verus!
