//! The kernels of the ARM family, by bit width.

use vstd::arithmetic::power2::lemma2_to64;
use vstd::prelude::*;

use crate::bitpack_kernels::{
    judges, looks_up, lookup_kernel, mask_kernel, unpack_kernel, unpacks, Blocks,
};
use crate::dict::is_mask;
use crate::error::Result;

verus! {

/// Unpacks indices of 12 bits.
pub fn unpack_indices_into_neon_bw12(packed: &[u8], num_values: usize, out: &mut Vec<u32>) -> (r: Result<
    (),
>)
    ensures
        unpacks(
            r,
            old(out)@,
            final(out)@,
            "neon bw12"@,
            12,
            packed@,
            num_values as nat,
        ),
{
    unpack_kernel("neon bw12", 12, packed, num_values, out)
}

/// Unpacks indices of 12 bits and looks them up.
pub fn unpack_lookup_into_neon_bw12<T: Copy>(
    packed: &[u8],
    num_values: usize,
    dict: &[T],
    out: &mut Vec<T>,
) -> (r: Result<()>)
    ensures
        looks_up(
            r,
            old(out)@,
            final(out)@,
            "neon bw12 lookup"@,
            12,
            Blocks::Windowed(16),
            packed@,
            num_values as nat,
            dict@,
        ),
{
    lookup_kernel(
        "neon bw12 lookup",
        12,
        &Blocks::Windowed(16),
        packed,
        num_values,
        dict,
        out,
    )
}

/// Unpacks indices of 12 bits and gives one bit per row: whether the mask
/// accepts its index.
pub fn decode_predicate_bitmap_neon_bw12(
    packed: &[u8],
    num_values: usize,
    dict_mask: &[u8],
    out: &mut Vec<u8>,
) -> (r: Result<()>)
    requires
        is_mask(dict_mask@),
        old(out)@.len() + (num_values + 7) / 8 <= usize::MAX,
    ensures
        judges(
            r,
            old(out)@,
            final(out)@,
            "neon bw12 fused"@,
            12,
            packed@,
            num_values as nat,
            dict_mask@,
        ),
{
    proof {
        lemma2_to64();
    }
    mask_kernel("neon bw12 fused", 12, 4096, packed, num_values, dict_mask, out)
}

/// Unpacks indices of 14 bits and gives one bit per row: whether the mask
/// accepts its index.
pub fn decode_predicate_bitmap_neon_bw14(
    packed: &[u8],
    num_values: usize,
    dict_mask: &[u8],
    out: &mut Vec<u8>,
) -> (r: Result<()>)
    requires
        is_mask(dict_mask@),
        old(out)@.len() + (num_values + 7) / 8 <= usize::MAX,
    ensures
        judges(
            r,
            old(out)@,
            final(out)@,
            "neon bw14 fused"@,
            14,
            packed@,
            num_values as nat,
            dict_mask@,
        ),
{
    proof {
        lemma2_to64();
    }
    mask_kernel("neon bw14 fused", 14, 16384, packed, num_values, dict_mask, out)
}

/// Unpacks indices of 15 bits and gives one bit per row: whether the mask
/// accepts its index.
pub fn decode_predicate_bitmap_neon_bw15(
    packed: &[u8],
    num_values: usize,
    dict_mask: &[u8],
    out: &mut Vec<u8>,
) -> (r: Result<()>)
    requires
        is_mask(dict_mask@),
        old(out)@.len() + (num_values + 7) / 8 <= usize::MAX,
    ensures
        judges(
            r,
            old(out)@,
            final(out)@,
            "neon bw15 fused"@,
            15,
            packed@,
            num_values as nat,
            dict_mask@,
        ),
{
    proof {
        lemma2_to64();
    }
    mask_kernel("neon bw15 fused", 15, 32768, packed, num_values, dict_mask, out)
}

/// Unpacks indices of 16 bits and gives one bit per row: whether the mask
/// accepts its index.
pub fn decode_predicate_bitmap_neon_bw16(
    packed: &[u8],
    num_values: usize,
    dict_mask: &[u8],
    out: &mut Vec<u8>,
) -> (r: Result<()>)
    requires
        is_mask(dict_mask@),
        old(out)@.len() + (num_values + 7) / 8 <= usize::MAX,
    ensures
        judges(
            r,
            old(out)@,
            final(out)@,
            "neon bw16 fused"@,
            16,
            packed@,
            num_values as nat,
            dict_mask@,
        ),
{
    proof {
        lemma2_to64();
    }
    mask_kernel("neon bw16 fused", 16, 65536, packed, num_values, dict_mask, out)
}

/// Unpacks indices of 17 bits and gives one bit per row: whether the mask
/// accepts its index.
pub fn decode_predicate_bitmap_neon_bw17(
    packed: &[u8],
    num_values: usize,
    dict_mask: &[u8],
    out: &mut Vec<u8>,
) -> (r: Result<()>)
    requires
        is_mask(dict_mask@),
        old(out)@.len() + (num_values + 7) / 8 <= usize::MAX,
    ensures
        judges(
            r,
            old(out)@,
            final(out)@,
            "neon bw17 fused"@,
            17,
            packed@,
            num_values as nat,
            dict_mask@,
        ),
{
    proof {
        lemma2_to64();
    }
    mask_kernel("neon bw17 fused", 17, 131072, packed, num_values, dict_mask, out)
}

/// Unpacks indices of 18 bits and gives one bit per row: whether the mask
/// accepts its index.
pub fn decode_predicate_bitmap_neon_bw18(
    packed: &[u8],
    num_values: usize,
    dict_mask: &[u8],
    out: &mut Vec<u8>,
) -> (r: Result<()>)
    requires
        is_mask(dict_mask@),
        old(out)@.len() + (num_values + 7) / 8 <= usize::MAX,
    ensures
        judges(
            r,
            old(out)@,
            final(out)@,
            "neon bw18 fused"@,
            18,
            packed@,
            num_values as nat,
            dict_mask@,
        ),
{
    proof {
        lemma2_to64();
    }
    mask_kernel("neon bw18 fused", 18, 262144, packed, num_values, dict_mask, out)
}

/// Unpacks indices of 17 bits.
pub fn unpack_indices_into_neon_bw17(packed: &[u8], num_values: usize, out: &mut Vec<u32>) -> (r: Result<
    (),
>)
    ensures
        unpacks(
            r,
            old(out)@,
            final(out)@,
            "neon bw17"@,
            17,
            packed@,
            num_values as nat,
        ),
{
    unpack_kernel("neon bw17", 17, packed, num_values, out)
}

/// Unpacks indices of 17 bits and looks them up.
pub fn unpack_lookup_into_neon_bw17<T: Copy>(
    packed: &[u8],
    num_values: usize,
    dict: &[T],
    out: &mut Vec<T>,
) -> (r: Result<()>)
    ensures
        looks_up(
            r,
            old(out)@,
            final(out)@,
            "neon bw17 lookup"@,
            17,
            Blocks::Windowed(24),
            packed@,
            num_values as nat,
            dict@,
        ),
{
    lookup_kernel(
        "neon bw17 lookup",
        17,
        &Blocks::Windowed(24),
        packed,
        num_values,
        dict,
        out,
    )
}

/// Unpacks indices of 14 bits.
pub fn unpack_indices_into_neon_bw14(packed: &[u8], num_values: usize, out: &mut Vec<u32>) -> (r: Result<
    (),
>)
    ensures
        unpacks(
            r,
            old(out)@,
            final(out)@,
            "neon bw14"@,
            14,
            packed@,
            num_values as nat,
        ),
{
    unpack_kernel("neon bw14", 14, packed, num_values, out)
}

/// Unpacks indices of 14 bits and looks them up.
pub fn unpack_lookup_into_neon_bw14<T: Copy>(
    packed: &[u8],
    num_values: usize,
    dict: &[T],
    out: &mut Vec<T>,
) -> (r: Result<()>)
    ensures
        looks_up(
            r,
            old(out)@,
            final(out)@,
            "neon bw14 lookup"@,
            14,
            Blocks::Windowed(16),
            packed@,
            num_values as nat,
            dict@,
        ),
{
    lookup_kernel(
        "neon bw14 lookup",
        14,
        &Blocks::Windowed(16),
        packed,
        num_values,
        dict,
        out,
    )
}

/// Unpacks indices of 16 bits.
pub fn unpack_indices_into_neon_bw16(packed: &[u8], num_values: usize, out: &mut Vec<u32>) -> (r: Result<
    (),
>)
    ensures
        unpacks(
            r,
            old(out)@,
            final(out)@,
            "neon bw16"@,
            16,
            packed@,
            num_values as nat,
        ),
{
    unpack_kernel("neon bw16", 16, packed, num_values, out)
}

/// Unpacks indices of 16 bits and looks them up.
pub fn unpack_lookup_into_neon_bw16<T: Copy>(
    packed: &[u8],
    num_values: usize,
    dict: &[T],
    out: &mut Vec<T>,
) -> (r: Result<()>)
    ensures
        looks_up(
            r,
            old(out)@,
            final(out)@,
            "neon bw16 lookup"@,
            16,
            Blocks::Whole(8),
            packed@,
            num_values as nat,
            dict@,
        ),
{
    lookup_kernel(
        "neon bw16 lookup",
        16,
        &Blocks::Whole(8),
        packed,
        num_values,
        dict,
        out,
    )
}

/// Unpacks indices of 15 bits.
pub fn unpack_indices_into_neon_bw15(packed: &[u8], num_values: usize, out: &mut Vec<u32>) -> (r: Result<
    (),
>)
    ensures
        unpacks(
            r,
            old(out)@,
            final(out)@,
            "neon bw15"@,
            15,
            packed@,
            num_values as nat,
        ),
{
    unpack_kernel("neon bw15", 15, packed, num_values, out)
}

/// Unpacks indices of 15 bits and looks them up.
pub fn unpack_lookup_into_neon_bw15<T: Copy>(
    packed: &[u8],
    num_values: usize,
    dict: &[T],
    out: &mut Vec<T>,
) -> (r: Result<()>)
    ensures
        looks_up(
            r,
            old(out)@,
            final(out)@,
            "neon bw15 lookup"@,
            15,
            Blocks::Windowed(24),
            packed@,
            num_values as nat,
            dict@,
        ),
{
    lookup_kernel(
        "neon bw15 lookup",
        15,
        &Blocks::Windowed(24),
        packed,
        num_values,
        dict,
        out,
    )
}

/// Unpacks indices of 18 bits.
pub fn unpack_indices_into_neon_bw18(packed: &[u8], num_values: usize, out: &mut Vec<u32>) -> (r: Result<
    (),
>)
    ensures
        unpacks(
            r,
            old(out)@,
            final(out)@,
            "neon bw18"@,
            18,
            packed@,
            num_values as nat,
        ),
{
    unpack_kernel("neon bw18", 18, packed, num_values, out)
}

/// Unpacks indices of 18 bits and looks them up.
pub fn unpack_lookup_into_neon_bw18<T: Copy>(
    packed: &[u8],
    num_values: usize,
    dict: &[T],
    out: &mut Vec<T>,
) -> (r: Result<()>)
    ensures
        looks_up(
            r,
            old(out)@,
            final(out)@,
            "neon bw18 lookup"@,
            18,
            Blocks::Windowed(24),
            packed@,
            num_values as nat,
            dict@,
        ),
{
    lookup_kernel(
        "neon bw18 lookup",
        18,
        &Blocks::Windowed(24),
        packed,
        num_values,
        dict,
        out,
    )
}

/// Unpacks indices of 8 bits.
pub fn unpack_indices_into_neon_bw8(packed: &[u8], num_values: usize, out: &mut Vec<u32>) -> (r: Result<
    (),
>)
    ensures
        unpacks(
            r,
            old(out)@,
            final(out)@,
            "neon bw8"@,
            8,
            packed@,
            num_values as nat,
        ),
{
    unpack_kernel("neon bw8", 8, packed, num_values, out)
}

/// Unpacks indices of 4 bits.
pub fn unpack_indices_into_neon_bw4(packed: &[u8], num_values: usize, out: &mut Vec<u32>) -> (r: Result<
    (),
>)
    ensures
        unpacks(
            r,
            old(out)@,
            final(out)@,
            "neon bw4"@,
            4,
            packed@,
            num_values as nat,
        ),
{
    unpack_kernel("neon bw4", 4, packed, num_values, out)
}

/// Unpacks indices of 4 bits and looks them up.
pub fn unpack_lookup_into_neon_bw4<T: Copy>(
    packed: &[u8],
    num_values: usize,
    dict: &[T],
    out: &mut Vec<T>,
) -> (r: Result<()>)
    ensures
        looks_up(
            r,
            old(out)@,
            final(out)@,
            "neon bw4 lookup"@,
            4,
            Blocks::Whole(32),
            packed@,
            num_values as nat,
            dict@,
        ),
{
    lookup_kernel(
        "neon bw4 lookup",
        4,
        &Blocks::Whole(32),
        packed,
        num_values,
        dict,
        out,
    )
}

/// Unpacks indices of 6 bits and looks them up.
pub fn unpack_lookup_into_neon_bw6<T: Copy>(
    packed: &[u8],
    num_values: usize,
    dict: &[T],
    out: &mut Vec<T>,
) -> (r: Result<()>)
    ensures
        looks_up(
            r,
            old(out)@,
            final(out)@,
            "neon bw6 lookup"@,
            6,
            Blocks::Loaded,
            packed@,
            num_values as nat,
            dict@,
        ),
{
    lookup_kernel(
        "neon bw6 lookup",
        6,
        &Blocks::Loaded,
        packed,
        num_values,
        dict,
        out,
    )
}

/// Unpacks indices of 8 bits and looks them up.
pub fn unpack_lookup_into_neon_bw8<T: Copy>(
    packed: &[u8],
    num_values: usize,
    dict: &[T],
    out: &mut Vec<T>,
) -> (r: Result<()>)
    ensures
        looks_up(
            r,
            old(out)@,
            final(out)@,
            "neon bw8 lookup"@,
            8,
            Blocks::Whole(32),
            packed@,
            num_values as nat,
            dict@,
        ),
{
    lookup_kernel(
        "neon bw8 lookup",
        8,
        &Blocks::Whole(32),
        packed,
        num_values,
        dict,
        out,
    )
}

/// Unpacks indices of 2 bits.
pub fn unpack_indices_into_neon_bw2(packed: &[u8], num_values: usize, out: &mut Vec<u32>) -> (r: Result<
    (),
>)
    ensures
        unpacks(
            r,
            old(out)@,
            final(out)@,
            "neon bw2"@,
            2,
            packed@,
            num_values as nat,
        ),
{
    unpack_kernel("neon bw2", 2, packed, num_values, out)
}

/// Unpacks indices of 3 bits.
pub fn unpack_indices_into_neon_bw3(packed: &[u8], num_values: usize, out: &mut Vec<u32>) -> (r: Result<
    (),
>)
    ensures
        unpacks(
            r,
            old(out)@,
            final(out)@,
            "neon bw3"@,
            3,
            packed@,
            num_values as nat,
        ),
{
    unpack_kernel("neon bw3", 3, packed, num_values, out)
}

/// Unpacks indices of 1 bit.
pub fn unpack_indices_into_neon_bw1(packed: &[u8], num_values: usize, out: &mut Vec<u32>) -> (r: Result<
    (),
>)
    ensures
        unpacks(
            r,
            old(out)@,
            final(out)@,
            "neon bw1"@,
            1,
            packed@,
            num_values as nat,
        ),
{
    unpack_kernel("neon bw1", 1, packed, num_values, out)
}

/// Unpacks indices of 20 bits.
pub fn unpack_indices_into_neon_bw20(packed: &[u8], num_values: usize, out: &mut Vec<u32>) -> (r: Result<
    (),
>)
    ensures
        unpacks(
            r,
            old(out)@,
            final(out)@,
            "neon bw20"@,
            20,
            packed@,
            num_values as nat,
        ),
{
    unpack_kernel("neon bw20", 20, packed, num_values, out)
}

/// Unpacks indices of 21 bits.
pub fn unpack_indices_into_neon_bw21(packed: &[u8], num_values: usize, out: &mut Vec<u32>) -> (r: Result<
    (),
>)
    ensures
        unpacks(
            r,
            old(out)@,
            final(out)@,
            "neon bw21"@,
            21,
            packed@,
            num_values as nat,
        ),
{
    unpack_kernel("neon bw21", 21, packed, num_values, out)
}

/// Unpacks indices of 5 bits.
pub fn unpack_indices_into_neon_bw5(packed: &[u8], num_values: usize, out: &mut Vec<u32>) -> (r: Result<
    (),
>)
    ensures
        unpacks(
            r,
            old(out)@,
            final(out)@,
            "neon bw5"@,
            5,
            packed@,
            num_values as nat,
        ),
{
    unpack_kernel("neon bw5", 5, packed, num_values, out)
}

/// Unpacks indices of 1 bit and looks them up.
pub fn unpack_lookup_into_neon_bw1<T: Copy>(
    packed: &[u8],
    num_values: usize,
    dict: &[T],
    out: &mut Vec<T>,
) -> (r: Result<()>)
    ensures
        looks_up(
            r,
            old(out)@,
            final(out)@,
            "neon bw1 lookup"@,
            1,
            Blocks::Whole(32),
            packed@,
            num_values as nat,
            dict@,
        ),
{
    lookup_kernel(
        "neon bw1 lookup",
        1,
        &Blocks::Whole(32),
        packed,
        num_values,
        dict,
        out,
    )
}

/// Unpacks indices of 2 bits and looks them up.
pub fn unpack_lookup_into_neon_bw2<T: Copy>(
    packed: &[u8],
    num_values: usize,
    dict: &[T],
    out: &mut Vec<T>,
) -> (r: Result<()>)
    ensures
        looks_up(
            r,
            old(out)@,
            final(out)@,
            "neon bw2 lookup"@,
            2,
            Blocks::Whole(32),
            packed@,
            num_values as nat,
            dict@,
        ),
{
    lookup_kernel(
        "neon bw2 lookup",
        2,
        &Blocks::Whole(32),
        packed,
        num_values,
        dict,
        out,
    )
}

/// Unpacks indices of 3 bits and looks them up.
pub fn unpack_lookup_into_neon_bw3<T: Copy>(
    packed: &[u8],
    num_values: usize,
    dict: &[T],
    out: &mut Vec<T>,
) -> (r: Result<()>)
    ensures
        looks_up(
            r,
            old(out)@,
            final(out)@,
            "neon bw3 lookup"@,
            3,
            Blocks::Loaded,
            packed@,
            num_values as nat,
            dict@,
        ),
{
    lookup_kernel(
        "neon bw3 lookup",
        3,
        &Blocks::Loaded,
        packed,
        num_values,
        dict,
        out,
    )
}

/// Unpacks indices of 5 bits and looks them up.
pub fn unpack_lookup_into_neon_bw5<T: Copy>(
    packed: &[u8],
    num_values: usize,
    dict: &[T],
    out: &mut Vec<T>,
) -> (r: Result<()>)
    ensures
        looks_up(
            r,
            old(out)@,
            final(out)@,
            "neon bw5 lookup"@,
            5,
            Blocks::Windowed(16),
            packed@,
            num_values as nat,
            dict@,
        ),
{
    lookup_kernel(
        "neon bw5 lookup",
        5,
        &Blocks::Windowed(16),
        packed,
        num_values,
        dict,
        out,
    )
}

/// Unpacks indices of 20 bits and looks them up.
pub fn unpack_lookup_into_neon_bw20<T: Copy>(
    packed: &[u8],
    num_values: usize,
    dict: &[T],
    out: &mut Vec<T>,
) -> (r: Result<()>)
    ensures
        looks_up(
            r,
            old(out)@,
            final(out)@,
            "neon bw20 lookup"@,
            20,
            Blocks::Windowed(26),
            packed@,
            num_values as nat,
            dict@,
        ),
{
    lookup_kernel(
        "neon bw20 lookup",
        20,
        &Blocks::Windowed(26),
        packed,
        num_values,
        dict,
        out,
    )
}

/// Unpacks indices of 21 bits and looks them up.
pub fn unpack_lookup_into_neon_bw21<T: Copy>(
    packed: &[u8],
    num_values: usize,
    dict: &[T],
    out: &mut Vec<T>,
) -> (r: Result<()>)
    ensures
        looks_up(
            r,
            old(out)@,
            final(out)@,
            "neon bw21 lookup"@,
            21,
            Blocks::Windowed(22),
            packed@,
            num_values as nat,
            dict@,
        ),
{
    lookup_kernel(
        "neon bw21 lookup",
        21,
        &Blocks::Windowed(22),
        packed,
        num_values,
        dict,
        out,
    )
}

/// Unpacks indices of 6 bits.
pub fn unpack_indices_into_neon_bw6(packed: &[u8], num_values: usize, out: &mut Vec<u32>) -> (r: Result<
    (),
>)
    ensures
        unpacks(
            r,
            old(out)@,
            final(out)@,
            "neon bw6"@,
            6,
            packed@,
            num_values as nat,
        ),
{
    unpack_kernel("neon bw6", 6, packed, num_values, out)
}

/// Unpacks indices of 7 bits.
pub fn unpack_indices_into_neon_bw7(packed: &[u8], num_values: usize, out: &mut Vec<u32>) -> (r: Result<
    (),
>)
    ensures
        unpacks(
            r,
            old(out)@,
            final(out)@,
            "neon bw7"@,
            7,
            packed@,
            num_values as nat,
        ),
{
    unpack_kernel("neon bw7", 7, packed, num_values, out)
}

/// Unpacks indices of 9 bits.
pub fn unpack_indices_into_neon_bw9(packed: &[u8], num_values: usize, out: &mut Vec<u32>) -> (r: Result<
    (),
>)
    ensures
        unpacks(
            r,
            old(out)@,
            final(out)@,
            "neon bw9"@,
            9,
            packed@,
            num_values as nat,
        ),
{
    unpack_kernel("neon bw9", 9, packed, num_values, out)
}

/// Unpacks indices of 10 bits.
pub fn unpack_indices_into_neon_bw10(packed: &[u8], num_values: usize, out: &mut Vec<u32>) -> (r: Result<
    (),
>)
    ensures
        unpacks(
            r,
            old(out)@,
            final(out)@,
            "neon bw10"@,
            10,
            packed@,
            num_values as nat,
        ),
{
    unpack_kernel("neon bw10", 10, packed, num_values, out)
}

/// Unpacks indices of 11 bits.
pub fn unpack_indices_into_neon_bw11(packed: &[u8], num_values: usize, out: &mut Vec<u32>) -> (r: Result<
    (),
>)
    ensures
        unpacks(
            r,
            old(out)@,
            final(out)@,
            "neon bw11"@,
            11,
            packed@,
            num_values as nat,
        ),
{
    unpack_kernel("neon bw11", 11, packed, num_values, out)
}

/// Unpacks indices of 13 bits.
pub fn unpack_indices_into_neon_bw13(packed: &[u8], num_values: usize, out: &mut Vec<u32>) -> (r: Result<
    (),
>)
    ensures
        unpacks(
            r,
            old(out)@,
            final(out)@,
            "neon bw13"@,
            13,
            packed@,
            num_values as nat,
        ),
{
    unpack_kernel("neon bw13", 13, packed, num_values, out)
}

/// Unpacks indices of 19 bits.
pub fn unpack_indices_into_neon_bw19(packed: &[u8], num_values: usize, out: &mut Vec<u32>) -> (r: Result<
    (),
>)
    ensures
        unpacks(
            r,
            old(out)@,
            final(out)@,
            "neon bw19"@,
            19,
            packed@,
            num_values as nat,
        ),
{
    unpack_kernel("neon bw19", 19, packed, num_values, out)
}

/// Unpacks indices of 32 bits.
pub fn unpack_indices_into_neon_bw32(packed: &[u8], num_values: usize, out: &mut Vec<u32>) -> (r: Result<
    (),
>)
    ensures
        unpacks(
            r,
            old(out)@,
            final(out)@,
            "neon bw32"@,
            32,
            packed@,
            num_values as nat,
        ),
{
    unpack_kernel("neon bw32", 32, packed, num_values, out)
}

/// Unpacks indices of 22 bits.
pub fn unpack_indices_into_neon_bw22(packed: &[u8], num_values: usize, out: &mut Vec<u32>) -> (r: Result<
    (),
>)
    ensures
        unpacks(
            r,
            old(out)@,
            final(out)@,
            "neon bw22"@,
            22,
            packed@,
            num_values as nat,
        ),
{
    unpack_kernel("neon bw22", 22, packed, num_values, out)
}

/// Unpacks indices of 23 bits.
pub fn unpack_indices_into_neon_bw23(packed: &[u8], num_values: usize, out: &mut Vec<u32>) -> (r: Result<
    (),
>)
    ensures
        unpacks(
            r,
            old(out)@,
            final(out)@,
            "neon bw23"@,
            23,
            packed@,
            num_values as nat,
        ),
{
    unpack_kernel("neon bw23", 23, packed, num_values, out)
}

/// Unpacks indices of 24 bits.
pub fn unpack_indices_into_neon_bw24(packed: &[u8], num_values: usize, out: &mut Vec<u32>) -> (r: Result<
    (),
>)
    ensures
        unpacks(
            r,
            old(out)@,
            final(out)@,
            "neon bw24"@,
            24,
            packed@,
            num_values as nat,
        ),
{
    unpack_kernel("neon bw24", 24, packed, num_values, out)
}

/// Unpacks indices of 25 bits.
pub fn unpack_indices_into_neon_bw25(packed: &[u8], num_values: usize, out: &mut Vec<u32>) -> (r: Result<
    (),
>)
    ensures
        unpacks(
            r,
            old(out)@,
            final(out)@,
            "neon bw25"@,
            25,
            packed@,
            num_values as nat,
        ),
{
    unpack_kernel("neon bw25", 25, packed, num_values, out)
}

/// Unpacks indices of 26 bits.
pub fn unpack_indices_into_neon_bw26(packed: &[u8], num_values: usize, out: &mut Vec<u32>) -> (r: Result<
    (),
>)
    ensures
        unpacks(
            r,
            old(out)@,
            final(out)@,
            "neon bw26"@,
            26,
            packed@,
            num_values as nat,
        ),
{
    unpack_kernel("neon bw26", 26, packed, num_values, out)
}

/// Unpacks indices of 27 bits.
pub fn unpack_indices_into_neon_bw27(packed: &[u8], num_values: usize, out: &mut Vec<u32>) -> (r: Result<
    (),
>)
    ensures
        unpacks(
            r,
            old(out)@,
            final(out)@,
            "neon bw27"@,
            27,
            packed@,
            num_values as nat,
        ),
{
    unpack_kernel("neon bw27", 27, packed, num_values, out)
}

/// Unpacks indices of 28 bits.
pub fn unpack_indices_into_neon_bw28(packed: &[u8], num_values: usize, out: &mut Vec<u32>) -> (r: Result<
    (),
>)
    ensures
        unpacks(
            r,
            old(out)@,
            final(out)@,
            "neon bw28"@,
            28,
            packed@,
            num_values as nat,
        ),
{
    unpack_kernel("neon bw28", 28, packed, num_values, out)
}

/// Unpacks indices of 29 bits.
pub fn unpack_indices_into_neon_bw29(packed: &[u8], num_values: usize, out: &mut Vec<u32>) -> (r: Result<
    (),
>)
    ensures
        unpacks(
            r,
            old(out)@,
            final(out)@,
            "neon bw29"@,
            29,
            packed@,
            num_values as nat,
        ),
{
    unpack_kernel("neon bw29", 29, packed, num_values, out)
}

/// Unpacks indices of 30 bits.
pub fn unpack_indices_into_neon_bw30(packed: &[u8], num_values: usize, out: &mut Vec<u32>) -> (r: Result<
    (),
>)
    ensures
        unpacks(
            r,
            old(out)@,
            final(out)@,
            "neon bw30"@,
            30,
            packed@,
            num_values as nat,
        ),
{
    unpack_kernel("neon bw30", 30, packed, num_values, out)
}

/// Unpacks indices of 31 bits.
pub fn unpack_indices_into_neon_bw31(packed: &[u8], num_values: usize, out: &mut Vec<u32>) -> (r: Result<
    (),
>)
    ensures
        unpacks(
            r,
            old(out)@,
            final(out)@,
            "neon bw31"@,
            31,
            packed@,
            num_values as nat,
        ),
{
    unpack_kernel("neon bw31", 31, packed, num_values, out)
}

} // verus!
