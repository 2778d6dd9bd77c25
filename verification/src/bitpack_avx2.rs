//! The kernels of the x86 family, by bit width.

use vstd::prelude::*;

use crate::bitpack_kernels::{
    looks_up, lookup_kernel, unpack_kernel, unpacks, Blocks,
};
use crate::error::Result;

verus! {

/// Unpacks indices of 16 bits.
pub fn unpack_indices_into_avx2_bw16(packed: &[u8], num_values: usize, out: &mut Vec<u32>) -> (r: Result<
    (),
>)
    ensures
        unpacks(
            r,
            old(out)@,
            final(out)@,
            "avx2 bw16"@,
            16,
            packed@,
            num_values as nat,
        ),
{
    unpack_kernel("avx2 bw16", 16, packed, num_values, out)
}

/// Unpacks indices of 16 bits and looks them up.
pub fn unpack_lookup_into_avx2_bw16<T: Copy>(
    packed: &[u8],
    num_values: usize,
    dict: &[T],
    out: &mut Vec<T>,
) -> (r: Result<()>)
    ensures
        looks_up(
            r,
            old(out)@,
            final(out)@,
            "avx2 bw16 lookup"@,
            16,
            Blocks::Whole(8),
            packed@,
            num_values as nat,
            dict@,
        ),
{
    lookup_kernel(
        "avx2 bw16 lookup",
        16,
        &Blocks::Whole(8),
        packed,
        num_values,
        dict,
        out,
    )
}

/// Unpacks indices of 14 bits.
pub fn unpack_indices_into_avx2_bw14(packed: &[u8], num_values: usize, out: &mut Vec<u32>) -> (r: Result<
    (),
>)
    ensures
        unpacks(
            r,
            old(out)@,
            final(out)@,
            "avx2 bw14"@,
            14,
            packed@,
            num_values as nat,
        ),
{
    unpack_kernel("avx2 bw14", 14, packed, num_values, out)
}

/// Unpacks indices of 14 bits and looks them up.
pub fn unpack_lookup_into_avx2_bw14<T: Copy>(
    packed: &[u8],
    num_values: usize,
    dict: &[T],
    out: &mut Vec<T>,
) -> (r: Result<()>)
    ensures
        looks_up(
            r,
            old(out)@,
            final(out)@,
            "avx2 bw14 lookup"@,
            14,
            Blocks::Windowed(16),
            packed@,
            num_values as nat,
            dict@,
        ),
{
    lookup_kernel(
        "avx2 bw14 lookup",
        14,
        &Blocks::Windowed(16),
        packed,
        num_values,
        dict,
        out,
    )
}

/// Unpacks indices of 15 bits.
pub fn unpack_indices_into_avx2_bw15(packed: &[u8], num_values: usize, out: &mut Vec<u32>) -> (r: Result<
    (),
>)
    ensures
        unpacks(
            r,
            old(out)@,
            final(out)@,
            "avx2 bw15"@,
            15,
            packed@,
            num_values as nat,
        ),
{
    unpack_kernel("avx2 bw15", 15, packed, num_values, out)
}

/// Unpacks indices of 15 bits and looks them up.
pub fn unpack_lookup_into_avx2_bw15<T: Copy>(
    packed: &[u8],
    num_values: usize,
    dict: &[T],
    out: &mut Vec<T>,
) -> (r: Result<()>)
    ensures
        looks_up(
            r,
            old(out)@,
            final(out)@,
            "avx2 bw15 lookup"@,
            15,
            Blocks::Windowed(24),
            packed@,
            num_values as nat,
            dict@,
        ),
{
    lookup_kernel(
        "avx2 bw15 lookup",
        15,
        &Blocks::Windowed(24),
        packed,
        num_values,
        dict,
        out,
    )
}

/// Unpacks indices of 17 bits.
pub fn unpack_indices_into_avx2_bw17(packed: &[u8], num_values: usize, out: &mut Vec<u32>) -> (r: Result<
    (),
>)
    ensures
        unpacks(
            r,
            old(out)@,
            final(out)@,
            "avx2 bw17"@,
            17,
            packed@,
            num_values as nat,
        ),
{
    unpack_kernel("avx2 bw17", 17, packed, num_values, out)
}

/// Unpacks indices of 17 bits and looks them up.
pub fn unpack_lookup_into_avx2_bw17<T: Copy>(
    packed: &[u8],
    num_values: usize,
    dict: &[T],
    out: &mut Vec<T>,
) -> (r: Result<()>)
    ensures
        looks_up(
            r,
            old(out)@,
            final(out)@,
            "avx2 bw17 lookup"@,
            17,
            Blocks::Windowed(24),
            packed@,
            num_values as nat,
            dict@,
        ),
{
    lookup_kernel(
        "avx2 bw17 lookup",
        17,
        &Blocks::Windowed(24),
        packed,
        num_values,
        dict,
        out,
    )
}

/// Unpacks indices of 18 bits.
pub fn unpack_indices_into_avx2_bw18(packed: &[u8], num_values: usize, out: &mut Vec<u32>) -> (r: Result<
    (),
>)
    ensures
        unpacks(
            r,
            old(out)@,
            final(out)@,
            "avx2 bw18"@,
            18,
            packed@,
            num_values as nat,
        ),
{
    unpack_kernel("avx2 bw18", 18, packed, num_values, out)
}

/// Unpacks indices of 18 bits and looks them up.
pub fn unpack_lookup_into_avx2_bw18<T: Copy>(
    packed: &[u8],
    num_values: usize,
    dict: &[T],
    out: &mut Vec<T>,
) -> (r: Result<()>)
    ensures
        looks_up(
            r,
            old(out)@,
            final(out)@,
            "avx2 bw18 lookup"@,
            18,
            Blocks::Windowed(24),
            packed@,
            num_values as nat,
            dict@,
        ),
{
    lookup_kernel(
        "avx2 bw18 lookup",
        18,
        &Blocks::Windowed(24),
        packed,
        num_values,
        dict,
        out,
    )
}

/// Unpacks indices of 12 bits.
pub fn unpack_indices_into_avx2_bw12(packed: &[u8], num_values: usize, out: &mut Vec<u32>) -> (r: Result<
    (),
>)
    ensures
        unpacks(
            r,
            old(out)@,
            final(out)@,
            "avx2 bw12"@,
            12,
            packed@,
            num_values as nat,
        ),
{
    unpack_kernel("avx2 bw12", 12, packed, num_values, out)
}

/// Unpacks indices of 12 bits and looks them up.
pub fn unpack_lookup_into_avx2_bw12<T: Copy>(
    packed: &[u8],
    num_values: usize,
    dict: &[T],
    out: &mut Vec<T>,
) -> (r: Result<()>)
    ensures
        looks_up(
            r,
            old(out)@,
            final(out)@,
            "avx2 bw12 lookup"@,
            12,
            Blocks::Windowed(16),
            packed@,
            num_values as nat,
            dict@,
        ),
{
    lookup_kernel(
        "avx2 bw12 lookup",
        12,
        &Blocks::Windowed(16),
        packed,
        num_values,
        dict,
        out,
    )
}

/// Unpacks indices of 8 bits.
pub fn unpack_indices_into_avx2_bw8(packed: &[u8], num_values: usize, out: &mut Vec<u32>) -> (r: Result<
    (),
>)
    ensures
        unpacks(
            r,
            old(out)@,
            final(out)@,
            "avx2 bw8"@,
            8,
            packed@,
            num_values as nat,
        ),
{
    unpack_kernel("avx2 bw8", 8, packed, num_values, out)
}

/// Unpacks indices of 4 bits.
pub fn unpack_indices_into_avx2_bw4(packed: &[u8], num_values: usize, out: &mut Vec<u32>) -> (r: Result<
    (),
>)
    ensures
        unpacks(
            r,
            old(out)@,
            final(out)@,
            "avx2 bw4"@,
            4,
            packed@,
            num_values as nat,
        ),
{
    unpack_kernel("avx2 bw4", 4, packed, num_values, out)
}

/// Unpacks indices of 4 bits and looks them up.
pub fn unpack_lookup_into_avx2_bw4<T: Copy>(
    packed: &[u8],
    num_values: usize,
    dict: &[T],
    out: &mut Vec<T>,
) -> (r: Result<()>)
    ensures
        looks_up(
            r,
            old(out)@,
            final(out)@,
            "avx2 bw4 lookup"@,
            4,
            Blocks::Whole(32),
            packed@,
            num_values as nat,
            dict@,
        ),
{
    lookup_kernel(
        "avx2 bw4 lookup",
        4,
        &Blocks::Whole(32),
        packed,
        num_values,
        dict,
        out,
    )
}

/// Unpacks indices of 6 bits and looks them up.
pub fn unpack_lookup_into_avx2_bw6<T: Copy>(
    packed: &[u8],
    num_values: usize,
    dict: &[T],
    out: &mut Vec<T>,
) -> (r: Result<()>)
    ensures
        looks_up(
            r,
            old(out)@,
            final(out)@,
            "avx2 bw6 lookup"@,
            6,
            Blocks::Loaded,
            packed@,
            num_values as nat,
            dict@,
        ),
{
    lookup_kernel(
        "avx2 bw6 lookup",
        6,
        &Blocks::Loaded,
        packed,
        num_values,
        dict,
        out,
    )
}

/// Unpacks indices of 8 bits and looks them up.
pub fn unpack_lookup_into_avx2_bw8<T: Copy>(
    packed: &[u8],
    num_values: usize,
    dict: &[T],
    out: &mut Vec<T>,
) -> (r: Result<()>)
    ensures
        looks_up(
            r,
            old(out)@,
            final(out)@,
            "avx2 bw8 lookup"@,
            8,
            Blocks::Whole(32),
            packed@,
            num_values as nat,
            dict@,
        ),
{
    lookup_kernel(
        "avx2 bw8 lookup",
        8,
        &Blocks::Whole(32),
        packed,
        num_values,
        dict,
        out,
    )
}

/// Unpacks indices of 2 bits.
pub fn unpack_indices_into_avx2_bw2(packed: &[u8], num_values: usize, out: &mut Vec<u32>) -> (r: Result<
    (),
>)
    ensures
        unpacks(
            r,
            old(out)@,
            final(out)@,
            "avx2 bw2"@,
            2,
            packed@,
            num_values as nat,
        ),
{
    unpack_kernel("avx2 bw2", 2, packed, num_values, out)
}

/// Unpacks indices of 3 bits.
pub fn unpack_indices_into_avx2_bw3(packed: &[u8], num_values: usize, out: &mut Vec<u32>) -> (r: Result<
    (),
>)
    ensures
        unpacks(
            r,
            old(out)@,
            final(out)@,
            "avx2 bw3"@,
            3,
            packed@,
            num_values as nat,
        ),
{
    unpack_kernel("avx2 bw3", 3, packed, num_values, out)
}

/// Unpacks indices of 1 bit.
pub fn unpack_indices_into_avx2_bw1(packed: &[u8], num_values: usize, out: &mut Vec<u32>) -> (r: Result<
    (),
>)
    ensures
        unpacks(
            r,
            old(out)@,
            final(out)@,
            "avx2 bw1"@,
            1,
            packed@,
            num_values as nat,
        ),
{
    unpack_kernel("avx2 bw1", 1, packed, num_values, out)
}

/// Unpacks indices of 20 bits.
pub fn unpack_indices_into_avx2_bw20(packed: &[u8], num_values: usize, out: &mut Vec<u32>) -> (r: Result<
    (),
>)
    ensures
        unpacks(
            r,
            old(out)@,
            final(out)@,
            "avx2 bw20"@,
            20,
            packed@,
            num_values as nat,
        ),
{
    unpack_kernel("avx2 bw20", 20, packed, num_values, out)
}

/// Unpacks indices of 21 bits.
pub fn unpack_indices_into_avx2_bw21(packed: &[u8], num_values: usize, out: &mut Vec<u32>) -> (r: Result<
    (),
>)
    ensures
        unpacks(
            r,
            old(out)@,
            final(out)@,
            "avx2 bw21"@,
            21,
            packed@,
            num_values as nat,
        ),
{
    unpack_kernel("avx2 bw21", 21, packed, num_values, out)
}

/// Unpacks indices of 5 bits.
pub fn unpack_indices_into_avx2_bw5(packed: &[u8], num_values: usize, out: &mut Vec<u32>) -> (r: Result<
    (),
>)
    ensures
        unpacks(
            r,
            old(out)@,
            final(out)@,
            "avx2 bw5"@,
            5,
            packed@,
            num_values as nat,
        ),
{
    unpack_kernel("avx2 bw5", 5, packed, num_values, out)
}

} // verus!
