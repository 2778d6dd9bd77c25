//! Decoding of many column chunks on many threads: what each worker does
//! with its target, and where it runs.

use vstd::prelude::*;

use crate::error::{CodecError, Result};

pub mod numa;

verus! {

/// Decodes one target, a row group and a column, unless the work has been
/// cancelled before it was begun.
pub fn decode_target<T, F: Fn(usize, usize) -> Result<T>>(
    cancelled: bool,
    target: (usize, usize),
    decode_one: F,
) -> (r: Result<T>)
    requires
        !cancelled ==> call_requires(decode_one, target),
    ensures
        cancelled ==> r is Err && r->Err_0 is Cancelled,
        !cancelled ==> call_ensures(decode_one, target, r),
{
    if cancelled {
        return Err(CodecError::Cancelled);
    }
    decode_one(target.0, target.1)
}

} // verus!
