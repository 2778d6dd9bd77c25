//! Encrypted modules.
//!
//! A module on disk is a length of four bytes, little end first, and then
//! what the length counts: a nonce of twelve bytes, the ciphertext, and a tag
//! of sixteen.

use vstd::arithmetic::power2::lemma2_to64;
use vstd::prelude::*;
use vstd::slice::slice_subrange;

use crate::error::{reports, CodecError, Fault, Result};
use crate::packing_laws::law_bytes_are_digits;
use crate::plain::le_bytes;
use crate::text::{dec, joined, text2};

verus! {

/// The bytes of a module's length.
pub const SIZE_PREFIX_LEN: usize = 4;

/// The bytes of a nonce.
pub const NONCE_LEN: usize = 12;

/// The bytes of an authentication tag.
pub const TAG_LEN: usize = 16;

/// What the pages of one column chunk are bound to when they are encrypted.
#[derive(Debug)]
pub struct ColumnDecryptContext<'a> {
    pub aad_prefix: Option<&'a [u8]>,
    pub aad_file_unique: &'a [u8],
    pub rg_ordinal: i16,
    pub col_ordinal: i16,
}

/// The fault of a module that cannot be decrypted.
pub open spec fn decrypt_fault(cause: Seq<char>) -> Fault {
    Fault::Decompress("PME decrypt failed: "@ + cause)
}

/// The fault of a module that ends early.
pub open spec fn short_fault(got: nat, need: nat) -> Fault {
    decrypt_fault("ciphertext too short: got "@ + dec(got) + " bytes, need "@ + dec(need) + ""@)
}

fn short_err(got: usize, need: u64) -> (e: CodecError)
    ensures
        e@ == short_fault(got as nat, need as nat),
{
    let cause: String = text2(
        "ciphertext too short: got ",
        got as u128,
        " bytes, need ",
        need as u128,
        "",
    );
    CodecError::Decompress(joined("PME decrypt failed: ", cause.as_str()))
}

/// The length that a module says it has.
pub open spec fn stated_size(bytes: Seq<u8>) -> nat {
    (bytes[0] as nat + 0x100 * bytes[1] as nat + 0x1_0000 * bytes[2] as nat + 0x100_0000
        * bytes[3] as nat) as nat
}

/// The nonce, the ciphertext with its tag, and the length of the module at
/// the start of bytes, or why there is none.
pub open spec fn frame_of(bytes: Seq<u8>) -> std::result::Result<(Seq<u8>, Seq<u8>, nat), Fault> {
    if bytes.len() < 4 {
        Err(short_fault(bytes.len(), 4))
    } else {
        let size = stated_size(bytes);
        if bytes.len() < 4 + size {
            Err(short_fault(bytes.len(), 4 + size))
        } else if size < 28 {
            Err(short_fault(size, 28))
        } else {
            Ok((bytes.subrange(4, 16), bytes.subrange(16, (4 + size) as int), 4 + size))
        }
    }
}

/// A module's parts.
#[derive(Debug)]
pub struct ModuleFrame<'a> {
    pub nonce: &'a [u8],
    /// The ciphertext and the tag after it.
    pub sealed: &'a [u8],
    /// The bytes of the whole module.
    pub total: usize,
}

/// Takes the module at the start of `bytes` apart.
pub fn module_frame<'a>(bytes: &'a [u8]) -> (r: Result<ModuleFrame<'a>>)
    ensures
        match frame_of(bytes@) {
            Err(f) => reports(r, Some(f)),
            Ok((nonce, sealed, total)) => {
                &&& r is Ok
                &&& r->Ok_0.nonce@ == nonce
                &&& r->Ok_0.sealed@ == sealed
                &&& r->Ok_0.total == total
            },
        },
{
    if bytes.len() < SIZE_PREFIX_LEN {
        return Err(short_err(bytes.len(), 4));
    }
    let size: u64 = bytes[0] as u64 + 0x100 * bytes[1] as u64 + 0x1_0000 * bytes[2] as u64
        + 0x100_0000 * bytes[3] as u64;
    let total: u64 = 4 + size;
    if (bytes.len() as u64) < total {
        return Err(short_err(bytes.len(), total));
    }
    if size < 28 {
        return Err(short_err(size as usize, 28));
    }
    let end: usize = total as usize;
    Ok(
        ModuleFrame {
            nonce: slice_subrange(bytes, 4, 16),
            sealed: slice_subrange(bytes, 16, end),
            total: end,
        },
    )
}

/// Decrypts the module at the start of `bytes`; gives the plaintext and the
/// bytes of the module. `open` decrypts a ciphertext with its tag under a
/// nonce and what the module is bound to, `aad`, or says why it cannot.
pub fn decrypt_module<F: Fn(&[u8], &[u8], &[u8]) -> std::result::Result<Vec<u8>, String>>(
    bytes: &[u8],
    aad: &[u8],
    open: F,
) -> (r: Result<(Vec<u8>, usize)>)
    requires
        forall|nonce: &[u8], sealed: &[u8]| #[trigger] call_requires(open, (nonce, aad, sealed)),
    ensures
        match frame_of(bytes@) {
            Err(f) => reports(r, Some(f)),
            Ok((nonce, sealed, total)) => exists|
                n: &[u8],
                s: &[u8],
                opened: std::result::Result<Vec<u8>, String>,
            |
                {
                    &&& n@ == nonce
                    &&& s@ == sealed
                    &&& #[trigger] call_ensures(open, (n, aad, s), opened)
                    &&& match opened {
                        Ok(plaintext) => r is Ok && r->Ok_0.0 == plaintext && r->Ok_0.1 == total,
                        Err(cause) => reports(r, Some(decrypt_fault(cause@))),
                    }
                },
        },
{
    let frame = match module_frame(bytes) {
        Ok(f) => f,
        Err(e) => {
            return Err(e);
        },
    };
    match open(frame.nonce, aad, frame.sealed) {
        Ok(plaintext) => Ok((plaintext, frame.total)),
        Err(cause) => Err(
            CodecError::Decompress(joined("PME decrypt failed: ", cause.as_str())),
        ),
    }
}

/// What follows a module does not change it: modules lie one after another.
pub proof fn law_module_ends_where_it_says(bytes: Seq<u8>, rest: Seq<u8>)
    requires
        frame_of(bytes) is Ok,
    ensures
        frame_of(bytes + rest) == frame_of(bytes),
{
    let total = frame_of(bytes)->Ok_0.2;
    assert((bytes + rest).subrange(4, 16) =~= bytes.subrange(4, 16));
    assert((bytes + rest).subrange(16, total as int) =~= bytes.subrange(16, total as int));
}

/// A module as a writer lays it out, its length, its nonce, its ciphertext
/// with its tag, is taken apart into just these, whatever follows.
pub proof fn law_module_round_trips(nonce: Seq<u8>, sealed: Seq<u8>, rest: Seq<u8>)
    requires
        nonce.len() == NONCE_LEN,
        sealed.len() >= TAG_LEN,
        nonce.len() + sealed.len() <= u32::MAX,
    ensures
        frame_of(le_bytes(nonce.len() + sealed.len(), 4) + nonce + sealed + rest) == Ok::<
            (Seq<u8>, Seq<u8>, nat),
            Fault,
        >((nonce, sealed, 4 + nonce.len() + sealed.len())),
{
    let size = nonce.len() + sealed.len();
    let head = le_bytes(size, 4);
    let bytes = head + nonce + sealed + rest;
    lemma2_to64();
    law_bytes_are_digits(size, 4, 0);
    law_bytes_are_digits(size, 4, 1);
    law_bytes_are_digits(size, 4, 2);
    law_bytes_are_digits(size, 4, 3);
    assert(bytes[0] == head[0] && bytes[1] == head[1] && bytes[2] == head[2] && bytes[3]
        == head[3]);
    let (a, b, c) = (size / 0x100, size / 0x1_0000, size / 0x100_0000);
    assert(size == size % 256 + 256 * a && a == a % 256 + 256 * (a / 256) && b == b % 256 + 256 * (b
        / 256));
    assert(a / 256 == b && b / 256 == c && c % 256 == c);
    assert(stated_size(bytes) == size);
    assert(bytes.subrange(4, 16) =~= nonce);
    assert(bytes.subrange(16, (4 + size) as int) =~= sealed);
}

} // verus!
