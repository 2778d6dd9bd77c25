//! What identifies the state of a source file.

use vstd::prelude::*;

use crate::error::{reports, CodecError, Fault, Result};
use crate::index::file::ParquetFile;
use crate::index::manifest::SourceFingerprint;
use crate::text::{dec, text1};

verus! {

/// One shift of the reflected CRC-32 register.
pub open spec fn crc_shift(c: u32) -> u32 {
    if c & 1 != 0 {
        0xEDB8_8320 ^ (c >> 1)
    } else {
        c >> 1
    }
}

/// `n` shifts of the register.
pub open spec fn crc_shifts(c: u32, n: nat) -> u32
    decreases n,
{
    if n == 0 {
        c
    } else {
        crc_shifts(crc_shift(c), (n - 1) as nat)
    }
}

/// The register after the bytes: each is added to the low end and shifted
/// through.
pub open spec fn crc_register(bytes: Seq<u8>) -> u32
    decreases bytes.len(),
{
    if bytes.len() == 0 {
        0xffff_ffff
    } else {
        crc_shifts(crc_register(bytes.drop_last()) ^ (bytes.last() as u32), 8)
    }
}

/// CRC-32 with polynomial 0xEDB88320, reflected, as zlib computes it.
pub open spec fn crc32(bytes: Seq<u8>) -> u32 {
    !crc_register(bytes)
}

/// The CRC-32 of `bytes`.
pub fn crc32_ieee(bytes: &[u8]) -> (crc: u32)
    ensures
        crc == crc32(bytes@),
{
    let mut c: u32 = 0xffff_ffff;
    let mut i: usize = 0;
    while i < bytes.len()
        invariant
            i <= bytes@.len(),
            c == crc_register(bytes@.take(i as int)),
        decreases bytes@.len() - i,
    {
        proof {
            assert(bytes@.take(i + 1).drop_last() =~= bytes@.take(i as int));
        }
        c = c ^ (bytes[i] as u32);
        let ghost start = c;
        let mut n: u32 = 8;
        while n > 0
            invariant
                n <= 8,
                crc_shifts(start, 8) == crc_shifts(c, n as nat),
            decreases n,
        {
            c = if c & 1 != 0 {
                0xEDB8_8320 ^ (c >> 1)
            } else {
                c >> 1
            };
            n = n - 1;
        }
        i = i + 1;
    }
    proof {
        assert(bytes@.take(i as int) =~= bytes@);
    }
    !c
}

/// The fingerprint of a file's current state, or the fault of a file whose
/// figures do not fit one.
pub open spec fn fingerprint_of_file(file: ParquetFile) -> std::result::Result<
    SourceFingerprint,
    Fault,
> {
    if file.footer@.len() > u32::MAX {
        Err(
            Fault::InvalidInput(
                "footer length "@ + dec(file.footer@.len())
                    + " exceeds u32 range (corrupted parquet?)"@,
            ),
        )
    } else if file.row_groups@.len() > u32::MAX {
        Err(
            Fault::InvalidInput(
                "num_row_groups "@ + dec(file.row_groups@.len()) + " exceeds u32 range"@,
            ),
        )
    } else {
        Ok(
            SourceFingerprint {
                footer_length: file.footer@.len() as u32,
                footer_crc32: crc32(file.footer@),
                num_rows: file.num_rows,
                num_row_groups: file.row_groups@.len() as u32,
            },
        )
    }
}

/// Computes the fingerprint of a file's current state.
pub fn compute_source_fingerprint(file: &ParquetFile) -> (r: Result<SourceFingerprint>)
    ensures
        match fingerprint_of_file(*file) {
            Ok(fp) => r is Ok && r->Ok_0 == fp,
            Err(f) => reports(r, Some(f)),
        },
{
    let footer_length: usize = file.footer.len();
    if footer_length as u128 > u32::MAX as u128 {
        return Err(
            CodecError::InvalidInput(
                text1(
                    "footer length ",
                    footer_length as u128,
                    " exceeds u32 range (corrupted parquet?)",
                ),
            ),
        );
    }
    let num_row_groups: usize = file.row_groups.len();
    if num_row_groups as u128 > u32::MAX as u128 {
        return Err(
            CodecError::InvalidInput(
                text1("num_row_groups ", num_row_groups as u128, " exceeds u32 range"),
            ),
        );
    }
    Ok(
        SourceFingerprint {
            footer_length: footer_length as u32,
            footer_crc32: crc32_ieee(file.footer.as_slice()),
            num_rows: file.num_rows,
            num_row_groups: num_row_groups as u32,
        },
    )
}

/// The register before a shift: the shift took its lowest bit out and, where
/// that bit was set, the polynomial in, whose highest bit is set.
pub open spec fn crc_unshift(c: u32) -> u32 {
    if c >= 0x8000_0000 {
        ((c ^ 0xEDB8_8320) << 1) | 1
    } else {
        c << 1
    }
}

/// The register before `n` shifts.
pub open spec fn crc_unshifts(c: u32, n: nat) -> u32
    decreases n,
{
    if n == 0 {
        c
    } else {
        crc_unshifts(crc_unshift(c), (n - 1) as nat)
    }
}

/// The register before the bytes, undone from the last to the first.
pub open spec fn crc_rewound(c: u32, bytes: Seq<u8>) -> u32
    decreases bytes.len(),
{
    if bytes.len() == 0 {
        c
    } else {
        crc_rewound(crc_unshifts(c, 8) ^ (bytes.last() as u32), bytes.drop_last())
    }
}

proof fn lemma_unshift(c: u32)
    ensures
        crc_unshift(crc_shift(c)) == c,
{
    let s: u32 = c >> 1;
    let t: u32 = 0xEDB8_8320 ^ s;
    assert(c & 1 != 0 ==> t >= 0x8000_0000 && ((t ^ 0xEDB8_8320) << 1) | 1 == c) by (bit_vector)
        requires
            s == c >> 1,
            t == 0xEDB8_8320 ^ s,
    ;
    assert(c & 1 == 0 ==> s < 0x8000_0000 && s << 1 == c) by (bit_vector)
        requires
            s == c >> 1,
    ;
}

proof fn lemma_unshifts_last(c: u32, n: nat)
    ensures
        crc_unshifts(c, n + 1) == crc_unshift(crc_unshifts(c, n)),
    decreases n,
{
    if n > 0 {
        lemma_unshifts_last(crc_unshift(c), (n - 1) as nat);
    } else {
        assert(crc_unshifts(crc_unshift(c), 0) == crc_unshift(c));
    }
}

proof fn lemma_unshifts(c: u32, n: nat)
    ensures
        crc_unshifts(crc_shifts(c, n), n) == c,
    decreases n,
{
    if n > 0 {
        let m = (n - 1) as nat;
        lemma_unshifts(crc_shift(c), m);
        lemma_unshifts_last(crc_shifts(c, n), m);
        lemma_unshift(c);
    }
}

/// The checksum leads back to the full register that every checksum starts
/// from, when the bytes are undone from the last to the first. As every step
/// of the undoing is one to one, no other number does.
pub proof fn law_checksum_rewinds(bytes: Seq<u8>)
    ensures
        crc_rewound(!crc32(bytes), bytes) == 0xffff_ffff,
    decreases bytes.len(),
{
    let c = crc_register(bytes);
    assert(!(!c) == c) by (bit_vector);
    if bytes.len() > 0 {
        let shorter = bytes.drop_last();
        let before = crc_register(shorter);
        let b = bytes.last() as u32;
        law_checksum_rewinds(shorter);
        assert(!(!before) == before) by (bit_vector);
        lemma_unshifts(before ^ b, 8);
        assert((before ^ b) ^ b == before) by (bit_vector);
    }
}

proof fn lemma_register_apart(a: Seq<u8>, b: Seq<u8>, more: Seq<u8>)
    requires
        crc_register(a + more) == crc_register(b + more),
    ensures
        crc_register(a) == crc_register(b),
    decreases more.len(),
{
    if more.len() > 0 {
        let rest = more.drop_last();
        let x = more.last() as u32;
        assert((a + more).drop_last() =~= a + rest);
        assert((b + more).drop_last() =~= b + rest);
        let (ra, rb) = (crc_register(a + rest), crc_register(b + rest));
        lemma_unshifts(ra ^ x, 8);
        lemma_unshifts(rb ^ x, 8);
        assert(ra == rb) by (bit_vector)
            requires
                ra ^ x == rb ^ x,
        ;
        lemma_register_apart(a, b, rest);
    } else {
        assert(a + more =~= a);
        assert(b + more =~= b);
    }
}

/// A checksum notices every change of one byte.
pub proof fn law_checksum_notices_a_byte(before: Seq<u8>, a: u8, b: u8, after: Seq<u8>)
    requires
        a != b,
    ensures
        crc32(before.push(a) + after) != crc32(before.push(b) + after),
{
    let (x, y) = (crc_register(before.push(a) + after), crc_register(before.push(b) + after));
    assert(!x == !y ==> x == y) by (bit_vector);
    if x == y {
        lemma_register_apart(before.push(a), before.push(b), after);
        assert(before.push(a).drop_last() =~= before);
        assert(before.push(b).drop_last() =~= before);
        let r = crc_register(before);
        let (wa, wb) = (a as u32, b as u32);
        lemma_unshifts(r ^ wa, 8);
        lemma_unshifts(r ^ wb, 8);
        assert(wa == wb) by (bit_vector)
            requires
                r ^ wa == r ^ wb,
        ;
    }
}

/// Files of one fingerprint have footers of one length and one checksum, and
/// as many rows and row groups; a file has a fingerprint unless its footer or
/// its row groups outgrow 32 bits.
pub proof fn law_fingerprint_tells_files_apart(a: ParquetFile, b: ParquetFile)
    ensures
        fingerprint_of_file(a) is Ok <==> a.footer@.len() <= u32::MAX && a.row_groups@.len()
            <= u32::MAX,
        fingerprint_of_file(a) is Ok && fingerprint_of_file(b) is Ok && fingerprint_of_file(a)
            == fingerprint_of_file(b) ==> {
            &&& a.footer@.len() == b.footer@.len()
            &&& crc32(a.footer@) == crc32(b.footer@)
            &&& a.num_rows == b.num_rows
            &&& a.row_groups@.len() == b.row_groups@.len()
        },
{
}

} // verus!
