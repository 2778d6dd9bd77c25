//! Delta-encoded columns.
//!
//! A packed delta stream opens with four variable-length integers: the
//! block size, the mini-blocks per block, the number of values and the
//! first value. Each block that follows carries the smallest delta of the
//! block, one bit width per mini-block, and the mini-blocks' packed deltas.
//! A value is the one before it plus the smallest delta plus its own.

use vstd::prelude::*;
use vstd::slice::{slice_subrange, slice_to_vec};

use crate::bitpack::lemma_field_inside;
use crate::bits::{field, packed_len, read_field, unpacked, BitPos};
use crate::cursor::{lemma_uvarint_bounds, uvarint, zigzag_i32, zigzag_i64, Cursor};
use crate::error::{reports, CodecError, Fault, FormatError, Outcome, Result};
use crate::wrap::{as_i32, lemma_wrap32_of_wrap64, lemma_wrap64_shift, wrap32, wrap64};

verus! {

/// The values of a delta stream before they are cut to their type's width,
/// the position after the stream, and the fault that ended it, if any.
pub struct DeltaRun {
    pub sums: Seq<int>,
    pub end: nat,
    pub fault: Option<Fault>,
}

impl DeltaRun {
    pub open spec fn after(self, before: Seq<int>) -> DeltaRun {
        DeltaRun { sums: before + self.sums, end: self.end, fault: self.fault }
    }
}

pub open spec fn delta_fault(message: Seq<char>) -> Fault {
    Fault::Decompress("DELTA_BINARY_PACKED: "@ + message)
}

/// A stream that hands out nothing.
pub open spec fn delta_stop(end: nat, fault: Option<Fault>) -> DeltaRun {
    DeltaRun { sums: Seq::empty(), end, fault }
}

/// Running sums: each value is the one before it plus `min_delta` plus its
/// delta.
pub open spec fn running(prev: int, min_delta: int, deltas: Seq<nat>) -> Seq<int>
    decreases deltas.len(),
{
    if deltas.len() == 0 {
        Seq::empty()
    } else {
        let before = running(prev, min_delta, deltas.drop_last());
        before.push(
            (if before.len() == 0 {
                prev
            } else {
                before.last()
            }) + min_delta + deltas.last(),
        )
    }
}

/// Why a mini-block of `width` bits at `pos` cannot be read. Widths above 32
/// are refused: in a stream of 64-bit values at once, in one of 32-bit
/// values once the mini-block's bytes are there.
pub open spec fn mini_fault(
    bytes: Seq<u8>,
    pos: nat,
    mini_size: nat,
    width: u8,
    wide: bool,
) -> Option<Fault> {
    if wide && width > 32 {
        Some(
            delta_fault(
                "i64 DELTA with bit_width > 32 not yet supported (unusual in practice; writer would normally emit PLAIN)"@,
            ),
        )
    } else if pos + (mini_size * width) / 8 > bytes.len() {
        Some(Fault::Wire(FormatError::UnexpectedEof))
    } else if width > 32 {
        Some(Fault::BitWidthOutOfRange(width))
    } else if (mini_size * width) % 8 != 0 {
        Some(delta_fault("mini-block is not a whole number of bytes"@))
    } else {
        None
    }
}

#[via_fn]
proof fn delta_walk_decreases(
    bytes: Seq<u8>,
    pos: nat,
    mini_size: nat,
    minis: nat,
    widths: Seq<u8>,
    min_delta: int,
    prev: int,
    remaining: nat,
    wide: bool,
) {
    lemma_uvarint_bounds(bytes, pos);
    if widths.len() > 0 {
        assert(mini_size * widths[0] >= 0) by (nonlinear_arith)
            requires
                mini_size >= 0,
                widths[0] >= 0,
        ;
    }
}

/// The next `remaining` values: from the mini-blocks whose `widths` are
/// still to come in this block, and from the blocks after it.
pub open spec fn delta_walk(
    bytes: Seq<u8>,
    pos: nat,
    mini_size: nat,
    minis: nat,
    widths: Seq<u8>,
    min_delta: int,
    prev: int,
    remaining: nat,
    wide: bool,
) -> DeltaRun
    decreases bytes.len() - pos, widths.len(),
    via delta_walk_decreases
{
    if remaining == 0 {
        delta_stop(pos, None)
    } else if widths.len() == 0 {
        match zigzag_i64(bytes, pos) {
            Err(e) => delta_stop(pos, Some(Fault::Wire(e))),
            Ok((smallest, body)) => if minis > 64 {
                delta_stop(pos, Some(delta_fault("mini_blocks_per_block too large"@)))
            } else if body + minis > bytes.len() {
                delta_stop(pos, Some(Fault::Wire(FormatError::UnexpectedEof)))
            } else {
                delta_walk(
                    bytes,
                    body + minis,
                    mini_size,
                    minis,
                    bytes.subrange(body as int, (body + minis) as int),
                    smallest,
                    prev,
                    remaining,
                    wide,
                )
            },
        }
    } else {
        match mini_fault(bytes, pos, mini_size, widths[0], wide) {
            Some(f) => delta_stop(pos, Some(f)),
            None => {
                let len = (mini_size * widths[0]) as nat / 8;
                let n = if mini_size <= remaining {
                    mini_size
                } else {
                    remaining
                };
                let chunk = bytes.subrange(pos as int, (pos + len) as int);
                let sums = running(prev, min_delta, unpacked(chunk, widths[0] as nat, n));
                delta_walk(
                    bytes,
                    pos + len,
                    mini_size,
                    minis,
                    widths.skip(1),
                    min_delta,
                    if n == 0 {
                        prev
                    } else {
                        sums.last()
                    },
                    (remaining - n) as nat,
                    wide,
                ).after(sums)
            },
        }
    }
}

/// The delta stream at `pos`. `wide` streams carry 64-bit values.
pub open spec fn delta_stream(bytes: Seq<u8>, pos: nat, wide: bool) -> DeltaRun {
    match uvarint(bytes, pos) {
        Err(e) => delta_stop(pos, Some(Fault::Wire(e))),
        Ok((block_size, p1)) => match uvarint(bytes, p1) {
            Err(e) => delta_stop(pos, Some(Fault::Wire(e))),
            Ok((minis, p2)) => match uvarint(bytes, p2) {
                Err(e) => delta_stop(pos, Some(Fault::Wire(e))),
                Ok((count, p3)) => match if wide {
                    zigzag_i64(bytes, p3)
                } else {
                    zigzag_i32(bytes, p3)
                } {
                    Err(e) => delta_stop(pos, Some(Fault::Wire(e))),
                    Ok((first, body)) => delta_body(
                        bytes,
                        body,
                        block_size,
                        minis,
                        count,
                        first,
                        wide,
                    ),
                },
            },
        },
    }
}

/// What follows the four opening integers of a delta stream.
pub open spec fn delta_body(
    bytes: Seq<u8>,
    pos: nat,
    block_size: nat,
    minis: nat,
    count: nat,
    first: int,
    wide: bool,
) -> DeltaRun {
    if count == 0 {
        delta_stop(pos, None)
    } else if minis == 0 {
        delta_stop(pos, Some(delta_fault("mini_blocks_per_block must be > 0"@)))
    } else if block_size % minis != 0 {
        delta_stop(
            pos,
            Some(delta_fault("block_size must be a multiple of mini_blocks_per_block"@)),
        )
    } else {
        delta_walk(
            bytes,
            pos,
            block_size / minis,
            minis,
            Seq::empty(),
            0,
            first,
            (count - 1) as nat,
            wide,
        ).after(seq![first])
    }
}

/// `base + a + b`, cut to 64 bits.
fn wrapping_sum(base: i64, a: i64, b: u32) -> (r: i64)
    ensures
        forall|x: int| base == wrap64(x) ==> r == #[trigger] wrap64(x + a + b),
{
    let mut sum: i128 = base as i128 + a as i128 + b as i128;
    let ghost exact = base + a + b;
    if sum >= 0x8000_0000_0000_0000 {
        sum = sum - 0x1_0000_0000_0000_0000;
    }
    if sum >= 0x8000_0000_0000_0000 {
        sum = sum - 0x1_0000_0000_0000_0000;
    }
    if sum < -0x8000_0000_0000_0000 {
        sum = sum + 0x1_0000_0000_0000_0000;
    }
    proof {
        assert(sum == wrap64(exact));
        assert forall|x: int| base == wrap64(x) implies sum == #[trigger] wrap64(x + a + b) by {
            let k = (x + 0x8000_0000_0000_0000) / 0x1_0000_0000_0000_0000;
            assert(x == base + 0x1_0000_0000_0000_0000 * k);
            lemma_wrap64_shift(exact, k);
        }
    }
    sum as i64
}

fn delta_err(message: &str) -> (e: CodecError)
    ensures
        e@ == delta_fault(message@),
{
    let mut s: String = "DELTA_BINARY_PACKED: ".to_string();
    s.append(message);
    CodecError::Decompress(s)
}

/// Appends the running sums of `n` packed deltas and returns the last one.
fn push_mini_block(
    chunk: &[u8],
    n: u64,
    width: u8,
    min_delta: i64,
    prev: i64,
    out: &mut Vec<i64>,
    Ghost(exact): Ghost<int>,
) -> (last: i64)
    requires
        width <= 32,
        packed_len(n as nat, width as nat) <= chunk@.len(),
        prev == wrap64(exact),
    ensures
        ({
            let sums = running(exact, min_delta as int, unpacked(chunk@, width as nat, n as nat));
            &&& final(out)@ == old(out)@ + sums.map_values(|x: int| wrap64(x))
            &&& sums.len() == n
            &&& last == wrap64(if n == 0 {
                exact
            } else {
                sums.last()
            })
        }),
{
    let ghost deltas = unpacked(chunk@, width as nat, n as nat);
    let ghost start = out@;
    let chunk_len: usize = chunk.len();
    let mut last: i64 = prev;
    let mut k: u64 = 0;
    let mut at = BitPos::start();
    proof {
        assert(running(exact, min_delta as int, deltas.take(0)) =~= Seq::empty());
        assert(out@ =~= start + running(exact, min_delta as int, deltas.take(0)).map_values(
            |x: int| wrap64(x),
        ));
    }
    while k < n
        invariant
            k <= n,
            width <= 32,
            packed_len(n as nat, width as nat) <= chunk@.len(),
            chunk_len == chunk@.len(),
            at.wf(),
            at.bit() == k * width,
            deltas == unpacked(chunk@, width as nat, n as nat),
            running(exact, min_delta as int, deltas.take(k as int)).len() == k,
            out@ == start + running(exact, min_delta as int, deltas.take(k as int)).map_values(
                |x: int| wrap64(x),
            ),
            last == wrap64(
                if k == 0 {
                    exact
                } else {
                    running(exact, min_delta as int, deltas.take(k as int)).last()
                },
            ),
        decreases n - k,
    {
        let ghost sums = running(exact, min_delta as int, deltas.take(k as int));
        proof {
            lemma_field_inside(chunk@.len(), width as nat, n as nat, k as nat);
            assert(deltas[k as int] == field(chunk@, at.bit(), width as nat));
            assert(deltas.take(k + 1).drop_last() =~= deltas.take(k as int));
        }
        let delta: u32 = read_field(chunk, &at, width as u32);
        last = wrapping_sum(last, min_delta, delta);
        out.push(last);
        at.advance(width);
        proof {
            assert((k + 1) * width == k * width + width) by (nonlinear_arith);
            let next = running(exact, min_delta as int, deltas.take(k + 1));
            assert(out@ =~= start + next.map_values(|x: int| wrap64(x)));
        }
        k = k + 1;
    }
    proof {
        assert(deltas.take(n as int) =~= deltas);
    }
    last
}

/// Reads what follows the four opening integers of a delta stream, each
/// value cut to 64 bits.
fn read_delta_body(
    cur: &mut Cursor<'_>,
    block_size: u64,
    minis: u64,
    count: u64,
    first: i64,
    wide: bool,
) -> (r: Result<Vec<i64>>)
    ensures
        final(cur).bytes() == old(cur).bytes(),
        ({
            let d = delta_body(
                old(cur).bytes(),
                old(cur).at(),
                block_size as nat,
                minis as nat,
                count as nat,
                first as int,
                wide,
            );
            &&& reports(r, d.fault)
            &&& r is Ok ==> r->Ok_0@ == d.sums.map_values(|x: int| wrap64(x)) && final(cur).at()
                == d.end
        }),
{
    let mut out: Vec<i64> = Vec::new();
    if count == 0 {
        proof {
            assert(out@ =~= Seq::<int>::empty().map_values(|x: int| wrap64(x)));
        }
        return Ok(out);
    }
    if minis == 0 {
        return Err(delta_err("mini_blocks_per_block must be > 0"));
    }
    if block_size % minis != 0 {
        return Err(delta_err("block_size must be a multiple of mini_blocks_per_block"));
    }
    let mini_size: u64 = block_size / minis;
    let ghost bytes = cur.bytes();
    let ghost whole = delta_body(
        bytes,
        cur.at(),
        block_size as nat,
        minis as nat,
        count as nat,
        first as int,
        wide,
    );
    out.push(first);
    let ghost mut exact: int = first as int;
    let ghost mut done: Seq<int> = seq![first as int];
    let mut prev: i64 = first;
    let mut remaining: u64 = count - 1;
    let mut min_delta: i64 = 0;
    let mut widths: Vec<u8> = Vec::new();
    let mut next: usize = 0;
    proof {
        assert(widths@.skip(0) =~= Seq::empty());
        assert(out@ =~= done.map_values(|x: int| wrap64(x)));
    }
    while remaining > 0
        invariant
            cur.bytes() == bytes,
            bytes == old(cur).bytes(),
            minis > 0,
            next <= widths@.len(),
            prev == wrap64(exact),
            out@ == done.map_values(|x: int| wrap64(x)),
            whole == delta_body(
                bytes,
                old(cur).at(),
                block_size as nat,
                minis as nat,
                count as nat,
                first as int,
                wide,
            ),
            whole == delta_walk(
                bytes,
                cur.at(),
                mini_size as nat,
                minis as nat,
                widths@.skip(next as int),
                min_delta as int,
                exact,
                remaining as nat,
                wide,
            ).after(done),
        decreases bytes.len() - cur.at(), widths@.len() - next,
    {
        proof {
            lemma_uvarint_bounds(bytes, cur.at());
        }
        if next == widths.len() {
            min_delta = match cur.read_zigzag_i64() {
                Ok(m) => m,
                Err(e) => {
                    return Err(CodecError::Wire(e));
                },
            };
            if minis > 64 {
                return Err(delta_err("mini_blocks_per_block too large"));
            }
            widths = match cur.take(minis as usize) {
                Ok(s) => slice_to_vec(s),
                Err(e) => {
                    return Err(CodecError::Wire(e));
                },
            };
            next = 0;
            proof {
                assert(widths@.skip(0) =~= widths@);
            }
        } else {
            let width: u8 = widths[next];
            let ghost pending = widths@.skip(next as int);
            let ghost pos = cur.at();
            proof {
                assert(pending.skip(1) =~= widths@.skip(next + 1));
                assert(0 <= mini_size * width <= 0xffff_ffff_ffff_ffff * 255) by (nonlinear_arith)
                    requires
                        0 <= mini_size <= 0xffff_ffff_ffff_ffff,
                        0 <= width <= 255,
                ;
            }
            if wide && width > 32 {
                return Err(
                    delta_err(
                        "i64 DELTA with bit_width > 32 not yet supported (unusual in practice; writer would normally emit PLAIN)",
                    ),
                );
            }
            let bits: u128 = mini_size as u128 * width as u128;
            let len: u128 = bits / 8;
            if len > cur.remaining() as u128 {
                return Err(CodecError::Wire(FormatError::UnexpectedEof));
            }
            let chunk = match cur.take(len as usize) {
                Ok(s) => s,
                Err(e) => {
                    return Err(CodecError::Wire(e));
                },
            };
            if width > 32 {
                return Err(CodecError::BitWidthOutOfRange(width));
            }
            if bits % 8 != 0 {
                return Err(delta_err("mini-block is not a whole number of bytes"));
            }
            let n: u64 = if mini_size <= remaining {
                mini_size
            } else {
                remaining
            };
            proof {
                assert(n * width <= mini_size * width) by (nonlinear_arith)
                    requires
                        n <= mini_size,
                ;
            }
            let ghost deltas = unpacked(chunk@, width as nat, n as nat);
            let ghost sums = running(exact, min_delta as int, deltas);
            prev = push_mini_block(chunk, n, width, min_delta, prev, &mut out, Ghost(exact));
            remaining = remaining - n;
            next = next + 1;
            proof {
                exact = if n == 0 {
                    exact
                } else {
                    sums.last()
                };
                let rest = delta_walk(
                    bytes,
                    cur.at(),
                    mini_size as nat,
                    minis as nat,
                    widths@.skip(next as int),
                    min_delta as int,
                    exact,
                    remaining as nat,
                    wide,
                );
                assert((done + sums) + rest.sums =~= done + (sums + rest.sums));
                done = done + sums;
                assert(out@ =~= done.map_values(|x: int| wrap64(x)));
            }
        }
    }
    proof {
        assert(whole.sums =~= done);
    }
    Ok(out)
}

/// Reads one delta stream of 64-bit values and leaves the cursor after it.
pub fn decode_delta_i64_from(cur: &mut Cursor<'_>) -> (r: Result<Vec<i64>>)
    ensures
        final(cur).bytes() == old(cur).bytes(),
        ({
            let d = delta_stream(old(cur).bytes(), old(cur).at(), true);
            &&& reports(r, d.fault)
            &&& r is Ok ==> r->Ok_0@ == d.sums.map_values(|x: int| wrap64(x)) && final(cur).at()
                == d.end
        }),
{
    let block_size: u64 = match cur.read_uvarint() {
        Ok(v) => v,
        Err(e) => {
            return Err(CodecError::Wire(e));
        },
    };
    let minis: u64 = match cur.read_uvarint() {
        Ok(v) => v,
        Err(e) => {
            return Err(CodecError::Wire(e));
        },
    };
    let count: u64 = match cur.read_uvarint() {
        Ok(v) => v,
        Err(e) => {
            return Err(CodecError::Wire(e));
        },
    };
    let first: i64 = match cur.read_zigzag_i64() {
        Ok(v) => v,
        Err(e) => {
            return Err(CodecError::Wire(e));
        },
    };
    read_delta_body(cur, block_size, minis, count, first, true)
}

/// Decodes a delta stream of 64-bit values.
pub fn decode_delta_i64(bytes: &[u8]) -> (r: Result<Vec<i64>>)
    ensures
        reports(r, delta_stream(bytes@, 0, true).fault),
        r is Ok ==> r->Ok_0@ == delta_stream(bytes@, 0, true).sums.map_values(
            |x: int| wrap64(x),
        ),
{
    let mut cur = Cursor::new(bytes);
    decode_delta_i64_from(&mut cur)
}

/// Reads one delta stream of 32-bit values and leaves the cursor after it.
pub fn decode_delta_i32_from(cur: &mut Cursor<'_>) -> (r: Result<Vec<i32>>)
    ensures
        final(cur).bytes() == old(cur).bytes(),
        ({
            let d = delta_stream(old(cur).bytes(), old(cur).at(), false);
            &&& reports(r, d.fault)
            &&& r is Ok ==> r->Ok_0@ == d.sums.map_values(|x: int| wrap32(x)) && final(cur).at()
                == d.end
        }),
{
    let ghost d = delta_stream(cur.bytes(), cur.at(), false);
    let block_size: u64 = match cur.read_uvarint() {
        Ok(v) => v,
        Err(e) => {
            return Err(CodecError::Wire(e));
        },
    };
    let minis: u64 = match cur.read_uvarint() {
        Ok(v) => v,
        Err(e) => {
            return Err(CodecError::Wire(e));
        },
    };
    let count: u64 = match cur.read_uvarint() {
        Ok(v) => v,
        Err(e) => {
            return Err(CodecError::Wire(e));
        },
    };
    let first: i32 = match cur.read_zigzag_i32() {
        Ok(v) => v,
        Err(e) => {
            return Err(CodecError::Wire(e));
        },
    };
    let wide: Vec<i64> = match read_delta_body(cur, block_size, minis, count, first as i64, false) {
        Ok(v) => v,
        Err(e) => {
            return Err(e);
        },
    };
    let mut out: Vec<i32> = Vec::new();
    let mut k: usize = 0;
    while k < wide.len()
        invariant
            k <= wide@.len(),
            wide@ == d.sums.map_values(|x: int| wrap64(x)),
            out@ == d.sums.take(k as int).map_values(|x: int| wrap32(x)),
        decreases wide@.len() - k,
    {
        proof {
            lemma_wrap32_of_wrap64(d.sums[k as int]);
        }
        out.push(as_i32(wide[k] as i128));
        proof {
            assert(out@ =~= d.sums.take(k + 1).map_values(|x: int| wrap32(x)));
        }
        k = k + 1;
    }
    proof {
        assert(d.sums.take(k as int) =~= d.sums);
    }
    Ok(out)
}

/// Decodes a delta stream of 32-bit values.
pub fn decode_delta_i32(bytes: &[u8]) -> (r: Result<Vec<i32>>)
    ensures
        reports(r, delta_stream(bytes@, 0, false).fault),
        r is Ok ==> r->Ok_0@ == delta_stream(bytes@, 0, false).sums.map_values(
            |x: int| wrap32(x),
        ),
{
    let mut cur = Cursor::new(bytes);
    decode_delta_i32_from(&mut cur)
}

proof fn lemma_running_len(prev: int, min_delta: int, deltas: Seq<nat>)
    ensures
        running(prev, min_delta, deltas).len() == deltas.len(),
    decreases deltas.len(),
{
    if deltas.len() > 0 {
        lemma_running_len(prev, min_delta, deltas.drop_last());
    }
}

proof fn lemma_delta_walk_len(
    bytes: Seq<u8>,
    pos: nat,
    mini_size: nat,
    minis: nat,
    widths: Seq<u8>,
    min_delta: int,
    prev: int,
    remaining: nat,
    wide: bool,
)
    requires
        delta_walk(
            bytes,
            pos,
            mini_size,
            minis,
            widths,
            min_delta,
            prev,
            remaining,
            wide,
        ).fault is None,
    ensures
        delta_walk(
            bytes,
            pos,
            mini_size,
            minis,
            widths,
            min_delta,
            prev,
            remaining,
            wide,
        ).sums.len() == remaining,
    decreases bytes.len() - pos, widths.len(),
{
    if remaining > 0 {
        lemma_uvarint_bounds(bytes, pos);
        if widths.len() == 0 {
            if let Ok((smallest, body)) = zigzag_i64(bytes, pos) {
                lemma_delta_walk_len(
                    bytes,
                    body + minis,
                    mini_size,
                    minis,
                    bytes.subrange(body as int, (body + minis) as int),
                    smallest,
                    prev,
                    remaining,
                    wide,
                );
            }
        } else {
            let len = (mini_size * widths[0]) as nat / 8;
            assert(mini_size * widths[0] >= 0) by (nonlinear_arith)
                requires
                    mini_size >= 0,
                    widths[0] >= 0,
            ;
            let n = if mini_size <= remaining {
                mini_size
            } else {
                remaining
            };
            let chunk = bytes.subrange(pos as int, (pos + len) as int);
            let deltas = unpacked(chunk, widths[0] as nat, n);
            let sums = running(prev, min_delta, deltas);
            lemma_running_len(prev, min_delta, deltas);
            lemma_delta_walk_len(
                bytes,
                pos + len,
                mini_size,
                minis,
                widths.skip(1),
                min_delta,
                if n == 0 {
                    prev
                } else {
                    sums.last()
                },
                (remaining - n) as nat,
                wide,
            );
        }
    }
}

/// A delta stream that decodes holds exactly as many values as it
/// announces, the first of which it states outright: padding deltas of the
/// last mini-block are dropped.
pub proof fn law_delta_value_count(
    bytes: Seq<u8>,
    pos: nat,
    block_size: nat,
    minis: nat,
    count: nat,
    first: int,
    wide: bool,
)
    requires
        delta_body(bytes, pos, block_size, minis, count, first, wide).fault is None,
    ensures
        delta_body(bytes, pos, block_size, minis, count, first, wide).sums.len() == count,
        count > 0 ==> delta_body(bytes, pos, block_size, minis, count, first, wide).sums[0]
            == first,
{
    if count > 0 {
        lemma_delta_walk_len(
            bytes,
            pos,
            block_size / minis,
            minis,
            Seq::empty(),
            0,
            first,
            (count - 1) as nat,
            wide,
        );
    }
}

pub open spec fn delta_byte_fault(message: Seq<char>) -> Fault {
    Fault::Decompress("DELTA_BYTE_ARRAY: "@ + message)
}

fn delta_byte_err(message: &str) -> (e: CodecError)
    ensures
        e@ == delta_byte_fault(message@),
{
    let mut s: String = "DELTA_BYTE_ARRAY: ".to_string();
    s.append(message);
    CodecError::Decompress(s)
}

/// The contents of a list of byte strings.
pub open spec fn byte_strings(rows: Seq<Vec<u8>>) -> Seq<Seq<u8>> {
    rows.map_values(|row: Vec<u8>| row@)
}

/// The strings of the given lengths that lie back to back from `pos` on.
pub open spec fn cut_strings(bytes: Seq<u8>, pos: nat, lengths: Seq<i32>) -> Outcome<Seq<u8>>
    decreases lengths.len(),
{
    if lengths.len() == 0 {
        Outcome { emitted: Seq::empty(), fault: None }
    } else if lengths[0] < 0 {
        Outcome { emitted: Seq::empty(), fault: Some(delta_byte_fault("negative length"@)) }
    } else if pos + lengths[0] > bytes.len() {
        Outcome { emitted: Seq::empty(), fault: Some(Fault::Wire(FormatError::UnexpectedEof)) }
    } else {
        cut_strings(bytes, (pos + lengths[0]) as nat, lengths.skip(1)).after(
            seq![bytes.subrange(pos as int, pos + lengths[0])],
        )
    }
}

/// A stream of byte strings: their lengths as a delta stream, then their
/// bytes.
pub open spec fn length_prefixed(bytes: Seq<u8>) -> Outcome<Seq<u8>> {
    let d = delta_stream(bytes, 0, false);
    if d.fault is Some {
        Outcome { emitted: Seq::empty(), fault: d.fault }
    } else {
        cut_strings(bytes, d.end, d.sums.map_values(|x: int| wrap32(x)))
    }
}

/// Decodes byte strings stored as a delta stream of lengths followed by
/// their bytes.
pub fn decode_delta_length_byte_array(bytes: &[u8]) -> (r: Result<Vec<Vec<u8>>>)
    ensures
        reports(r, length_prefixed(bytes@).fault),
        r is Ok ==> byte_strings(r->Ok_0@) == length_prefixed(bytes@).emitted,
{
    let mut cur = Cursor::new(bytes);
    let lengths: Vec<i32> = match decode_delta_i32_from(&mut cur) {
        Ok(v) => v,
        Err(e) => {
            return Err(e);
        },
    };
    let ghost whole = length_prefixed(bytes@);
    let mut out: Vec<Vec<u8>> = Vec::new();
    let mut k: usize = 0;
    proof {
        assert(lengths@.skip(0) =~= lengths@);
        assert(byte_strings(out@) + whole.emitted =~= whole.emitted);
    }
    while k < lengths.len()
        invariant
            k <= lengths@.len(),
            cur.bytes() == bytes@,
            whole == length_prefixed(bytes@),
            whole == cut_strings(bytes@, cur.at(), lengths@.skip(k as int)).after(
                byte_strings(out@),
            ),
        decreases lengths@.len() - k,
    {
        let ghost before = out@;
        let ghost pending = lengths@.skip(k as int);
        proof {
            assert(pending.skip(1) =~= lengths@.skip(k + 1));
        }
        let len: i32 = lengths[k];
        if len < 0 {
            return Err(delta_byte_err("negative length"));
        }
        let row = match cur.take(len as usize) {
            Ok(s) => s,
            Err(e) => {
                return Err(CodecError::Wire(e));
            },
        };
        out.push(slice_to_vec(row));
        proof {
            let rest = cut_strings(bytes@, cur.at(), pending.skip(1));
            assert(byte_strings(out@) =~= byte_strings(before) + seq![row@]);
            assert((byte_strings(before) + seq![row@]) + rest.emitted =~= byte_strings(before) + (
            seq![row@] + rest.emitted));
        }
        k = k + 1;
    }
    proof {
        assert(whole.emitted =~= byte_strings(out@));
    }
    Ok(out)
}

/// Strings that each repeat the first bytes of the one before and add a
/// suffix; the suffixes lie back to back from `pos` on.
pub open spec fn grow_strings(
    bytes: Seq<u8>,
    pos: nat,
    prefixes: Seq<i32>,
    suffixes: Seq<i32>,
    prev: Seq<u8>,
) -> Outcome<Seq<u8>>
    decreases prefixes.len(),
{
    if prefixes.len() == 0 {
        Outcome { emitted: Seq::empty(), fault: None }
    } else if prefixes[0] < 0 || suffixes[0] < 0 {
        Outcome { emitted: Seq::empty(), fault: Some(delta_byte_fault("negative length"@)) }
    } else if prefixes[0] > prev.len() {
        Outcome {
            emitted: Seq::empty(),
            fault: Some(delta_byte_fault("prefix_length exceeds prior value length"@)),
        }
    } else if pos + suffixes[0] > bytes.len() {
        Outcome { emitted: Seq::empty(), fault: Some(Fault::Wire(FormatError::UnexpectedEof)) }
    } else {
        let value = prev.take(prefixes[0] as int) + bytes.subrange(pos as int, pos + suffixes[0]);
        grow_strings(
            bytes,
            (pos + suffixes[0]) as nat,
            prefixes.skip(1),
            suffixes.skip(1),
            value,
        ).after(seq![value])
    }
}

/// A stream of byte strings with shared prefixes: the prefix lengths and
/// the suffix lengths as delta streams, then the suffixes.
pub open spec fn prefix_shared(bytes: Seq<u8>) -> Outcome<Seq<u8>> {
    let p = delta_stream(bytes, 0, false);
    let s = delta_stream(bytes, p.end, false);
    if p.fault is Some {
        Outcome { emitted: Seq::empty(), fault: p.fault }
    } else if s.fault is Some {
        Outcome { emitted: Seq::empty(), fault: s.fault }
    } else if p.sums.len() != s.sums.len() {
        Outcome {
            emitted: Seq::empty(),
            fault: Some(delta_byte_fault("prefix_lengths and suffix_lengths length mismatch"@)),
        }
    } else {
        grow_strings(
            bytes,
            s.end,
            p.sums.map_values(|x: int| wrap32(x)),
            s.sums.map_values(|x: int| wrap32(x)),
            Seq::empty(),
        )
    }
}

/// Decodes byte strings stored with shared prefixes.
pub fn decode_delta_byte_array(bytes: &[u8]) -> (r: Result<Vec<Vec<u8>>>)
    ensures
        reports(r, prefix_shared(bytes@).fault),
        r is Ok ==> byte_strings(r->Ok_0@) == prefix_shared(bytes@).emitted,
{
    let mut cur = Cursor::new(bytes);
    let prefixes: Vec<i32> = match decode_delta_i32_from(&mut cur) {
        Ok(v) => v,
        Err(e) => {
            return Err(e);
        },
    };
    let suffixes: Vec<i32> = match decode_delta_i32_from(&mut cur) {
        Ok(v) => v,
        Err(e) => {
            return Err(e);
        },
    };
    let ghost whole = prefix_shared(bytes@);
    if prefixes.len() != suffixes.len() {
        return Err(delta_byte_err("prefix_lengths and suffix_lengths length mismatch"));
    }
    let mut out: Vec<Vec<u8>> = Vec::new();
    let mut prev: Vec<u8> = Vec::new();
    let mut k: usize = 0;
    proof {
        assert(prefixes@.skip(0) =~= prefixes@);
        assert(suffixes@.skip(0) =~= suffixes@);
        assert(prev@ =~= Seq::empty());
        assert(byte_strings(out@) + whole.emitted =~= whole.emitted);
    }
    while k < prefixes.len()
        invariant
            k <= prefixes@.len() == suffixes@.len(),
            cur.bytes() == bytes@,
            whole == prefix_shared(bytes@),
            whole == grow_strings(
                bytes@,
                cur.at(),
                prefixes@.skip(k as int),
                suffixes@.skip(k as int),
                prev@,
            ).after(byte_strings(out@)),
        decreases prefixes@.len() - k,
    {
        let ghost before = out@;
        proof {
            assert(prefixes@.skip(k as int).skip(1) =~= prefixes@.skip(k + 1));
            assert(suffixes@.skip(k as int).skip(1) =~= suffixes@.skip(k + 1));
        }
        let prefix: i32 = prefixes[k];
        let suffix: i32 = suffixes[k];
        if prefix < 0 || suffix < 0 {
            return Err(delta_byte_err("negative length"));
        }
        if prefix as usize > prev.len() {
            return Err(delta_byte_err("prefix_length exceeds prior value length"));
        }
        let tail = match cur.take(suffix as usize) {
            Ok(s) => s,
            Err(e) => {
                return Err(CodecError::Wire(e));
            },
        };
        let mut value: Vec<u8> = slice_to_vec(
            slice_subrange(prev.as_slice(), 0, prefix as usize),
        );
        value.extend_from_slice(tail);
        proof {
            assert(value@ =~= prev@.take(prefix as int) + tail@);
        }
        prev = slice_to_vec(value.as_slice());
        let ghost row = value@;
        out.push(value);
        proof {
            let rest = grow_strings(
                bytes@,
                cur.at(),
                prefixes@.skip(k + 1),
                suffixes@.skip(k + 1),
                prev@,
            );
            assert(byte_strings(out@) =~= byte_strings(before) + seq![row]);
            assert((byte_strings(before) + seq![row]) + rest.emitted =~= byte_strings(before) + (
            seq![row] + rest.emitted));
        }
        k = k + 1;
    }
    proof {
        assert(whole.emitted =~= byte_strings(out@));
    }
    Ok(out)
}

/// One string per announced length, each as long as announced.
pub proof fn law_cut_strings_lengths(bytes: Seq<u8>, pos: nat, lengths: Seq<i32>)
    requires
        cut_strings(bytes, pos, lengths).fault is None,
    ensures
        cut_strings(bytes, pos, lengths).emitted.len() == lengths.len(),
        forall|i: int|
            0 <= i < lengths.len() ==> (#[trigger] cut_strings(
                bytes,
                pos,
                lengths,
            ).emitted[i]).len() == lengths[i],
    decreases lengths.len(),
{
    if lengths.len() > 0 {
        let next = (pos + lengths[0]) as nat;
        let rest = cut_strings(bytes, next, lengths.skip(1));
        law_cut_strings_lengths(bytes, next, lengths.skip(1));
        assert forall|i: int| 0 <= i < lengths.len() implies (#[trigger] cut_strings(
            bytes,
            pos,
            lengths,
        ).emitted[i]).len() == lengths[i] by {
            if i > 0 {
                assert(rest.emitted[i - 1].len() == lengths.skip(1)[i - 1]);
            }
        }
    }
}

/// Each string with a shared prefix starts with the announced bytes of the
/// one before it.
pub proof fn law_grow_strings_prefixes(
    bytes: Seq<u8>,
    pos: nat,
    prefixes: Seq<i32>,
    suffixes: Seq<i32>,
    prev: Seq<u8>,
)
    requires
        prefixes.len() == suffixes.len(),
        grow_strings(bytes, pos, prefixes, suffixes, prev).fault is None,
    ensures
        ({
            let rows = grow_strings(bytes, pos, prefixes, suffixes, prev).emitted;
            &&& rows.len() == prefixes.len()
            &&& forall|i: int| #![trigger rows[i]]
                0 <= i < rows.len() ==> {
                    &&& rows[i].len() == prefixes[i] + suffixes[i]
                    &&& rows[i].take(prefixes[i] as int) == (if i == 0 {
                        prev
                    } else {
                        rows[i - 1]
                    }).take(prefixes[i] as int)
                }
        }),
    decreases prefixes.len(),
{
    let rows = grow_strings(bytes, pos, prefixes, suffixes, prev).emitted;
    if prefixes.len() > 0 {
        let next = (pos + suffixes[0]) as nat;
        let value = prev.take(prefixes[0] as int) + bytes.subrange(pos as int, next as int);
        law_grow_strings_prefixes(bytes, next, prefixes.skip(1), suffixes.skip(1), value);
        let rest = grow_strings(bytes, next, prefixes.skip(1), suffixes.skip(1), value).emitted;
        assert forall|i: int| #![trigger rows[i]] 0 <= i < rows.len() implies {
            &&& rows[i].len() == prefixes[i] + suffixes[i]
            &&& rows[i].take(prefixes[i] as int) == (if i == 0 {
                prev
            } else {
                rows[i - 1]
            }).take(prefixes[i] as int)
        } by {
            if i == 0 {
                assert(rows[0] == value);
                assert(value.take(prefixes[0] as int) =~= prev.take(prefixes[0] as int));
            } else {
                assert(rows[i] == rest[i - 1]);
                if i == 1 {
                    assert(rows[0] == value);
                } else {
                    assert(rows[i - 1] == rest[i - 2]);
                }
            }
        }
    }
}

} // verus!
