//! The hybrid of run-length and bit-packed runs that carries levels and
//! dictionary indices.
//!
//! A stream is a sequence of runs. Each opens with an unsigned
//! variable-length header: an odd header announces `header / 2` groups of
//! eight bit-packed values, an even one a single value, in whole bytes,
//! repeated `header / 2` times.

use vstd::arithmetic::power2::{lemma2_to64, lemma2_to64_rest, lemma_pow2_strictly_increases};
use vstd::prelude::*;

use crate::bitpack::lemma_field_inside;
use crate::bits::{field, lemma_field_bound, packed_len, read_wide_field, unpacked, BitPos};
use crate::cursor::{lemma_uvarint_bounds, uvarint, Cursor};
use crate::error::{reports, CodecError, Fault, FormatError, Outcome, Result};

verus! {

/// One run, cut to the values that are still wanted.
pub struct Run {
    pub repeated: bool,
    /// The value that a repeated run repeats.
    pub value: nat,
    pub values: Seq<nat>,
}

pub open spec fn min_nat(a: nat, b: nat) -> nat {
    if a <= b {
        a
    } else {
        b
    }
}

/// The run at `pos`, of which at most `need` values are wanted, and the
/// position after it.
pub open spec fn next_run(bytes: Seq<u8>, pos: nat, width: nat, need: nat) -> std::result::Result<
    (Run, nat),
    FormatError,
> {
    match uvarint(bytes, pos) {
        Err(e) => Err(e),
        Ok((header, body)) => {
            let packed = header % 2 == 1;
            let len = if packed {
                (header / 2) * width
            } else {
                (width + 7) as nat / 8
            };
            if body + len > bytes.len() {
                Err(FormatError::UnexpectedEof)
            } else {
                let chunk = bytes.subrange(body as int, (body + len) as int);
                let run = if packed {
                    Run {
                        repeated: false,
                        value: 0,
                        values: unpacked(chunk, width, min_nat(need, 8 * (header / 2))),
                    }
                } else {
                    repeat_run(field(chunk, 0, 8 * len), min_nat(need, header / 2))
                };
                Ok((run, body + len))
            }
        },
    }
}

/// A value repeated `count` times.
pub open spec fn repeat_run(value: nat, count: nat) -> Run {
    Run { repeated: true, value, values: Seq::new(count, |i: int| value) }
}

pub proof fn lemma_next_run(bytes: Seq<u8>, pos: nat, width: nat, need: nat)
    ensures
        next_run(bytes, pos, width, need) matches Ok((run, next)) ==> {
            &&& pos < next <= bytes.len()
            &&& run.values.len() <= need
        },
{
    lemma_uvarint_bounds(bytes, pos);
}

#[via_fn]
proof fn walk_decreases<T>(
    bytes: Seq<u8>,
    pos: nat,
    width: nat,
    row: nat,
    total: nat,
    step: spec_fn(Run, nat) -> Outcome<T>,
) {
    if row < total {
        lemma_next_run(bytes, pos, width, (total - row) as nat);
    }
}

/// What `step` hands out of each run in turn, from row `row` to row
/// `total`, up to the first fault: its own or the stream's.
pub open spec fn walk<T>(
    bytes: Seq<u8>,
    pos: nat,
    width: nat,
    row: nat,
    total: nat,
    step: spec_fn(Run, nat) -> Outcome<T>,
) -> Outcome<T>
    decreases bytes.len() - pos,
    via walk_decreases::<T>
{
    if row >= total {
        Outcome { emitted: Seq::empty(), fault: None }
    } else {
        match next_run(bytes, pos, width, (total - row) as nat) {
            Err(e) => Outcome { emitted: Seq::empty(), fault: Some(Fault::Wire(e)) },
            Ok((run, next)) => {
                let first = step(run, row);
                if first.fault is Some {
                    first
                } else {
                    walk(bytes, next, width, row + run.values.len(), total, step).after(
                        first.emitted,
                    )
                }
            },
        }
    }
}

/// The values of a run as they are.
pub open spec fn step_values() -> spec_fn(Run, nat) -> Outcome<nat> {
    |run: Run, row: nat| Outcome { emitted: run.values, fault: None }
}

/// A run whose header has been read.
pub enum RunBody<'a> {
    /// Bit-packed values, of which `count` are wanted.
    Packed { chunk: &'a [u8], count: usize },
    /// One value, wanted `count` times.
    Repeat { value: u64, count: usize },
}

impl<'a> RunBody<'a> {
    pub open spec fn run(self, width: nat) -> Run {
        match self {
            RunBody::Packed { chunk, count } => Run {
                repeated: false,
                value: 0,
                values: unpacked(chunk@, width, count as nat),
            },
            RunBody::Repeat { value, count } => repeat_run(value as nat, count as nat),
        }
    }

    /// The packed bytes hold every wanted value.
    pub open spec fn holds(self, width: nat) -> bool {
        match self {
            RunBody::Packed { chunk, count } => packed_len(count as nat, width) <= chunk@.len(),
            RunBody::Repeat { .. } => true,
        }
    }
}

/// Reads the next run, of which at most `need` values are wanted.
pub fn read_run<'a>(cur: &mut Cursor<'a>, width: u8, need: usize) -> (r: std::result::Result<
    RunBody<'a>,
    FormatError,
>)
    requires
        1 <= width <= 64,
    ensures
        final(cur).bytes() == old(cur).bytes(),
        match next_run(old(cur).bytes(), old(cur).at(), width as nat, need as nat) {
            Err(e) => r is Err && r->Err_0 == e,
            Ok((run, next)) => r is Ok && r->Ok_0.run(width as nat) == run && r->Ok_0.holds(
                width as nat,
            ) && final(cur).at() == next,
        },
{
    let header: u64 = match cur.read_uvarint() {
        Ok(h) => h,
        Err(e) => {
            return Err(e);
        },
    };
    let count: u64 = header / 2;
    if header % 2 == 1 {
        let remaining: usize = cur.remaining();
        let limit: usize = remaining / width as usize;
        proof {
            let w: int = width as int;
            let c: int = count as int;
            let r: int = remaining as int;
            if c > r / w {
                assert(c * w > r) by (nonlinear_arith)
                    requires
                        c > r / w,
                        w >= 1,
                        r >= 0,
                ;
            } else {
                assert(c * w <= r) by (nonlinear_arith)
                    requires
                        c <= r / w,
                        w >= 1,
                        r >= 0,
                ;
            }
        }
        if count > limit as u64 {
            return Err(FormatError::UnexpectedEof);
        }
        let groups: usize = count as usize;
        let emit: usize = if groups > need / 8 {
            need
        } else {
            groups * 8
        };
        let chunk = match cur.take(groups * width as usize) {
            Ok(c) => c,
            Err(e) => {
                return Err(e);
            },
        };
        proof {
            assert(emit * width <= 8 * (groups * width)) by (nonlinear_arith)
                requires
                    emit <= 8 * groups,
            ;
            assert(emit == min_nat(need as nat, 8 * (header as nat / 2)));
        }
        Ok(RunBody::Packed { chunk, count: emit })
    } else {
        let len: usize = (width as usize + 7) / 8;
        let chunk = match cur.take(len) {
            Ok(c) => c,
            Err(e) => {
                return Err(e);
            },
        };
        let value: u64 = read_wide_field(chunk, &BitPos::start(), 8 * len as u32);
        let emit: usize = if count < need as u64 {
            count as usize
        } else {
            need
        };
        Ok(RunBody::Repeat { value, count: emit })
    }
}

/// Appends `count` packed values.
fn unpack_values(chunk: &[u8], count: usize, bit_width: u8, out: &mut Vec<u64>)
    requires
        bit_width <= 64,
        packed_len(count as nat, bit_width as nat) <= chunk@.len(),
    ensures
        final(out)@ == old(out)@ + unpacked(chunk@, bit_width as nat, count as nat).map_values(
            |v: nat| v as u64,
        ),
{
    let ghost values = unpacked(chunk@, bit_width as nat, count as nat);
    let ghost start = out@;
    let len: usize = chunk.len();
    let mut i: usize = 0;
    let mut at = BitPos::start();
    while i < count
        invariant
            i <= count,
            bit_width <= 64,
            at.wf(),
            at.bit() == i * bit_width,
            len == chunk@.len(),
            values == unpacked(chunk@, bit_width as nat, count as nat),
            packed_len(count as nat, bit_width as nat) <= chunk@.len(),
            out@ == start + values.take(i as int).map_values(|v: nat| v as u64),
        decreases count - i,
    {
        proof {
            lemma_field_inside(chunk@.len(), bit_width as nat, count as nat, i as nat);
            assert(values[i as int] == field(chunk@, at.bit(), bit_width as nat));
        }
        let value: u64 = read_wide_field(chunk, &at, bit_width as u32);
        out.push(value);
        at.advance(bit_width);
        proof {
            assert((i + 1) * bit_width == i * bit_width + bit_width) by (nonlinear_arith);
            assert(out@ =~= start + values.take(i + 1).map_values(|v: nat| v as u64));
        }
        i = i + 1;
    }
    proof {
        assert(values.take(count as int) =~= values);
    }
}

/// Decodes `num_values` values of `bit_width` bits each from a hybrid
/// stream without a length prefix.
///
/// A width of zero carries nothing: every value is zero.
pub fn decode_rle_bit_packed(bytes: &[u8], bit_width: u8, num_values: usize) -> (r: Result<
    Vec<u64>,
>)
    ensures
        bit_width > 64 ==> reports(r, Some(Fault::BitWidthOutOfRange(bit_width))),
        bit_width == 0 ==> r is Ok && r->Ok_0@ == Seq::new(num_values as nat, |i: int| 0u64),
        1 <= bit_width <= 64 ==> {
            let o = walk(bytes@, 0, bit_width as nat, 0, num_values as nat, step_values());
            reports(r, o.fault) && (r is Ok ==> r->Ok_0@ == o.emitted.map_values(|v: nat| v as u64))
        },
{
    if bit_width > 64 {
        return Err(CodecError::BitWidthOutOfRange(bit_width));
    }
    let mut out: Vec<u64> = Vec::new();
    if bit_width == 0 {
        out.resize(num_values, 0);
        proof {
            assert(out@ =~= Seq::new(num_values as nat, |i: int| 0u64));
        }
        return Ok(out);
    }
    let mut cur = Cursor::new(bytes);
    let ghost w = bit_width as nat;
    let ghost whole = walk(bytes@, 0, w, 0, num_values as nat, step_values());
    let ghost mut done: Seq<nat> = Seq::empty();
    proof {
        assert(whole.emitted =~= done + whole.emitted);
    }
    while out.len() < num_values
        invariant
            1 <= bit_width <= 64,
            w == bit_width,
            cur.bytes() == bytes@,
            out@.len() <= num_values,
            out@ == done.map_values(|v: nat| v as u64),
            whole == walk(bytes@, 0, w, 0, num_values as nat, step_values()),
            whole == walk(
                bytes@,
                cur.at(),
                w,
                out@.len(),
                num_values as nat,
                step_values(),
            ).after(done),
        decreases bytes@.len() - cur.at(),
    {
        let need: usize = num_values - out.len();
        let ghost pos = cur.at();
        let ghost row = out@.len();
        proof {
            lemma_next_run(bytes@, pos, w, need as nat);
        }
        let body = match read_run(&mut cur, bit_width, need) {
            Ok(b) => b,
            Err(e) => {
                return Err(CodecError::Wire(e));
            },
        };
        let ghost values = body.run(w).values;
        let ghost before = out@;
        match body {
            RunBody::Packed { chunk, count } => {
                unpack_values(chunk, count, bit_width, &mut out);
            },
            RunBody::Repeat { value, count } => {
                out.resize(out.len() + count, value);
            },
        }
        proof {
            assert(out@ =~= before + values.map_values(|v: nat| v as u64));
            let rest = walk(bytes@, cur.at(), w, out@.len(), num_values as nat, step_values());
            assert((done + values) + rest.emitted =~= done + (values + rest.emitted));
            done = done + values;
            assert(out@ =~= done.map_values(|v: nat| v as u64));
        }
    }
    proof {
        assert(whole.emitted =~= done);
    }
    Ok(out)
}

/// Every value of a hybrid stream of at most 64 bits fits a machine word.
pub proof fn lemma_walk_values_bound(bytes: Seq<u8>, pos: nat, width: nat, row: nat, total: nat)
    requires
        width <= 64,
    ensures
        forall|i: int|
            0 <= i < walk(bytes, pos, width, row, total, step_values()).emitted.len()
                ==> #[trigger] walk(bytes, pos, width, row, total, step_values()).emitted[i]
                <= u64::MAX,
    decreases bytes.len() - pos,
{
    if row < total {
        lemma_next_run(bytes, pos, width, (total - row) as nat);
        if let Ok((run, next)) = next_run(bytes, pos, width, (total - row) as nat) {
            lemma_walk_values_bound(bytes, next, width, row + run.values.len(), total);
            let rest = walk(bytes, next, width, row + run.values.len(), total, step_values());
            let whole = walk(bytes, pos, width, row, total, step_values());
            assert forall|i: int| 0 <= i < whole.emitted.len() implies #[trigger] whole.emitted[i]
                <= u64::MAX by {
                if i < run.values.len() {
                    lemma_run_value_bound(bytes, pos, width, (total - row) as nat, i);
                } else {
                    assert(whole.emitted[i] == rest.emitted[i - run.values.len()]);
                }
            }
        }
    }
}

proof fn lemma_run_value_bound(bytes: Seq<u8>, pos: nat, width: nat, need: nat, i: int)
    requires
        width <= 64,
        next_run(bytes, pos, width, need) is Ok,
        0 <= i < next_run(bytes, pos, width, need)->Ok_0.0.values.len(),
    ensures
        next_run(bytes, pos, width, need)->Ok_0.0.values[i] <= u64::MAX,
{
    if let Ok((header, body)) = uvarint(bytes, pos) {
        let packed = header % 2 == 1;
        let len = if packed {
            (header / 2) * width
        } else {
            (width + 7) as nat / 8
        };
        let chunk = bytes.subrange(body as int, (body + len) as int);
        let bits = if packed {
            width
        } else {
            8 * len
        };
        lemma2_to64();
        lemma2_to64_rest();
        if bits < 64 {
            lemma_pow2_strictly_increases(bits, 64);
        }
        if packed {
            lemma_field_bound(chunk, (i * width) as nat, width);
        } else {
            lemma_field_bound(chunk, 0, 8 * len);
        }
    }
}

} // verus!
