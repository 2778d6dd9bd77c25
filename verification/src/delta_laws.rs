//! What is read back of delta streams as a writer lays them out.

use vstd::arithmetic::div_mod::lemma_fundamental_div_mod_converse;
use vstd::prelude::*;

use crate::bits::unpacked;
use crate::cursor::{law_uvarint_round_trip, law_zigzag_round_trip, uvarint, uvarint_bytes, zigzag};
use crate::delta::{
    cut_strings, delta_body, delta_stream, delta_walk, grow_strings, length_prefixed, mini_fault,
    prefix_shared, running, DeltaRun,
};
use crate::error::{FormatError, Outcome};
use crate::packing_laws::{fit, law_packing_round_trips, packed_bytes};
use crate::wrap::{wrap32, wrap64};

verus! {

/// A block as a writer sees it: the least delta, a width for each of its
/// mini-blocks, and what each delta has over the least. The last block may
/// leave out mini-blocks at its end; their widths stay.
pub struct WrittenBlock {
    pub least: int,
    pub widths: Seq<u8>,
    pub minis: Seq<Seq<nat>>,
}

/// The mini-blocks from `j` on, each packed at its width.
pub open spec fn minis_bytes(block: WrittenBlock, j: nat) -> Seq<u8>
    decreases block.minis.len() - j,
{
    if j >= block.minis.len() {
        Seq::empty()
    } else {
        packed_bytes(block.minis[j as int], block.widths[j as int] as nat) + minis_bytes(
            block,
            j + 1,
        )
    }
}

/// A block: the least delta, the widths, the mini-blocks.
pub open spec fn block_bytes(block: WrittenBlock) -> Seq<u8> {
    uvarint_bytes(zigzag(block.least)) + block.widths + minis_bytes(block, 0)
}

/// The blocks from `b` on.
pub open spec fn blocks_bytes(blocks: Seq<WrittenBlock>, b: nat) -> Seq<u8>
    decreases blocks.len() - b,
{
    if b >= blocks.len() {
        Seq::empty()
    } else {
        block_bytes(blocks[b as int]) + blocks_bytes(blocks, b + 1)
    }
}

/// A delta stream: the block size, the mini-blocks per block, the number of
/// values, the first value, the blocks.
pub open spec fn delta_bytes(
    mini_size: nat,
    minis: nat,
    count: nat,
    first: int,
    blocks: Seq<WrittenBlock>,
) -> Seq<u8> {
    delta_head(mini_size, minis, count, first) + blocks_bytes(blocks, 0)
}

/// The four numbers that open a delta stream.
pub open spec fn delta_head(mini_size: nat, minis: nat, count: nat, first: int) -> Seq<u8> {
    uvarint_bytes(mini_size * minis) + uvarint_bytes(minis) + uvarint_bytes(count) + uvarint_bytes(
        zigzag(first),
    )
}

/// That a block can be written: its least delta is a 64-bit integer, there is
/// a width for every mini-block, and every mini-block that is there is full
/// and fits its width.
pub open spec fn block_writable(block: WrittenBlock, mini_size: nat, minis: nat) -> bool {
    &&& i64::MIN <= block.least <= i64::MAX
    &&& block.widths.len() == minis
    &&& 0 < block.minis.len() <= minis
    &&& forall|j: int|
        0 <= j < block.minis.len() ==> {
            &&& (#[trigger] block.minis[j]).len() == mini_size
            &&& block.widths[j] <= 32
            &&& (mini_size * block.widths[j]) % 8 == 0
            &&& fit(block.minis[j], block.widths[j] as nat)
        }
}

/// That blocks can be written for a stream of `count` values, with no
/// mini-block more than is needed.
pub open spec fn blocks_writable(
    mini_size: nat,
    minis: nat,
    count: nat,
    blocks: Seq<WrittenBlock>,
) -> bool {
    &&& 0 < mini_size
    &&& 0 < minis <= 64
    &&& mini_size * minis <= u64::MAX
    &&& count <= u64::MAX
    &&& forall|b: int|
        0 <= b < blocks.len() ==> block_writable(#[trigger] blocks[b], mini_size, minis)
    &&& forall|b: int| 0 <= b < blocks.len() - 1 ==> (#[trigger] blocks[b]).minis.len() == minis
    &&& if count <= 1 {
        blocks.len() == 0
    } else {
        let written = (blocks.len() - 1) * minis + blocks.last().minis.len();
        blocks.len() > 0 && (written - 1) * mini_size < count - 1 <= written * mini_size
    }
}

/// What delta number `i` adds: the least delta of its block and what the
/// delta has over it. A block holds `mini_size * minis` deltas, a mini-block
/// `mini_size`.
pub open spec fn step_at(
    mini_size: nat,
    minis: nat,
    blocks: Seq<WrittenBlock>,
    i: nat,
) -> int {
    let block = blocks[(i / (mini_size * minis)) as int];
    let within = i % (mini_size * minis);
    block.least + block.minis[(within / mini_size) as int][(within % mini_size) as int]
}

// ---- Flat lists of steps ----

/// The values after `prev` that steps lead to.
pub open spec fn chain(prev: int, steps: Seq<int>) -> Seq<int>
    decreases steps.len(),
{
    if steps.len() == 0 {
        Seq::empty()
    } else {
        seq![prev + steps[0]] + chain(prev + steps[0], steps.skip(1))
    }
}

/// Where steps lead to in the end.
pub open spec fn reached(prev: int, steps: Seq<int>) -> int
    decreases steps.len(),
{
    if steps.len() == 0 {
        prev
    } else {
        reached(prev + steps[0], steps.skip(1))
    }
}

proof fn lemma_chain(prev: int, steps: Seq<int>)
    ensures
        chain(prev, steps).len() == steps.len(),
        steps.len() > 0 ==> chain(prev, steps)[0] == prev + steps[0],
        forall|i: int|
            0 < i < steps.len() ==> #[trigger] chain(prev, steps)[i] == chain(prev, steps)[i - 1]
                + steps[i],
        reached(prev, steps) == if steps.len() == 0 {
            prev
        } else {
            chain(prev, steps).last()
        },
    decreases steps.len(),
{
    if steps.len() > 0 {
        let rest = chain(prev + steps[0], steps.skip(1));
        lemma_chain(prev + steps[0], steps.skip(1));
        let all = chain(prev, steps);
        assert forall|i: int| 0 < i < steps.len() implies #[trigger] all[i] == all[i - 1]
            + steps[i] by {
            assert(all[i] == rest[i - 1]);
            assert(steps.skip(1)[i - 1] == steps[i]);
            if i > 1 {
                assert(all[i - 1] == rest[i - 2]);
            }
        }
    }
}

proof fn lemma_chain_concat(prev: int, a: Seq<int>, b: Seq<int>)
    ensures
        chain(prev, a + b) == chain(prev, a) + chain(reached(prev, a), b),
        reached(prev, a + b) == reached(reached(prev, a), b),
    decreases a.len(),
{
    if a.len() == 0 {
        assert(a + b =~= b);
        assert(chain(prev, a) + chain(prev, b) =~= chain(prev, b));
    } else {
        lemma_chain_concat(prev + a[0], a.skip(1), b);
        assert((a + b).skip(1) =~= a.skip(1) + b);
        assert(chain(prev, a + b) =~= chain(prev, a) + chain(reached(prev, a), b));
    }
}

/// The steps of packed deltas over a least delta.
pub open spec fn steps_of(least: int, deltas: Seq<nat>) -> Seq<int> {
    Seq::new(deltas.len(), |i: int| least + deltas[i])
}

proof fn lemma_running_is_chain(prev: int, least: int, deltas: Seq<nat>)
    ensures
        running(prev, least, deltas) == chain(prev, steps_of(least, deltas)),
    decreases deltas.len(),
{
    if deltas.len() > 0 {
        let shorter = deltas.drop_last();
        let last = seq![least + deltas.last()];
        lemma_running_is_chain(prev, least, shorter);
        lemma_chain_concat(prev, steps_of(least, shorter), last);
        lemma_chain(prev, steps_of(least, shorter));
        assert(steps_of(least, deltas) =~= steps_of(least, shorter) + last);
        let at = reached(prev, steps_of(least, shorter));
        lemma_chain(at, last);
        assert(chain(at, last) =~= seq![at + last[0]]);
        assert(running(prev, least, deltas) =~= chain(prev, steps_of(least, deltas)));
    }
}

/// The steps of the mini-blocks of block `b` from `j` on, and of the blocks
/// after it.
pub open spec fn steps_from(blocks: Seq<WrittenBlock>, b: nat, j: nat) -> Seq<int>
    decreases blocks.len() - b, blocks[b as int].minis.len() - j,
{
    if b >= blocks.len() {
        Seq::empty()
    } else if j >= blocks[b as int].minis.len() {
        steps_from(blocks, b + 1, 0)
    } else {
        steps_of(blocks[b as int].least, blocks[b as int].minis[j as int]) + steps_from(
            blocks,
            b,
            j + 1,
        )
    }
}

/// That every block can be written, and all but the last are full.
pub open spec fn blocks_sound(blocks: Seq<WrittenBlock>, mini_size: nat, minis: nat) -> bool {
    &&& 0 < mini_size
    &&& 0 < minis <= 64
    &&& forall|b: int|
        0 <= b < blocks.len() ==> block_writable(#[trigger] blocks[b], mini_size, minis)
    &&& forall|b: int| 0 <= b < blocks.len() - 1 ==> (#[trigger] blocks[b]).minis.len() == minis
}

/// That `remaining` steps end in the last mini-block.
pub open spec fn just_enough(steps: nat, remaining: nat, mini_size: nat) -> bool {
    remaining <= steps < remaining + mini_size
}

/// Steps are there wherever a mini-block is.
proof fn lemma_steps_left(blocks: Seq<WrittenBlock>, b: nat, j: nat, mini_size: nat, minis: nat)
    requires
        blocks_sound(blocks, mini_size, minis),
        steps_from(blocks, b, j).len() < mini_size,
    ensures
        b < blocks.len() ==> b + 1 == blocks.len() && j >= blocks[b as int].minis.len(),
        steps_from(blocks, b, j).len() == 0,
{
    reveal_with_fuel(steps_from, 3);
    if b < blocks.len() {
        assert(block_writable(blocks[b as int], mini_size, minis));
        if j < blocks[b as int].minis.len() {
            assert(blocks[b as int].minis[j as int].len() == mini_size);
        } else if b + 1 < blocks.len() {
            assert(block_writable(blocks[(b + 1) as int], mini_size, minis));
            assert(blocks[(b + 1) as int].minis[0].len() == mini_size);
        }
    }
}

/// The walk over the mini-blocks of block `b` from `j` on.
#[verifier::rlimit(100)]
#[verifier::spinoff_prover]
proof fn lemma_minis_read_back(
    before: Seq<u8>,
    blocks: Seq<WrittenBlock>,
    b: nat,
    j: nat,
    after: Seq<u8>,
    mini_size: nat,
    minis: nat,
    prev: int,
    remaining: nat,
    wide: bool,
)
    requires
        blocks_sound(blocks, mini_size, minis),
        b < blocks.len(),
        j <= blocks[b as int].minis.len(),
        just_enough(steps_from(blocks, b, j).len(), remaining, mini_size),
    ensures
        ({
            let middle = minis_bytes(blocks[b as int], j) + blocks_bytes(blocks, b + 1);
            delta_walk(
                before + middle + after,
                before.len(),
                mini_size,
                minis,
                blocks[b as int].widths.skip(j as int),
                blocks[b as int].least,
                prev,
                remaining,
                wide,
            ) == DeltaRun {
                sums: chain(prev, steps_from(blocks, b, j).take(remaining as int)),
                end: before.len() + middle.len(),
                fault: None,
            }
        }),
    decreases blocks.len() - b, blocks[b as int].minis.len() - j,
{
    let block = blocks[b as int];
    let later = blocks_bytes(blocks, b + 1);
    let middle = minis_bytes(block, j) + later;
    let bytes = before + middle + after;
    let steps = steps_from(blocks, b, j);
    let widths = block.widths.skip(j as int);
    assert(block_writable(block, mini_size, minis));
    if remaining == 0 {
        lemma_steps_left(blocks, b, j, mini_size, minis);
        assert(steps.take(0) =~= Seq::empty());
    } else if j == block.minis.len() {
        assert(steps == steps_from(blocks, b + 1, 0));
        assert(b + 1 < blocks.len());
        assert(widths =~= Seq::empty());
        assert(minis_bytes(block, j) + later =~= later);
        lemma_block_reads_back(
            before,
            blocks,
            b + 1,
            after,
            mini_size,
            minis,
            block.least,
            prev,
            remaining,
            wide,
        );
    } else {
        let mini = block.minis[j as int];
        let width = block.widths[j as int];
        let head = packed_bytes(mini, width as nat);
        let rest = minis_bytes(block, j + 1) + later;
        let n = if mini_size <= remaining {
            mini_size
        } else {
            remaining
        };
        let len = (mini_size * width) as nat / 8;
        assert(mini.len() == mini_size);
        assert(widths[0] == width);
        assert(mini_size * width >= 0) by (nonlinear_arith)
            requires
                mini_size >= 0,
                width >= 0,
        ;
        law_packing_round_trips(mini, width as nat, Seq::empty());
        assert(head + Seq::<u8>::empty() =~= head);
        assert(head.len() == len);
        assert(bytes =~= before + head + rest + after);
        assert(bytes.subrange(before.len() as int, (before.len() + len) as int) =~= head);
        assert(mini_fault(bytes, before.len(), mini_size, width, wide) is None);
        assert(unpacked(head, width as nat, n) == mini.take(n as int));
        let taken = steps_of(block.least, mini.take(n as int));
        lemma_running_is_chain(prev, block.least, mini.take(n as int));
        lemma_chain(prev, taken);
        let later_steps = steps_from(blocks, b, j + 1);
        let left = (remaining - n) as nat;
        assert(steps == steps_of(block.least, mini) + later_steps);
        assert(steps.take(remaining as int) =~= taken + later_steps.take(left as int));
        lemma_chain_concat(prev, taken, later_steps.take(left as int));
        lemma_minis_read_back(
            before + head,
            blocks,
            b,
            j + 1,
            after,
            mini_size,
            minis,
            reached(prev, taken),
            left,
            wide,
        );
        assert(widths.skip(1) =~= block.widths.skip((j + 1) as int));
    }
}

/// The walk over block `b` and those after it.
#[verifier::rlimit(100)]
#[verifier::spinoff_prover]
proof fn lemma_block_reads_back(
    before: Seq<u8>,
    blocks: Seq<WrittenBlock>,
    b: nat,
    after: Seq<u8>,
    mini_size: nat,
    minis: nat,
    idle: int,
    prev: int,
    remaining: nat,
    wide: bool,
)
    requires
        blocks_sound(blocks, mini_size, minis),
        just_enough(steps_from(blocks, b, 0).len(), remaining, mini_size),
    ensures
        delta_walk(
            before + blocks_bytes(blocks, b) + after,
            before.len(),
            mini_size,
            minis,
            Seq::empty(),
            idle,
            prev,
            remaining,
            wide,
        ) == (DeltaRun {
            sums: chain(prev, steps_from(blocks, b, 0).take(remaining as int)),
            end: before.len() + blocks_bytes(blocks, b).len(),
            fault: None,
        }),
    decreases blocks.len() - b, blocks[b as int].minis.len() + 1,
{
    let bytes = before + blocks_bytes(blocks, b) + after;
    let steps = steps_from(blocks, b, 0);
    if remaining == 0 {
        lemma_steps_left(blocks, b, 0, mini_size, minis);
        if b < blocks.len() {
            assert(block_writable(blocks[b as int], mini_size, minis));
        }
        assert(steps.take(0) =~= Seq::empty());
    } else {
        assert(b < blocks.len());
        let block = blocks[b as int];
        assert(block_writable(block, mini_size, minis));
        let head = uvarint_bytes(zigzag(block.least));
        let rest = minis_bytes(block, 0) + blocks_bytes(blocks, b + 1);
        law_zigzag_round_trip(block.least);
        law_uvarint_round_trip(before, zigzag(block.least), block.widths + rest + after);
        assert(bytes =~= before + head + (block.widths + rest + after));
        let front = before + head + block.widths;
        assert(bytes =~= front + rest + after);
        let body = before.len() + head.len();
        assert(bytes.subrange(body as int, (body + minis) as int) =~= block.widths);
        assert(block.widths.skip(0) =~= block.widths);
        lemma_minis_read_back(
            front,
            blocks,
            b,
            0,
            after,
            mini_size,
            minis,
            prev,
            remaining,
            wide,
        );
    }
}

/// Where in the flat list of steps a delta of a mini-block stands.
proof fn lemma_step_index(
    mini_size: nat,
    minis: nat,
    blocks: Seq<WrittenBlock>,
    b: nat,
    j: nat,
    k: nat,
)
    requires
        b < blocks.len(),
        j < minis,
        k < mini_size,
    ensures
        step_at(mini_size, minis, blocks, (b * minis + j) * mini_size + k)
            == blocks[b as int].least + blocks[b as int].minis[j as int][k as int],
{
    let size: int = (mini_size * minis) as int;
    let within: int = (j * mini_size + k) as int;
    let i: int = ((b * minis + j) * mini_size + k) as int;
    assert(i == b * size + within) by (nonlinear_arith)
        requires
            i == (b * minis + j) * mini_size + k,
            size == mini_size * minis,
            within == j * mini_size + k,
    ;
    assert(0 <= within < size) by (nonlinear_arith)
        requires
            within == j * mini_size + k,
            size == mini_size * minis,
            0 <= j,
            j + 1 <= minis,
            0 <= k < mini_size,
    ;
    lemma_fundamental_div_mod_converse(i, size, b as int, within);
    lemma_fundamental_div_mod_converse(within, mini_size as int, j as int, k as int);
}

proof fn lemma_steps_are_placed(
    mini_size: nat,
    minis: nat,
    blocks: Seq<WrittenBlock>,
    b: nat,
    j: nat,
)
    requires
        blocks_sound(blocks, mini_size, minis),
        b < blocks.len(),
        j <= blocks[b as int].minis.len(),
    ensures
        ({
            let written = (blocks.len() - 1) * minis + blocks.last().minis.len();
            &&& steps_from(blocks, b, j).len() == (written - (b * minis + j)) * mini_size
            &&& forall|k: int|
                0 <= k < steps_from(blocks, b, j).len() ==> #[trigger] steps_from(blocks, b, j)[k]
                    == step_at(
                    mini_size,
                    minis,
                    blocks,
                    ((b * minis + j) * mini_size + k) as nat,
                )
        }),
    decreases blocks.len() - b, blocks[b as int].minis.len() - j,
{
    let written = (blocks.len() - 1) * minis + blocks.last().minis.len();
    let block = blocks[b as int];
    let steps = steps_from(blocks, b, j);
    assert(block_writable(block, mini_size, minis));
    if j < block.minis.len() {
        let mini = block.minis[j as int];
        let rest = steps_from(blocks, b, j + 1);
        assert(mini.len() == mini_size);
        lemma_steps_are_placed(mini_size, minis, blocks, b, j + 1);
        let at = b * minis + j;
        assert((written - (at + 1)) * mini_size + mini_size == (written - at) * mini_size)
            by (nonlinear_arith);
        assert((at + 1) * mini_size == at * mini_size + mini_size) by (nonlinear_arith);
        assert forall|k: int| 0 <= k < steps.len() implies #[trigger] steps[k] == step_at(
            mini_size,
            minis,
            blocks,
            (at * mini_size + k) as nat,
        ) by {
            if k < mini_size {
                lemma_step_index(mini_size, minis, blocks, b, j, k as nat);
            } else {
                assert(steps[k] == rest[k - mini_size]);
                assert(((at + 1) * mini_size + (k - mini_size)) == at * mini_size + k);
            }
        }
    } else if b + 1 < blocks.len() {
        lemma_steps_are_placed(mini_size, minis, blocks, b + 1, 0);
        assert((b + 1) * minis + 0 == b * minis + minis) by (nonlinear_arith);
        assert(j == minis);
    } else {
        assert(b == blocks.len() - 1);
        assert(steps_from(blocks, b + 1, 0).len() == 0);
        assert((written - (b * minis + j)) * mini_size == 0) by (nonlinear_arith)
            requires
                written == b * minis + j,
        ;
    }
}

/// That a first value is of a stream's width.
pub open spec fn first_fits(first: int, wide: bool) -> bool {
    if wide {
        i64::MIN <= first <= i64::MAX
    } else {
        i32::MIN <= first <= i32::MAX
    }
}

/// A number is read where it stands.
proof fn lemma_number_at(bytes: Seq<u8>, before: Seq<u8>, z: nat, after: Seq<u8>)
    requires
        z <= u64::MAX,
        bytes == before + uvarint_bytes(z) + after,
    ensures
        uvarint(bytes, before.len()) == Ok::<(nat, nat), FormatError>(
            (z, before.len() + uvarint_bytes(z).len()),
        ),
{
    law_uvarint_round_trip(before, z, after);
}

#[verifier::rlimit(100)]
#[verifier::spinoff_prover]
proof fn lemma_head_reads_back(
    before: Seq<u8>,
    mini_size: nat,
    minis: nat,
    count: nat,
    first: int,
    after: Seq<u8>,
    wide: bool,
)
    requires
        mini_size * minis <= u64::MAX,
        minis <= u64::MAX,
        count <= u64::MAX,
        first_fits(first, wide),
    ensures
        ({
            let head = delta_head(mini_size, minis, count, first);
            let bytes = before + head + after;
            delta_stream(bytes, before.len(), wide) == delta_body(
                bytes,
                before.len() + head.len(),
                mini_size * minis,
                minis,
                count,
                first,
                wide,
            )
        }),
{
    let h1 = uvarint_bytes(mini_size * minis);
    let h2 = uvarint_bytes(minis);
    let h3 = uvarint_bytes(count);
    let h4 = uvarint_bytes(zigzag(first));
    let bytes = before + delta_head(mini_size, minis, count, first) + after;
    law_zigzag_round_trip(first);
    assert(bytes =~= before + h1 + (h2 + h3 + h4 + after));
    lemma_number_at(bytes, before, mini_size * minis, h2 + h3 + h4 + after);
    assert(bytes =~= before + h1 + h2 + (h3 + h4 + after));
    lemma_number_at(bytes, before + h1, minis, h3 + h4 + after);
    assert(bytes =~= before + h1 + h2 + h3 + (h4 + after));
    lemma_number_at(bytes, before + h1 + h2, count, h4 + after);
    assert(bytes =~= before + h1 + h2 + h3 + h4 + after);
    lemma_number_at(bytes, before + h1 + h2 + h3, zigzag(first), after);
}

/// A delta stream is read back from its first value on: each value is the one
/// before it, the least delta of the delta's block, and what the delta has
/// over it, in every mini-block of every block. The stream ends where its
/// bytes end, whatever stands around it.
#[verifier::rlimit(100)]
#[verifier::spinoff_prover]
pub proof fn law_delta_stream_round_trips(
    before: Seq<u8>,
    mini_size: nat,
    minis: nat,
    count: nat,
    first: int,
    blocks: Seq<WrittenBlock>,
    after: Seq<u8>,
    wide: bool,
)
    requires
        blocks_writable(mini_size, minis, count, blocks),
        first_fits(first, wide),
    ensures
        ({
            let middle = delta_bytes(mini_size, minis, count, first, blocks);
            let d = delta_stream(before + middle + after, before.len(), wide);
            &&& d.fault is None
            &&& d.end == before.len() + middle.len()
            &&& d.sums.len() == count
            &&& count > 0 ==> d.sums[0] == first
            &&& forall|i: nat|
                i + 1 < count ==> (#[trigger] d.sums[(i + 1) as int]) - d.sums[i as int] == step_at(
                    mini_size,
                    minis,
                    blocks,
                    i,
                )
        }),
{
    let head = delta_head(mini_size, minis, count, first);
    let tail = blocks_bytes(blocks, 0);
    let middle = delta_bytes(mini_size, minis, count, first, blocks);
    let bytes = before + middle + after;
    let front = before + head;
    lemma_head_reads_back(before, mini_size, minis, count, first, tail + after, wide);
    assert(before + head + (tail + after) =~= bytes);
    assert(front + tail + after =~= bytes);
    let d = delta_stream(bytes, before.len(), wide);
    assert(mini_size * minis == minis * mini_size) by (nonlinear_arith);
    lemma_fundamental_div_mod_converse(
        (mini_size * minis) as int,
        minis as int,
        mini_size as int,
        0,
    );
    if count > 0 {
        assert(blocks_sound(blocks, mini_size, minis));
        let remaining = (count - 1) as nat;
        let steps = steps_from(blocks, 0, 0);
        if blocks.len() > 0 {
            lemma_steps_are_placed(mini_size, minis, blocks, 0, 0);
            let written = (blocks.len() - 1) * minis + blocks.last().minis.len();
            assert(0 * minis == 0);
            assert(0 * mini_size == 0);
            assert((written - 1) * mini_size == written * mini_size - mini_size)
                by (nonlinear_arith);
        }
        lemma_block_reads_back(
            front,
            blocks,
            0,
            after,
            mini_size,
            minis,
            0,
            first,
            remaining,
            wide,
        );
        let taken = steps.take(remaining as int);
        lemma_chain(first, taken);
        assert(d.sums =~= seq![first] + chain(first, taken));
        assert forall|i: nat| i + 1 < count implies (#[trigger] d.sums[(i + 1) as int])
            - d.sums[i as int] == step_at(mini_size, minis, blocks, i) by {
            assert(d.sums[(i + 1) as int] == chain(first, taken)[i as int]);
            assert(taken[i as int] == steps[i as int]);
            if i > 0 {
                assert(d.sums[i as int] == chain(first, taken)[i - 1]);
            }
        }
    } else {
        assert(blocks_bytes(blocks, 0).len() == 0);
    }
}

/// That blocks record 64-bit values: each difference is the step of its
/// delta, up to whole turns of the 64-bit circle.
pub open spec fn records_i64(
    mini_size: nat,
    minis: nat,
    blocks: Seq<WrittenBlock>,
    values: Seq<i64>,
) -> bool {
    forall|i: nat|
        i + 1 < values.len() ==> ((#[trigger] values[(i + 1) as int]) - values[i as int] - step_at(
            mini_size,
            minis,
            blocks,
            i,
        )) % 0x1_0000_0000_0000_0000 == 0
}

/// That blocks record 32-bit values: each difference is the step of its
/// delta, up to whole turns of the 32-bit circle.
pub open spec fn records_i32(
    mini_size: nat,
    minis: nat,
    blocks: Seq<WrittenBlock>,
    values: Seq<i32>,
) -> bool {
    forall|i: nat|
        i + 1 < values.len() ==> ((#[trigger] values[(i + 1) as int]) - values[i as int] - step_at(
            mini_size,
            minis,
            blocks,
            i,
        )) % 0x1_0000_0000 == 0
}

/// Any 64-bit values, whatever the blocks that record them, are read back
/// from a delta stream as they were.
pub proof fn law_delta_i64_round_trips(
    before: Seq<u8>,
    mini_size: nat,
    minis: nat,
    values: Seq<i64>,
    blocks: Seq<WrittenBlock>,
    after: Seq<u8>,
)
    requires
        values.len() > 0,
        blocks_writable(mini_size, minis, values.len(), blocks),
        records_i64(mini_size, minis, blocks, values),
    ensures
        ({
            let middle = delta_bytes(mini_size, minis, values.len(), values[0] as int, blocks);
            let d = delta_stream(before + middle + after, before.len(), true);
            &&& d.fault is None
            &&& d.end == before.len() + middle.len()
            &&& d.sums.map_values(|x: int| wrap64(x)) == values
        }),
{
    let middle = delta_bytes(mini_size, minis, values.len(), values[0] as int, blocks);
    let d = delta_stream(before + middle + after, before.len(), true);
    law_delta_stream_round_trips(
        before,
        mini_size,
        minis,
        values.len(),
        values[0] as int,
        blocks,
        after,
        true,
    );
    assert forall|i: int| 0 <= i < values.len() implies wrap64(#[trigger] d.sums[i])
        == values[i] by {
        lemma_turns_i64(mini_size, minis, blocks, values, d.sums, i as nat);
    }
    assert(d.sums.map_values(|x: int| wrap64(x)) =~= values);
}

proof fn lemma_turns_i64(
    mini_size: nat,
    minis: nat,
    blocks: Seq<WrittenBlock>,
    values: Seq<i64>,
    sums: Seq<int>,
    i: nat,
)
    requires
        records_i64(mini_size, minis, blocks, values),
        i < values.len() == sums.len(),
        sums[0] == values[0],
        forall|i: nat|
            i + 1 < values.len() ==> (#[trigger] sums[(i + 1) as int]) - sums[i as int] == step_at(
                mini_size,
                minis,
                blocks,
                i,
            ),
    ensures
        (sums[i as int] - values[i as int]) % 0x1_0000_0000_0000_0000 == 0,
        wrap64(sums[i as int]) == values[i as int],
    decreases i,
{
    if i > 0 {
        let j: nat = (i - 1) as nat;
        lemma_turns_i64(mini_size, minis, blocks, values, sums, j);
        assert(sums[(j + 1) as int] - sums[j as int] == step_at(mini_size, minis, blocks, j));
        assert((values[(j + 1) as int] - values[j as int] - step_at(mini_size, minis, blocks, j))
            % 0x1_0000_0000_0000_0000 == 0);
    }
}

/// Any 32-bit values, whatever the blocks that record them, are read back
/// from a delta stream as they were.
pub proof fn law_delta_i32_round_trips(
    before: Seq<u8>,
    mini_size: nat,
    minis: nat,
    values: Seq<i32>,
    blocks: Seq<WrittenBlock>,
    after: Seq<u8>,
)
    requires
        values.len() > 0,
        blocks_writable(mini_size, minis, values.len(), blocks),
        records_i32(mini_size, minis, blocks, values),
    ensures
        ({
            let middle = delta_bytes(mini_size, minis, values.len(), values[0] as int, blocks);
            let d = delta_stream(before + middle + after, before.len(), false);
            &&& d.fault is None
            &&& d.end == before.len() + middle.len()
            &&& d.sums.map_values(|x: int| wrap32(x)) == values
        }),
{
    let middle = delta_bytes(mini_size, minis, values.len(), values[0] as int, blocks);
    let d = delta_stream(before + middle + after, before.len(), false);
    law_delta_stream_round_trips(
        before,
        mini_size,
        minis,
        values.len(),
        values[0] as int,
        blocks,
        after,
        false,
    );
    assert forall|i: int| 0 <= i < values.len() implies wrap32(#[trigger] d.sums[i])
        == values[i] by {
        lemma_turns_i32(mini_size, minis, blocks, values, d.sums, i as nat);
    }
    assert(d.sums.map_values(|x: int| wrap32(x)) =~= values);
}

proof fn lemma_turns_i32(
    mini_size: nat,
    minis: nat,
    blocks: Seq<WrittenBlock>,
    values: Seq<i32>,
    sums: Seq<int>,
    i: nat,
)
    requires
        records_i32(mini_size, minis, blocks, values),
        i < values.len() == sums.len(),
        sums[0] == values[0],
        forall|i: nat|
            i + 1 < values.len() ==> (#[trigger] sums[(i + 1) as int]) - sums[i as int] == step_at(
                mini_size,
                minis,
                blocks,
                i,
            ),
    ensures
        (sums[i as int] - values[i as int]) % 0x1_0000_0000 == 0,
        wrap32(sums[i as int]) == values[i as int],
    decreases i,
{
    if i > 0 {
        let j: nat = (i - 1) as nat;
        lemma_turns_i32(mini_size, minis, blocks, values, sums, j);
        assert(sums[(j + 1) as int] - sums[j as int] == step_at(mini_size, minis, blocks, j));
        assert((values[(j + 1) as int] - values[j as int] - step_at(mini_size, minis, blocks, j))
            % 0x1_0000_0000 == 0);
    }
}

// ---- Byte strings ----

/// A list of 32-bit values as a writer lays it out, and what it records. A
/// list of no values has no blocks, and its first value does not matter.
pub struct WrittenList {
    pub mini_size: nat,
    pub minis: nat,
    pub first: i32,
    pub blocks: Seq<WrittenBlock>,
}

impl WrittenList {
    pub open spec fn bytes(self, count: nat) -> Seq<u8> {
        delta_bytes(self.mini_size, self.minis, count, self.first as int, self.blocks)
    }

    pub open spec fn records(self, values: Seq<i32>) -> bool {
        &&& blocks_writable(self.mini_size, self.minis, values.len(), self.blocks)
        &&& values.len() > 0 ==> self.first == values[0]
        &&& records_i32(self.mini_size, self.minis, self.blocks, values)
    }
}

/// That a delta stream of 32-bit values at `pos` is read as `values`, up to
/// `end`.
#[verifier::opaque]
spec fn reads_as(bytes: Seq<u8>, pos: nat, end: nat, values: Seq<i32>) -> bool {
    let d = delta_stream(bytes, pos, false);
    &&& d.fault is None
    &&& d.end == end
    &&& d.sums.map_values(|x: int| wrap32(x)) == values
}

/// A list of 32-bit values, empty or not, is read back where it stands.
#[verifier::rlimit(100)]
#[verifier::spinoff_prover]
proof fn lemma_list_reads_back(
    before: Seq<u8>,
    list: WrittenList,
    values: Seq<i32>,
    after: Seq<u8>,
)
    requires
        list.records(values),
    ensures
        reads_as(
            before + list.bytes(values.len()) + after,
            before.len(),
            before.len() + list.bytes(values.len()).len(),
            values,
        ),
{
    reveal(reads_as);
    if values.len() > 0 {
        law_delta_i32_round_trips(
            before,
            list.mini_size,
            list.minis,
            values,
            list.blocks,
            after,
        );
    } else {
        law_delta_stream_round_trips(
            before,
            list.mini_size,
            list.minis,
            0,
            list.first as int,
            list.blocks,
            after,
            false,
        );
        let d = delta_stream(before + list.bytes(0) + after, before.len(), false);
        assert(d.sums.map_values(|x: int| wrap32(x)) =~= values);
    }
}

/// Strings, one after the other.
pub open spec fn strings_joined(strings: Seq<Seq<u8>>) -> Seq<u8>
    decreases strings.len(),
{
    if strings.len() == 0 {
        Seq::empty()
    } else {
        strings[0] + strings_joined(strings.skip(1))
    }
}

/// That numbers are the lengths of strings.
pub open spec fn are_lengths(lengths: Seq<i32>, strings: Seq<Seq<u8>>) -> bool {
    &&& lengths.len() == strings.len()
    &&& forall|i: int|
        0 <= i < strings.len() ==> #[trigger] lengths[i] == (strings[i].len() as int)
}

proof fn lemma_strings_cut_back(
    before: Seq<u8>,
    strings: Seq<Seq<u8>>,
    lengths: Seq<i32>,
    after: Seq<u8>,
)
    requires
        are_lengths(lengths, strings),
    ensures
        cut_strings(before + strings_joined(strings) + after, before.len(), lengths) == (Outcome {
            emitted: strings,
            fault: None,
        }),
    decreases strings.len(),
{
    let bytes = before + strings_joined(strings) + after;
    if strings.len() > 0 {
        let head = strings[0];
        let rest = strings.skip(1);
        let front = before + head;
        assert(lengths[0] == head.len());
        assert forall|i: int| 0 <= i < rest.len() implies #[trigger] lengths.skip(1)[i] == (
        rest[i].len() as int) by {
            assert(lengths[i + 1] == strings[i + 1].len());
        }
        assert(front + strings_joined(rest) + after =~= bytes);
        lemma_strings_cut_back(front, rest, lengths.skip(1), after);
        assert(bytes.subrange(before.len() as int, before.len() + lengths[0]) =~= head);
        assert(seq![head] + rest =~= strings);
    } else {
        assert(strings =~= Seq::empty());
    }
}

/// Strings stored as their lengths and their bytes are read back as they
/// were.
#[verifier::rlimit(100)]
#[verifier::spinoff_prover]
pub proof fn law_length_prefixed_round_trips(
    strings: Seq<Seq<u8>>,
    lengths: Seq<i32>,
    list: WrittenList,
    after: Seq<u8>,
)
    requires
        are_lengths(lengths, strings),
        list.records(lengths),
    ensures
        length_prefixed(list.bytes(lengths.len()) + strings_joined(strings) + after) == (Outcome {
            emitted: strings,
            fault: None,
        }),
{
    let none = Seq::<u8>::empty();
    let head = list.bytes(lengths.len());
    let tail = strings_joined(strings) + after;
    let bytes = head + strings_joined(strings) + after;
    lemma_list_reads_back(none, list, lengths, tail);
    assert(none + head + tail =~= bytes);
    lemma_strings_cut_back(head, strings, lengths, after);
    reveal(reads_as);
}

/// That strings grow out of prefixes of the ones before them: string `i`
/// starts with the first `prefixes[i]` bytes of the one before, the first with
/// none, and goes on with its suffix.
pub open spec fn grown_from(
    strings: Seq<Seq<u8>>,
    prefixes: Seq<i32>,
    suffixes: Seq<Seq<u8>>,
    first: Seq<u8>,
) -> bool {
    &&& strings.len() == prefixes.len() == suffixes.len()
    &&& forall|i: int|
        0 <= i < strings.len() ==> #[trigger] grows(
            prior(strings, first, i),
            prefixes[i],
            suffixes[i],
            strings[i],
        )
}

/// The string before string `i`.
pub open spec fn prior(strings: Seq<Seq<u8>>, first: Seq<u8>, i: int) -> Seq<u8> {
    if i == 0 {
        first
    } else {
        strings[i - 1]
    }
}

/// That a string is the first bytes of another and a suffix.
pub open spec fn grows(prior: Seq<u8>, prefix: i32, suffix: Seq<u8>, string: Seq<u8>) -> bool {
    0 <= prefix <= prior.len() && string == prior.take(prefix as int) + suffix
}

proof fn lemma_strings_grow_back(
    before: Seq<u8>,
    strings: Seq<Seq<u8>>,
    prefixes: Seq<i32>,
    suffixes: Seq<Seq<u8>>,
    lengths: Seq<i32>,
    prev: Seq<u8>,
    after: Seq<u8>,
)
    requires
        grown_from(strings, prefixes, suffixes, prev),
        are_lengths(lengths, suffixes),
    ensures
        grow_strings(
            before + strings_joined(suffixes) + after,
            before.len(),
            prefixes,
            lengths,
            prev,
        ) == (Outcome { emitted: strings, fault: None }),
    decreases strings.len(),
{
    let bytes = before + strings_joined(suffixes) + after;
    if strings.len() > 0 {
        let head = suffixes[0];
        let front = before + head;
        let (s, p, f, l) = (strings.skip(1), prefixes.skip(1), suffixes.skip(1), lengths.skip(1));
        assert(lengths[0] == head.len());
        assert(grows(prior(strings, prev, 0), prefixes[0], suffixes[0], strings[0]));
        assert forall|i: int| 0 <= i < f.len() implies #[trigger] l[i] == (f[i].len() as int) by {
            assert(lengths[i + 1] == suffixes[i + 1].len());
        }
        assert forall|i: int| 0 <= i < s.len() implies #[trigger] grows(
            prior(s, strings[0], i),
            p[i],
            f[i],
            s[i],
        ) by {
            assert(grows(
                prior(strings, prev, i + 1),
                prefixes[i + 1],
                suffixes[i + 1],
                strings[i + 1],
            ));
        }
        assert(front + strings_joined(f) + after =~= bytes);
        lemma_strings_grow_back(front, s, p, f, l, strings[0], after);
        assert(bytes.subrange(before.len() as int, before.len() + lengths[0]) =~= head);
        assert(seq![strings[0]] + s =~= strings);
    } else {
        assert(strings =~= Seq::empty());
    }
}

/// That strings with shared prefixes are read by their lists of lengths, and
/// from `end` on.
#[verifier::opaque]
spec fn shares(bytes: Seq<u8>, end: nat, prefixes: Seq<i32>, lengths: Seq<i32>) -> bool {
    prefix_shared(bytes) == grow_strings(bytes, end, prefixes, lengths, Seq::empty())
}

#[verifier::rlimit(100)]
#[verifier::spinoff_prover]
proof fn lemma_shared_lists(
    bytes: Seq<u8>,
    middle: nat,
    end: nat,
    prefixes: Seq<i32>,
    lengths: Seq<i32>,
)
    requires
        prefixes.len() == lengths.len(),
        reads_as(bytes, 0, middle, prefixes),
        reads_as(bytes, middle, end, lengths),
    ensures
        shares(bytes, end, prefixes, lengths),
{
    reveal(reads_as);
    reveal(shares);
    let p = delta_stream(bytes, 0, false);
    let s = delta_stream(bytes, middle, false);
    assert(p.sums.map_values(|x: int| wrap32(x)).len() == p.sums.len());
    assert(s.sums.map_values(|x: int| wrap32(x)).len() == s.sums.len());
}

#[verifier::rlimit(100)]
#[verifier::spinoff_prover]
proof fn lemma_two_lists_read_back(
    prefix_list: WrittenList,
    prefixes: Seq<i32>,
    suffix_list: WrittenList,
    lengths: Seq<i32>,
    tail: Seq<u8>,
)
    requires
        prefixes.len() == lengths.len(),
        prefix_list.records(prefixes),
        suffix_list.records(lengths),
    ensures
        shares(
            prefix_list.bytes(prefixes.len()) + suffix_list.bytes(lengths.len()) + tail,
            prefix_list.bytes(prefixes.len()).len() + suffix_list.bytes(lengths.len()).len(),
            prefixes,
            lengths,
        ),
{
    let none = Seq::<u8>::empty();
    let a = prefix_list.bytes(prefixes.len());
    let b = suffix_list.bytes(lengths.len());
    let bytes = a + b + tail;
    lemma_list_reads_back(none, prefix_list, prefixes, b + tail);
    assert(none + a + (b + tail) =~= bytes);
    lemma_list_reads_back(a, suffix_list, lengths, tail);
    lemma_shared_lists(bytes, a.len(), a.len() + b.len(), prefixes, lengths);
}

/// Strings stored as the lengths of the prefixes that they share with the
/// ones before them, the lengths of what follows, and what follows, are read
/// back as they were.
#[verifier::rlimit(100)]
#[verifier::spinoff_prover]
pub proof fn law_prefix_shared_round_trips(
    strings: Seq<Seq<u8>>,
    prefixes: Seq<i32>,
    suffixes: Seq<Seq<u8>>,
    lengths: Seq<i32>,
    prefix_list: WrittenList,
    suffix_list: WrittenList,
    after: Seq<u8>,
)
    requires
        grown_from(strings, prefixes, suffixes, Seq::empty()),
        are_lengths(lengths, suffixes),
        prefix_list.records(prefixes),
        suffix_list.records(lengths),
    ensures
        prefix_shared(
            prefix_list.bytes(prefixes.len()) + suffix_list.bytes(lengths.len())
                + strings_joined(suffixes) + after,
        ) == (Outcome { emitted: strings, fault: None }),
{
    let none = Seq::<u8>::empty();
    let a = prefix_list.bytes(prefixes.len());
    let b = suffix_list.bytes(lengths.len());
    let tail = strings_joined(suffixes) + after;
    let bytes = a + b + strings_joined(suffixes) + after;
    lemma_two_lists_read_back(prefix_list, prefixes, suffix_list, lengths, tail);
    assert(a + b + tail =~= bytes);
    lemma_strings_grow_back(a + b, strings, prefixes, suffixes, lengths, none, after);
    assert((a + b) + strings_joined(suffixes) + after =~= bytes);
    reveal(shares);
}

} // verus!
