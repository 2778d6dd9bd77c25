//! What is read back of hybrid streams as a writer lays them out: bare, as
//! dictionary pages, and as levels.

use vstd::arithmetic::power2::{lemma2_to64, pow2};
use vstd::prelude::*;

use crate::bitpack::{first_outside, lemma_first_outside, lookup_values};
use crate::bits::packed_len;
use crate::cursor::{law_uvarint_round_trip, uvarint_bytes};
use crate::dict::{
    law_readable_page_is_gathered, law_readable_page_is_looked_up, law_readable_page_is_masked,
    mask_refusal, page, page_gather, page_indices, page_lookup, page_mask, page_runs, repeats_below,
    selected, step_runs,
};
use crate::error::{Fault, FormatError};
use crate::levels::{is_width_for, levels_at, page_levels, values_offset};
use crate::packing_laws::{
    fit, law_field_reads_a_number, law_packing_round_trips, lemma_field_of_prefix,
    lemma_le_bytes_len, lemma_pow2_monotone, packed_bytes,
};
use crate::plain::le_bytes;
use crate::rle::{lemma_next_run, min_nat, next_run, repeat_run, step_values, walk};

verus! {

/// A run as a writer sees it.
pub enum WrittenRun {
    /// One value and how often it is repeated.
    Repeated(nat, nat),
    /// Values one by one, eight to a group.
    Packed(Seq<nat>),
}

impl WrittenRun {
    /// The values that the run stands for.
    pub open spec fn values(self) -> Seq<nat> {
        match self {
            WrittenRun::Repeated(value, count) => Seq::new(count, |i: int| value),
            WrittenRun::Packed(values) => values,
        }
    }

    /// That the run can be written at a width: a repeated value fits the whole
    /// bytes of the width, packed ones fit the width, groups are whole, and the
    /// header is a 64-bit number.
    pub open spec fn writable(self, width: nat) -> bool {
        match self {
            WrittenRun::Repeated(value, count) => value < pow2(8 * ((width + 7) as nat / 8)) && 2
                * count <= u64::MAX,
            WrittenRun::Packed(values) => fit(values, width) && values.len() % 8 == 0 && 2 * (
            values.len() / 8) + 1 <= u64::MAX,
        }
    }

    /// The bytes of the run: twice the count, and the value in whole bytes;
    /// or twice the number of groups and one, and the values packed.
    pub open spec fn bytes(self, width: nat) -> Seq<u8> {
        match self {
            WrittenRun::Repeated(value, count) => uvarint_bytes(2 * count) + le_bytes(
                value,
                (width + 7) as nat / 8,
            ),
            WrittenRun::Packed(values) => uvarint_bytes(2 * (values.len() / 8) + 1) + packed_bytes(
                values,
                width,
            ),
        }
    }
}

/// The bytes of runs, one after the other.
pub open spec fn stream_bytes(runs: Seq<WrittenRun>, width: nat) -> Seq<u8>
    decreases runs.len(),
{
    if runs.len() == 0 {
        Seq::empty()
    } else {
        runs[0].bytes(width) + stream_bytes(runs.skip(1), width)
    }
}

/// The values of runs, one after the other.
pub open spec fn stream_values(runs: Seq<WrittenRun>) -> Seq<nat>
    decreases runs.len(),
{
    if runs.len() == 0 {
        Seq::empty()
    } else {
        runs[0].values() + stream_values(runs.skip(1))
    }
}

/// That every run can be written.
pub open spec fn writable(runs: Seq<WrittenRun>, width: nat) -> bool {
    forall|i: int| 0 <= i < runs.len() ==> (#[trigger] runs[i]).writable(width)
}

/// That every index that a run repeats, though it be zero times, is below a
/// limit.
pub open spec fn repeated_below(runs: Seq<WrittenRun>, limit: nat) -> bool {
    forall|i: int|
        0 <= i < runs.len() ==> match #[trigger] runs[i] {
            WrittenRun::Repeated(value, _) => value < limit,
            WrittenRun::Packed(_) => true,
        }
}

/// One written run, read where it stands, gives its values, as many as are
/// wanted, and ends where its bytes end.
#[verifier::rlimit(100)]
#[verifier::spinoff_prover]
pub proof fn law_run_reads_back(
    before: Seq<u8>,
    run: WrittenRun,
    after: Seq<u8>,
    width: nat,
    need: nat,
)
    requires
        1 <= width <= 64,
        run.writable(width),
    ensures
        ({
            let bytes = before + run.bytes(width) + after;
            let n = min_nat(need, run.values().len());
            match next_run(bytes, before.len(), width, need) {
                Ok((read, next)) => {
                    &&& read.values == run.values().take(n as int)
                    &&& next == before.len() + run.bytes(width).len()
                    &&& run matches WrittenRun::Repeated(value, _) ==> read.value == value
                    &&& read.repeated == (run is Repeated)
                },
                Err(_) => false,
            }
        }),
{
    let bytes = before + run.bytes(width) + after;
    let n = min_nat(need, run.values().len());
    match run {
        WrittenRun::Repeated(value, count) => {
            let head = uvarint_bytes(2 * count);
            let len = (width + 7) as nat / 8;
            let tail = le_bytes(value, len);
            law_uvarint_round_trip(before, 2 * count, tail + after);
            assert(before + head + (tail + after) =~= bytes);
            lemma_le_bytes_len(value, len);
            law_field_reads_a_number(value, len);
            let body = before.len() + head.len();
            assert(bytes.subrange(body as int, (body + len) as int) =~= tail);
            assert(repeat_run(value, n).values =~= run.values().take(n as int));
        },
        WrittenRun::Packed(values) => {
            let groups = values.len() / 8;
            let head = uvarint_bytes(2 * groups + 1);
            let tail = packed_bytes(values, width);
            law_uvarint_round_trip(before, 2 * groups + 1, tail + after);
            assert(before + head + (tail + after) =~= bytes);
            law_packing_round_trips(values, width, Seq::empty());
            assert(tail + Seq::<u8>::empty() =~= tail);
            assert(packed_len(values.len(), width) == groups * width) by {
                assert(values.len() * width == 8 * (groups * width)) by (nonlinear_arith)
                    requires
                        values.len() == 8 * groups,
                ;
            }
            let body = before.len() + head.len();
            let len = groups * width;
            assert(bytes.subrange(body as int, (body + len) as int) =~= tail);
            assert((2 * groups + 1) / 2 == groups);
        },
    }
}

#[verifier::rlimit(100)]
#[verifier::spinoff_prover]
proof fn lemma_stream_reads_back(
    before: Seq<u8>,
    runs: Seq<WrittenRun>,
    after: Seq<u8>,
    width: nat,
    row: nat,
    total: nat,
)
    requires
        1 <= width <= 64,
        writable(runs, width),
        row <= total,
        total - row <= stream_values(runs).len(),
    ensures
        ({
            let bytes = before + stream_bytes(runs, width) + after;
            let o = walk(bytes, before.len(), width, row, total, step_values());
            o.fault is None && o.emitted == stream_values(runs).take(total - row)
        }),
    decreases runs.len(),
{
    let bytes = before + stream_bytes(runs, width) + after;
    let o = walk(bytes, before.len(), width, row, total, step_values());
    if row < total {
        let head = runs[0].bytes(width);
        let rest = runs.skip(1);
        let need = (total - row) as nat;
        let tail = stream_bytes(rest, width);
        assert(before + head + (tail + after) =~= bytes);
        assert(before + head + tail + after =~= bytes);
        law_run_reads_back(before, runs[0], tail + after, width, need);
        lemma_next_run(bytes, before.len(), width, need);
        let (read, next) = next_run(bytes, before.len(), width, need)->Ok_0;
        assert forall|i: int| 0 <= i < rest.len() implies (#[trigger] rest[i]).writable(width) by {
            assert(rest[i] == runs[i + 1]);
        }
        lemma_stream_reads_back(
            before + head,
            rest,
            after,
            width,
            row + read.values.len(),
            total,
        );
        assert(o.emitted =~= stream_values(runs).take(total - row));
    } else {
        assert(o.emitted =~= stream_values(runs).take(0));
    }
}

/// A hybrid stream, of any mix of runs, is read back as the values that were
/// written; values beyond those wanted, and bytes beyond the runs, change
/// nothing.
pub proof fn law_hybrid_stream_round_trips(
    runs: Seq<WrittenRun>,
    after: Seq<u8>,
    width: nat,
    total: nat,
)
    requires
        1 <= width <= 64,
        writable(runs, width),
        total <= stream_values(runs).len(),
    ensures
        walk(stream_bytes(runs, width) + after, 0, width, 0, total, step_values()).fault is None,
        walk(stream_bytes(runs, width) + after, 0, width, 0, total, step_values()).emitted
            == stream_values(runs).take(total as int),
{
    let none = Seq::<u8>::empty();
    lemma_stream_reads_back(none, runs, after, width, 0, total);
    assert(none + stream_bytes(runs, width) + after =~= stream_bytes(runs, width) + after);
}

proof fn lemma_stream_ends(
    before: Seq<u8>,
    runs: Seq<WrittenRun>,
    width: nat,
    row: nat,
    total: nat,
)
    requires
        1 <= width <= 64,
        writable(runs, width),
        total > row + stream_values(runs).len(),
    ensures
        walk(
            before + stream_bytes(runs, width),
            before.len(),
            width,
            row,
            total,
            step_values(),
        ).fault == Some(Fault::Wire(FormatError::UnexpectedEof)),
    decreases runs.len(),
{
    let bytes = before + stream_bytes(runs, width);
    if runs.len() > 0 {
        let head = runs[0].bytes(width);
        let rest = runs.skip(1);
        let need = (total - row) as nat;
        let tail = stream_bytes(rest, width);
        assert(before + head + tail =~= bytes);
        law_run_reads_back(before, runs[0], tail, width, need);
        lemma_next_run(bytes, before.len(), width, need);
        assert forall|i: int| 0 <= i < rest.len() implies (#[trigger] rest[i]).writable(width) by {
            assert(rest[i] == runs[i + 1]);
        }
        let (read, next) = next_run(bytes, before.len(), width, need)->Ok_0;
        assert(read.values =~= runs[0].values());
        lemma_stream_ends(before + head, rest, width, row + read.values.len(), total);
    }
}

/// A hybrid stream that holds fewer values than are wanted is refused.
pub proof fn law_short_stream_is_refused(runs: Seq<WrittenRun>, width: nat, total: nat)
    requires
        1 <= width <= 64,
        writable(runs, width),
        total > stream_values(runs).len(),
    ensures
        walk(stream_bytes(runs, width), 0, width, 0, total, step_values()).fault == Some(
            Fault::Wire(FormatError::UnexpectedEof),
        ),
{
    let none = Seq::<u8>::empty();
    lemma_stream_ends(none, runs, width, 0, total);
    assert(none + stream_bytes(runs, width) =~= stream_bytes(runs, width));
}

// ---- Dictionary pages ----

/// The body of a dictionary-encoded page: the width, then the runs.
pub open spec fn dictionary_page(runs: Seq<WrittenRun>, width: u8) -> Seq<u8> {
    seq![width] + stream_bytes(runs, width as nat)
}

/// The indices of a written page are those of its runs.
pub proof fn law_page_indices_read_back(runs: Seq<WrittenRun>, width: u8, num_values: nat)
    requires
        1 <= width <= 32,
        writable(runs, width as nat),
        num_values <= stream_values(runs).len(),
    ensures
        page_indices(dictionary_page(runs, width), num_values).fault is None,
        page_indices(dictionary_page(runs, width), num_values).emitted == stream_values(runs).take(
            num_values as int,
        ),
{
    let body = dictionary_page(runs, width);
    let none = Seq::<u8>::empty();
    assert(body.skip(1) =~= stream_bytes(runs, width as nat) + none);
    law_hybrid_stream_round_trips(runs, none, width as nat, num_values);
    assert(num_values == 0 ==> page_indices(body, num_values).emitted =~= stream_values(runs).take(
        0,
    ));
}

/// A page of width zero holds index zero in every row.
pub proof fn law_page_of_width_zero(rest: Seq<u8>, num_values: nat)
    ensures
        page_indices(seq![0u8] + rest, num_values).fault is None,
        page_indices(seq![0u8] + rest, num_values).emitted == Seq::new(num_values, |i: int| 0nat),
{
    assert(page_indices(seq![0u8] + rest, num_values).emitted =~= Seq::new(
        num_values,
        |i: int| 0nat,
    ));
}

#[verifier::rlimit(100)]
#[verifier::spinoff_prover]
proof fn lemma_stream_runs(
    before: Seq<u8>,
    runs: Seq<WrittenRun>,
    width: nat,
    row: nat,
    total: nat,
    limit: nat,
)
    requires
        1 <= width <= 64,
        writable(runs, width),
        row <= total,
        total - row <= stream_values(runs).len(),
        repeated_below(runs, limit),
    ensures
        repeats_below(
            walk(
                before + stream_bytes(runs, width),
                before.len(),
                width,
                row,
                total,
                step_runs(),
            ).emitted,
            limit,
        ),
    decreases runs.len(),
{
    let bytes = before + stream_bytes(runs, width);
    if row < total {
        let head = runs[0].bytes(width);
        let rest = runs.skip(1);
        let need = (total - row) as nat;
        let tail = stream_bytes(rest, width);
        assert(before + head + tail =~= bytes);
        law_run_reads_back(before, runs[0], tail, width, need);
        lemma_next_run(bytes, before.len(), width, need);
        let (read, next) = next_run(bytes, before.len(), width, need)->Ok_0;
        assert forall|i: int| 0 <= i < rest.len() implies (#[trigger] rest[i]).writable(width) by {
            assert(rest[i] == runs[i + 1]);
        }
        assert forall|i: int| 0 <= i < rest.len() implies match #[trigger] rest[i] {
            WrittenRun::Repeated(value, _) => value < limit,
            WrittenRun::Packed(_) => true,
        } by {
            assert(rest[i] == runs[i + 1]);
        }
        lemma_stream_runs(before + head, rest, width, row + read.values.len(), total, limit);
        let later = walk(
            before + head + tail,
            (before + head).len(),
            width,
            row + read.values.len(),
            total,
            step_runs(),
        ).emitted;
        let all = walk(bytes, before.len(), width, row, total, step_runs()).emitted;
        assert(all == seq![read] + later);
        assert forall|k: int| 0 <= k < all.len() && (#[trigger] all[k]).repeated implies all[k].value
            < limit by {
            if k > 0 {
                assert(all[k] == later[k - 1]);
            }
        }
    }
}

proof fn lemma_page_runs(runs: Seq<WrittenRun>, width: u8, num_values: nat, limit: nat)
    requires
        1 <= width <= 32,
        writable(runs, width as nat),
        num_values <= stream_values(runs).len(),
        repeated_below(runs, limit),
    ensures
        repeats_below(page_runs(dictionary_page(runs, width), num_values), limit),
{
    let none = Seq::<u8>::empty();
    let body = dictionary_page(runs, width);
    lemma_stream_runs(none, runs, width as nat, 0, num_values, limit);
    assert(body.skip(1) =~= none + stream_bytes(runs, width as nat));
}

/// The values of a written page are the dictionary's entries of its indices,
/// row by row.
pub proof fn law_page_values_read_back<T>(
    runs: Seq<WrittenRun>,
    width: u8,
    num_values: nat,
    dict: Seq<T>,
)
    requires
        1 <= width <= 32,
        writable(runs, width as nat),
        num_values <= stream_values(runs).len(),
        repeated_below(runs, dict.len()),
        forall|i: int| 0 <= i < num_values ==> #[trigger] stream_values(runs)[i] < dict.len(),
    ensures
        ({
            let o = page_lookup(dictionary_page(runs, width), num_values, dict);
            &&& o.fault is None
            &&& o.emitted.len() == num_values
            &&& forall|i: int|
                0 <= i < num_values ==> #[trigger] o.emitted[i] == dict[stream_values(
                    runs,
                )[i] as int]
        }),
{
    let body = dictionary_page(runs, width);
    law_page_indices_read_back(runs, width, num_values);
    lemma_page_runs(runs, width, num_values, dict.len());
    law_readable_page_is_looked_up(body, num_values, dict);
}

/// The bits of a written page are the mask's entries of its indices, row by
/// row.
pub proof fn law_page_bits_read_back(
    runs: Seq<WrittenRun>,
    width: u8,
    num_values: nat,
    mask: Seq<u8>,
)
    requires
        1 <= width < 32,
        writable(runs, width as nat),
        num_values <= stream_values(runs).len(),
        mask.len() >= pow2(width as nat),
        repeated_below(runs, pow2(width as nat)),
    ensures
        mask_refusal(dictionary_page(runs, width), mask) is None,
        ({
            let o = page_mask(dictionary_page(runs, width), num_values, mask);
            &&& o.fault is None
            &&& o.emitted.len() == num_values
            &&& forall|i: int|
                0 <= i < num_values ==> #[trigger] o.emitted[i] == (mask[stream_values(
                    runs,
                )[i] as int] != 0)
        }),
{
    let body = dictionary_page(runs, width);
    law_page_indices_read_back(runs, width, num_values);
    lemma_page_runs(runs, width, num_values, pow2(width as nat));
    law_readable_page_is_masked(body, num_values, mask);
}

/// What is gathered of a written page is the dictionary's entries of the rows
/// whose bits are set, in order.
pub proof fn law_page_rows_gather_back<T>(
    runs: Seq<WrittenRun>,
    width: u8,
    num_values: nat,
    bitmap: Seq<u8>,
    offset: nat,
    dict: Seq<T>,
)
    requires
        1 <= width <= 32,
        writable(runs, width as nat),
        num_values <= stream_values(runs).len(),
        repeated_below(runs, dict.len()),
        forall|i: int| 0 <= i < num_values ==> #[trigger] stream_values(runs)[i] < dict.len(),
    ensures
        page_gather(dictionary_page(runs, width), num_values, bitmap, offset, dict).fault is None,
        page_gather(dictionary_page(runs, width), num_values, bitmap, offset, dict).emitted
            == selected(
            Seq::new(num_values, |i: int| dict[stream_values(runs)[i] as int]),
            bitmap,
            offset,
        ),
{
    let body = dictionary_page(runs, width);
    law_page_indices_read_back(runs, width, num_values);
    lemma_page_runs(runs, width, num_values, dict.len());
    law_readable_page_is_gathered(body, num_values, bitmap, offset, dict);
    assert(page_indices(body, num_values).emitted.map_values(|v: nat| dict[v as int])
        =~= Seq::new(num_values, |i: int| dict[stream_values(runs)[i] as int]));
}

// ---- Levels ----

/// A level stream: the length of the runs in four bytes, then the runs. At
/// width zero there is none.
pub open spec fn level_bytes(runs: Seq<WrittenRun>, width: u8) -> Seq<u8> {
    if width == 0 {
        Seq::empty()
    } else {
        le_bytes(stream_bytes(runs, width as nat).len(), 4) + stream_bytes(runs, width as nat)
    }
}

/// That levels are written by runs at a width. Of a value beyond 16 bits the
/// low 16 bits are the level.
pub open spec fn writes_levels(runs: Seq<WrittenRun>, width: u8, levels: Seq<u16>) -> bool {
    &&& width <= 64
    &&& writable(runs, width as nat)
    &&& stream_bytes(runs, width as nat).len() <= u32::MAX
    &&& levels.len() <= stream_values(runs).len()
    &&& forall|i: int|
        0 <= i < levels.len() ==> (stream_values(runs)[i] - #[trigger] levels[i]) % 0x1_0000 == 0
    &&& width == 0 ==> forall|i: int| 0 <= i < levels.len() ==> #[trigger] levels[i] == 0
}

/// The narrowest width for a highest level holds every level up to it, and no
/// narrower one holds the highest.
pub proof fn law_narrowest_width_holds_the_levels(width: u8, max_level: u16, level: u16)
    requires
        is_width_for(width, max_level),
        level <= max_level,
    ensures
        level < pow2(width as nat),
        width <= 16,
        forall|narrower: nat| narrower < width ==> max_level >= #[trigger] pow2(narrower),
{
    lemma2_to64();
    if width > 16 {
        lemma_pow2_monotone(16, (width - 1) as nat);
    }
    assert forall|narrower: nat| narrower < width implies max_level >= #[trigger] pow2(
        narrower,
    ) by {
        lemma_pow2_monotone(narrower, (width - 1) as nat);
    }
}

/// Levels are read back as they were written, and the bytes that they took
/// are those that were written, whatever follows.
#[verifier::rlimit(100)]
#[verifier::spinoff_prover]
pub proof fn law_levels_round_trip(
    runs: Seq<WrittenRun>,
    width: u8,
    levels: Seq<u16>,
    rest: Seq<u8>,
)
    requires
        writes_levels(runs, width, levels),
    ensures
        levels_at(level_bytes(runs, width) + rest, width, levels.len()) == Ok::<
            (Seq<u16>, nat),
            Fault,
        >((levels, level_bytes(runs, width).len())),
{
    let body = level_bytes(runs, width) + rest;
    let n = levels.len();
    if width == 0 {
        assert(levels =~= Seq::new(n, |i: int| 0u16));
    } else {
        let stream = stream_bytes(runs, width as nat);
        let none = Seq::<u8>::empty();
        lemma2_to64();
        lemma_le_bytes_len(stream.len(), 4);
        lemma_field_of_prefix(stream.len(), 4, stream + rest);
        assert(le_bytes(stream.len(), 4) + (stream + rest) =~= body);
        assert(body.subrange(4, (4 + stream.len()) as int) =~= stream + none);
        law_hybrid_stream_round_trips(runs, none, width as nat, n);
        let emitted = stream_values(runs).take(n as int);
        assert forall|i: int| 0 <= i < n implies (#[trigger] emitted[i] % 0x1_0000) as u16
            == levels[i] by {
            assert((stream_values(runs)[i] - levels[i]) % 0x1_0000 == 0);
        }
        assert(emitted.map_values(|v: nat| (v % 0x1_0000) as u16) =~= levels);
    }
}

/// A page body of repetition levels, definition levels and values is cut
/// into just these; and skipping the levels lands on the values.
#[verifier::rlimit(100)]
#[verifier::spinoff_prover]
pub proof fn law_page_body_round_trips(
    rep_runs: Seq<WrittenRun>,
    rep_width: u8,
    rep: Seq<u16>,
    def_runs: Seq<WrittenRun>,
    def_width: u8,
    def: Seq<u16>,
    values: Seq<u8>,
)
    requires
        writes_levels(rep_runs, rep_width, rep),
        writes_levels(def_runs, def_width, def),
        rep.len() == def.len(),
    ensures
        ({
            let front = level_bytes(rep_runs, rep_width) + level_bytes(def_runs, def_width);
            &&& page_levels(front + values, rep_width, def_width, rep.len()) == Ok::<
                (Seq<u16>, Seq<u16>, Seq<u8>),
                Fault,
            >((rep, def, values))
            &&& values_offset(front + values, rep_width, def_width) == Ok::<nat, Fault>(front.len())
        }),
{
    let a = level_bytes(rep_runs, rep_width);
    let b = level_bytes(def_runs, def_width);
    let body = a + b + values;
    assert(body =~= a + (b + values));
    law_levels_round_trip(rep_runs, rep_width, rep, b + values);
    law_levels_round_trip(def_runs, def_width, def, values);
    assert(body.skip(a.len() as int) =~= b + values);
    assert(body.skip((a.len() + b.len()) as int) =~= values);
    crate::levels::law_skip_agrees_with_parse(body, rep_width, def_width, rep.len());
    assert(body.skip(0) =~= body);
}

/// A level stream that is cut short is refused.
pub proof fn law_short_levels_are_refused(
    runs: Seq<WrittenRun>,
    width: u8,
    kept: nat,
    num_values: nat,
)
    requires
        1 <= width <= 64,
        stream_bytes(runs, width as nat).len() <= u32::MAX,
        kept < level_bytes(runs, width).len(),
    ensures
        levels_at(level_bytes(runs, width).take(kept as int), width, num_values) is Err,
{
    let stream = stream_bytes(runs, width as nat);
    let head = le_bytes(stream.len(), 4);
    let cut = level_bytes(runs, width).take(kept as int);
    lemma2_to64();
    lemma_le_bytes_len(stream.len(), 4);
    if kept >= 4 {
        let rest = stream.take(kept - 4);
        assert(cut =~= head + rest);
        lemma_field_of_prefix(stream.len(), 4, rest);
    }
}

/// A page without a body is refused, and one of a width beyond 32 bits.
pub proof fn law_page_widths_are_bounded(body: Seq<u8>, num_values: nat)
    ensures
        body.len() == 0 ==> page_indices(body, num_values).fault == Some(Fault::EmptyDictPageBody),
        body.len() > 0 && body[0] > 32 ==> page_indices(body, num_values).fault == Some(
            Fault::BitWidthOutOfRange(body[0]),
        ),
{
}

/// A mask is taken for a page exactly where it has an entry for every index
/// of the page's width, which is below 32 bits.
pub proof fn law_masks_cover_the_width(width: u8, rest: Seq<u8>, mask: Seq<u8>)
    ensures
        mask_refusal(Seq::empty(), mask) == Some(Fault::EmptyDictPageBody),
        mask_refusal(seq![width] + rest, mask) is None <==> width < 32 && mask.len() >= pow2(
            width as nat,
        ),
{
}

/// An index outside the dictionary ends the lookup: it is named together with
/// the dictionary's size, and the values before it have been looked up.
pub proof fn law_stray_index_is_named<T>(values: Seq<nat>, dict: Seq<T>, k: nat)
    requires
        k < values.len(),
        values[k as int] >= dict.len(),
        forall|i: int| 0 <= i < k ==> #[trigger] values[i] < dict.len(),
    ensures
        lookup_values(values, dict).fault == Some(
            Fault::DictIndexOutOfRange {
                index: values[k as int] as u32,
                dict_size: dict.len() as usize,
            },
        ),
        lookup_values(values, dict).emitted.len() == k,
        forall|i: int|
            0 <= i < k ==> #[trigger] lookup_values(values, dict).emitted[i]
                == dict[values[i] as int],
{
    let good = first_outside(values, dict.len(), 0);
    lemma_first_outside(values, dict.len(), 0);
    if good < k {
        assert(values[good as int] < dict.len());
    }
}

} // verus!
