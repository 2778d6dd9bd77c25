//! Choice of a decode path for the dictionary pages of a column chunk.
//!
//! Under a predicate, a chunk is read either fused, as one bit per row, or
//! materialized, as the values of the rows that pass. The first pages are
//! probed fused, and what passed there decides the path of the chunk.

use vstd::arithmetic::power2::pow2;
use vstd::prelude::*;

use crate::bitpack::lemma_first_outside;
use crate::bits::{
    bit, get_bit, holds_rows, lemma_byte_plain, lemma_pack_holds, lemma_pack_unique, pack, set_bit,
};
use crate::column::{
    count_true, law_gather_counts_mask, lemma_count_true_concat, lemma_masked_prefix, masked,
    push_masked,
};
use crate::dict::{
    count_bits, decode_rle_dictionary_into, decode_rle_dictionary_predicate_bitmap, is_mask,
    law_bitmap_is_mask_of_indices, law_fused_decode_is_lookup, law_page_row_count,
    law_readable_page_is_looked_up, law_readable_page_is_masked, mask_refusal, page_indices,
    page_lookup, page_mask, page_runs, popcount_range, repeats_below,
};
use crate::error::{reports, Fault, Outcome, Result};

verus! {

/// The decode path of a chunk.
#[derive(Debug, Clone, Copy, PartialEq, Eq, Structural)]
pub enum Dispatch {
    /// One bit per row; no values are made.
    Fused,
    /// The values of the rows that pass.
    Materialized,
}

/// What passed of probed rows.
#[derive(Debug, Clone, Copy)]
pub struct PageProbe {
    /// The rows that were probed.
    pub rows_in: usize,
    /// Those of them that passed.
    pub rows_passed: usize,
}

/// A predicate over a dictionary, and how many pages are probed with it.
#[derive(Debug, Clone)]
pub struct AdaptiveDictPredicate {
    /// For each dictionary entry, one where it passes and zero where not.
    pub dict_mask: Vec<u8>,
    /// The number of pages that are probed.
    pub probe_pages: usize,
}

/// The number of pages that are probed where nothing else is said.
pub const DEFAULT_PROBE_PAGES: usize = 3;

impl AdaptiveDictPredicate {
    /// A predicate that probes the default number of pages.
    pub fn new(dict_mask: Vec<u8>) -> (p: Self)
        ensures
            p.dict_mask == dict_mask,
            p.probe_pages == DEFAULT_PROBE_PAGES,
    {
        AdaptiveDictPredicate { dict_mask, probe_pages: DEFAULT_PROBE_PAGES }
    }
}

/// A decompressed data page.
#[derive(Debug, Clone)]
pub struct AdaptivePageInput<'a> {
    /// The page's body, bit width first.
    pub body: &'a [u8],
    /// The number of its rows.
    pub num_values: usize,
}

/// What a chunk was read as.
#[derive(Debug)]
pub enum AdaptiveOutputKind<T> {
    /// One bit per row of the chunk, and how many are set.
    Bitmap { bitmap: Vec<u8>, set_bits: usize },
    /// The values of the rows that pass, in order.
    Values(Vec<T>),
}

/// A chunk that was read.
#[derive(Debug)]
pub struct AdaptiveChunkOutput<T> {
    /// The path that was taken.
    pub dispatch: Dispatch,
    /// The rows of the chunk.
    pub total_rows: usize,
    pub kind: AdaptiveOutputKind<T>,
}

/// What the first pages of a chunk gave.
#[derive(Debug)]
pub struct ChunkProbe {
    /// The pages that were probed.
    pub pages_probed: usize,
    /// What passed of their rows.
    pub probe: PageProbe,
    /// One bit per row of them.
    pub bitmap: Vec<u8>,
}

/// Counts the set bits among the first `num_bits`.
pub fn popcount_bitmap_prefix(bitmap: &[u8], num_bits: usize) -> (n: usize)
    requires
        num_bits <= 8 * bitmap@.len(),
    ensures
        n == count_bits(bitmap@, 0, num_bits as nat),
{
    popcount_range(bitmap, 0, num_bits)
}

/// For each row of a page, whether it passes, or why that cannot be told.
pub open spec fn rows_of_page(body: Seq<u8>, num_values: nat, mask: Seq<u8>) -> std::result::Result<
    Seq<bool>,
    Fault,
> {
    match mask_refusal(body, mask) {
        Some(f) => Err(f),
        None => match page_mask(body, num_values, mask).fault {
            Some(f) => Err(f),
            None => Ok(page_mask(body, num_values, mask).emitted),
        },
    }
}

/// A page that is read has as many rows as it says.
proof fn lemma_rows_of_page(body: Seq<u8>, num_values: nat, mask: Seq<u8>)
    ensures
        rows_of_page(body, num_values, mask) matches Ok(rows) ==> rows.len() == num_values,
{
    if rows_of_page(body, num_values, mask) is Ok {
        law_bitmap_is_mask_of_indices(body, num_values, mask);
        law_page_row_count(body, num_values);
    }
}

/// A page whose values are read has as many as it says.
proof fn lemma_values_of_page<T>(body: Seq<u8>, num_values: nat, dict: Seq<T>)
    requires
        page_lookup(body, num_values, dict).fault is None,
    ensures
        page_lookup(body, num_values, dict).emitted.len() == num_values,
{
    law_fused_decode_is_lookup(body, num_values, dict);
    law_page_row_count(body, num_values);
    lemma_first_outside(page_indices(body, num_values).emitted, dict.len(), 0);
}

/// The set bits of a bitmap are the true ones of the rows it holds.
proof fn lemma_count_rows(bitmap: Seq<u8>, rows: Seq<bool>, n: nat)
    requires
        holds_rows(bitmap, rows),
        n <= rows.len(),
        rows.len() <= 8 * bitmap.len(),
    ensures
        count_bits(bitmap, 0, n) == count_true(rows.take(n as int)),
    decreases n,
{
    if n > 0 {
        lemma_count_rows(bitmap, rows, (n - 1) as nat);
        assert(rows.take(n as int).drop_last() =~= rows.take(n - 1));
        assert((bit(bitmap, (n - 1) as nat) == 1) == rows[n - 1]);
    }
}

/// Appends one bit per row of a page to `out`, and tells how many rows pass.
///
/// Where the page and the mask are refused, `out` is as it was; where the
/// stream is faulty, the rows before the fault have been appended.
pub fn probe_page_fused(body: &[u8], num_values: usize, dict_mask: &[u8], out: &mut Vec<u8>) -> (r:
    Result<PageProbe>)
    requires
        is_mask(dict_mask@),
        old(out)@.len() + (num_values + 7) / 8 <= usize::MAX,
    ensures
        match rows_of_page(body@, num_values as nat, dict_mask@) {
            Err(f) => reports(r, Some(f)) && if mask_refusal(body@, dict_mask@) is Some {
                final(out)@ == old(out)@
            } else {
                &&& final(out)@.len() == old(out)@.len() + (num_values + 7) / 8
                &&& final(out)@.take(old(out)@.len() as int) == old(out)@
                &&& holds_rows(
                    final(out)@.skip(old(out)@.len() as int),
                    page_mask(body@, num_values as nat, dict_mask@).emitted,
                )
            },
            Ok(rows) => {
                &&& r is Ok
                &&& r->Ok_0.rows_in == num_values
                &&& r->Ok_0.rows_passed == count_true(rows)
                &&& final(out)@ == old(out)@ + pack(rows)
            },
        },
{
    let ghost before = out@;
    let start: usize = out.len();
    match decode_rle_dictionary_predicate_bitmap(body, num_values, dict_mask, out) {
        Ok(_) => {},
        Err(e) => {
            return Err(e);
        },
    }
    let ghost rows = rows_of_page(body@, num_values as nat, dict_mask@)->Ok_0;
    let ghost tail = out@.skip(start as int);
    proof {
        lemma_rows_of_page(body@, num_values as nat, dict_mask@);
        lemma_count_rows(tail, rows, num_values as nat);
        assert(rows.take(num_values as int) =~= rows);
        lemma_pack_unique(tail, rows);
        assert(out@ =~= before + tail) by {
            assert(out@.take(start as int) == before);
        }
    }
    let page_bits = vstd::slice::slice_subrange(out.as_slice(), start, out.len());
    proof {
        assert(page_bits@ =~= tail);
    }
    let rows_passed: usize = popcount_bitmap_prefix(page_bits, num_values);
    Ok(PageProbe { rows_in: num_values, rows_passed })
}

/// The rows of pages, in order.
pub open spec fn row_sum(pages: Seq<AdaptivePageInput<'_>>) -> nat
    decreases pages.len(),
{
    if pages.len() == 0 {
        0
    } else {
        row_sum(pages.drop_last()) + pages.last().num_values as nat
    }
}

/// For each row of the pages `[from, to)`, whether it passes, up to the
/// first page that cannot be read.
pub open spec fn passes(
    pages: Seq<AdaptivePageInput<'_>>,
    mask: Seq<u8>,
    from: nat,
    to: nat,
) -> Outcome<bool>
    decreases to - from,
{
    if from >= to {
        Outcome { emitted: Seq::empty(), fault: None }
    } else {
        let p = pages[from as int];
        match rows_of_page(p.body@, p.num_values as nat, mask) {
            Err(f) => Outcome { emitted: Seq::empty(), fault: Some(f) },
            Ok(rows) => passes(pages, mask, from + 1, to).after(rows),
        }
    }
}

/// The values of the rows of the pages from `from` on that pass, up to the
/// first page that cannot be read.
pub open spec fn passing_values<T>(
    pages: Seq<AdaptivePageInput<'_>>,
    dict: Seq<T>,
    mask: Seq<u8>,
    from: nat,
) -> Outcome<T>
    decreases pages.len() - from,
{
    if from >= pages.len() {
        Outcome { emitted: Seq::empty(), fault: None }
    } else {
        let p = pages[from as int];
        let values = page_lookup(p.body@, p.num_values as nat, dict);
        match values.fault {
            Some(f) => Outcome { emitted: Seq::empty(), fault: Some(f) },
            None => match rows_of_page(p.body@, p.num_values as nat, mask) {
                Err(f) => Outcome { emitted: Seq::empty(), fault: Some(f) },
                Ok(rows) => passing_values(pages, dict, mask, from + 1).after(
                    masked(values.emitted, rows),
                ),
            },
        }
    }
}

/// Appends the bits of further rows to a bitmap.
fn append_rows(
    bitmap: &mut Vec<u8>,
    have: usize,
    page_bits: &Vec<u8>,
    n: usize,
    Ghost(rows): Ghost<Seq<bool>>,
    Ghost(more): Ghost<Seq<bool>>,
)
    requires
        old(bitmap)@ == pack(rows),
        rows.len() == have,
        page_bits@ == pack(more),
        more.len() == n,
        have + n <= usize::MAX,
    ensures
        final(bitmap)@ == pack(rows + more),
{
    let total: usize = have + n;
    let bytes: usize = total / 8 + if total % 8 == 0 { 0usize } else { 1usize };
    let ghost all = rows + more;
    let ghost before = bitmap@;
    bitmap.resize(bytes, 0);
    proof {
        lemma_pack_holds(rows);
        lemma_pack_holds(more);
        assert forall|j: nat| j < 8 * bytes implies (#[trigger] bit(bitmap@, j) == 1) == (j < have
            && all[j as int]) by {
            if j / 8 < before.len() {
                assert(bitmap@[j as int / 8] == before[j as int / 8]);
                assert(bit(before, j) == bit(bitmap@, j));
            } else {
                assert(bitmap@[j as int / 8] == 0);
                lemma_byte_plain(j % 8);
            }
        }
    }
    let mut k: usize = 0;
    while k < n
        invariant
            k <= n,
            rows.len() == have,
            more.len() == n,
            all == rows + more,
            total == have + n,
            bitmap@.len() == bytes,
            bytes == (total + 7) / 8,
            page_bits@ == pack(more),
            holds_rows(page_bits@, more),
            forall|j: nat|
                j < 8 * bytes ==> (#[trigger] bit(bitmap@, j) == 1) == (j < have + k
                    && all[j as int]),
        decreases n - k,
    {
        let ghost current = bitmap@;
        proof {
            assert((bit(page_bits@, k as nat) == 1) == (k < more.len() && more[k as int]));
            assert(all[have + k] == more[k as int]);
        }
        if get_bit(page_bits.as_slice(), k) {
            set_bit(bitmap, 0, have + k);
            proof {
                assert(current.skip(0) =~= current);
                assert(bitmap@.skip(0) =~= bitmap@);
                assert forall|j: nat| j < 8 * bytes implies (#[trigger] bit(bitmap@, j) == 1) == (j
                    < have + k + 1 && all[j as int]) by {
                    assert(bit(bitmap@.skip(0), j) == if j == have + k {
                        1
                    } else {
                        bit(current.skip(0), j)
                    });
                }
            }
        }
        k = k + 1;
    }
    proof {
        lemma_pack_unique(bitmap@, all);
    }
}

proof fn lemma_row_sum_take(pages: Seq<AdaptivePageInput<'_>>, i: int)
    requires
        0 <= i < pages.len(),
    ensures
        row_sum(pages.take(i + 1)) == row_sum(pages.take(i)) + pages[i].num_values,
        row_sum(pages.take(i + 1)) <= row_sum(pages),
    decreases pages.len() - i,
{
    assert(pages.take(i + 1).drop_last() =~= pages.take(i));
    if i + 1 < pages.len() {
        lemma_row_sum_take(pages, i + 1);
    } else {
        assert(pages.take(i + 1) =~= pages);
    }
}

/// The rows of pages.
fn sum_rows(pages: &[AdaptivePageInput<'_>]) -> (n: usize)
    requires
        row_sum(pages@) <= usize::MAX,
    ensures
        n == row_sum(pages@),
{
    let mut n: usize = 0;
    let mut i: usize = 0;
    while i < pages.len()
        invariant
            i <= pages@.len(),
            row_sum(pages@) <= usize::MAX,
            n == row_sum(pages@.take(i as int)),
        decreases pages@.len() - i,
    {
        proof {
            lemma_row_sum_take(pages@, i as int);
        }
        n = n + pages[i].num_values;
        i = i + 1;
    }
    proof {
        assert(pages@.take(i as int) =~= pages@);
    }
    n
}

/// Appends the bits of the rows of the pages `[from, to)`; gives the rows so
/// far and those of them that pass.
fn extend_fused(
    pages: &[AdaptivePageInput<'_>],
    dict_mask: &[u8],
    from: usize,
    to: usize,
    bitmap: &mut Vec<u8>,
    passed: usize,
    Ghost(rows): Ghost<Seq<bool>>,
) -> (r: Result<PageProbe>)
    requires
        is_mask(dict_mask@),
        from <= to <= pages@.len(),
        row_sum(pages@) <= usize::MAX,
        rows.len() == row_sum(pages@.take(from as int)),
        old(bitmap)@ == pack(rows),
        passed == count_true(rows),
    ensures
        reports(r, passes(pages@, dict_mask@, from as nat, to as nat).fault),
        r is Ok ==> {
            let all = rows + passes(pages@, dict_mask@, from as nat, to as nat).emitted;
            &&& all.len() == row_sum(pages@.take(to as int))
            &&& final(bitmap)@ == pack(all)
            &&& r->Ok_0.rows_in == all.len()
            &&& r->Ok_0.rows_passed == count_true(all)
        },
{
    let ghost whole = passes(pages@, dict_mask@, from as nat, to as nat);
    let ghost mut done: Seq<bool> = Seq::empty();
    let ghost mut all: Seq<bool> = rows;
    let mut count: usize = passed;
    let mut have: usize = 0;
    let mut i: usize = 0;
    while i < from
        invariant
            i <= from <= pages@.len(),
            row_sum(pages@) <= usize::MAX,
            have == row_sum(pages@.take(i as int)),
        decreases from - i,
    {
        proof {
            lemma_row_sum_take(pages@, i as int);
        }
        have = have + pages[i].num_values;
        i = i + 1;
    }
    proof {
        assert(done + whole.emitted =~= whole.emitted);
        assert(rows + done =~= rows);
    }
    while i < to
        invariant
            from <= i <= to <= pages@.len(),
            is_mask(dict_mask@),
            row_sum(pages@) <= usize::MAX,
            all == rows + done,
            all.len() == row_sum(pages@.take(i as int)),
            have == all.len(),
            count == count_true(all),
            bitmap@ == pack(all),
            whole == passes(pages@, dict_mask@, from as nat, to as nat),
            whole == passes(pages@, dict_mask@, i as nat, to as nat).after(done),
        decreases to - i,
    {
        let page = &pages[i];
        let ghost more = rows_of_page(page.body@, page.num_values as nat, dict_mask@)->Ok_0;
        let mut page_bits: Vec<u8> = Vec::new();
        let p = match probe_page_fused(page.body, page.num_values, dict_mask, &mut page_bits) {
            Ok(p) => p,
            Err(e) => {
                return Err(e);
            },
        };
        proof {
            lemma_rows_of_page(page.body@, page.num_values as nat, dict_mask@);
            lemma_row_sum_take(pages@, i as int);
            lemma_count_true_concat(all, more);
            lemma_count_true_concat(Seq::empty(), all + more);
            assert(Seq::<bool>::empty() + (all + more) =~= all + more);
            assert(page_bits@ =~= pack(more));
        }
        append_rows(bitmap, have, &page_bits, page.num_values, Ghost(all), Ghost(more));
        have = have + page.num_values;
        count = count + p.rows_passed;
        proof {
            let rest = passes(pages@, dict_mask@, (i + 1) as nat, to as nat);
            assert(done + (more + rest.emitted) =~= (done + more) + rest.emitted);
            assert(all + more =~= rows + (done + more));
            done = done + more;
            all = all + more;
        }
        i = i + 1;
    }
    proof {
        assert(whole.emitted =~= done);
    }
    Ok(PageProbe { rows_in: have, rows_passed: count })
}

/// The pages of a chunk that are probed.
pub open spec fn probe_end(pages: nat, cfg: AdaptiveDictPredicate) -> nat {
    if cfg.probe_pages < pages {
        cfg.probe_pages as nat
    } else {
        pages
    }
}

/// That a chunk's first pages gave this probe.
pub open spec fn is_probe(
    probe: ChunkProbe,
    pages: Seq<AdaptivePageInput<'_>>,
    cfg: AdaptiveDictPredicate,
) -> bool {
    let rows = passes(pages, cfg.dict_mask@, 0, probe_end(pages.len(), cfg));
    &&& rows.fault is None
    &&& probe.pages_probed == probe_end(pages.len(), cfg)
    &&& probe.bitmap@ == pack(rows.emitted)
    &&& probe.probe.rows_in == rows.emitted.len()
    &&& probe.probe.rows_passed == count_true(rows.emitted)
}

/// Probes the first pages of a chunk.
pub fn probe_chunk(pages: &[AdaptivePageInput<'_>], cfg: &AdaptiveDictPredicate) -> (r: Result<
    ChunkProbe,
>)
    requires
        is_mask(cfg.dict_mask@),
        row_sum(pages@) <= usize::MAX,
    ensures
        reports(r, passes(pages@, cfg.dict_mask@, 0, probe_end(pages@.len(), *cfg)).fault),
        r is Ok ==> is_probe(r->Ok_0, pages@, *cfg),
{
    let end: usize = if cfg.probe_pages < pages.len() {
        cfg.probe_pages
    } else {
        pages.len()
    };
    let ghost rows = passes(pages@, cfg.dict_mask@, 0, end as nat);
    let ghost none: Seq<bool> = Seq::empty();
    let mut bitmap: Vec<u8> = Vec::new();
    proof {
        assert(bitmap@ =~= pack(none));
        assert(pages@.take(0).len() == 0);
    }
    match extend_fused(pages, cfg.dict_mask.as_slice(), 0, end, &mut bitmap, 0, Ghost(none)) {
        Ok(probe) => {
            proof {
                assert(none + rows.emitted =~= rows.emitted);
            }
            Ok(ChunkProbe { pages_probed: end, probe, bitmap })
        },
        Err(e) => Err(e),
    }
}

/// That a chunk was read on a path.
pub open spec fn read_as<T>(
    r: Result<AdaptiveChunkOutput<T>>,
    pages: Seq<AdaptivePageInput<'_>>,
    dict: Seq<T>,
    mask: Seq<u8>,
    dispatch: Dispatch,
) -> bool {
    &&& r is Ok ==> r->Ok_0.dispatch == dispatch && r->Ok_0.total_rows == row_sum(pages)
    &&& match dispatch {
        Dispatch::Fused => {
            let rows = passes(pages, mask, 0, pages.len());
            &&& reports(r, rows.fault)
            &&& r is Ok ==> {
                &&& r->Ok_0.kind is Bitmap
                &&& r->Ok_0.kind->bitmap@ == pack(rows.emitted)
                &&& r->Ok_0.kind->set_bits == count_true(rows.emitted)
            }
        },
        Dispatch::Materialized => {
            let values = passing_values(pages, dict, mask, 0);
            &&& reports(r, values.fault)
            &&& r is Ok ==> r->Ok_0.kind is Values && r->Ok_0.kind->Values_0@ == values.emitted
        },
    }
}

proof fn lemma_passes_split(pages: Seq<AdaptivePageInput<'_>>, mask: Seq<u8>, a: nat, b: nat, c: nat)
    requires
        a <= b <= c,
        passes(pages, mask, a, b).fault is None,
    ensures
        passes(pages, mask, a, c) == passes(pages, mask, b, c).after(
            passes(pages, mask, a, b).emitted,
        ),
    decreases b - a,
{
    let tail = passes(pages, mask, b, c).emitted;
    if a < b {
        lemma_passes_split(pages, mask, a + 1, b, c);
        let p = pages[a as int];
        let rows = rows_of_page(p.body@, p.num_values as nat, mask)->Ok_0;
        let mid = passes(pages, mask, a + 1, b).emitted;
        assert(rows + (mid + tail) =~= (rows + mid) + tail);
    } else {
        assert(Seq::<bool>::empty() + tail =~= tail);
    }
}

/// The values of the rows of pages that pass.
fn materialize_pages<T: Copy>(pages: &[AdaptivePageInput<'_>], dict: &[T], dict_mask: &[u8]) -> (r:
    Result<Vec<T>>)
    requires
        is_mask(dict_mask@),
    ensures
        reports(r, passing_values(pages@, dict@, dict_mask@, 0).fault),
        r is Ok ==> r->Ok_0@ == passing_values(pages@, dict@, dict_mask@, 0).emitted,
{
    let ghost whole = passing_values(pages@, dict@, dict_mask@, 0);
    let mut out: Vec<T> = Vec::new();
    let mut i: usize = 0;
    proof {
        assert(out@ + whole.emitted =~= whole.emitted);
    }
    while i < pages.len()
        invariant
            i <= pages@.len(),
            is_mask(dict_mask@),
            whole == passing_values(pages@, dict@, dict_mask@, 0),
            whole == passing_values(pages@, dict@, dict_mask@, i as nat).after(out@),
        decreases pages@.len() - i,
    {
        let page = &pages[i];
        let ghost before = out@;
        let ghost found = page_lookup(page.body@, page.num_values as nat, dict@);
        let ghost rows = rows_of_page(page.body@, page.num_values as nat, dict_mask@)->Ok_0;
        let mut values: Vec<T> = Vec::new();
        match decode_rle_dictionary_into(page.body, dict, page.num_values, &mut values) {
            Ok(_) => {},
            Err(e) => {
                return Err(e);
            },
        }
        let mut bits: Vec<u8> = Vec::new();
        match probe_page_fused(page.body, page.num_values, dict_mask, &mut bits) {
            Ok(_) => {},
            Err(e) => {
                return Err(e);
            },
        }
        proof {
            assert(values@ =~= found.emitted);
            assert(bits@ =~= pack(rows));
            lemma_rows_of_page(page.body@, page.num_values as nat, dict_mask@);
            lemma_values_of_page(page.body@, page.num_values as nat, dict@);
        }
        push_masked(&values, &bits, &mut out, Ghost(rows));
        proof {
            let rest = passing_values(pages@, dict@, dict_mask@, (i + 1) as nat);
            assert(before + (masked(values@, rows) + rest.emitted) =~= out@ + rest.emitted);
        }
        i = i + 1;
    }
    proof {
        assert(whole.emitted =~= out@);
    }
    Ok(out)
}

/// Reads a probed chunk on a path. What the probe gave is kept where the path
/// is fused; otherwise the probed pages are read again.
pub fn finish_chunk<T: Copy>(
    pages: &[AdaptivePageInput<'_>],
    dict: &[T],
    cfg: &AdaptiveDictPredicate,
    probe: ChunkProbe,
    dispatch: Dispatch,
) -> (r: Result<AdaptiveChunkOutput<T>>)
    requires
        is_mask(cfg.dict_mask@),
        row_sum(pages@) <= usize::MAX,
        is_probe(probe, pages@, *cfg),
    ensures
        read_as(r, pages@, dict@, cfg.dict_mask@, dispatch),
{
    let total_rows: usize = sum_rows(pages);
    match dispatch {
        Dispatch::Fused => {
            let end: usize = probe.pages_probed;
            let passed: usize = probe.probe.rows_passed;
            let ghost first = passes(pages@, cfg.dict_mask@, 0, end as nat).emitted;
            let mut bitmap: Vec<u8> = probe.bitmap;
            proof {
                lemma_passes_split(pages@, cfg.dict_mask@, 0, end as nat, pages@.len());
                lemma_passes_len(pages@, cfg.dict_mask@, end as nat);
            }
            match extend_fused(
                pages,
                cfg.dict_mask.as_slice(),
                end,
                pages.len(),
                &mut bitmap,
                passed,
                Ghost(first),
            ) {
                Ok(all) => Ok(
                    AdaptiveChunkOutput {
                        dispatch,
                        total_rows,
                        kind: AdaptiveOutputKind::Bitmap { bitmap, set_bits: all.rows_passed },
                    },
                ),
                Err(e) => Err(e),
            }
        },
        Dispatch::Materialized => match materialize_pages(pages, dict, cfg.dict_mask.as_slice()) {
            Ok(values) => Ok(
                AdaptiveChunkOutput {
                    dispatch,
                    total_rows,
                    kind: AdaptiveOutputKind::Values(values),
                },
            ),
            Err(e) => Err(e),
        },
    }
}

/// Pages that are read have as many rows as they say.
proof fn lemma_passes_len(pages: Seq<AdaptivePageInput<'_>>, mask: Seq<u8>, to: nat)
    requires
        to <= pages.len(),
        passes(pages, mask, 0, to).fault is None,
    ensures
        passes(pages, mask, 0, to).emitted.len() == row_sum(pages.take(to as int)),
    decreases to,
{
    if to > 0 {
        let m = (to - 1) as nat;
        lemma_passes_prefix(pages, mask, 0, m, to);
        lemma_passes_len(pages, mask, m);
        lemma_passes_split(pages, mask, 0, m, to);
        let p = pages[m as int];
        lemma_rows_of_page(p.body@, p.num_values as nat, mask);
        lemma_row_sum_take(pages, m as int);
        assert(passes(pages, mask, to, to).emitted.len() == 0);
    } else {
        assert(pages.take(0).len() == 0);
    }
}

/// Where pages are read, so are the first of them.
proof fn lemma_passes_prefix(
    pages: Seq<AdaptivePageInput<'_>>,
    mask: Seq<u8>,
    from: nat,
    mid: nat,
    to: nat,
)
    requires
        from <= mid <= to,
        passes(pages, mask, from, to).fault is None,
    ensures
        passes(pages, mask, from, mid).fault is None,
    decreases mid - from,
{
    if from < mid {
        lemma_passes_prefix(pages, mask, from + 1, mid, to);
    }
}

/// Reads a chunk on the path that `dispatch_for` chooses from what passed of
/// its first pages. A chunk without rows is an empty bitmap.
pub fn run_adaptive_dict_chunk<T: Copy, F: Fn(PageProbe) -> Dispatch>(
    pages: &[AdaptivePageInput<'_>],
    dict: &[T],
    cfg: &AdaptiveDictPredicate,
    dispatch_for: F,
) -> (r: Result<AdaptiveChunkOutput<T>>)
    requires
        is_mask(cfg.dict_mask@),
        row_sum(pages@) <= usize::MAX,
        forall|p: PageProbe| #[trigger] call_requires(dispatch_for, (p,)),
    ensures
        row_sum(pages@) == 0 ==> {
            &&& r is Ok
            &&& r->Ok_0.dispatch == Dispatch::Fused
            &&& r->Ok_0.total_rows == 0
            &&& r->Ok_0.kind is Bitmap
            &&& r->Ok_0.kind->bitmap@.len() == 0
            &&& r->Ok_0.kind->set_bits == 0
        },
        row_sum(pages@) > 0 ==> {
            let probed = passes(pages@, cfg.dict_mask@, 0, probe_end(pages@.len(), *cfg));
            match probed.fault {
                Some(f) => reports(r, Some(f)),
                None => exists|p: PageProbe, d: Dispatch|
                    {
                        &&& p.rows_in == probed.emitted.len()
                        &&& p.rows_passed == count_true(probed.emitted)
                        &&& #[trigger] call_ensures(dispatch_for, (p,), d)
                        &&& read_as(r, pages@, dict@, cfg.dict_mask@, d)
                    },
            }
        },
{
    let total_rows: usize = sum_rows(pages);
    if total_rows == 0 {
        return Ok(
            AdaptiveChunkOutput {
                dispatch: Dispatch::Fused,
                total_rows: 0,
                kind: AdaptiveOutputKind::Bitmap { bitmap: Vec::new(), set_bits: 0 },
            },
        );
    }
    let probe: ChunkProbe = match probe_chunk(pages, cfg) {
        Ok(p) => p,
        Err(e) => {
            return Err(e);
        },
    };
    let dispatch: Dispatch = dispatch_for(probe.probe);
    finish_chunk(pages, dict, cfg, probe, dispatch)
}

/// Both paths read the same rows: there are as many values as bits are set.
pub proof fn law_paths_agree_on_count<T>(
    pages: Seq<AdaptivePageInput<'_>>,
    dict: Seq<T>,
    mask: Seq<u8>,
    from: nat,
)
    requires
        from <= pages.len(),
        passing_values(pages, dict, mask, from).fault is None,
    ensures
        passes(pages, mask, from, pages.len()).fault is None,
        passing_values(pages, dict, mask, from).emitted.len() == count_true(
            passes(pages, mask, from, pages.len()).emitted,
        ),
    decreases pages.len() - from,
{
    if from < pages.len() {
        let p = pages[from as int];
        law_paths_agree_on_count(pages, dict, mask, from + 1);
        let rows = rows_of_page(p.body@, p.num_values as nat, mask)->Ok_0;
        let values = page_lookup(p.body@, p.num_values as nat, dict);
        lemma_rows_of_page(p.body@, p.num_values as nat, mask);
        lemma_values_of_page(p.body@, p.num_values as nat, dict);
        law_gather_counts_mask(values.emitted, rows);
        lemma_count_true_concat(rows, passes(pages, mask, from + 1, pages.len()).emitted);
    }
}

/// The values of all rows of the pages from `from` on, where they can be
/// read.
pub open spec fn all_values<T>(pages: Seq<AdaptivePageInput<'_>>, dict: Seq<T>, from: nat) -> Seq<T>
    decreases pages.len() - from,
{
    if from >= pages.len() {
        Seq::empty()
    } else {
        let p = pages[from as int];
        page_lookup(p.body@, p.num_values as nat, dict).emitted + all_values(pages, dict, from + 1)
    }
}

/// The materialized path gives the values of the rows whose bits the fused
/// path sets, in order.
pub proof fn law_materialized_is_fused_and_gathered<T>(
    pages: Seq<AdaptivePageInput<'_>>,
    dict: Seq<T>,
    mask: Seq<u8>,
    from: nat,
)
    requires
        from <= pages.len(),
        passing_values(pages, dict, mask, from).fault is None,
    ensures
        passes(pages, mask, from, pages.len()).fault is None,
        passes(pages, mask, from, pages.len()).emitted.len() == all_values(
            pages,
            dict,
            from,
        ).len(),
        passing_values(pages, dict, mask, from).emitted == masked(
            all_values(pages, dict, from),
            passes(pages, mask, from, pages.len()).emitted,
        ),
    decreases pages.len() - from,
{
    if from < pages.len() {
        let p = pages[from as int];
        law_materialized_is_fused_and_gathered(pages, dict, mask, from + 1);
        let rows = rows_of_page(p.body@, p.num_values as nat, mask)->Ok_0;
        let values = page_lookup(p.body@, p.num_values as nat, dict).emitted;
        lemma_rows_of_page(p.body@, p.num_values as nat, mask);
        lemma_values_of_page(p.body@, p.num_values as nat, dict);
        lemma_masked_concat(
            values,
            all_values(pages, dict, from + 1),
            rows,
            passes(pages, mask, from + 1, pages.len()).emitted,
        );
    }
}

/// Values and masks that follow one another are masked one after another.
proof fn lemma_masked_concat<T>(a: Seq<T>, b: Seq<T>, ra: Seq<bool>, rb: Seq<bool>)
    requires
        a.len() == ra.len(),
        b.len() == rb.len(),
    ensures
        masked(a + b, ra + rb) == masked(a, ra) + masked(b, rb),
    decreases b.len(),
{
    if b.len() == 0 {
        assert(a + b =~= a);
        assert(ra + rb =~= ra);
        assert(masked(a, ra) + masked(b, rb) =~= masked(a, ra));
    } else {
        let last = b.len() - 1;
        lemma_masked_concat(a, b.drop_last(), ra, rb.drop_last());
        assert((a + b).drop_last() =~= a + b.drop_last());
        lemma_masked_prefix(a + b.drop_last(), ra + rb, ra + rb.drop_last());
        lemma_masked_prefix(b.drop_last(), rb, rb.drop_last());
        assert((ra + rb)[a.len() + last] == rb[last]);
        assert(masked(a + b, ra + rb) =~= masked(a, ra) + masked(b, rb));
    }
}

/// That a page can be read under a mask: its indices, and every index that a
/// run repeats, lie within its width, which the mask covers.
pub open spec fn maskable(p: AdaptivePageInput<'_>, mask: Seq<u8>) -> bool {
    &&& page_indices(p.body@, p.num_values as nat).fault is None
    &&& mask_refusal(p.body@, mask) is None
    &&& repeats_below(page_runs(p.body@, p.num_values as nat), pow2(p.body@[0] as nat))
}

/// That the indices of a page, and every index that a run repeats, lie in a
/// dictionary of a size.
pub open spec fn inside(p: AdaptivePageInput<'_>, size: nat) -> bool {
    &&& forall|i: int|
        0 <= i < page_indices(p.body@, p.num_values as nat).emitted.len()
            ==> #[trigger] page_indices(p.body@, p.num_values as nat).emitted[i] < size
    &&& repeats_below(page_runs(p.body@, p.num_values as nat), size)
}

/// Whether a mask accepts an index.
pub open spec fn accepts(mask: Seq<u8>) -> spec_fn(nat) -> bool {
    |i: nat| mask[i as int] != 0
}

/// The entry of a dictionary at an index.
pub open spec fn entry<T>(dict: Seq<T>) -> spec_fn(nat) -> T {
    |i: nat| dict[i as int]
}

/// A page that can be read passes the rows whose index the mask accepts.
pub proof fn law_readable_page_is_probed(p: AdaptivePageInput<'_>, mask: Seq<u8>)
    requires
        maskable(p, mask),
    ensures
        rows_of_page(p.body@, p.num_values as nat, mask) == Ok::<Seq<bool>, Fault>(
            page_indices(p.body@, p.num_values as nat).emitted.map_values(accepts(mask)),
        ),
{
    law_readable_page_is_masked(p.body@, p.num_values as nat, mask);
    assert(page_mask(p.body@, p.num_values as nat, mask).emitted =~= page_indices(
        p.body@,
        p.num_values as nat,
    ).emitted.map_values(accepts(mask)));
}

/// The indices of the rows of the pages from `from` on.
pub open spec fn all_indices(pages: Seq<AdaptivePageInput<'_>>, from: nat) -> Seq<nat>
    decreases pages.len() - from,
{
    if from >= pages.len() {
        Seq::empty()
    } else {
        let p = pages[from as int];
        page_indices(p.body@, p.num_values as nat).emitted + all_indices(pages, from + 1)
    }
}

/// Masking the entries of indices by what accepts the indices is keeping the
/// entries of the accepted ones.
proof fn lemma_masked_is_filtered<T>(indices: Seq<nat>, dict: Seq<T>, mask: Seq<u8>)
    ensures
        masked(indices.map_values(entry(dict)), indices.map_values(accepts(mask)))
            == indices.filter(accepts(mask)).map_values(entry(dict)),
        count_true(indices.map_values(accepts(mask))) == indices.filter(accepts(mask)).len(),
    decreases indices.len(),
{
    reveal(Seq::filter);
    let values = indices.map_values(entry(dict));
    let rows = indices.map_values(accepts(mask));
    if indices.len() > 0 {
        let head = indices.drop_last();
        lemma_masked_is_filtered(head, dict, mask);
        assert(values.drop_last() =~= head.map_values(entry(dict)));
        assert(rows.drop_last() =~= head.map_values(accepts(mask)));
        lemma_masked_prefix(values.drop_last(), rows, rows.drop_last());
        assert(masked(values, rows) =~= indices.filter(accepts(mask)).map_values(entry(dict)));
    } else {
        assert(masked(values, rows) =~= indices.filter(accepts(mask)).map_values(entry(dict)));
    }
}

/// The rows and values of pages that can be read.
proof fn lemma_readable_pages<T>(
    pages: Seq<AdaptivePageInput<'_>>,
    dict: Seq<T>,
    mask: Seq<u8>,
    from: nat,
)
    requires
        forall|k: int| 0 <= k < pages.len() ==> maskable(#[trigger] pages[k], mask),
        forall|k: int| 0 <= k < pages.len() ==> inside(#[trigger] pages[k], dict.len()),
    ensures
        passes(pages, mask, from, pages.len()).fault is None,
        passes(pages, mask, from, pages.len()).emitted == all_indices(pages, from).map_values(
            accepts(mask),
        ),
        passing_values(pages, dict, mask, from).fault is None,
        all_values(pages, dict, from) == all_indices(pages, from).map_values(entry(dict)),
    decreases pages.len() - from,
{
    let indices = all_indices(pages, from);
    if from < pages.len() {
        let p = pages[from as int];
        lemma_readable_pages(pages, dict, mask, from + 1);
        law_readable_page_is_probed(p, mask);
        law_readable_page_is_looked_up(p.body@, p.num_values as nat, dict);
        assert(passes(pages, mask, from, pages.len()).emitted =~= indices.map_values(
            accepts(mask),
        ));
        assert(all_values(pages, dict, from) =~= indices.map_values(entry(dict)));
    } else {
        assert(passes(pages, mask, from, pages.len()).emitted =~= indices.map_values(
            accepts(mask),
        ));
        assert(all_values(pages, dict, from) =~= indices.map_values(entry(dict)));
    }
}

/// What a chunk whose pages can be read is read as: on the materialized path
/// the dictionary's entries of the indices that the mask accepts, in row
/// order; on the fused path one bit per row, and as many set as there are
/// such indices.
pub proof fn law_readable_chunk<T>(
    r: Result<AdaptiveChunkOutput<T>>,
    pages: Seq<AdaptivePageInput<'_>>,
    dict: Seq<T>,
    mask: Seq<u8>,
    dispatch: Dispatch,
)
    requires
        forall|k: int| 0 <= k < pages.len() ==> maskable(#[trigger] pages[k], mask),
        forall|k: int| 0 <= k < pages.len() ==> inside(#[trigger] pages[k], dict.len()),
        read_as(r, pages, dict, mask, dispatch),
    ensures
        r is Ok,
        r->Ok_0.dispatch == dispatch,
        r->Ok_0.total_rows == all_indices(pages, 0).len(),
        match dispatch {
            Dispatch::Materialized => {
                &&& r->Ok_0.kind is Values
                &&& r->Ok_0.kind->Values_0@ == all_indices(pages, 0).filter(
                    accepts(mask),
                ).map_values(entry(dict))
            },
            Dispatch::Fused => {
                &&& r->Ok_0.kind is Bitmap
                &&& r->Ok_0.kind->bitmap@ == pack(
                    all_indices(pages, 0).map_values(accepts(mask)),
                )
                &&& r->Ok_0.kind->set_bits == all_indices(pages, 0).filter(accepts(mask)).len()
            },
        },
{
    lemma_readable_pages(pages, dict, mask, 0);
    lemma_masked_is_filtered(all_indices(pages, 0), dict, mask);
    law_materialized_is_fused_and_gathered(pages, dict, mask, 0);
    lemma_index_count(pages, mask, 0);
    assert(pages.skip(0) =~= pages);
}

/// The pages that can be read have as many indices as rows.
proof fn lemma_index_count(pages: Seq<AdaptivePageInput<'_>>, mask: Seq<u8>, from: nat)
    requires
        from <= pages.len(),
        forall|k: int| 0 <= k < pages.len() ==> maskable(#[trigger] pages[k], mask),
    ensures
        all_indices(pages, from).len() == row_sum(pages.skip(from as int)),
    decreases pages.len() - from,
{
    if from < pages.len() {
        let p = pages[from as int];
        lemma_index_count(pages, mask, from + 1);
        law_page_row_count(p.body@, p.num_values as nat);
        lemma_row_sum_first(pages.skip(from as int));
        assert(pages.skip(from as int).skip(1) =~= pages.skip((from + 1) as int));
    }
}

/// The rows of pages are those of the first and those of the others.
proof fn lemma_row_sum_first(pages: Seq<AdaptivePageInput<'_>>)
    requires
        pages.len() > 0,
    ensures
        row_sum(pages) == pages[0].num_values + row_sum(pages.skip(1)),
    decreases pages.len(),
{
    if pages.len() > 1 {
        lemma_row_sum_first(pages.drop_last());
        assert(pages.drop_last().skip(1) =~= pages.skip(1).drop_last());
    } else {
        assert(pages.drop_last() =~= Seq::empty());
        assert(pages.skip(1) =~= Seq::empty());
    }
}

} // verus!
