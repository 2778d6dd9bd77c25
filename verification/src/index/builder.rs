//! Building of sidecar indexes.
//!
//! For every page of a source column, the rows of each key are gathered. The
//! index is one row per key and page, ascending by key: the key, the row
//! group, the page, and the set of its rows.

use std::collections::HashSet;

use vstd::prelude::*;
use vstd::slice::slice_subrange;
use vstd::utf8::{decode_utf8, valid_utf8};

use crate::bits::{bit, lemma_byte_plain};
use crate::bloom::{
    header_bytes, inserted, parquet_xxh64, probe, xxh64, SplitBlockBloomFilterBuilder,
};
use crate::delta::byte_strings;
use crate::error::{reports, CodecError, Fault, Result};
use crate::index::file::{
    read_column_byte_array, read_column_i32, read_column_i64, ParquetFile,
};
use crate::index::fingerprint::{compute_source_fingerprint, fingerprint_of_file};
use crate::index::keys::{IndexKey, SortKey};
use crate::index::manifest::{
    manifest_json, texts, EntryView, IndexEntry, IndexKind, IndexManifest, KindView, ManifestView,
    PhysicalType, SourceFingerprint, Tokenizer, MANIFEST_KEY_V3,
};
use crate::index::order::{
    gather, recorded, rows_of, spots_of, stands_for, well_ordered, IndexRow, Occurrence, RowView,
    Spot,
};
use crate::index::page_layout::{
    contiguous, layouts, law_pages_share_out_rows, total_rows, walk_data_pages, DataPageLayout,
};
use crate::index::rowset::{encode_tagged, tagged};
use crate::plain::{encode_plain_i64, plain_bytes_i64};
use crate::schema::{ParquetType, SchemaElement};
use crate::text::{dec, joined, joined3, push_dec, text1, text2, text3, text4, utf8_text};
use crate::wrap::{as_i32, as_u32, low32, wrap32};

verus! {

/// The keys of each row of a column chunk: one in a sorted index, the row's
/// tokens in an inverted one.
pub type RowKeys = Seq<Seq<SortKey>>;

/// For each row group, the keys of its rows, or why they cannot be read.
pub type KeySource = spec_fn(nat) -> std::result::Result<RowKeys, Fault>;

/// That an occurrence is one of the rows of a chunk with these pages and
/// keys.
pub open spec fn occurs_in(keys: RowKeys, pages: Seq<DataPageLayout>, s: Spot) -> bool {
    &&& s.page < pages.len()
    &&& s.row < pages[s.page as int].num_values
    &&& keys[pages[s.page as int].first_row + s.row].contains(s.key)
}

/// That an occurrence is one of the rows of a file.
pub open spec fn occurs(file: ParquetFile, column: nat, source: KeySource, s: Spot) -> bool {
    &&& s.row_group < file.row_groups@.len()
    &&& source(s.row_group as nat) is Ok
    &&& occurs_in(
        source(s.row_group as nat)->Ok_0,
        layouts(file, s.row_group as nat, column).emitted,
        s,
    )
}

/// The fault of pages whose rows are not those of the column.
pub open spec fn row_sum_fault(
    row_group: nat,
    label: Seq<char>,
    column: nat,
    summed: nat,
    decoded: nat,
) -> Fault {
    Fault::InvalidInput(
        "page-layout walk for rg="@ + dec(row_group) + label + dec(column) + " summed to "@ + dec(
            summed,
        ) + " values, but column decoded "@ + dec(decoded) + ""@,
    )
}

/// Why the pages of a chunk and its values cannot be indexed.
pub open spec fn pages_fault(
    file: ParquetFile,
    row_group: nat,
    label: Seq<char>,
    column: nat,
    decoded: nat,
) -> Option<Fault> {
    let pages = layouts(file, row_group, column);
    if pages.fault is Some {
        pages.fault
    } else if total_rows(pages.emitted) != decoded {
        Some(row_sum_fault(row_group, label, column, total_rows(pages.emitted), decoded))
    } else {
        None
    }
}

/// The first fault of the row groups from `from` on.
pub open spec fn groups_fault(
    file: ParquetFile,
    column: nat,
    label: Seq<char>,
    source: KeySource,
    from: nat,
) -> Option<Fault>
    decreases file.row_groups@.len() - from,
{
    if from >= file.row_groups@.len() {
        None
    } else {
        match source(from) {
            Err(f) => Some(f),
            Ok(keys) => match pages_fault(file, from, label, column, keys.len()) {
                Some(f) => Some(f),
                None => groups_fault(file, column, label, source, from + 1),
            },
        }
    }
}

/// Each value's key.
pub open spec fn keys_of<K: IndexKey>(values: Seq<K>) -> RowKeys {
    values.map_values(|v: K| seq![v.key()])
}

proof fn lemma_total_take(list: Seq<DataPageLayout>, i: int)
    requires
        contiguous(list, 0, 0),
        0 <= i < list.len(),
    ensures
        total_rows(list.take(i)) == list[i].first_row,
    decreases i,
{
    if i > 0 {
        lemma_total_take(list, i - 1);
        assert(list.take(i).drop_last() =~= list.take(i - 1));
        assert(list.take(i).last() == list[i - 1]);
    }
}

proof fn lemma_total_grows(list: Seq<DataPageLayout>, i: int)
    requires
        0 <= i <= list.len(),
    ensures
        total_rows(list.take(i)) <= total_rows(list),
    decreases list.len() - i,
{
    if i < list.len() {
        lemma_total_grows(list, i + 1);
        assert(list.take(i + 1).drop_last() =~= list.take(i));
    } else {
        assert(list.take(i) =~= list);
    }
}

/// The rows of a page lie within those of all pages.
pub proof fn lemma_page_inside(list: Seq<DataPageLayout>, i: int)
    requires
        contiguous(list, 0, 0),
        0 <= i < list.len(),
    ensures
        list[i].first_row + list[i].num_values <= total_rows(list),
{
    lemma_total_take(list, i);
    lemma_total_grows(list, i + 1);
    assert(list.take(i + 1).drop_last() =~= list.take(i));
}

/// The rows of all pages.
fn sum_rows(list: &Vec<DataPageLayout>) -> (n: u128)
    ensures
        n == total_rows(list@),
{
    let mut n: u128 = 0;
    let mut i: usize = 0;
    while i < list.len()
        invariant
            i <= list@.len(),
            n == total_rows(list@.take(i as int)),
            n <= i * usize::MAX,
        decreases list@.len() - i,
    {
        proof {
            assert(list@.take(i + 1).drop_last() =~= list@.take(i as int));
            assert((i + 1) * usize::MAX == i * usize::MAX + usize::MAX) by (nonlinear_arith);
            assert(i * usize::MAX <= 0xffff_ffff_ffff_ffff * 0xffff_ffff_ffff_ffff)
                by (nonlinear_arith)
                requires
                    0 <= i <= 0xffff_ffff_ffff_ffff,
                    usize::MAX <= 0xffff_ffff_ffff_ffff,
            ;
        }
        n = n + list[i].num_values as u128;
        i = i + 1;
    }
    proof {
        assert(list@.take(i as int) =~= list@);
    }
    n
}

/// The pages of a chunk, checked against the number of its values.
fn checked_pages(
    file: &ParquetFile,
    row_group: usize,
    label: &str,
    column: usize,
    decoded: usize,
) -> (r: Result<Vec<DataPageLayout>>)
    ensures
        reports(
            r,
            pages_fault(*file, row_group as nat, label@, column as nat, decoded as nat),
        ),
        r is Ok ==> r->Ok_0@ == layouts(*file, row_group as nat, column as nat).emitted,
{
    let pages: Vec<DataPageLayout> = match walk_data_pages(file, row_group, column) {
        Ok(p) => p,
        Err(e) => {
            return Err(e);
        },
    };
    let summed: u128 = sum_rows(&pages);
    if summed != decoded as u128 {
        return Err(
            CodecError::InvalidInput(
                text4(
                    "page-layout walk for rg=",
                    row_group as u128,
                    label,
                    column as u128,
                    " summed to ",
                    summed,
                    " values, but column decoded ",
                    decoded as u128,
                    "",
                ),
            ),
        );
    }
    Ok(pages)
}

/// Adds the occurrences of a chunk's values.
fn collect_values<K: IndexKey>(
    values: &Vec<K>,
    pages: &Vec<DataPageLayout>,
    row_group: u32,
    occ: &mut Vec<Occurrence<K>>,
)
    requires
        contiguous(pages@, 0, 0),
        total_rows(pages@) == values@.len(),
        forall|i: int| 0 <= i < pages@.len() ==> (#[trigger] pages@[i]).num_values <= u32::MAX,
    ensures
        forall|s: Spot| #[trigger]
            spots_of(final(occ)@).contains(s) == (spots_of(old(occ)@).contains(s) || (s.row_group
                == row_group && occurs_in(keys_of(values@), pages@, s))),
{
    let ghost start = spots_of(occ@);
    let ghost keys = keys_of(values@);
    let mut p: usize = 0;
    while p < pages.len()
        invariant
            p <= pages@.len(),
            contiguous(pages@, 0, 0),
            total_rows(pages@) == values@.len(),
            forall|i: int| 0 <= i < pages@.len() ==> (#[trigger] pages@[i]).num_values <= u32::MAX,
            keys == keys_of(values@),
            forall|s: Spot| #[trigger]
                spots_of(occ@).contains(s) == (start.contains(s) || (s.row_group == row_group
                    && s.page < p && occurs_in(keys, pages@, s))),
        decreases pages@.len() - p,
    {
        let page: u32 = pages[p].page_idx;
        let base: usize = pages[p].first_row;
        let n: usize = pages[p].num_values;
        let ghost mid = spots_of(occ@);
        proof {
            lemma_page_inside(pages@, p as int);
            assert(pages@[p as int].page_idx == p);
        }
        let mut r: usize = 0;
        while r < n
            invariant
                r <= n <= u32::MAX,
                p < pages@.len(),
                page == p,
                base == pages@[p as int].first_row,
                n == pages@[p as int].num_values,
                base + n <= values@.len(),
                keys == keys_of(values@),
                forall|s: Spot| #[trigger]
                    spots_of(occ@).contains(s) == (mid.contains(s) || (s.row_group == row_group
                        && s.page == p && s.row < r && keys[base + s.row].contains(s.key))),
            decreases n - r,
        {
            let len: usize = values.len();
            let o = Occurrence {
                key: values[base + r].duplicate(),
                row_group,
                page,
                row: r as u32,
            };
            let ghost before = occ@;
            let ghost new = o.spot();
            occ.push(o);
            proof {
                assert(spots_of(occ@) =~= spots_of(before).push(new));
                lemma_spots_push(spots_of(before), new);
                assert(keys[base + r] == seq![new.key]);
                assert forall|s: Spot| #[trigger] spots_of(occ@).contains(s) == (mid.contains(s)
                    || (s.row_group == row_group && s.page == p && s.row < r + 1 && keys[base
                    + s.row].contains(s.key))) by {
                    assert(spots_of(occ@).contains(s) == (spots_of(before).contains(s) || s
                        == new));
                    if s == new {
                        assert(seq![new.key][0] == new.key);
                    }
                }
            }
            r = r + 1;
        }
        proof {
            assert forall|s: Spot| #[trigger] spots_of(occ@).contains(s) == (start.contains(s) || (
            s.row_group == row_group && s.page < p + 1 && occurs_in(keys, pages@, s))) by {
                assert(mid.contains(s) == (start.contains(s) || (s.row_group == row_group && s.page
                    < p && occurs_in(keys, pages@, s))));
            }
        }
        p = p + 1;
    }
}

proof fn lemma_spots_push(list: Seq<Spot>, x: Spot)
    ensures
        forall|s: Spot| #[trigger] list.push(x).contains(s) == (list.contains(s) || s == x),
{
    assert forall|s: Spot| #[trigger] list.push(x).contains(s) == (list.contains(s) || s == x) by {
        if list.contains(s) {
            let i = choose|i: int| 0 <= i < list.len() && list[i] == s;
            assert(list.push(x)[i] == s);
        }
        if s == x {
            assert(list.push(x)[list.len() as int] == x);
        }
        if list.push(x).contains(s) {
            let i = choose|i: int| 0 <= i < list.push(x).len() && list.push(x)[i] == s;
            if i < list.len() {
                assert(list[i] == s);
            }
        }
    }
}

/// The values of a sidecar column.
#[derive(Debug)]
pub enum ColumnData {
    I64(Vec<i64>),
    I32(Vec<i32>),
    ByteArray(Vec<Vec<u8>>),
}

/// A sidecar column and its name.
#[derive(Debug)]
pub struct NamedColumn {
    pub name: String,
    pub data: ColumnData,
}

/// How the pages of a sidecar are compressed.
#[derive(Debug, Clone, Copy, PartialEq, Eq, Structural)]
pub enum CompressionCodec {
    Uncompressed,
    Snappy,
}

/// A sidecar that is ready to be written.
#[derive(Debug)]
pub struct SidecarTable {
    pub columns: Vec<NamedColumn>,
    /// The rows per row group; the writer's own choice where there is none.
    pub row_group_size: Option<usize>,
    /// The number of row groups that the index spans.
    pub row_group_count: u32,
    pub codec: CompressionCodec,
    /// The key of the manifest in the key-value metadata.
    pub manifest_key: String,
    pub manifest_json: String,
}

/// The rows of a page.
pub open spec fn page_rows(file: ParquetFile, column: nat, row_group: u32, page: u32) -> nat {
    layouts(file, row_group as nat, column).emitted[page as int].num_values as nat
}

/// The keys that a column holds.
pub open spec fn column_keys(data: ColumnData) -> Seq<SortKey> {
    match data {
        ColumnData::I64(v) => v@.map_values(|x: i64| x.key()),
        ColumnData::I32(v) => v@.map_values(|x: i32| x.key()),
        ColumnData::ByteArray(v) => v@.map_values(|x: Vec<u8>| x.key()),
    }
}

/// That a column holds the keys of index rows, in order.
pub open spec fn holds_keys(c: NamedColumn, name: Seq<char>, rows: Seq<RowView>) -> bool {
    c.name@ == name && column_keys(c.data) == rows.map_values(|r: RowView| r.key)
}

/// That the columns from `at` on hold the row groups, pages and row sets of
/// index rows, in order, and that there are no others.
pub open spec fn holds_targets(
    columns: Seq<NamedColumn>,
    at: int,
    rows: Seq<RowView>,
    file: ParquetFile,
    column: nat,
) -> bool {
    &&& columns.len() == at + 3
    &&& columns[at].name@ == "target_rg"@
    &&& columns[at].data is I32
    &&& columns[at].data->I32_0@ == rows.map_values(|r: RowView| wrap32(r.row_group as int))
    &&& columns[at + 1].name@ == "target_page"@
    &&& columns[at + 1].data is I32
    &&& columns[at + 1].data->I32_0@ == rows.map_values(|r: RowView| wrap32(r.page as int))
    &&& columns[at + 2].name@ == "target_rowset"@
    &&& columns[at + 2].data is ByteArray
    &&& byte_strings(columns[at + 2].data->ByteArray_0@) == rows.map_values(
        |r: RowView| tagged(r.positions, page_rows(file, column, r.row_group, r.page)),
    )
}

/// That index rows record exactly the occurrences of a file, in order.
pub open spec fn indexes_file(
    rows: Seq<RowView>,
    file: ParquetFile,
    column: nat,
    source: KeySource,
) -> bool {
    &&& well_ordered(rows)
    &&& forall|s: Spot| #[trigger] recorded(rows, s) == occurs(file, column, source, s)
}

/// What is gathered of a file before the index rows are made.
struct Scan<K> {
    occ: Vec<Occurrence<K>>,
    pages: Vec<Vec<DataPageLayout>>,
}

impl<K: IndexKey> Scan<K> {
    /// The first `n` row groups have been gathered.
    spec fn covers(&self, file: ParquetFile, column: nat, source: KeySource, n: nat) -> bool {
        &&& self.pages@.len() == n
        &&& forall|g: int|
            0 <= g < n ==> (#[trigger] self.pages@[g])@ == layouts(file, g as nat, column).emitted
        &&& forall|g: int|
            0 <= g < n ==> layouts(file, #[trigger] (g as nat), column).fault is None
        &&& forall|s: Spot| #[trigger]
            spots_of(self.occ@).contains(s) == (s.row_group < n && occurs(
                file,
                column,
                source,
                s,
            ))
    }
}

/// The rows of a page are counted by 31 bits.
pub proof fn lemma_page_rows_small(file: ParquetFile, row_group: nat, column: nat)
    ensures
        forall|i: int|
            0 <= i < layouts(file, row_group, column).emitted.len() ==> (#[trigger] layouts(
                file,
                row_group,
                column,
            ).emitted[i]).num_values <= i32::MAX,
{
    if let Ok(d) = file.chunk_at(row_group, column) {
        crate::index::page_layout::lemma_layouts_small(d.pages@, 0, 0, 0);
    }
}

/// Gathers one row group whose rows have one key each.
fn scan_group<K: IndexKey>(
    file: &ParquetFile,
    row_group: usize,
    label: &str,
    column: usize,
    values: &Vec<K>,
    scan: &mut Scan<K>,
    Ghost(source): Ghost<KeySource>,
) -> (r: Result<()>)
    requires
        old(scan).covers(*file, column as nat, source, row_group as nat),
        row_group < file.row_groups@.len(),
        source(row_group as nat) == Ok::<RowKeys, Fault>(keys_of(values@)),
    ensures
        reports(
            r,
            pages_fault(*file, row_group as nat, label@, column as nat, values@.len()),
        ),
        r is Ok ==> final(scan).covers(*file, column as nat, source, (row_group + 1) as nat),
{
    let pages: Vec<DataPageLayout> = match checked_pages(
        file,
        row_group,
        label,
        column,
        values.len(),
    ) {
        Ok(p) => p,
        Err(e) => {
            return Err(e);
        },
    };
    proof {
        law_pages_share_out_rows(*file, row_group as nat, column as nat);
        lemma_page_rows_small(*file, row_group as nat, column as nat);
    }
    let ghost before = spots_of(scan.occ@);
    if row_group as u128 <= u32::MAX as u128 {
        collect_values(values, &pages, row_group as u32, &mut scan.occ);
    }
    proof {
        assert forall|s: Spot| #[trigger] spots_of(scan.occ@).contains(s) == (s.row_group
            < row_group + 1 && occurs(*file, column as nat, source, s)) by {
            assert(before.contains(s) == (s.row_group < row_group && occurs(
                *file,
                column as nat,
                source,
                s,
            )));
        }
    }
    scan.pages.push(pages);
    Ok(())
}

/// The row groups, pages and row sets of index rows.
struct Targets {
    row_groups: Vec<i32>,
    pages: Vec<i32>,
    rowsets: Vec<Vec<u8>>,
}

/// That every row stands for rows of pages that are there.
spec fn rows_inside(rows: Seq<RowView>, pages: Seq<Vec<DataPageLayout>>) -> bool {
    forall|i: int|
        0 <= i < rows.len() ==> {
            let r = #[trigger] rows[i];
            &&& r.row_group < pages.len()
            &&& r.page < pages[r.row_group as int]@.len()
            &&& pages[r.row_group as int]@[r.page as int].num_values <= i32::MAX
            &&& forall|k: int|
                0 <= k < r.positions.len() ==> #[trigger] r.positions[k]
                    < pages[r.row_group as int]@[r.page as int].num_values
        }
}

fn emit_targets<K: IndexKey>(rows: &Vec<IndexRow<K>>, pages: &Vec<Vec<DataPageLayout>>) -> (t:
    Targets)
    requires
        rows_inside(rows_of(rows@), pages@),
    ensures
        t.row_groups@ == rows_of(rows@).map_values(|r: RowView| wrap32(r.row_group as int)),
        t.pages@ == rows_of(rows@).map_values(|r: RowView| wrap32(r.page as int)),
        byte_strings(t.rowsets@) == rows_of(rows@).map_values(
            |r: RowView|
                tagged(
                    r.positions,
                    pages@[r.row_group as int]@[r.page as int].num_values as nat,
                ),
        ),
{
    let ghost all = rows_of(rows@);
    let ghost sets = all.map_values(
        |r: RowView|
            tagged(r.positions, pages@[r.row_group as int]@[r.page as int].num_values as nat),
    );
    let ghost groups = all.map_values(|r: RowView| wrap32(r.row_group as int));
    let ghost ords = all.map_values(|r: RowView| wrap32(r.page as int));
    let mut row_groups: Vec<i32> = Vec::new();
    let mut page_ids: Vec<i32> = Vec::new();
    let mut rowsets: Vec<Vec<u8>> = Vec::new();
    let mut i: usize = 0;
    proof {
        assert(byte_strings(rowsets@) =~= sets.take(0));
    }
    while i < rows.len()
        invariant
            i <= rows@.len(),
            rows_inside(rows_of(rows@), pages@),
            all == rows_of(rows@),
            sets == all.map_values(
                |r: RowView|
                    tagged(
                        r.positions,
                        pages@[r.row_group as int]@[r.page as int].num_values as nat,
                    ),
            ),
            groups == all.map_values(|r: RowView| wrap32(r.row_group as int)),
            ords == all.map_values(|r: RowView| wrap32(r.page as int)),
            row_groups@ == groups.take(i as int),
            page_ids@ == ords.take(i as int),
            byte_strings(rowsets@) == sets.take(i as int),
        decreases rows@.len() - i,
    {
        let row = &rows[i];
        proof {
            assert(all[i as int] == row.row());
        }
        let n: usize = pages[row.row_group as usize][row.page as usize].num_values;
        proof {
            assert forall|k: int| 0 <= k < row.positions@.len() implies #[trigger] row.positions@[k]
                < n by {
                assert(all[i as int].positions[k] == row.positions@[k]);
            }
        }
        let rowset: Vec<u8> = encode_tagged(row.positions.as_slice(), n);
        row_groups.push(as_i32(row.row_group as i128));
        page_ids.push(as_i32(row.page as i128));
        let ghost before = rowsets@;
        let ghost bytes = rowset@;
        rowsets.push(rowset);
        proof {
            assert(row_groups@ =~= groups.take(i + 1));
            assert(page_ids@ =~= ords.take(i + 1));
            assert(byte_strings(rowsets@) =~= byte_strings(before).push(bytes));
            assert(sets.take(i + 1) =~= sets.take(i as int).push(bytes));
        }
        i = i + 1;
    }
    proof {
        assert(groups.take(i as int) =~= groups);
        assert(ords.take(i as int) =~= ords);
        assert(sets.take(i as int) =~= sets);
    }
    Targets { row_groups, pages: page_ids, rowsets }
}

/// Index rows that record the occurrences of a file stay within its pages.
proof fn lemma_rows_inside(
    rows: Seq<RowView>,
    file: ParquetFile,
    column: nat,
    source: KeySource,
    pages: Seq<Vec<DataPageLayout>>,
)
    requires
        indexes_file(rows, file, column, source),
        pages.len() == file.row_groups@.len(),
        forall|g: int|
            0 <= g < pages.len() ==> (#[trigger] pages[g])@ == layouts(
                file,
                g as nat,
                column,
            ).emitted,
    ensures
        rows_inside(rows, pages),
{
    assert forall|i: int| 0 <= i < rows.len() implies {
        let r = #[trigger] rows[i];
        &&& r.row_group < pages.len()
        &&& r.page < pages[r.row_group as int]@.len()
        &&& pages[r.row_group as int]@[r.page as int].num_values <= i32::MAX
        &&& forall|k: int|
            0 <= k < r.positions.len() ==> #[trigger] r.positions[k]
                < pages[r.row_group as int]@[r.page as int].num_values
    } by {
        let r = rows[i];
        assert forall|k: int| 0 <= k < r.positions.len() implies {
            &&& r.row_group < pages.len()
            &&& r.page < pages[r.row_group as int]@.len()
            &&& #[trigger] r.positions[k]
                < pages[r.row_group as int]@[r.page as int].num_values
        } by {
            let s = Spot {
                key: r.key,
                row_group: r.row_group,
                page: r.page,
                row: r.positions[k],
            };
            assert(stands_for(rows[i], s));
            assert(recorded(rows, s));
            assert(occurs(file, column, source, s));
            assert(pages[s.row_group as int]@ == layouts(
                file,
                s.row_group as nat,
                column,
            ).emitted);
        }
        assert(r.positions.len() > 0);
        let p0 = r.positions[0];
        lemma_page_rows_small(file, r.row_group as nat, column);
        assert(pages[r.row_group as int]@ == layouts(file, r.row_group as nat, column).emitted);
    }
}

/// The name of a physical type in messages.
pub open spec fn type_text(t: ParquetType) -> Seq<char> {
    match t {
        ParquetType::Boolean => "Boolean"@,
        ParquetType::Int32 => "Int32"@,
        ParquetType::Int64 => "Int64"@,
        ParquetType::Int96 => "Int96"@,
        ParquetType::Float => "Float"@,
        ParquetType::Double => "Double"@,
        ParquetType::ByteArray => "ByteArray"@,
        ParquetType::FixedLenByteArray => "FixedLenByteArray"@,
    }
}

fn type_str(t: ParquetType) -> (s: &'static str)
    ensures
        s@ == type_text(t),
{
    match t {
        ParquetType::Boolean => "Boolean",
        ParquetType::Int32 => "Int32",
        ParquetType::Int64 => "Int64",
        ParquetType::Int96 => "Int96",
        ParquetType::Float => "Float",
        ParquetType::Double => "Double",
        ParquetType::ByteArray => "ByteArray",
        ParquetType::FixedLenByteArray => "FixedLenByteArray",
    }
}

/// The schema node of a leaf column of a flat schema, whose root comes
/// first.
pub open spec fn leaf_at(schema: Seq<SchemaElement>, column: nat) -> std::result::Result<
    SchemaElement,
    Fault,
> {
    if column + 1 > usize::MAX {
        Err(Fault::InvalidInput("source_column index overflow"@))
    } else if column + 1 >= schema.len() {
        Err(
            Fault::InvalidInput(
                "source_column "@ + dec(column) + " out of range in flat schema"@,
            ),
        )
    } else {
        Ok(schema[column as int + 1])
    }
}

fn leaf_or_err(schema: &Vec<SchemaElement>, source_column: usize) -> (r: Result<&SchemaElement>)
    ensures
        match leaf_at(schema@, source_column as nat) {
            Ok(e) => r is Ok && *r->Ok_0 == e,
            Err(f) => reports(r, Some(f)),
        },
{
    if source_column == usize::MAX {
        return Err(CodecError::InvalidInput("source_column index overflow".to_string()));
    }
    if source_column + 1 >= schema.len() {
        return Err(
            CodecError::InvalidInput(
                text1("source_column ", source_column as u128, " out of range in flat schema"),
            ),
        );
    }
    Ok(&schema[source_column + 1])
}

/// The physical type of a leaf column.
pub open spec fn leaf_type_at(schema: Seq<SchemaElement>, column: nat) -> std::result::Result<
    ParquetType,
    Fault,
> {
    match leaf_at(schema, column) {
        Err(f) => Err(f),
        Ok(e) => match e.column_type {
            Some(t) => Ok(t),
            None => Err(
                Fault::InvalidInput(
                    "schema element at leaf "@ + dec(column)
                        + " has no physical type (group node?)"@,
                ),
            ),
        },
    }
}

fn leaf_type(schema: &Vec<SchemaElement>, source_column: usize) -> (r: Result<ParquetType>)
    ensures
        match leaf_type_at(schema@, source_column as nat) {
            Ok(t) => r is Ok && r->Ok_0 == t,
            Err(f) => reports(r, Some(f)),
        },
{
    match leaf_or_err(schema, source_column) {
        Err(e) => Err(e),
        Ok(leaf) => match leaf.column_type {
            Some(t) => Ok(t),
            None => Err(
                CodecError::InvalidInput(
                    text1(
                        "schema element at leaf ",
                        source_column as u128,
                        " has no physical type (group node?)",
                    ),
                ),
            ),
        },
    }
}

/// Why a column is not one that an index of `wanted` values is built over;
/// `head` and `tail` surround the column and its type in the message.
pub open spec fn column_refusal(
    file: ParquetFile,
    column: nat,
    wanted: ParquetType,
    head: Seq<char>,
    tail: Seq<char>,
) -> Option<Fault> {
    match leaf_type_at(file.schema@, column) {
        Err(f) => Some(f),
        Ok(t) => if t != wanted {
            Some(
                Fault::InvalidInput(head + dec(column) + (" is "@ + type_text(t) + tail)),
            )
        } else {
            None
        },
    }
}

fn check_column(
    file: &ParquetFile,
    column: usize,
    wanted: ParquetType,
    head: &str,
    tail: &str,
) -> (r: Result<()>)
    ensures
        reports(r, column_refusal(*file, column as nat, wanted, head@, tail@)),
{
    let t: ParquetType = match leaf_type(&file.schema, column) {
        Ok(t) => t,
        Err(e) => {
            return Err(e);
        },
    };
    if t != wanted {
        let mut s: String = head.to_string();
        push_dec(&mut s, column as u128);
        s.append(joined3(" is ", type_str(t), tail).as_str());
        return Err(CodecError::InvalidInput(s));
    }
    Ok(())
}

/// The name of a leaf column, or the fault of a name that is no text.
pub open spec fn column_name(file: ParquetFile, column: nat, fault: Seq<char>) -> std::result::Result<
    Seq<char>,
    Fault,
> {
    let name = file.schema@[column as int + 1].name@;
    if valid_utf8(name) {
        Ok(decode_utf8(name))
    } else {
        Err(Fault::InvalidInput(fault))
    }
}

fn read_column_name(file: &ParquetFile, column: usize, fault: &str) -> (r: Result<String>)
    requires
        column + 1 < file.schema@.len(),
    ensures
        match column_name(*file, column as nat, fault@) {
            Ok(name) => r is Ok && r->Ok_0@ == name,
            Err(f) => reports(r, Some(f)),
        },
{
    let _len: usize = file.schema.len();
    match utf8_text(file.schema[column + 1].name.as_slice()) {
        Some(s) => Ok(s),
        None => Err(CodecError::InvalidInput(fault.to_string())),
    }
}

/// The message of a leaf name that is no text.
pub open spec fn bad_name() -> Seq<char> {
    "schema element name is not valid UTF-8"@
}

/// Why an index over one column cannot be built, once the column is of the
/// wanted type.
pub open spec fn build_fault(
    file: ParquetFile,
    column: nat,
    label: Seq<char>,
    source: KeySource,
) -> Option<Fault> {
    match groups_fault(file, column, label, source, 0) {
        Some(f) => Some(f),
        None => match fingerprint_of_file(file) {
            Err(f) => Some(f),
            Ok(_) => match column_name(file, column, bad_name()) {
                Err(f) => Some(f),
                Ok(_) => None,
            },
        },
    }
}

/// Why an index over one column cannot be built.
pub open spec fn index_fault(refusal: Option<Fault>, build: Option<Fault>) -> Option<Fault> {
    match refusal {
        Some(f) => Some(f),
        None => build,
    }
}

/// That a sidecar's manifest names one index of a kind over a file, under
/// the newest key.
pub open spec fn carries_manifest(
    t: SidecarTable,
    file: ParquetFile,
    index_name: Seq<char>,
    kind: KindView,
) -> bool {
    &&& t.manifest_key@ == MANIFEST_KEY_V3@
    &&& t.manifest_json@ == manifest_json(
        ManifestView {
            source_fingerprint: fingerprint_of_file(file)->Ok_0,
            indexes: seq![EntryView { name: index_name, kind, sidecar_row_group: 0 }],
        },
    )
}

/// That columns hold the rows of an index of a kind.
pub open spec fn holds_index_rows(
    columns: Seq<NamedColumn>,
    kind: KindView,
    rows: Seq<RowView>,
    file: ParquetFile,
    column: nat,
) -> bool {
    match kind {
        KindView::Sorted { physical_type, .. } => {
            &&& match physical_type {
                PhysicalType::Int64 => columns[0].data is I64,
                PhysicalType::Int32 => columns[0].data is I32,
                PhysicalType::ByteArray => columns[0].data is ByteArray,
            }
            &&& holds_keys(columns[0], "value"@, rows)
            &&& holds_targets(columns, 1, rows, file, column)
        },
        KindView::CompositePrefix { .. } => holds_pairs(columns, rows) && holds_targets(
            columns,
            2,
            rows,
            file,
            column,
        ),
        KindView::Inverted { .. } => {
            &&& columns[0].data is ByteArray
            &&& holds_keys(columns[0], "token"@, rows)
            &&& holds_targets(columns, 1, rows, file, column)
        },
        KindView::BloomPage { .. } => false,
    }
}

/// That a sidecar holds an index of a kind over a file: its manifest, and the
/// index rows of all occurrences of keys, in order. The pages are those of
/// `column`.
pub open spec fn index_table(
    t: SidecarTable,
    file: ParquetFile,
    column: nat,
    source: KeySource,
    index_name: Seq<char>,
    kind: KindView,
) -> bool {
    &&& carries_manifest(t, file, index_name, kind)
    &&& exists|rows: Seq<RowView>| #[trigger]
        indexes_file(rows, file, column, source) && holds_index_rows(
            t.columns@,
            kind,
            rows,
            file,
            column,
        )
}

/// The manifest of a sidecar with one index.
fn one_index_manifest(fp: SourceFingerprint, index_name: &str, kind: IndexKind) -> (json: String)
    ensures
        json@ == manifest_json(
            ManifestView {
                source_fingerprint: fp,
                indexes: seq![
                    EntryView { name: index_name@, kind: kind@, sidecar_row_group: 0 },
                ],
            },
        ),
{
    let entry = IndexEntry { name: index_name.to_string(), kind, sidecar_row_group: 0 };
    let ghost view = entry@;
    let mut indexes: Vec<IndexEntry> = Vec::new();
    indexes.push(entry);
    let manifest = IndexManifest { source_fingerprint: fp, indexes };
    proof {
        assert(manifest@.indexes =~= seq![view]);
    }
    manifest.to_json()
}

/// The rows per row group of sorted indexes over 64-bit integers.
pub const SIDECAR_RG_ROWS: usize = 262144;

/// The row groups that `n` index rows are cut into: at least one.
pub open spec fn cut_count(n: nat) -> nat {
    let groups = (n + 262143) / 262144;
    if groups == 0 {
        1
    } else {
        groups as nat
    }
}

/// Makes the index rows of a file that has been gathered.
fn finish_scan<K: IndexKey>(
    file: &ParquetFile,
    column: usize,
    scan: &Scan<K>,
    Ghost(source): Ghost<KeySource>,
) -> (r: (Vec<IndexRow<K>>, Targets))
    requires
        scan.covers(*file, column as nat, source, file.row_groups@.len()),
    ensures
        indexes_file(rows_of(r.0@), *file, column as nat, source),
        r.1.row_groups@ == rows_of(r.0@).map_values(|x: RowView| wrap32(x.row_group as int)),
        r.1.pages@ == rows_of(r.0@).map_values(|x: RowView| wrap32(x.page as int)),
        byte_strings(r.1.rowsets@) == rows_of(r.0@).map_values(
            |x: RowView|
                tagged(x.positions, page_rows(*file, column as nat, x.row_group, x.page)),
        ),
{
    let rows: Vec<IndexRow<K>> = gather(&scan.occ);
    let ghost all = rows_of(rows@);
    proof {
        assert forall|s: Spot| #[trigger] recorded(all, s) == occurs(
            *file,
            column as nat,
            source,
            s,
        ) by {
            assert(recorded(all, s) == spots_of(scan.occ@).contains(s));
        }
        lemma_rows_inside(all, *file, column as nat, source, scan.pages@);
    }
    let targets: Targets = emit_targets(&rows, &scan.pages);
    proof {
        let a = all.map_values(
            |x: RowView|
                tagged(
                    x.positions,
                    scan.pages@[x.row_group as int]@[x.page as int].num_values as nat,
                ),
        );
        let b = all.map_values(
            |x: RowView|
                tagged(x.positions, page_rows(*file, column as nat, x.row_group, x.page)),
        );
        assert forall|i: int| 0 <= i < all.len() implies a[i] == b[i] by {
            let x = all[i];
            assert(x.row_group < scan.pages@.len());
            assert(scan.pages@[x.row_group as int]@ == layouts(
                *file,
                x.row_group as nat,
                column as nat,
            ).emitted);
        }
        assert(a =~= b);
    }
    (rows, targets)
}

fn named(name: &str, data: ColumnData) -> (c: NamedColumn)
    ensures
        c.name@ == name@,
        c.data == data,
{
    NamedColumn { name: name.to_string(), data }
}

/// Adds the three columns that every row of an index has after its key.
fn push_targets(columns: &mut Vec<NamedColumn>, targets: Targets)
    ensures
        final(columns)@.len() == old(columns)@.len() + 3,
        final(columns)@.take(old(columns)@.len() as int) == old(columns)@,
        ({
            let n = old(columns)@.len() as int;
            let c = final(columns)@;
            &&& c[n].name@ == "target_rg"@
            &&& c[n].data == ColumnData::I32(targets.row_groups)
            &&& c[n + 1].name@ == "target_page"@
            &&& c[n + 1].data == ColumnData::I32(targets.pages)
            &&& c[n + 2].name@ == "target_rowset"@
            &&& c[n + 2].data == ColumnData::ByteArray(targets.rowsets)
        }),
{
    columns.push(named("target_rg", ColumnData::I32(targets.row_groups)));
    columns.push(named("target_page", ColumnData::I32(targets.pages)));
    columns.push(named("target_rowset", ColumnData::ByteArray(targets.rowsets)));
    proof {
        assert(columns@.take(old(columns)@.len() as int) =~= old(columns)@);
    }
}

/// The keys of index rows, as values.
fn take_keys<K: IndexKey>(rows: &Vec<IndexRow<K>>) -> (out: Vec<K>)
    ensures
        out@.map_values(|k: K| k.key()) == rows_of(rows@).map_values(|r: RowView| r.key),
{
    let ghost all = rows_of(rows@).map_values(|r: RowView| r.key);
    let mut out: Vec<K> = Vec::new();
    let mut i: usize = 0;
    proof {
        assert(out@.map_values(|k: K| k.key()) =~= all.take(0));
    }
    while i < rows.len()
        invariant
            i <= rows@.len(),
            all == rows_of(rows@).map_values(|r: RowView| r.key),
            out@.map_values(|k: K| k.key()) == all.take(i as int),
        decreases rows@.len() - i,
    {
        let ghost before = out@;
        let k: K = rows[i].key.duplicate();
        let ghost key = k.key();
        out.push(k);
        proof {
            assert(out@.map_values(|k: K| k.key()) =~= before.map_values(|k: K| k.key()).push(key));
            assert(all.take(i + 1) =~= all.take(i as int).push(key));
        }
        i = i + 1;
    }
    proof {
        assert(all.take(i as int) =~= all);
    }
    out
}

/// Builder of the sidecar indexes of a file.
pub struct IndexBuilder<'a> {
    source: &'a ParquetFile,
}

impl<'a> IndexBuilder<'a> {
    /// The file that is indexed.
    pub closed spec fn file(&self) -> ParquetFile {
        *self.source
    }

    pub fn new(source: &'a ParquetFile) -> (b: Self)
        ensures
            b.file() == *source,
    {
        IndexBuilder { source }
    }
}

/// The keys of a column of INT64 values.
pub open spec fn i64_source(file: ParquetFile, column: nat) -> KeySource {
    |row_group: nat|
        match file.i64s(row_group, column) {
            Ok(v) => Ok(keys_of(v)),
            Err(f) => Err(f),
        }
}

/// Gathers a column of INT64 values.
fn scan_i64(file: &ParquetFile, column: usize) -> (r: Result<Scan<i64>>)
    ensures
        reports(
            r,
            groups_fault(
                *file,
                column as nat,
                " col="@,
                i64_source(*file, column as nat),
                0,
            ),
        ),
        r is Ok ==> r->Ok_0.covers(
            *file,
            column as nat,
            i64_source(*file, column as nat),
            file.row_groups@.len(),
        ),
{
    let ghost source = i64_source(*file, column as nat);
    let mut scan: Scan<i64> = Scan { occ: Vec::new(), pages: Vec::new() };
    let mut rg: usize = 0;
    while rg < file.row_groups.len()
        invariant
            rg <= file.row_groups@.len(),
            source == i64_source(*file, column as nat),
            scan.covers(*file, column as nat, source, rg as nat),
            groups_fault(*file, column as nat, " col="@, source, 0) == groups_fault(
                *file,
                column as nat,
                " col="@,
                source,
                rg as nat,
            ),
        decreases file.row_groups@.len() - rg,
    {
        let values = match read_column_i64(file, rg, column) {
            Ok(v) => v,
            Err(e) => {
                return Err(e);
            },
        };
        match scan_group(file, rg, " col=", column, values, &mut scan, Ghost(source)) {
            Ok(_) => {},
            Err(e) => {
                return Err(e);
            },
        }
        rg = rg + 1;
    }
    Ok(scan)
}

impl<'a> IndexBuilder<'a> {
    /// Builds a sorted index over a column of INT64 values.
    pub fn write_sorted_i64(&self, index_name: &str, source_column: usize) -> (r: Result<SidecarTable>)
        ensures
            reports(
                r,
                index_fault(
                    column_refusal(
                        self.file(),
                        source_column as nat,
                        ParquetType::Int64,
                        "write_sorted_i64: source column "@,
                        ", expected INT64"@,
                    ),
                    build_fault(
                        self.file(),
                        source_column as nat,
                        " col="@,
                        i64_source(self.file(), source_column as nat),
                    ),
                ),
            ),
            r is Ok ==> {
                &&& r->Ok_0.row_group_size == Some(SIDECAR_RG_ROWS)
                &&& r->Ok_0.row_group_count == low32(
                    cut_count(column_keys(r->Ok_0.columns@[0].data).len()) as int,
                )
                &&& r->Ok_0.codec == CompressionCodec::Snappy
                &&& index_table(
                    r->Ok_0,
                    self.file(),
                    source_column as nat,
                    i64_source(self.file(), source_column as nat),
                    index_name@,
                    KindView::Sorted {
                        source_column: column_name(
                            self.file(),
                            source_column as nat,
                            bad_name(),
                        )->Ok_0,
                        physical_type: PhysicalType::Int64,
                    },
                )
            },
    {
        let file = self.source;
        let ghost source = i64_source(*file, source_column as nat);
        match check_column(
            file,
            source_column,
            ParquetType::Int64,
            "write_sorted_i64: source column ",
            ", expected INT64",
        ) {
            Ok(_) => {},
            Err(e) => {
                return Err(e);
            },
        }
        let scan: Scan<i64> = match scan_i64(file, source_column) {
            Ok(s) => s,
            Err(e) => {
                return Err(e);
            },
        };
        let (rows, targets) = finish_scan(file, source_column, &scan, Ghost(source));
        let fp: SourceFingerprint = match compute_source_fingerprint(file) {
            Ok(fp) => fp,
            Err(e) => {
                return Err(e);
            },
        };
        let name: String = match read_column_name(
            file,
            source_column,
            "schema element name is not valid UTF-8",
        ) {
            Ok(n) => n,
            Err(e) => {
                return Err(e);
            },
        };
        let json: String = one_index_manifest(
            fp,
            index_name,
            IndexKind::Sorted { source_column: name, physical_type: PhysicalType::Int64 },
        );
        let mut columns: Vec<NamedColumn> = Vec::new();
        columns.push(named("value", ColumnData::I64(take_keys(&rows))));
        let ghost first = columns@;
        push_targets(&mut columns, targets);
        proof {
            assert(columns@[0] == columns@.take(1)[0]);
            assert(column_keys(columns@[0].data) =~= rows_of(rows@).map_values(
                |r: RowView| r.key,
            ));
            assert(indexes_file(rows_of(rows@), self.file(), source_column as nat, source));
        }
        Ok(
            SidecarTable {
                columns,
                row_group_size: Some(SIDECAR_RG_ROWS),
                row_group_count: as_u32(row_group_cut(rows.len()) as i128),
                codec: CompressionCodec::Snappy,
                manifest_key: MANIFEST_KEY_V3.to_string(),
                manifest_json: json,
            },
        )
    }
}

/// The keys of a column of INT32 values.
pub open spec fn i32_source(file: ParquetFile, column: nat) -> KeySource {
    |row_group: nat|
        match file.i32s(row_group, column) {
            Ok(v) => Ok(keys_of(v)),
            Err(f) => Err(f),
        }
}

/// Gathers a column of INT32 values.
fn scan_i32(file: &ParquetFile, column: usize) -> (r: Result<Scan<i32>>)
    ensures
        reports(
            r,
            groups_fault(
                *file,
                column as nat,
                " col="@,
                i32_source(*file, column as nat),
                0,
            ),
        ),
        r is Ok ==> r->Ok_0.covers(
            *file,
            column as nat,
            i32_source(*file, column as nat),
            file.row_groups@.len(),
        ),
{
    let ghost source = i32_source(*file, column as nat);
    let mut scan: Scan<i32> = Scan { occ: Vec::new(), pages: Vec::new() };
    let mut rg: usize = 0;
    while rg < file.row_groups.len()
        invariant
            rg <= file.row_groups@.len(),
            source == i32_source(*file, column as nat),
            scan.covers(*file, column as nat, source, rg as nat),
            groups_fault(*file, column as nat, " col="@, source, 0) == groups_fault(
                *file,
                column as nat,
                " col="@,
                source,
                rg as nat,
            ),
        decreases file.row_groups@.len() - rg,
    {
        let values = match read_column_i32(file, rg, column) {
            Ok(v) => v,
            Err(e) => {
                return Err(e);
            },
        };
        match scan_group(file, rg, " col=", column, values, &mut scan, Ghost(source)) {
            Ok(_) => {},
            Err(e) => {
                return Err(e);
            },
        }
        rg = rg + 1;
    }
    Ok(scan)
}

impl<'a> IndexBuilder<'a> {
    /// Builds a sorted index over a column of INT32 values.
    pub fn write_sorted_i32(&self, index_name: &str, source_column: usize) -> (r: Result<SidecarTable>)
        ensures
            reports(
                r,
                index_fault(
                    column_refusal(
                        self.file(),
                        source_column as nat,
                        ParquetType::Int32,
                        "write_sorted_i32: source column "@,
                        ", expected INT32"@,
                    ),
                    build_fault(
                        self.file(),
                        source_column as nat,
                        " col="@,
                        i32_source(self.file(), source_column as nat),
                    ),
                ),
            ),
            r is Ok ==> {
                &&& r->Ok_0.row_group_size is None
                &&& r->Ok_0.row_group_count == 1
                &&& r->Ok_0.codec == CompressionCodec::Snappy
                &&& index_table(
                    r->Ok_0,
                    self.file(),
                    source_column as nat,
                    i32_source(self.file(), source_column as nat),
                    index_name@,
                    KindView::Sorted {
                        source_column: column_name(
                            self.file(),
                            source_column as nat,
                            bad_name(),
                        )->Ok_0,
                        physical_type: PhysicalType::Int32,
                    },
                )
            },
    {
        let file = self.source;
        let ghost source = i32_source(*file, source_column as nat);
        match check_column(
            file,
            source_column,
            ParquetType::Int32,
            "write_sorted_i32: source column ",
            ", expected INT32",
        ) {
            Ok(_) => {},
            Err(e) => {
                return Err(e);
            },
        }
        let scan: Scan<i32> = match scan_i32(file, source_column) {
            Ok(s) => s,
            Err(e) => {
                return Err(e);
            },
        };
        let (rows, targets) = finish_scan(file, source_column, &scan, Ghost(source));
        let fp: SourceFingerprint = match compute_source_fingerprint(file) {
            Ok(fp) => fp,
            Err(e) => {
                return Err(e);
            },
        };
        let name: String = match read_column_name(
            file,
            source_column,
            "schema element name is not valid UTF-8",
        ) {
            Ok(n) => n,
            Err(e) => {
                return Err(e);
            },
        };
        let json: String = one_index_manifest(
            fp,
            index_name,
            IndexKind::Sorted { source_column: name, physical_type: PhysicalType::Int32 },
        );
        let mut columns: Vec<NamedColumn> = Vec::new();
        columns.push(named("value", ColumnData::I32(take_keys(&rows))));
        let ghost first = columns@;
        push_targets(&mut columns, targets);
        proof {
            assert(columns@[0] == columns@.take(1)[0]);
            assert(column_keys(columns@[0].data) =~= rows_of(rows@).map_values(
                |r: RowView| r.key,
            ));
            assert(indexes_file(rows_of(rows@), self.file(), source_column as nat, source));
        }
        Ok(
            SidecarTable {
                columns,
                row_group_size: None,
                row_group_count: 1,
                codec: CompressionCodec::Snappy,
                manifest_key: MANIFEST_KEY_V3.to_string(),
                manifest_json: json,
            },
        )
    }
}

/// The keys of a column of BYTE_ARRAY values.
pub open spec fn byte_array_source(file: ParquetFile, column: nat) -> KeySource {
    |row_group: nat|
        match file.byte_arrays(row_group, column) {
            Ok(v) => Ok(keys_of(v)),
            Err(f) => Err(f),
        }
}

/// Gathers a column of BYTE_ARRAY values.
fn scan_byte_array(file: &ParquetFile, column: usize) -> (r: Result<Scan<Vec<u8>>>)
    ensures
        reports(
            r,
            groups_fault(
                *file,
                column as nat,
                " col="@,
                byte_array_source(*file, column as nat),
                0,
            ),
        ),
        r is Ok ==> r->Ok_0.covers(
            *file,
            column as nat,
            byte_array_source(*file, column as nat),
            file.row_groups@.len(),
        ),
{
    let ghost source = byte_array_source(*file, column as nat);
    let mut scan: Scan<Vec<u8>> = Scan { occ: Vec::new(), pages: Vec::new() };
    let mut rg: usize = 0;
    while rg < file.row_groups.len()
        invariant
            rg <= file.row_groups@.len(),
            source == byte_array_source(*file, column as nat),
            scan.covers(*file, column as nat, source, rg as nat),
            groups_fault(*file, column as nat, " col="@, source, 0) == groups_fault(
                *file,
                column as nat,
                " col="@,
                source,
                rg as nat,
            ),
        decreases file.row_groups@.len() - rg,
    {
        let values = match read_column_byte_array(file, rg, column) {
            Ok(v) => v,
            Err(e) => {
                return Err(e);
            },
        };
        match scan_group(file, rg, " col=", column, values, &mut scan, Ghost(source)) {
            Ok(_) => {},
            Err(e) => {
                return Err(e);
            },
        }
        rg = rg + 1;
    }
    Ok(scan)
}

impl<'a> IndexBuilder<'a> {
    /// Builds a sorted index over a column of BYTE_ARRAY values.
    pub fn write_sorted_byte_array(&self, index_name: &str, source_column: usize) -> (r: Result<SidecarTable>)
        ensures
            reports(
                r,
                index_fault(
                    column_refusal(
                        self.file(),
                        source_column as nat,
                        ParquetType::ByteArray,
                        "write_sorted_byte_array: source column "@,
                        ", expected BYTE_ARRAY"@,
                    ),
                    build_fault(
                        self.file(),
                        source_column as nat,
                        " col="@,
                        byte_array_source(self.file(), source_column as nat),
                    ),
                ),
            ),
            r is Ok ==> {
                &&& r->Ok_0.row_group_size is None
                &&& r->Ok_0.row_group_count == 1
                &&& r->Ok_0.codec == CompressionCodec::Snappy
                &&& index_table(
                    r->Ok_0,
                    self.file(),
                    source_column as nat,
                    byte_array_source(self.file(), source_column as nat),
                    index_name@,
                    KindView::Sorted {
                        source_column: column_name(
                            self.file(),
                            source_column as nat,
                            bad_name(),
                        )->Ok_0,
                        physical_type: PhysicalType::ByteArray,
                    },
                )
            },
    {
        let file = self.source;
        let ghost source = byte_array_source(*file, source_column as nat);
        match check_column(
            file,
            source_column,
            ParquetType::ByteArray,
            "write_sorted_byte_array: source column ",
            ", expected BYTE_ARRAY",
        ) {
            Ok(_) => {},
            Err(e) => {
                return Err(e);
            },
        }
        let scan: Scan<Vec<u8>> = match scan_byte_array(file, source_column) {
            Ok(s) => s,
            Err(e) => {
                return Err(e);
            },
        };
        let (rows, targets) = finish_scan(file, source_column, &scan, Ghost(source));
        let fp: SourceFingerprint = match compute_source_fingerprint(file) {
            Ok(fp) => fp,
            Err(e) => {
                return Err(e);
            },
        };
        let name: String = match read_column_name(
            file,
            source_column,
            "schema element name is not valid UTF-8",
        ) {
            Ok(n) => n,
            Err(e) => {
                return Err(e);
            },
        };
        let json: String = one_index_manifest(
            fp,
            index_name,
            IndexKind::Sorted { source_column: name, physical_type: PhysicalType::ByteArray },
        );
        let mut columns: Vec<NamedColumn> = Vec::new();
        columns.push(named("value", ColumnData::ByteArray(take_keys(&rows))));
        let ghost first = columns@;
        push_targets(&mut columns, targets);
        proof {
            assert(columns@[0] == columns@.take(1)[0]);
            assert(column_keys(columns@[0].data) =~= rows_of(rows@).map_values(
                |r: RowView| r.key,
            ));
            assert(indexes_file(rows_of(rows@), self.file(), source_column as nat, source));
        }
        Ok(
            SidecarTable {
                columns,
                row_group_size: None,
                row_group_count: 1,
                codec: CompressionCodec::Snappy,
                manifest_key: MANIFEST_KEY_V3.to_string(),
                manifest_json: json,
            },
        )
    }
}

/// The row groups that `n` index rows are cut into.
fn row_group_cut(n: usize) -> (k: usize)
    ensures
        k == cut_count(n as nat),
{
    if n == 0 {
        return 1;
    }
    (n - 1) / SIDECAR_RG_ROWS + 1
}

/// The keys of a pair of columns of INT64 values, which must be of equal
/// length.
pub open spec fn pair_source(file: ParquetFile, column_a: nat, column_b: nat) -> KeySource {
    |row_group: nat|
        match file.i64s(row_group, column_a) {
            Err(f) => Err(f),
            Ok(a) => match file.i64s(row_group, column_b) {
                Err(f) => Err(f),
                Ok(b) => if a.len() != b.len() {
                    Err(
                        Fault::InvalidInput(
                            "composite-prefix build: column lengths differ for rg="@ + dec(
                                row_group,
                            ) + " (col_a="@ + dec(a.len()) + " rows, col_b="@ + dec(b.len())
                                + " rows)"@,
                        ),
                    )
                } else {
                    Ok(keys_of(paired(a, b)))
                },
            },
        }
}

/// Values of two columns, row by row.
pub open spec fn paired(a: Seq<i64>, b: Seq<i64>) -> Seq<(i64, i64)> {
    Seq::new(a.len(), |i: int| (a[i], b[i]))
}

fn zip_columns(a: &Vec<i64>, b: &Vec<i64>) -> (out: Vec<(i64, i64)>)
    requires
        a@.len() == b@.len(),
    ensures
        out@ == paired(a@, b@),
{
    let mut out: Vec<(i64, i64)> = Vec::new();
    let mut i: usize = 0;
    while i < a.len()
        invariant
            i <= a@.len() == b@.len(),
            out@ == paired(a@, b@).take(i as int),
        decreases a@.len() - i,
    {
        out.push((a[i], b[i]));
        proof {
            assert(out@ =~= paired(a@, b@).take(i + 1));
        }
        i = i + 1;
    }
    proof {
        assert(paired(a@, b@).take(i as int) =~= paired(a@, b@));
    }
    out
}

/// Gathers a pair of columns, by the pages of the first.
fn scan_pairs(file: &ParquetFile, column_a: usize, column_b: usize) -> (r: Result<
    Scan<(i64, i64)>,
>)
    ensures
        reports(
            r,
            groups_fault(
                *file,
                column_a as nat,
                " col_a="@,
                pair_source(*file, column_a as nat, column_b as nat),
                0,
            ),
        ),
        r is Ok ==> r->Ok_0.covers(
            *file,
            column_a as nat,
            pair_source(*file, column_a as nat, column_b as nat),
            file.row_groups@.len(),
        ),
{
    let ghost source = pair_source(*file, column_a as nat, column_b as nat);
    let mut scan: Scan<(i64, i64)> = Scan { occ: Vec::new(), pages: Vec::new() };
    let mut rg: usize = 0;
    while rg < file.row_groups.len()
        invariant
            rg <= file.row_groups@.len(),
            source == pair_source(*file, column_a as nat, column_b as nat),
            scan.covers(*file, column_a as nat, source, rg as nat),
            groups_fault(*file, column_a as nat, " col_a="@, source, 0) == groups_fault(
                *file,
                column_a as nat,
                " col_a="@,
                source,
                rg as nat,
            ),
        decreases file.row_groups@.len() - rg,
    {
        let a = match read_column_i64(file, rg, column_a) {
            Ok(v) => v,
            Err(e) => {
                return Err(e);
            },
        };
        let b = match read_column_i64(file, rg, column_b) {
            Ok(v) => v,
            Err(e) => {
                return Err(e);
            },
        };
        if a.len() != b.len() {
            return Err(
                CodecError::InvalidInput(
                    text3(
                        "composite-prefix build: column lengths differ for rg=",
                        rg as u128,
                        " (col_a=",
                        a.len() as u128,
                        " rows, col_b=",
                        b.len() as u128,
                        " rows)",
                    ),
                ),
            );
        }
        let values: Vec<(i64, i64)> = zip_columns(a, b);
        match scan_group(file, rg, " col_a=", column_a, &values, &mut scan, Ghost(source)) {
            Ok(_) => {},
            Err(e) => {
                return Err(e);
            },
        }
        rg = rg + 1;
    }
    Ok(scan)
}

/// Why two columns are not a pair that an index is built over.
pub open spec fn pair_refusal(file: ParquetFile, a: nat, b: nat) -> Option<Fault> {
    if a == b {
        Some(
            Fault::InvalidInput(
                "write_sorted_composite_prefix_i64_i64: source_col_a and source_col_b must differ (both = "@
                    + dec(a) + ")"@,
            ),
        )
    } else if leaf_at(file.schema@, a) is Err {
        Some(leaf_at(file.schema@, a)->Err_0)
    } else if leaf_at(file.schema@, b) is Err {
        Some(leaf_at(file.schema@, b)->Err_0)
    } else {
        match leaf_type_at(file.schema@, a) {
            Err(f) => Some(f),
            Ok(ta) => match leaf_type_at(file.schema@, b) {
                Err(f) => Some(f),
                Ok(tb) => if ta != ParquetType::Int64 || tb != ParquetType::Int64 {
                    Some(
                        Fault::InvalidInput(
                            "write_sorted_composite_prefix_i64_i64: source columns "@ + dec(a)
                                + "/"@ + dec(b) + " are "@ + (type_text(ta) + "/"@ + type_text(tb))
                                + ", expected INT64/INT64"@,
                        ),
                    )
                } else {
                    None
                },
            },
        }
    }
}

fn check_pair(file: &ParquetFile, a: usize, b: usize) -> (r: Result<()>)
    ensures
        reports(r, pair_refusal(*file, a as nat, b as nat)),
{
    if a == b {
        return Err(
            CodecError::InvalidInput(
                text1(
                    "write_sorted_composite_prefix_i64_i64: source_col_a and source_col_b must differ (both = ",
                    a as u128,
                    ")",
                ),
            ),
        );
    }
    match leaf_or_err(&file.schema, a) {
        Ok(_) => {},
        Err(e) => {
            return Err(e);
        },
    }
    match leaf_or_err(&file.schema, b) {
        Ok(_) => {},
        Err(e) => {
            return Err(e);
        },
    }
    let ta: ParquetType = match leaf_type(&file.schema, a) {
        Ok(t) => t,
        Err(e) => {
            return Err(e);
        },
    };
    let tb: ParquetType = match leaf_type(&file.schema, b) {
        Ok(t) => t,
        Err(e) => {
            return Err(e);
        },
    };
    if ta != ParquetType::Int64 || tb != ParquetType::Int64 {
        let mut s: String = text2(
            "write_sorted_composite_prefix_i64_i64: source columns ",
            a as u128,
            "/",
            b as u128,
            " are ",
        );
        s.append(joined3(type_str(ta), "/", type_str(tb)).as_str());
        s.append(", expected INT64/INT64");
        return Err(CodecError::InvalidInput(s));
    }
    Ok(())
}

/// Why an index over a pair of columns cannot be built, once the columns are
/// of the wanted type.
pub open spec fn pair_build_fault(file: ParquetFile, a: nat, b: nat) -> Option<Fault> {
    match groups_fault(file, a, " col_a="@, pair_source(file, a, b), 0) {
        Some(f) => Some(f),
        None => match fingerprint_of_file(file) {
            Err(f) => Some(f),
            Ok(_) => match column_name(file, a, "schema element a name is not valid UTF-8"@) {
                Err(f) => Some(f),
                Ok(_) => match column_name(
                    file,
                    b,
                    "schema element b name is not valid UTF-8"@,
                ) {
                    Err(f) => Some(f),
                    Ok(_) => None,
                },
            },
        },
    }
}

/// That two columns hold the keys of index rows over a pair, in order.
pub open spec fn holds_pairs(columns: Seq<NamedColumn>, rows: Seq<RowView>) -> bool {
    &&& columns[0].name@ == "value_a"@
    &&& columns[0].data is I64
    &&& columns[1].name@ == "value_b"@
    &&& columns[1].data is I64
    &&& columns[0].data->I64_0@.len() == rows.len()
    &&& columns[1].data->I64_0@.len() == rows.len()
    &&& forall|i: int|
        0 <= i < rows.len() ==> (#[trigger] rows[i]).key == SortKey::Pair(
            columns[0].data->I64_0@[i] as int,
            columns[1].data->I64_0@[i] as int,
        )
}

/// The two halves of pairs.
fn unzip_keys(rows: &Vec<IndexRow<(i64, i64)>>) -> (r: (Vec<i64>, Vec<i64>))
    ensures
        r.0@.len() == rows@.len(),
        r.1@.len() == rows@.len(),
        forall|i: int|
            0 <= i < rows@.len() ==> (#[trigger] rows_of(rows@)[i]).key == SortKey::Pair(
                r.0@[i] as int,
                r.1@[i] as int,
            ),
{
    let mut a: Vec<i64> = Vec::new();
    let mut b: Vec<i64> = Vec::new();
    let mut i: usize = 0;
    while i < rows.len()
        invariant
            i <= rows@.len(),
            a@.len() == i,
            b@.len() == i,
            forall|k: int|
                0 <= k < i ==> (#[trigger] rows_of(rows@)[k]).key == SortKey::Pair(
                    a@[k] as int,
                    b@[k] as int,
                ),
        decreases rows@.len() - i,
    {
        a.push(rows[i].key.0);
        b.push(rows[i].key.1);
        i = i + 1;
    }
    (a, b)
}

/// The kind of an index over two columns of INT64 values.
fn pair_kind(name_a: String, name_b: String) -> (kind: IndexKind)
    ensures
        kind@ == (KindView::CompositePrefix {
            source_columns: seq![name_a@, name_b@],
            physical_types: seq![PhysicalType::Int64, PhysicalType::Int64],
        }),
{
    let ghost names = seq![name_a@, name_b@];
    let mut source_columns: Vec<String> = Vec::new();
    source_columns.push(name_a);
    source_columns.push(name_b);
    let mut physical_types: Vec<PhysicalType> = Vec::new();
    physical_types.push(PhysicalType::Int64);
    physical_types.push(PhysicalType::Int64);
    proof {
        assert(texts(source_columns@) =~= names);
        assert(physical_types@ =~= seq![PhysicalType::Int64, PhysicalType::Int64]);
    }
    IndexKind::CompositePrefix { source_columns, physical_types }
}

/// The columns of an index over a pair of columns.
fn pair_columns(rows: &Vec<IndexRow<(i64, i64)>>, targets: Targets) -> (columns: Vec<NamedColumn>)
    ensures
        columns@.len() == 5,
        holds_pairs(columns@, rows_of(rows@)),
        columns@[2].name@ == "target_rg"@,
        columns@[2].data == ColumnData::I32(targets.row_groups),
        columns@[3].name@ == "target_page"@,
        columns@[3].data == ColumnData::I32(targets.pages),
        columns@[4].name@ == "target_rowset"@,
        columns@[4].data == ColumnData::ByteArray(targets.rowsets),
{
    let (a, b) = unzip_keys(rows);
    let mut columns: Vec<NamedColumn> = Vec::new();
    columns.push(named("value_a", ColumnData::I64(a)));
    columns.push(named("value_b", ColumnData::I64(b)));
    push_targets(&mut columns, targets);
    proof {
        assert(columns@[0] == columns@.take(2)[0]);
        assert(columns@[1] == columns@.take(2)[1]);
    }
    columns
}

impl<'a> IndexBuilder<'a> {
    /// Builds an index over a pair of columns of INT64 values, ascending by
    /// the first and then the second. Row sets go by the pages of the first.
    pub fn write_sorted_composite_prefix_i64_i64(
        &self,
        index_name: &str,
        source_col_a: usize,
        source_col_b: usize,
    ) -> (r: Result<SidecarTable>)
        ensures
            reports(
                r,
                index_fault(
                    pair_refusal(self.file(), source_col_a as nat, source_col_b as nat),
                    pair_build_fault(self.file(), source_col_a as nat, source_col_b as nat),
                ),
            ),
            r is Ok ==> {
                &&& r->Ok_0.row_group_size is None
                &&& r->Ok_0.row_group_count == 1
                &&& r->Ok_0.codec == CompressionCodec::Snappy
                &&& index_table(
                    r->Ok_0,
                    self.file(),
                    source_col_a as nat,
                    pair_source(self.file(), source_col_a as nat, source_col_b as nat),
                    index_name@,
                    KindView::CompositePrefix {
                        source_columns: seq![
                            column_name(self.file(), source_col_a as nat, ""@)->Ok_0,
                            column_name(self.file(), source_col_b as nat, ""@)->Ok_0,
                        ],
                        physical_types: seq![PhysicalType::Int64, PhysicalType::Int64],
                    },
                )
            },
    {
        let file = self.source;
        let ghost source = pair_source(*file, source_col_a as nat, source_col_b as nat);
        match check_pair(file, source_col_a, source_col_b) {
            Ok(_) => {},
            Err(e) => {
                return Err(e);
            },
        }
        let scan: Scan<(i64, i64)> = match scan_pairs(file, source_col_a, source_col_b) {
            Ok(s) => s,
            Err(e) => {
                return Err(e);
            },
        };
        let (rows, targets) = finish_scan(file, source_col_a, &scan, Ghost(source));
        let fp: SourceFingerprint = match compute_source_fingerprint(file) {
            Ok(fp) => fp,
            Err(e) => {
                return Err(e);
            },
        };
        let name_a: String = match read_column_name(
            file,
            source_col_a,
            "schema element a name is not valid UTF-8",
        ) {
            Ok(n) => n,
            Err(e) => {
                return Err(e);
            },
        };
        let name_b: String = match read_column_name(
            file,
            source_col_b,
            "schema element b name is not valid UTF-8",
        ) {
            Ok(n) => n,
            Err(e) => {
                return Err(e);
            },
        };
        let json: String = one_index_manifest(fp, index_name, pair_kind(name_a, name_b));
        let columns: Vec<NamedColumn> = pair_columns(&rows, targets);
        proof {
            assert(indexes_file(rows_of(rows@), self.file(), source_col_a as nat, source));
        }
        Ok(
            SidecarTable {
                columns,
                row_group_size: None,
                row_group_count: 1,
                codec: CompressionCodec::Snappy,
                manifest_key: MANIFEST_KEY_V3.to_string(),
                manifest_json: json,
            },
        )
    }
}

/// The tokens of a text, as keys.
pub open spec fn token_keys(tokenizer: Tokenizer, value: Seq<u8>) -> Seq<SortKey> {
    tokenizer.tokens(value).map_values(|t: Seq<u8>| SortKey::Bytes(t))
}

/// The tokens of each text of a column.
pub open spec fn token_rows(tokenizer: Tokenizer, values: Seq<Vec<u8>>) -> RowKeys {
    values.map_values(|v: Vec<u8>| token_keys(tokenizer, v@))
}

/// The tokens of a column of BYTE_ARRAY values.
pub open spec fn token_source(file: ParquetFile, column: nat, tokenizer: Tokenizer) -> KeySource {
    |row_group: nat|
        match file.byte_arrays(row_group, column) {
            Ok(v) => Ok(token_rows(tokenizer, v)),
            Err(f) => Err(f),
        }
}

/// Adds the occurrences of the tokens of one row.
fn collect_row_tokens(
    value: &Vec<u8>,
    tokenizer: Tokenizer,
    row_group: u32,
    page: u32,
    row: u32,
    occ: &mut Vec<Occurrence<Vec<u8>>>,
)
    ensures
        forall|s: Spot| #[trigger]
            spots_of(final(occ)@).contains(s) == (spots_of(old(occ)@).contains(s) || (s.row_group
                == row_group && s.page == page && s.row == row && token_keys(
                tokenizer,
                value@,
            ).contains(s.key))),
{
    let mut tokens: Vec<Vec<u8>> = tokenizer.tokenize(value.as_slice());
    let ghost all = token_keys(tokenizer, value@);
    let ghost start = spots_of(occ@);
    let ghost list = tokens@;
    let mut t: usize = 0;
    while t < tokens.len()
        invariant
            t <= tokens@.len(),
            byte_strings(tokens@) == tokenizer.tokens(value@),
            all == token_keys(tokenizer, value@),
            forall|s: Spot| #[trigger]
                spots_of(occ@).contains(s) == (start.contains(s) || (s.row_group == row_group
                    && s.page == page && s.row == row && all.take(t as int).contains(s.key))),
        decreases tokens@.len() - t,
    {
        let o = Occurrence { key: tokens[t].duplicate(), row_group, page, row };
        let ghost before = occ@;
        let ghost new = o.spot();
        occ.push(o);
        proof {
            assert(byte_strings(tokens@)[t as int] == tokens@[t as int]@);
            assert(all[t as int] == new.key);
            assert(all.take(t + 1) =~= all.take(t as int).push(new.key));
            assert(spots_of(occ@) =~= spots_of(before).push(new));
            lemma_spots_push(spots_of(before), new);
            lemma_keys_push(all.take(t as int), new.key);
        }
        t = t + 1;
    }
    proof {
        assert(all.take(t as int) =~= all);
    }
}

proof fn lemma_keys_push(list: Seq<SortKey>, x: SortKey)
    ensures
        forall|s: SortKey| #[trigger] list.push(x).contains(s) == (list.contains(s) || s == x),
{
    assert forall|s: SortKey| #[trigger] list.push(x).contains(s) == (list.contains(s) || s
        == x) by {
        if list.contains(s) {
            let i = choose|i: int| 0 <= i < list.len() && list[i] == s;
            assert(list.push(x)[i] == s);
        }
        if s == x {
            assert(list.push(x)[list.len() as int] == x);
        }
        if list.push(x).contains(s) {
            let i = choose|i: int| 0 <= i < list.push(x).len() && list.push(x)[i] == s;
            if i < list.len() {
                assert(list[i] == s);
            }
        }
    }
}

/// Adds the occurrences of the tokens of a chunk.
fn collect_tokens(
    values: &Vec<Vec<u8>>,
    tokenizer: Tokenizer,
    pages: &Vec<DataPageLayout>,
    row_group: u32,
    occ: &mut Vec<Occurrence<Vec<u8>>>,
)
    requires
        contiguous(pages@, 0, 0),
        total_rows(pages@) == values@.len(),
        forall|i: int| 0 <= i < pages@.len() ==> (#[trigger] pages@[i]).num_values <= u32::MAX,
    ensures
        forall|s: Spot| #[trigger]
            spots_of(final(occ)@).contains(s) == (spots_of(old(occ)@).contains(s) || (s.row_group
                == row_group && occurs_in(token_rows(tokenizer, values@), pages@, s))),
{
    let ghost start = spots_of(occ@);
    let ghost keys = token_rows(tokenizer, values@);
    let mut p: usize = 0;
    while p < pages.len()
        invariant
            p <= pages@.len(),
            contiguous(pages@, 0, 0),
            total_rows(pages@) == values@.len(),
            forall|i: int| 0 <= i < pages@.len() ==> (#[trigger] pages@[i]).num_values <= u32::MAX,
            keys == token_rows(tokenizer, values@),
            forall|s: Spot| #[trigger]
                spots_of(occ@).contains(s) == (start.contains(s) || (s.row_group == row_group
                    && s.page < p && occurs_in(keys, pages@, s))),
        decreases pages@.len() - p,
    {
        let page: u32 = pages[p].page_idx;
        let base: usize = pages[p].first_row;
        let n: usize = pages[p].num_values;
        let ghost mid = spots_of(occ@);
        proof {
            lemma_page_inside(pages@, p as int);
            assert(pages@[p as int].page_idx == p);
        }
        let mut r: usize = 0;
        while r < n
            invariant
                r <= n <= u32::MAX,
                p < pages@.len(),
                page == p,
                base == pages@[p as int].first_row,
                n == pages@[p as int].num_values,
                base + n <= values@.len(),
                keys == token_rows(tokenizer, values@),
                forall|s: Spot| #[trigger]
                    spots_of(occ@).contains(s) == (mid.contains(s) || (s.row_group == row_group
                        && s.page == p && s.row < r && keys[base + s.row].contains(s.key))),
            decreases n - r,
        {
            let _len: usize = values.len();
            let ghost before = spots_of(occ@);
            collect_row_tokens(&values[base + r], tokenizer, row_group, page, r as u32, occ);
            proof {
                assert(keys[base + r] == token_keys(tokenizer, values@[base + r]@));
                assert forall|s: Spot| #[trigger] spots_of(occ@).contains(s) == (mid.contains(s)
                    || (s.row_group == row_group && s.page == p && s.row < r + 1 && keys[base
                    + s.row].contains(s.key))) by {
                    assert(before.contains(s) == (mid.contains(s) || (s.row_group == row_group
                        && s.page == p && s.row < r && keys[base + s.row].contains(s.key))));
                }
            }
            r = r + 1;
        }
        proof {
            assert forall|s: Spot| #[trigger] spots_of(occ@).contains(s) == (start.contains(s) || (
            s.row_group == row_group && s.page < p + 1 && occurs_in(keys, pages@, s))) by {
                assert(mid.contains(s) == (start.contains(s) || (s.row_group == row_group && s.page
                    < p && occurs_in(keys, pages@, s))));
            }
        }
        p = p + 1;
    }
}

/// Gathers the tokens of a column of texts.
fn scan_tokens(file: &ParquetFile, column: usize, tokenizer: Tokenizer) -> (r: Result<
    Scan<Vec<u8>>,
>)
    ensures
        reports(
            r,
            groups_fault(
                *file,
                column as nat,
                " col="@,
                token_source(*file, column as nat, tokenizer),
                0,
            ),
        ),
        r is Ok ==> r->Ok_0.covers(
            *file,
            column as nat,
            token_source(*file, column as nat, tokenizer),
            file.row_groups@.len(),
        ),
{
    let ghost source = token_source(*file, column as nat, tokenizer);
    let mut scan: Scan<Vec<u8>> = Scan { occ: Vec::new(), pages: Vec::new() };
    let mut rg: usize = 0;
    while rg < file.row_groups.len()
        invariant
            rg <= file.row_groups@.len(),
            source == token_source(*file, column as nat, tokenizer),
            scan.covers(*file, column as nat, source, rg as nat),
            groups_fault(*file, column as nat, " col="@, source, 0) == groups_fault(
                *file,
                column as nat,
                " col="@,
                source,
                rg as nat,
            ),
        decreases file.row_groups@.len() - rg,
    {
        let values = match read_column_byte_array(file, rg, column) {
            Ok(v) => v,
            Err(e) => {
                return Err(e);
            },
        };
        let pages: Vec<DataPageLayout> = match checked_pages(
            file,
            rg,
            " col=",
            column,
            values.len(),
        ) {
            Ok(p) => p,
            Err(e) => {
                return Err(e);
            },
        };
        proof {
            law_pages_share_out_rows(*file, rg as nat, column as nat);
            lemma_page_rows_small(*file, rg as nat, column as nat);
        }
        let ghost before = spots_of(scan.occ@);
        if rg as u128 <= u32::MAX as u128 {
            collect_tokens(values, tokenizer, &pages, rg as u32, &mut scan.occ);
        }
        proof {
            assert forall|s: Spot| #[trigger] spots_of(scan.occ@).contains(s) == (s.row_group < rg
                + 1 && occurs(*file, column as nat, source, s)) by {
                assert(before.contains(s) == (s.row_group < rg && occurs(
                    *file,
                    column as nat,
                    source,
                    s,
                )));
            }
        }
        scan.pages.push(pages);
        rg = rg + 1;
    }
    Ok(scan)
}

impl<'a> IndexBuilder<'a> {
    /// Builds an inverted index over a column of texts: for each token, the
    /// rows that it occurs in.
    pub fn write_inverted_byte_array(
        &self,
        index_name: &str,
        source_column: usize,
        tokenizer: Tokenizer,
    ) -> (r: Result<SidecarTable>)
        ensures
            reports(
                r,
                index_fault(
                    column_refusal(
                        self.file(),
                        source_column as nat,
                        ParquetType::ByteArray,
                        "write_inverted_byte_array: source column "@,
                        ", expected BYTE_ARRAY"@,
                    ),
                    build_fault(
                        self.file(),
                        source_column as nat,
                        " col="@,
                        token_source(self.file(), source_column as nat, tokenizer),
                    ),
                ),
            ),
            r is Ok ==> {
                &&& r->Ok_0.row_group_size is None
                &&& r->Ok_0.row_group_count == 1
                &&& r->Ok_0.codec == CompressionCodec::Snappy
                &&& index_table(
                    r->Ok_0,
                    self.file(),
                    source_column as nat,
                    token_source(self.file(), source_column as nat, tokenizer),
                    index_name@,
                    KindView::Inverted {
                        source_column: column_name(
                            self.file(),
                            source_column as nat,
                            bad_name(),
                        )->Ok_0,
                        tokenizer,
                    },
                )
            },
    {
        let file = self.source;
        let ghost source = token_source(*file, source_column as nat, tokenizer);
        match check_column(
            file,
            source_column,
            ParquetType::ByteArray,
            "write_inverted_byte_array: source column ",
            ", expected BYTE_ARRAY",
        ) {
            Ok(_) => {},
            Err(e) => {
                return Err(e);
            },
        }
        let scan: Scan<Vec<u8>> = match scan_tokens(file, source_column, tokenizer) {
            Ok(s) => s,
            Err(e) => {
                return Err(e);
            },
        };
        let (rows, targets) = finish_scan(file, source_column, &scan, Ghost(source));
        let fp: SourceFingerprint = match compute_source_fingerprint(file) {
            Ok(fp) => fp,
            Err(e) => {
                return Err(e);
            },
        };
        let name: String = match read_column_name(
            file,
            source_column,
            "schema element name is not valid UTF-8",
        ) {
            Ok(n) => n,
            Err(e) => {
                return Err(e);
            },
        };
        let json: String = one_index_manifest(
            fp,
            index_name,
            IndexKind::Inverted { source_column: name, tokenizer },
        );
        let mut columns: Vec<NamedColumn> = Vec::new();
        columns.push(named("token", ColumnData::ByteArray(take_keys(&rows))));
        let ghost first = columns@;
        push_targets(&mut columns, targets);
        proof {
            assert(columns@[0] == columns@.take(1)[0]);
            assert(column_keys(columns@[0].data) =~= rows_of(rows@).map_values(
                |r: RowView| r.key,
            ));
            assert(indexes_file(rows_of(rows@), self.file(), source_column as nat, source));
        }
        Ok(
            SidecarTable {
                columns,
                row_group_size: None,
                row_group_count: 1,
                codec: CompressionCodec::Snappy,
                manifest_key: MANIFEST_KEY_V3.to_string(),
                manifest_json: json,
            },
        )
    }
}

/// A false-positive rate: the decimal fraction that it is written as, and
/// whether it lies strictly between zero and one.
#[derive(Debug)]
pub struct TargetFpp {
    pub text: String,
    pub in_unit_interval: bool,
}

/// The hash of a value in a bloom filter.
pub open spec fn i64_hash(v: i64) -> u64 {
    xxh64(plain_bytes_i64(v), 0)
}

/// That the bits of a filter of `num_blocks` blocks are those of the given
/// values, and no others.
pub open spec fn filter_of(bits: Seq<u8>, values: Seq<i64>, num_blocks: u32) -> bool {
    &&& bits.len() == 32 * num_blocks
    &&& forall|k: nat|
        k < 8 * bits.len() ==> (#[trigger] bit(bits, k) == 1) == exists|j: int, i: int|
            0 <= j < values.len() && 0 <= i < 8 && k == #[trigger] probe(
                i64_hash(values[j]),
                num_blocks as nat,
                i,
            )
}

/// How many different values there are.
pub open spec fn distinct(values: Seq<i64>) -> nat {
    values.to_set().len()
}

/// A filter of the values of a page, sized by their number.
fn page_filter<F: Fn(usize) -> u32>(values: &[i64], num_blocks: &F) -> (r: Vec<u8>)
    requires
        forall|n: usize| #[trigger] call_requires(*num_blocks, (n,)),
        forall|n: usize, b: u32| #[trigger]
            call_ensures(*num_blocks, (n,), b) ==> 32 * b <= usize::MAX,
    ensures
        exists|bits: Seq<u8>, blocks: u32|
            {
                &&& #[trigger] filter_of(bits, values@, blocks)
                &&& call_ensures(*num_blocks, (distinct(values@) as usize,), blocks)
                &&& r@ == header_bytes(wrap32(bits.len() as int)) + bits
            },
{
    broadcast use vstd::std_specs::hash::group_hash_axioms;

    let mut seen: HashSet<i64> = HashSet::new();
    let mut i: usize = 0;
    while i < values.len()
        invariant
            i <= values@.len(),
            seen@ == values@.take(i as int).to_set(),
        decreases values@.len() - i,
    {
        let v: i64 = values[i];
        seen.insert(v);
        proof {
            assert(values@.take(i + 1) =~= values@.take(i as int).push(v));
            lemma_to_set_push(values@.take(i as int), v);
        }
        i = i + 1;
    }
    proof {
        assert(values@.take(i as int) =~= values@);
    }
    let n: usize = seen.len();
    let blocks: u32 = num_blocks(n);
    let mut filter = SplitBlockBloomFilterBuilder::new(blocks);
    proof {
        let bits = filter.bits();
        assert forall|k: nat| k < 8 * bits.len() implies (#[trigger] bit(bits, k) == 1) == exists|
            j: int,
            m: int,
        |
            0 <= j < 0 && 0 <= m < 8 && k == #[trigger] probe(
                i64_hash(values@[j]),
                blocks as nat,
                m,
            ) by {
            lemma_byte_plain(k % 8);
        }
    }
    let mut j: usize = 0;
    while j < values.len()
        invariant
            j <= values@.len(),
            filter.wf(),
            filter.bits().len() == 32 * blocks,
            filter_of(filter.bits(), values@.take(j as int), blocks),
        decreases values@.len() - j,
    {
        let ghost before = filter.bits();
        let bytes: Vec<u8> = encode_plain_i64(values[j]);
        filter.insert_hash(parquet_xxh64(bytes.as_slice()));
        proof {
            assert(values@.take(j + 1) =~= values@.take(j as int).push(values@[j as int]));
            lemma_filter_push(
                before,
                filter.bits(),
                values@.take(j as int),
                values@[j as int],
                blocks,
            );
        }
        j = j + 1;
    }
    proof {
        assert(values@.take(j as int) =~= values@);
        assert(filter_of(filter.bits(), values@, blocks));
    }
    filter.into_bytes()
}

proof fn lemma_to_set_push(s: Seq<i64>, v: i64)
    ensures
        s.push(v).to_set() == s.to_set().insert(v),
{
    assert forall|x: i64| s.push(v).to_set().contains(x) == s.to_set().insert(v).contains(x) by {
        if s.contains(x) {
            let i = choose|i: int| 0 <= i < s.len() && s[i] == x;
            assert(s.push(v)[i] == x);
        }
        if x == v {
            assert(s.push(v)[s.len() as int] == v);
        }
        if s.push(v).contains(x) {
            let i = choose|i: int| 0 <= i < s.push(v).len() && s.push(v)[i] == x;
            if i < s.len() {
                assert(s[i] == x);
            }
        }
    }
    assert(s.push(v).to_set() =~= s.to_set().insert(v));
}

proof fn lemma_filter_push(before: Seq<u8>, after: Seq<u8>, values: Seq<i64>, v: i64, blocks: u32)
    requires
        filter_of(before, values, blocks),
        inserted(before, after, i64_hash(v)),
    ensures
        filter_of(after, values.push(v), blocks),
{
    let all = values.push(v);
    assert(before.len() / 32 == blocks);
    assert forall|k: nat| k < 8 * after.len() implies (#[trigger] bit(after, k) == 1) == exists|
        j: int,
        i: int,
    |
        0 <= j < all.len() && 0 <= i < 8 && k == #[trigger] probe(
            i64_hash(all[j]),
            blocks as nat,
            i,
        ) by {
        if bit(before, k) == 1 {
            let (j, i) = choose|j: int, i: int|
                0 <= j < values.len() && 0 <= i < 8 && k == #[trigger] probe(
                    i64_hash(values[j]),
                    blocks as nat,
                    i,
                );
            assert(all[j] == values[j]);
            assert(k == probe(i64_hash(all[j]), blocks as nat, i));
        }
        if exists|i: int|
            0 <= i < 8 && before.len() / 32 > 0 && k == #[trigger] probe(
                i64_hash(v),
                (before.len() / 32) as nat,
                i,
            ) {
            let i = choose|i: int|
                0 <= i < 8 && before.len() / 32 > 0 && k == #[trigger] probe(
                    i64_hash(v),
                    (before.len() / 32) as nat,
                    i,
                );
            assert(all[values.len() as int] == v);
            assert(k == probe(i64_hash(all[values.len() as int]), blocks as nat, i));
        }
        if exists|j: int, i: int|
            0 <= j < all.len() && 0 <= i < 8 && k == #[trigger] probe(
                i64_hash(all[j]),
                blocks as nat,
                i,
            ) {
            let (j, i) = choose|j: int, i: int|
                0 <= j < all.len() && 0 <= i < 8 && k == #[trigger] probe(
                    i64_hash(all[j]),
                    blocks as nat,
                    i,
                );
            if j < values.len() {
                assert(k == probe(i64_hash(values[j]), blocks as nat, i));
            } else {
                assert(all[j] == v);
                assert(k == probe(i64_hash(v), (before.len() / 32) as nat, i));
            }
        }
    }
}

/// The pages of the first `n` row groups, in order.
pub open spec fn page_list(file: ParquetFile, column: nat, n: nat) -> Seq<(u32, u32)>
    decreases n,
{
    if n == 0 {
        Seq::empty()
    } else {
        page_list(file, column, (n - 1) as nat) + group_pages(file, column, (n - 1) as nat)
    }
}

/// The pages of a row group, in order.
pub open spec fn group_pages(file: ParquetFile, column: nat, row_group: nat) -> Seq<(u32, u32)> {
    Seq::new(
        layouts(file, row_group, column).emitted.len(),
        |p: int| (row_group as u32, p as u32),
    )
}

/// The values of a page.
pub open spec fn page_values(file: ParquetFile, column: nat, row_group: u32, page: u32) -> Seq<
    i64,
> {
    let l = layouts(file, row_group as nat, column).emitted[page as int];
    file.i64s(row_group as nat, column)->Ok_0.subrange(
        l.first_row as int,
        l.first_row + l.num_values,
    )
}

/// That a stored filter is one of a page's values.
pub open spec fn is_page_filter<F: Fn(usize) -> u32>(
    stored: Seq<u8>,
    values: Seq<i64>,
    num_blocks: F,
) -> bool {
    exists|bits: Seq<u8>, blocks: u32|
        {
            &&& #[trigger] filter_of(bits, values, blocks)
            &&& call_ensures(num_blocks, (distinct(values) as usize,), blocks)
            &&& stored == header_bytes(wrap32(bits.len() as int)) + bits
        }
}

/// The columns of a page-filter index as they grow.
struct FilterColumns {
    row_groups: Vec<i32>,
    pages: Vec<i32>,
    blooms: Vec<Vec<u8>>,
}

impl FilterColumns {
    spec fn holds<F: Fn(usize) -> u32>(
        &self,
        file: ParquetFile,
        column: nat,
        list: Seq<(u32, u32)>,
        num_blocks: F,
    ) -> bool {
        &&& self.row_groups@ == list.map_values(|p: (u32, u32)| wrap32(p.0 as int))
        &&& self.pages@ == list.map_values(|p: (u32, u32)| wrap32(p.1 as int))
        &&& self.blooms@.len() == list.len()
        &&& forall|i: int|
            0 <= i < list.len() ==> is_page_filter(
                (#[trigger] self.blooms@[i])@,
                page_values(file, column, list[i].0, list[i].1),
                num_blocks,
            )
    }
}

/// Adds the filters of the pages of a row group.
fn filter_group<F: Fn(usize) -> u32>(
    file: &ParquetFile,
    column: usize,
    row_group: u32,
    values: &Vec<i64>,
    pages: &Vec<DataPageLayout>,
    num_blocks: &F,
    out: &mut FilterColumns,
    Ghost(list): Ghost<Seq<(u32, u32)>>,
)
    requires
        forall|n: usize| #[trigger] call_requires(*num_blocks, (n,)),
        forall|n: usize, b: u32| #[trigger]
            call_ensures(*num_blocks, (n,), b) ==> 32 * b <= usize::MAX,
        old(out).holds(*file, column as nat, list, *num_blocks),
        file.i64s(row_group as nat, column as nat) is Ok,
        file.i64s(row_group as nat, column as nat)->Ok_0 == values@,
        pages@ == layouts(*file, row_group as nat, column as nat).emitted,
        contiguous(pages@, 0, 0),
        total_rows(pages@) == values@.len(),
    ensures
        final(out).holds(
            *file,
            column as nat,
            list + group_pages(*file, column as nat, row_group as nat),
            *num_blocks,
        ),
{
    let ghost mine = group_pages(*file, column as nat, row_group as nat);
    let mut p: usize = 0;
    proof {
        assert(list + mine.take(0) =~= list);
    }
    while p < pages.len()
        invariant
            p <= pages@.len(),
            forall|n: usize| #[trigger] call_requires(*num_blocks, (n,)),
            forall|n: usize, b: u32| #[trigger]
                call_ensures(*num_blocks, (n,), b) ==> 32 * b <= usize::MAX,
            file.i64s(row_group as nat, column as nat) is Ok,
            file.i64s(row_group as nat, column as nat)->Ok_0 == values@,
            pages@ == layouts(*file, row_group as nat, column as nat).emitted,
            contiguous(pages@, 0, 0),
            total_rows(pages@) == values@.len(),
            mine == group_pages(*file, column as nat, row_group as nat),
            out.holds(*file, column as nat, list + mine.take(p as int), *num_blocks),
        decreases pages@.len() - p,
    {
        proof {
            lemma_page_inside(pages@, p as int);
            assert(pages@[p as int].page_idx == p);
        }
        let first: usize = pages[p].first_row;
        let _len: usize = values.len();
        let part = slice_subrange(values.as_slice(), first, first + pages[p].num_values);
        let stored: Vec<u8> = page_filter(part, num_blocks);
        let ghost before = *out;
        let ghost done = list + mine.take(p as int);
        let page: (u32, u32) = (row_group, pages[p].page_idx);
        out.row_groups.push(as_i32(row_group as i128));
        out.pages.push(as_i32(pages[p].page_idx as i128));
        out.blooms.push(stored);
        proof {
            let next = list + mine.take(p + 1);
            assert(mine[p as int] == page);
            assert(next =~= done.push(page));
            assert(part@ =~= page_values(*file, column as nat, page.0, page.1));
            assert(out.row_groups@ =~= next.map_values(|p: (u32, u32)| wrap32(p.0 as int)));
            assert(out.pages@ =~= next.map_values(|p: (u32, u32)| wrap32(p.1 as int)));
            assert forall|i: int| 0 <= i < next.len() implies is_page_filter(
                (#[trigger] out.blooms@[i])@,
                page_values(*file, column as nat, next[i].0, next[i].1),
                *num_blocks,
            ) by {
                if i < done.len() {
                    assert(out.blooms@[i] == before.blooms@[i]);
                    assert(next[i] == done[i]);
                }
            }
        }
        p = p + 1;
    }
    proof {
        assert(mine.take(p as int) =~= mine);
    }
}

/// Makes the filters of all pages of a column.
fn filter_pages<F: Fn(usize) -> u32>(file: &ParquetFile, column: usize, num_blocks: &F) -> (r:
    Result<FilterColumns>)
    requires
        forall|n: usize| #[trigger] call_requires(*num_blocks, (n,)),
        forall|n: usize, b: u32| #[trigger]
            call_ensures(*num_blocks, (n,), b) ==> 32 * b <= usize::MAX,
    ensures
        reports(
            r,
            groups_fault(*file, column as nat, " col="@, i64_source(*file, column as nat), 0),
        ),
        r is Ok && file.row_groups@.len() <= u32::MAX ==> r->Ok_0.holds(
            *file,
            column as nat,
            page_list(*file, column as nat, file.row_groups@.len()),
            *num_blocks,
        ),
{
    let ghost source = i64_source(*file, column as nat);
    let mut out = FilterColumns { row_groups: Vec::new(), pages: Vec::new(), blooms: Vec::new() };
    let mut rg: usize = 0;
    proof {
        let list = page_list(*file, column as nat, 0);
        assert(out.row_groups@ =~= list.map_values(|p: (u32, u32)| wrap32(p.0 as int)));
        assert(out.pages@ =~= list.map_values(|p: (u32, u32)| wrap32(p.1 as int)));
    }
    while rg < file.row_groups.len()
        invariant
            rg <= file.row_groups@.len(),
            forall|n: usize| #[trigger] call_requires(*num_blocks, (n,)),
            forall|n: usize, b: u32| #[trigger]
                call_ensures(*num_blocks, (n,), b) ==> 32 * b <= usize::MAX,
            source == i64_source(*file, column as nat),
            rg <= u32::MAX ==> out.holds(
                *file,
                column as nat,
                page_list(*file, column as nat, rg as nat),
                *num_blocks,
            ),
            groups_fault(*file, column as nat, " col="@, source, 0) == groups_fault(
                *file,
                column as nat,
                " col="@,
                source,
                rg as nat,
            ),
        decreases file.row_groups@.len() - rg,
    {
        let values = match read_column_i64(file, rg, column) {
            Ok(v) => v,
            Err(e) => {
                return Err(e);
            },
        };
        let pages: Vec<DataPageLayout> = match checked_pages(
            file,
            rg,
            " col=",
            column,
            values.len(),
        ) {
            Ok(p) => p,
            Err(e) => {
                return Err(e);
            },
        };
        if (rg as u128) < u32::MAX as u128 {
            proof {
                law_pages_share_out_rows(*file, rg as nat, column as nat);
            }
            filter_group(
                file,
                column,
                rg as u32,
                values,
                &pages,
                num_blocks,
                &mut out,
                Ghost(page_list(*file, column as nat, rg as nat)),
            );
        }
        rg = rg + 1;
    }
    Ok(out)
}

/// Why a page-filter index cannot be built.
pub open spec fn filter_fault(
    file: ParquetFile,
    column: nat,
    in_unit_interval: bool,
    fpp: Seq<char>,
) -> Option<Fault> {
    match column_refusal(
        file,
        column,
        ParquetType::Int64,
        "write_bloom_page_i64: source column "@,
        ", expected INT64"@,
    ) {
        Some(f) => Some(f),
        None => if !in_unit_interval {
            Some(
                Fault::InvalidInput(
                    "write_bloom_page_i64: target_fpp must be in (0, 1), got "@ + fpp,
                ),
            )
        } else {
            build_fault(file, column, " col="@, i64_source(file, column))
        },
    }
}

/// That a sidecar holds a page-filter index over a column: its manifest, and
/// one filter for each data page, in order.
pub open spec fn filter_table<F: Fn(usize) -> u32>(
    t: SidecarTable,
    file: ParquetFile,
    column: nat,
    index_name: Seq<char>,
    fpp: Seq<char>,
    num_blocks: F,
) -> bool {
    let c = t.columns@;
    let list = page_list(file, column, file.row_groups@.len());
    &&& carries_manifest(
        t,
        file,
        index_name,
        KindView::BloomPage {
            source_column: column_name(file, column, bad_name())->Ok_0,
            target_fpp: fpp,
        },
    )
    &&& c.len() == 3
    &&& c[0].name@ == "source_rg"@
    &&& c[0].data is I32
    &&& c[0].data->I32_0@ == list.map_values(|p: (u32, u32)| wrap32(p.0 as int))
    &&& c[1].name@ == "source_page"@
    &&& c[1].data is I32
    &&& c[1].data->I32_0@ == list.map_values(|p: (u32, u32)| wrap32(p.1 as int))
    &&& c[2].name@ == "bloom_block"@
    &&& c[2].data is ByteArray
    &&& c[2].data->ByteArray_0@.len() == list.len()
    &&& forall|i: int|
        0 <= i < list.len() ==> is_page_filter(
            (#[trigger] c[2].data->ByteArray_0@[i])@,
            page_values(file, column, list[i].0, list[i].1),
            num_blocks,
        )
}

impl<'a> IndexBuilder<'a> {
    /// Builds an index of one bloom filter per page of a column of INT64
    /// values. `num_blocks` sizes a filter by the number of different values
    /// of its page.
    pub fn write_bloom_page_i64<F: Fn(usize) -> u32>(
        &self,
        index_name: &str,
        source_column: usize,
        target_fpp: &TargetFpp,
        num_blocks: F,
    ) -> (r: Result<SidecarTable>)
        requires
            forall|n: usize| #[trigger] call_requires(num_blocks, (n,)),
            forall|n: usize, b: u32| #[trigger]
                call_ensures(num_blocks, (n,), b) ==> 32 * b <= usize::MAX,
        ensures
            reports(
                r,
                filter_fault(
                    self.file(),
                    source_column as nat,
                    target_fpp.in_unit_interval,
                    target_fpp.text@,
                ),
            ),
            r is Ok ==> {
                &&& r->Ok_0.row_group_size is None
                &&& r->Ok_0.row_group_count == 1
                &&& r->Ok_0.codec == CompressionCodec::Uncompressed
                &&& filter_table(
                    r->Ok_0,
                    self.file(),
                    source_column as nat,
                    index_name@,
                    target_fpp.text@,
                    num_blocks,
                )
            },
    {
        let file = self.source;
        match check_column(
            file,
            source_column,
            ParquetType::Int64,
            "write_bloom_page_i64: source column ",
            ", expected INT64",
        ) {
            Ok(_) => {},
            Err(e) => {
                return Err(e);
            },
        }
        if !target_fpp.in_unit_interval {
            return Err(
                CodecError::InvalidInput(
                    joined(
                        "write_bloom_page_i64: target_fpp must be in (0, 1), got ",
                        target_fpp.text.as_str(),
                    ),
                ),
            );
        }
        let filters: FilterColumns = match filter_pages(file, source_column, &num_blocks) {
            Ok(f) => f,
            Err(e) => {
                return Err(e);
            },
        };
        let fp: SourceFingerprint = match compute_source_fingerprint(file) {
            Ok(fp) => fp,
            Err(e) => {
                return Err(e);
            },
        };
        let name: String = match read_column_name(
            file,
            source_column,
            "schema element name is not valid UTF-8",
        ) {
            Ok(n) => n,
            Err(e) => {
                return Err(e);
            },
        };
        let json: String = one_index_manifest(
            fp,
            index_name,
            IndexKind::BloomPage { source_column: name, target_fpp: target_fpp.text.clone() },
        );
        let mut columns: Vec<NamedColumn> = Vec::new();
        columns.push(named("source_rg", ColumnData::I32(filters.row_groups)));
        columns.push(named("source_page", ColumnData::I32(filters.pages)));
        columns.push(named("bloom_block", ColumnData::ByteArray(filters.blooms)));
        Ok(
            SidecarTable {
                columns,
                row_group_size: None,
                row_group_count: 1,
                codec: CompressionCodec::Uncompressed,
                manifest_key: MANIFEST_KEY_V3.to_string(),
                manifest_json: json,
            },
        )
    }
}

} // verus!
