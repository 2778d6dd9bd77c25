//! Reading of sidecar indexes.
//!
//! Opening a sidecar checks its manifest against the source and loads every
//! index. Lookups then answer from memory, and the rows that they name are
//! read from any column of the source.

use vstd::prelude::*;
use vstd::slice::slice_to_vec;
use vstd::utf8::{decode_utf8, encode_utf8, valid_utf8};

use crate::delta::byte_strings;
use crate::error::{reports, CodecError, Fault, Outcome, Result};
use crate::index::file::{
    byte_values, i32_values, i64_values, over, read_column_byte_array, read_column_i32,
    read_column_i64, KeyValue, ParquetFile,
};
use crate::index::fingerprint::{compute_source_fingerprint, fingerprint_of_file};
use crate::index::keys::{bytes_less, bytes_same, key_before, IndexKey, SortKey};
use crate::index::lookup::{
    answers, collect_hits, find_run, find_span, hits_in, is_run, is_span, value_keys, Postings,
    PostingsView,
};
use crate::index::manifest::{
    entries, manifest_in, texts, EntryView, IndexEntry, IndexKind, IndexManifest, KindView,
    ManifestError, ManifestFault, ManifestView, PhysicalType, MANIFEST_KEY, MANIFEST_KEY_V2,
    MANIFEST_KEY_V3,
};
use crate::index::query::{
    bloom_fault, gives, hash_of_key, key_hash, pages_told, probe_pages,
};
use crate::index::rowset::RowsetFormat;
use crate::index::types::{IndexHit, Key};
use crate::text::{dec, joined3, push_dec, text1, utf8_text};

verus! {

/// The index rows of one index.
#[derive(Debug)]
pub enum LoadedIndexData {
    SortedI64 { values: Vec<i64>, postings: Postings },
    SortedI32 { values: Vec<i32>, postings: Postings },
    SortedBytes { values: Vec<Vec<u8>>, postings: Postings },
    BloomPage { source_rgs: Vec<i32>, source_pages: Vec<i32>, blooms: Vec<Vec<u8>> },
    CompositePrefixI64I64 { values: Vec<(i64, i64)>, postings: Postings },
    Inverted { tokens: Vec<Vec<u8>>, postings: Postings },
}

/// What the index rows of one index say.
pub enum LoadedView {
    SortedI64 { values: Seq<i64>, postings: PostingsView },
    SortedI32 { values: Seq<i32>, postings: PostingsView },
    SortedBytes { values: Seq<Seq<u8>>, postings: PostingsView },
    BloomPage { source_rgs: Seq<i32>, source_pages: Seq<i32>, blooms: Seq<Seq<u8>> },
    CompositePrefixI64I64 { values: Seq<(i64, i64)>, postings: PostingsView },
    Inverted { tokens: Seq<Seq<u8>>, postings: PostingsView },
}

impl View for LoadedIndexData {
    type V = LoadedView;

    open spec fn view(&self) -> LoadedView {
        match *self {
            LoadedIndexData::SortedI64 { values, postings } => LoadedView::SortedI64 {
                values: values@,
                postings: postings@,
            },
            LoadedIndexData::SortedI32 { values, postings } => LoadedView::SortedI32 {
                values: values@,
                postings: postings@,
            },
            LoadedIndexData::SortedBytes { values, postings } => LoadedView::SortedBytes {
                values: byte_strings(values@),
                postings: postings@,
            },
            LoadedIndexData::BloomPage { source_rgs, source_pages, blooms } => {
                LoadedView::BloomPage {
                    source_rgs: source_rgs@,
                    source_pages: source_pages@,
                    blooms: byte_strings(blooms@),
                }
            },
            LoadedIndexData::CompositePrefixI64I64 { values, postings } => {
                LoadedView::CompositePrefixI64I64 { values: values@, postings: postings@ }
            },
            LoadedIndexData::Inverted { tokens, postings } => LoadedView::Inverted {
                tokens: byte_strings(tokens@),
                postings: postings@,
            },
        }
    }
}

/// That an index is loaded in the form of its kind, with one of everything
/// per index row.
pub open spec fn loaded_as(kind: KindView, data: LoadedView) -> bool {
    match (kind, data) {
        (
            KindView::Sorted { physical_type, .. },
            LoadedView::SortedI64 { values, postings },
        ) => physical_type == PhysicalType::Int64 && postings.aligned(values.len()),
        (
            KindView::Sorted { physical_type, .. },
            LoadedView::SortedI32 { values, postings },
        ) => physical_type == PhysicalType::Int32 && postings.aligned(values.len()),
        (
            KindView::Sorted { physical_type, .. },
            LoadedView::SortedBytes { values, postings },
        ) => physical_type == PhysicalType::ByteArray && postings.aligned(values.len()),
        (
            KindView::BloomPage { .. },
            LoadedView::BloomPage { source_rgs, source_pages, blooms },
        ) => source_rgs.len() == blooms.len() && source_pages.len() == blooms.len(),
        (
            KindView::CompositePrefix { source_columns, .. },
            LoadedView::CompositePrefixI64I64 { values, postings },
        ) => source_columns.len() == 2 && postings.aligned(values.len()),
        (
            KindView::Inverted { .. },
            LoadedView::Inverted { tokens, postings },
        ) => postings.aligned(tokens.len()),
        _ => false,
    }
}

/// What the indexes of a sidecar say.
pub open spec fn loaded_views(data: Seq<LoadedIndexData>) -> Seq<LoadedView> {
    data.map_values(|d: LoadedIndexData| d@)
}

// ---- Loading ----

/// A copy of byte strings.
fn copy_strings(v: &Vec<Vec<u8>>) -> (out: Vec<Vec<u8>>)
    ensures
        byte_strings(out@) == byte_strings(v@),
        out@.len() == v@.len(),
{
    let mut out: Vec<Vec<u8>> = Vec::new();
    let mut i: usize = 0;
    proof {
        assert(byte_strings(out@) =~= byte_strings(v@).take(0));
    }
    while i < v.len()
        invariant
            i <= v@.len(),
            byte_strings(out@) == byte_strings(v@).take(i as int),
        decreases v@.len() - i,
    {
        let ghost before = out@;
        let row: Vec<u8> = slice_to_vec(v[i].as_slice());
        let ghost bytes = row@;
        out.push(row);
        proof {
            assert(byte_strings(out@) =~= byte_strings(before).push(bytes));
            assert(byte_strings(v@).take(i + 1) =~= byte_strings(v@).take(i as int).push(bytes));
        }
        i = i + 1;
    }
    proof {
        assert(byte_strings(v@).take(i as int) =~= byte_strings(v@));
    }
    out
}

/// The first row group that cannot be read decides.
proof fn lemma_over_stops<T>(
    part: spec_fn(nat) -> std::result::Result<Seq<T>, Fault>,
    first: nat,
    k: nat,
    count: nat,
)
    requires
        k <= count,
    ensures
        over(part, first, k) is Err ==> over(part, first, count) == over(part, first, k),
    decreases count,
{
    if k < count {
        lemma_over_stops(part, first, k, (count - 1) as nat);
    }
}

/// The 64-bit integers of a sidecar column in consecutive row groups.
fn load_i64s(file: &ParquetFile, first: usize, count: usize, column: usize) -> (r: Result<Vec<i64>>)
    requires
        1 <= count,
        first + count <= usize::MAX + 1,
    ensures
        match file.i64s_over(first as nat, count as nat, column as nat) {
            Ok(v) => r is Ok && r->Ok_0@ == v,
            Err(f) => reports(r, Some(f)),
        },
{
    let ghost part = i64_values(*file, column as nat);
    proof {
        lemma_over_stops(part, first as nat, 1, count as nat);
    }
    let mut out: Vec<i64> = match read_column_i64(file, first, column) {
        Ok(v) => slice_to_vec(v.as_slice()),
        Err(e) => {
            return Err(e);
        },
    };
    let mut k: usize = 1;
    while k < count
        invariant
            1 <= k <= count,
            first + count <= usize::MAX + 1,
            part == i64_values(*file, column as nat),
            over(part, first as nat, k as nat) is Ok,
            over(part, first as nat, k as nat)->Ok_0 == out@,
        decreases count - k,
    {
        proof {
            lemma_over_stops(part, first as nat, (k + 1) as nat, count as nat);
        }
        let mut next: Vec<i64> = match read_column_i64(file, first + k, column) {
            Ok(v) => slice_to_vec(v.as_slice()),
            Err(e) => {
                return Err(e);
            },
        };
        let ghost (a, b) = (out@, next@);
        out.append(&mut next);
        proof {
            assert(out@ =~= a + b);
        }
        k = k + 1;
    }
    Ok(out)
}

/// The 32-bit integers of a sidecar column in consecutive row groups.
fn load_i32s(file: &ParquetFile, first: usize, count: usize, column: usize) -> (r: Result<Vec<i32>>)
    requires
        1 <= count,
        first + count <= usize::MAX + 1,
    ensures
        match file.i32s_over(first as nat, count as nat, column as nat) {
            Ok(v) => r is Ok && r->Ok_0@ == v,
            Err(f) => reports(r, Some(f)),
        },
{
    let ghost part = i32_values(*file, column as nat);
    proof {
        lemma_over_stops(part, first as nat, 1, count as nat);
    }
    let mut out: Vec<i32> = match read_column_i32(file, first, column) {
        Ok(v) => slice_to_vec(v.as_slice()),
        Err(e) => {
            return Err(e);
        },
    };
    let mut k: usize = 1;
    while k < count
        invariant
            1 <= k <= count,
            first + count <= usize::MAX + 1,
            part == i32_values(*file, column as nat),
            over(part, first as nat, k as nat) is Ok,
            over(part, first as nat, k as nat)->Ok_0 == out@,
        decreases count - k,
    {
        proof {
            lemma_over_stops(part, first as nat, (k + 1) as nat, count as nat);
        }
        let mut next: Vec<i32> = match read_column_i32(file, first + k, column) {
            Ok(v) => slice_to_vec(v.as_slice()),
            Err(e) => {
                return Err(e);
            },
        };
        let ghost (a, b) = (out@, next@);
        out.append(&mut next);
        proof {
            assert(out@ =~= a + b);
        }
        k = k + 1;
    }
    Ok(out)
}

/// The byte strings of a sidecar column in consecutive row groups.
fn load_strings(file: &ParquetFile, first: usize, count: usize, column: usize) -> (r: Result<Vec<Vec<u8>>>)
    requires
        1 <= count,
        first + count <= usize::MAX + 1,
    ensures
        match file.strings_over(first as nat, count as nat, column as nat) {
            Ok(v) => r is Ok && byte_strings(r->Ok_0@) == v,
            Err(f) => reports(r, Some(f)),
        },
{
    let ghost part = byte_values(*file, column as nat);
    proof {
        lemma_over_stops(part, first as nat, 1, count as nat);
    }
    let mut out: Vec<Vec<u8>> = match read_column_byte_array(file, first, column) {
        Ok(v) => copy_strings(v),
        Err(e) => {
            return Err(e);
        },
    };
    let mut k: usize = 1;
    while k < count
        invariant
            1 <= k <= count,
            first + count <= usize::MAX + 1,
            part == byte_values(*file, column as nat),
            over(part, first as nat, k as nat) is Ok,
            over(part, first as nat, k as nat)->Ok_0 == byte_strings(out@),
        decreases count - k,
    {
        proof {
            lemma_over_stops(part, first as nat, (k + 1) as nat, count as nat);
        }
        let mut next: Vec<Vec<u8>> = match read_column_byte_array(file, first + k, column) {
            Ok(v) => copy_strings(v),
            Err(e) => {
                return Err(e);
            },
        };
        let ghost (a, b) = (out@, next@);
        out.append(&mut next);
        proof {
            assert(byte_strings(out@) =~= byte_strings(a) + byte_strings(b));
        }
        k = k + 1;
    }
    Ok(out)
}

/// The row groups, pages and row sets from a column on, or why they cannot
/// be read.
pub open spec fn postings_at(file: ParquetFile, rg: nat, count: nat, first: nat) -> std::result::Result<
    PostingsView,
    Fault,
> {
    match file.i32s_over(rg, count, first) {
        Err(f) => Err(f),
        Ok(target_rgs) => match file.i32s_over(rg, count, first + 1) {
            Err(f) => Err(f),
            Ok(target_pages) => match file.strings_over(rg, count, first + 2) {
                Err(f) => Err(f),
                Ok(rowsets) => Ok(
                    PostingsView { target_rgs, target_pages, rowsets },
                ),
            },
        },
    }
}

fn load_postings(file: &ParquetFile, rg: usize, count: usize, first: usize) -> (r: Result<Postings>)
    requires
        first <= 2,
        1 <= count,
        rg + count <= usize::MAX + 1,
    ensures
        match postings_at(*file, rg as nat, count as nat, first as nat) {
            Ok(p) => r is Ok && r->Ok_0@ == p,
            Err(f) => reports(r, Some(f)),
        },
{
    let target_rgs: Vec<i32> = match load_i32s(file, rg, count, first) {
        Ok(v) => v,
        Err(e) => {
            return Err(e);
        },
    };
    let target_pages: Vec<i32> = match load_i32s(file, rg, count, first + 1) {
        Ok(v) => v,
        Err(e) => {
            return Err(e);
        },
    };
    let rowsets: Vec<Vec<u8>> = match load_strings(file, rg, count, first + 2) {
        Ok(v) => v,
        Err(e) => {
            return Err(e);
        },
    };
    Ok(Postings { target_rgs, target_pages, rowsets })
}

/// The fault of index columns of different lengths; `head` and `label`
/// come before the index's name and the number of its keys.
pub open spec fn misaligned(
    head: Seq<char>,
    name: Seq<char>,
    rg: nat,
    label: Seq<char>,
    n: nat,
    p: PostingsView,
) -> Fault {
    Fault::InvalidInput(
        head + name + "` row group "@ + dec(rg) + label + dec(n) + ", rg="@ + dec(
            p.target_rgs.len(),
        ) + ", page="@ + dec(p.target_pages.len()) + ", rowset="@ + dec(p.rowsets.len()) + ")"@,
    )
}

fn misaligned_err(head: &str, name: &str, rg: usize, label: &str, n: usize, p: &Postings) -> (e:
    CodecError)
    ensures
        e@ == misaligned(head@, name@, rg as nat, label@, n as nat, p@),
{
    let mut s: String = joined3(head, name, "` row group ");
    push_dec(&mut s, rg as u128);
    s.append(label);
    push_dec(&mut s, n as u128);
    s.append(", rg=");
    push_dec(&mut s, p.target_rgs.len() as u128);
    s.append(", page=");
    push_dec(&mut s, p.target_pages.len() as u128);
    s.append(", rowset=");
    push_dec(&mut s, p.rowsets.len() as u128);
    s.append(")");
    CodecError::InvalidInput(s)
}

fn is_aligned(n: usize, p: &Postings) -> (b: bool)
    ensures
        b == p@.aligned(n as nat),
{
    p.target_rgs.len() == n && p.target_pages.len() == n && p.rowsets.len() == n
}

/// The message label of sorted indexes.
pub open spec fn value_label() -> Seq<char> {
    " has mismatched column lengths (value="@
}

/// A sorted index of i64 values, as it lies in a row group.
pub open spec fn sorted_i64_at(file: ParquetFile, name: Seq<char>, rg: nat, count: nat) -> std::result::Result<
    LoadedView,
    Fault,
> {
    match file.i64s_over(rg, count, 0) {
        Err(f) => Err(f),
        Ok(values) => match postings_at(file, rg, count, 1) {
            Err(f) => Err(f),
            Ok(postings) => if !postings.aligned(values.len()) {
                Err(misaligned("index `"@, name, rg, value_label(), values.len(), postings))
            } else {
                Ok(LoadedView::SortedI64 { values, postings })
            },
        },
    }
}

fn load_sorted_i64(file: &ParquetFile, name: &str, rg: usize, count: usize) -> (r: Result<LoadedIndexData>)
    requires
        1 <= count,
        rg + count <= usize::MAX + 1,
    ensures
        match sorted_i64_at(*file, name@, rg as nat, count as nat) {
            Ok(d) => r is Ok && r->Ok_0@ == d,
            Err(f) => reports(r, Some(f)),
        },
{
    let values = match load_i64s(file, rg, count, 0) {
        Ok(v) => v,
        Err(e) => {
            return Err(e);
        },
    };
    let postings: Postings = match load_postings(file, rg, count, 1) {
        Ok(p) => p,
        Err(e) => {
            return Err(e);
        },
    };
    if !is_aligned(values.len(), &postings) {
        return Err(
            misaligned_err(
                "index `",
                name,
                rg,
                " has mismatched column lengths (value=",
                values.len(),
                &postings,
            ),
        );
    }
    Ok(LoadedIndexData::SortedI64 { values, postings })
}

/// A sorted index of i32 values, as it lies in a row group.
pub open spec fn sorted_i32_at(file: ParquetFile, name: Seq<char>, rg: nat, count: nat) -> std::result::Result<
    LoadedView,
    Fault,
> {
    match file.i32s_over(rg, count, 0) {
        Err(f) => Err(f),
        Ok(values) => match postings_at(file, rg, count, 1) {
            Err(f) => Err(f),
            Ok(postings) => if !postings.aligned(values.len()) {
                Err(misaligned("index `"@, name, rg, value_label(), values.len(), postings))
            } else {
                Ok(LoadedView::SortedI32 { values, postings })
            },
        },
    }
}

fn load_sorted_i32(file: &ParquetFile, name: &str, rg: usize, count: usize) -> (r: Result<LoadedIndexData>)
    requires
        1 <= count,
        rg + count <= usize::MAX + 1,
    ensures
        match sorted_i32_at(*file, name@, rg as nat, count as nat) {
            Ok(d) => r is Ok && r->Ok_0@ == d,
            Err(f) => reports(r, Some(f)),
        },
{
    let values = match load_i32s(file, rg, count, 0) {
        Ok(v) => v,
        Err(e) => {
            return Err(e);
        },
    };
    let postings: Postings = match load_postings(file, rg, count, 1) {
        Ok(p) => p,
        Err(e) => {
            return Err(e);
        },
    };
    if !is_aligned(values.len(), &postings) {
        return Err(
            misaligned_err(
                "index `",
                name,
                rg,
                " has mismatched column lengths (value=",
                values.len(),
                &postings,
            ),
        );
    }
    Ok(LoadedIndexData::SortedI32 { values, postings })
}

/// A sorted index of byte strings, as it lies in a row group.
pub open spec fn sorted_bytes_at(file: ParquetFile, name: Seq<char>, rg: nat, count: nat) -> std::result::Result<
    LoadedView,
    Fault,
> {
    match file.strings_over(rg, count, 0) {
        Err(f) => Err(f),
        Ok(values) => match postings_at(file, rg, count, 1) {
            Err(f) => Err(f),
            Ok(postings) => if !postings.aligned(values.len()) {
                Err(misaligned("index `"@, name, rg, value_label(), values.len(), postings))
            } else {
                Ok(LoadedView::SortedBytes { values, postings })
            },
        },
    }
}

fn load_sorted_bytes(file: &ParquetFile, name: &str, rg: usize, count: usize) -> (r: Result<LoadedIndexData>)
    requires
        1 <= count,
        rg + count <= usize::MAX + 1,
    ensures
        match sorted_bytes_at(*file, name@, rg as nat, count as nat) {
            Ok(d) => r is Ok && r->Ok_0@ == d,
            Err(f) => reports(r, Some(f)),
        },
{
    let values = match load_strings(file, rg, count, 0) {
        Ok(v) => v,
        Err(e) => {
            return Err(e);
        },
    };
    let postings: Postings = match load_postings(file, rg, count, 1) {
        Ok(p) => p,
        Err(e) => {
            return Err(e);
        },
    };
    if !is_aligned(values.len(), &postings) {
        return Err(
            misaligned_err(
                "index `",
                name,
                rg,
                " has mismatched column lengths (value=",
                values.len(),
                &postings,
            ),
        );
    }
    Ok(LoadedIndexData::SortedBytes { values, postings })
}

/// The name of a physical type in messages.
pub open spec fn physical_text(t: PhysicalType) -> Seq<char> {
    match t {
        PhysicalType::Int32 => "Int32"@,
        PhysicalType::Int64 => "Int64"@,
        PhysicalType::ByteArray => "ByteArray"@,
    }
}

fn physical_str(t: PhysicalType) -> (s: &'static str)
    ensures
        s@ == physical_text(t),
{
    match t {
        PhysicalType::Int32 => "Int32",
        PhysicalType::Int64 => "Int64",
        PhysicalType::ByteArray => "ByteArray",
    }
}

/// The names of types with commas between them.
pub open spec fn physical_texts(types: Seq<PhysicalType>) -> Seq<char>
    decreases types.len(),
{
    if types.len() == 0 {
        Seq::empty()
    } else if types.len() == 1 {
        physical_text(types[0])
    } else {
        physical_texts(types.drop_last()) + ", "@ + physical_text(types.last())
    }
}

fn push_physical(s: &mut String, types: &Vec<PhysicalType>)
    ensures
        final(s)@ == old(s)@ + physical_texts(types@),
{
    let ghost start = s@;
    let mut i: usize = 0;
    proof {
        assert(s@ =~= start + physical_texts(types@.take(0)));
    }
    while i < types.len()
        invariant
            i <= types@.len(),
            s@ == start + physical_texts(types@.take(i as int)),
        decreases types@.len() - i,
    {
        if i > 0 {
            s.append(", ");
        }
        s.append(physical_str(types[i]));
        proof {
            assert(types@.take(i + 1).drop_last() =~= types@.take(i as int));
            assert(s@ =~= start + physical_texts(types@.take(i + 1)));
        }
        i = i + 1;
    }
    proof {
        assert(types@.take(i as int) =~= types@);
    }
}

/// That a pair of INT64 columns is indexed.
pub open spec fn is_pair(columns: Seq<Seq<char>>, types: Seq<PhysicalType>) -> bool {
    columns.len() == 2 && types.len() == 2 && types[0] == PhysicalType::Int64 && types[1]
        == PhysicalType::Int64
}

/// An index over a pair of columns, as it lies in a row group.
pub open spec fn composite_at(
    file: ParquetFile,
    name: Seq<char>,
    columns: Seq<Seq<char>>,
    types: Seq<PhysicalType>,
    rg: nat,
    count: nat,
) -> std::result::Result<LoadedView, Fault> {
    if !is_pair(columns, types) {
        Err(
            Fault::InvalidInput(
                "composite-prefix index `"@ + name
                    + "`: MVP supports exactly (INT64, INT64); got types ["@ + physical_texts(types)
                    + "]"@,
            ),
        )
    } else {
        match file.i64s_over(rg, count, 0) {
            Err(f) => Err(f),
            Ok(a) => match file.i64s_over(rg, count, 1) {
                Err(f) => Err(f),
                Ok(b) => match postings_at(file, rg, count, 2) {
                    Err(f) => Err(f),
                    Ok(postings) => if b.len() != a.len() || !postings.aligned(a.len()) {
                        Err(
                            misaligned(
                                "composite-prefix index `"@,
                                name,
                                rg,
                                " has mismatched column lengths (a="@ + dec(a.len()) + ", b="@,
                                b.len(),
                                postings,
                            ),
                        )
                    } else {
                        Ok(
                            LoadedView::CompositePrefixI64I64 {
                                values: Seq::new(a.len(), |i: int| (a[i], b[i])),
                                postings,
                            },
                        )
                    },
                },
            },
        }
    }
}

fn load_composite(
    file: &ParquetFile,
    name: &str,
    columns: &Vec<String>,
    types: &Vec<PhysicalType>,
    rg: usize,
    count: usize,
) -> (r: Result<LoadedIndexData>)
    requires
        1 <= count,
        rg + count <= usize::MAX + 1,
    ensures
        match composite_at(*file, name@, texts(columns@), types@, rg as nat, count as nat) {
            Ok(d) => r is Ok && r->Ok_0@ == d,
            Err(f) => reports(r, Some(f)),
        },
{
    if columns.len() != 2 || types.len() != 2 || types[0] != PhysicalType::Int64 || types[1]
        != PhysicalType::Int64 {
        let mut s: String = joined3(
            "composite-prefix index `",
            name,
            "`: MVP supports exactly (INT64, INT64); got types [",
        );
        push_physical(&mut s, types);
        s.append("]");
        return Err(CodecError::InvalidInput(s));
    }
    let a: Vec<i64> = match load_i64s(file, rg, count, 0) {
        Ok(v) => v,
        Err(e) => {
            return Err(e);
        },
    };
    let b: Vec<i64> = match load_i64s(file, rg, count, 1) {
        Ok(v) => v,
        Err(e) => {
            return Err(e);
        },
    };
    let postings: Postings = match load_postings(file, rg, count, 2) {
        Ok(p) => p,
        Err(e) => {
            return Err(e);
        },
    };
    if b.len() != a.len() || !is_aligned(a.len(), &postings) {
        let label: String = text1(
            " has mismatched column lengths (a=",
            a.len() as u128,
            ", b=",
        );
        return Err(
            misaligned_err(
                "composite-prefix index `",
                name,
                rg,
                label.as_str(),
                b.len(),
                &postings,
            ),
        );
    }
    let ghost pairs = Seq::new(a@.len(), |i: int| (a@[i], b@[i]));
    let mut values: Vec<(i64, i64)> = Vec::new();
    let mut i: usize = 0;
    while i < a.len()
        invariant
            i <= a@.len() == b@.len(),
            pairs == Seq::new(a@.len(), |i: int| (a@[i], b@[i])),
            values@ == pairs.take(i as int),
        decreases a@.len() - i,
    {
        values.push((a[i], b[i]));
        proof {
            assert(values@ =~= pairs.take(i + 1));
        }
        i = i + 1;
    }
    proof {
        assert(pairs.take(i as int) =~= pairs);
    }
    Ok(LoadedIndexData::CompositePrefixI64I64 { values, postings })
}

/// An inverted index, as it lies in a row group.
pub open spec fn inverted_at(file: ParquetFile, name: Seq<char>, rg: nat, count: nat) -> std::result::Result<
    LoadedView,
    Fault,
> {
    match file.strings_over(rg, count, 0) {
        Err(f) => Err(f),
        Ok(tokens) => match postings_at(file, rg, count, 1) {
            Err(f) => Err(f),
            Ok(postings) => if !postings.aligned(tokens.len()) {
                Err(
                    misaligned(
                        "inverted index `"@,
                        name,
                        rg,
                        " has mismatched column lengths (tokens="@,
                        tokens.len(),
                        postings,
                    ),
                )
            } else {
                Ok(LoadedView::Inverted { tokens, postings })
            },
        },
    }
}

fn load_inverted(file: &ParquetFile, name: &str, rg: usize, count: usize) -> (r: Result<LoadedIndexData>)
    requires
        1 <= count,
        rg + count <= usize::MAX + 1,
    ensures
        match inverted_at(*file, name@, rg as nat, count as nat) {
            Ok(d) => r is Ok && r->Ok_0@ == d,
            Err(f) => reports(r, Some(f)),
        },
{
    let tokens: Vec<Vec<u8>> = match load_strings(file, rg, count, 0) {
        Ok(v) => v,
        Err(e) => {
            return Err(e);
        },
    };
    let postings: Postings = match load_postings(file, rg, count, 1) {
        Ok(p) => p,
        Err(e) => {
            return Err(e);
        },
    };
    if !is_aligned(tokens.len(), &postings) {
        return Err(
            misaligned_err(
                "inverted index `",
                name,
                rg,
                " has mismatched column lengths (tokens=",
                tokens.len(),
                &postings,
            ),
        );
    }
    Ok(LoadedIndexData::Inverted { tokens, postings })
}

/// A page-filter index, as it lies in a row group.
pub open spec fn bloom_at(file: ParquetFile, name: Seq<char>, rg: nat, count: nat) -> std::result::Result<
    LoadedView,
    Fault,
> {
    match file.i32s_over(rg, count, 0) {
        Err(f) => Err(f),
        Ok(source_rgs) => match file.i32s_over(rg, count, 1) {
            Err(f) => Err(f),
            Ok(source_pages) => match file.strings_over(rg, count, 2) {
                Err(f) => Err(f),
                Ok(blooms) => if source_rgs.len() != source_pages.len() || source_rgs.len()
                    != blooms.len() {
                    Err(
                        Fault::InvalidInput(
                            "page-bloom index `"@ + name + "` row group "@ + dec(rg)
                                + " has mismatched column lengths (source_rgs="@ + dec(
                                source_rgs.len(),
                            ) + ", source_pages="@ + dec(source_pages.len()) + ", blooms="@ + dec(
                                blooms.len(),
                            ) + ")"@,
                        ),
                    )
                } else {
                    Ok(
                        LoadedView::BloomPage {
                            source_rgs,
                            source_pages,
                            blooms,
                        },
                    )
                },
            },
        },
    }
}

fn load_bloom(file: &ParquetFile, name: &str, rg: usize, count: usize) -> (r: Result<LoadedIndexData>)
    requires
        1 <= count,
        rg + count <= usize::MAX + 1,
    ensures
        match bloom_at(*file, name@, rg as nat, count as nat) {
            Ok(d) => r is Ok && r->Ok_0@ == d,
            Err(f) => reports(r, Some(f)),
        },
{
    let source_rgs: Vec<i32> = match load_i32s(file, rg, count, 0) {
        Ok(v) => v,
        Err(e) => {
            return Err(e);
        },
    };
    let source_pages: Vec<i32> = match load_i32s(file, rg, count, 1) {
        Ok(v) => v,
        Err(e) => {
            return Err(e);
        },
    };
    let blooms: Vec<Vec<u8>> = match load_strings(file, rg, count, 2) {
        Ok(v) => v,
        Err(e) => {
            return Err(e);
        },
    };
    if source_rgs.len() != source_pages.len() || source_rgs.len() != blooms.len() {
        let mut s: String = joined3("page-bloom index `", name, "` row group ");
        push_dec(&mut s, rg as u128);
        s.append(" has mismatched column lengths (source_rgs=");
        push_dec(&mut s, source_rgs.len() as u128);
        s.append(", source_pages=");
        push_dec(&mut s, source_pages.len() as u128);
        s.append(", blooms=");
        push_dec(&mut s, blooms.len() as u128);
        s.append(")");
        return Err(CodecError::InvalidInput(s));
    }
    Ok(LoadedIndexData::BloomPage { source_rgs, source_pages, blooms })
}

/// An index of a manifest, as it lies in a sidecar.
pub open spec fn index_at(file: ParquetFile, e: EntryView, count: nat) -> std::result::Result<
    LoadedView,
    Fault,
> {
    let rg = e.sidecar_row_group as nat;
    match e.kind {
        KindView::Sorted { physical_type, .. } => match physical_type {
            PhysicalType::Int64 => sorted_i64_at(file, e.name, rg, count),
            PhysicalType::Int32 => sorted_i32_at(file, e.name, rg, count),
            PhysicalType::ByteArray => sorted_bytes_at(file, e.name, rg, count),
        },
        KindView::CompositePrefix { source_columns, physical_types } => composite_at(
            file,
            e.name,
            source_columns,
            physical_types,
            rg,
            count,
        ),
        KindView::Inverted { .. } => inverted_at(file, e.name, rg, count),
        KindView::BloomPage { .. } => bloom_at(file, e.name, rg, count),
    }
}

fn load_index(file: &ParquetFile, e: &IndexEntry, count: usize) -> (r: Result<LoadedIndexData>)
    requires
        1 <= count,
        e.sidecar_row_group + count <= usize::MAX + 1,
    ensures
        match index_at(*file, e@, count as nat) {
            Ok(d) => r is Ok && r->Ok_0@ == d,
            Err(f) => reports(r, Some(f)),
        },
        r is Ok ==> loaded_as(e@.kind, r->Ok_0@),
{
    let rg: usize = e.sidecar_row_group as usize;
    let name: &str = e.name.as_str();
    match &e.kind {
        IndexKind::Sorted { physical_type, .. } => match *physical_type {
            PhysicalType::Int64 => load_sorted_i64(file, name, rg, count),
            PhysicalType::Int32 => load_sorted_i32(file, name, rg, count),
            PhysicalType::ByteArray => load_sorted_bytes(file, name, rg, count),
        },
        IndexKind::CompositePrefix { source_columns, physical_types } => load_composite(
            file,
            name,
            source_columns,
            physical_types,
            rg,
            count,
        ),
        IndexKind::Inverted { .. } => load_inverted(file, name, rg, count),
        IndexKind::BloomPage { .. } => load_bloom(file, name, rg, count),
    }
}

/// The fault that a manifest's fault becomes.
pub open spec fn as_fault(f: ManifestFault) -> Fault {
    Fault::InvalidInput(f.text())
}

fn codec_err(e: &ManifestError) -> (r: CodecError)
    ensures
        r@ == as_fault(e@),
{
    CodecError::InvalidInput(e.to_string())
}

/// The first entry with a key, from `from` on.
pub open spec fn entry_with(kvs: Seq<KeyValue>, key: Seq<u8>, from: nat) -> Option<KeyValue>
    decreases kvs.len() - from,
{
    if from >= kvs.len() {
        None
    } else if kvs[from as int].key@ == key {
        Some(kvs[from as int])
    } else {
        entry_with(kvs, key, from + 1)
    }
}

fn find_entry<'a>(kvs: &'a Vec<KeyValue>, key: &str) -> (r: Option<&'a KeyValue>)
    ensures
        match entry_with(kvs@, encode_utf8(key@), 0) {
            Some(kv) => r is Some && *r->Some_0 == kv,
            None => r is None,
        },
{
    let bytes = key.as_bytes();
    let mut i: usize = 0;
    while i < kvs.len()
        invariant
            i <= kvs@.len(),
            bytes@ == encode_utf8(key@),
            entry_with(kvs@, encode_utf8(key@), 0) == entry_with(
                kvs@,
                encode_utf8(key@),
                i as nat,
            ),
        decreases kvs@.len() - i,
    {
        if bytes_same(kvs[i].key.as_slice(), bytes) {
            return Some(&kvs[i]);
        }
        i = i + 1;
    }
    None
}

/// The version of a sidecar, told by the key of its manifest.
#[derive(Debug, Clone, Copy, PartialEq, Eq, Structural)]
pub enum SidecarVersion {
    /// Bare row sets, one row group per index.
    V1,
    /// Tagged row sets, one row group per index.
    V2,
    /// Tagged row sets, and indexes that span row groups.
    V3,
}

impl SidecarVersion {
    /// How row sets are stored.
    pub open spec fn format(self) -> RowsetFormat {
        match self {
            SidecarVersion::V1 => RowsetFormat::V1Raw,
            _ => RowsetFormat::V2Tagged,
        }
    }

    fn rowset_format(self) -> (f: RowsetFormat)
        ensures
            f == self.format(),
    {
        match self {
            SidecarVersion::V1 => RowsetFormat::V1Raw,
            _ => RowsetFormat::V2Tagged,
        }
    }
}

/// The entry that holds a sidecar's manifest: that under the newest key.
pub open spec fn manifest_entry(kvs: Seq<KeyValue>) -> Option<(KeyValue, SidecarVersion)> {
    match entry_with(kvs, encode_utf8(MANIFEST_KEY_V3@), 0) {
        Some(kv) => Some((kv, SidecarVersion::V3)),
        None => match entry_with(kvs, encode_utf8(MANIFEST_KEY_V2@), 0) {
            Some(kv) => Some((kv, SidecarVersion::V2)),
            None => match entry_with(kvs, encode_utf8(MANIFEST_KEY@), 0) {
                Some(kv) => Some((kv, SidecarVersion::V1)),
                None => None,
            },
        },
    }
}

/// The manifest of a sidecar, or why it has none that can be used.
pub open spec fn sidecar_manifest(file: ParquetFile) -> std::result::Result<
    (ManifestView, SidecarVersion),
    ManifestFault,
> {
    match file.key_value_metadata {
        None => Err(ManifestFault::Missing),
        Some(kvs) => match manifest_entry(kvs@) {
            None => Err(ManifestFault::Missing),
            Some((kv, version)) => match kv.value {
                None => Err(ManifestFault::Missing),
                Some(bytes) => if !valid_utf8(bytes@) {
                    Err(ManifestFault::Malformed("manifest value is not valid UTF-8"@))
                } else {
                    match manifest_in(decode_utf8(bytes@)) {
                        Ok(m) => Ok((m, version)),
                        Err(f) => Err(f),
                    }
                },
            },
        },
    }
}

fn read_manifest(file: &ParquetFile) -> (r: std::result::Result<
    (IndexManifest, SidecarVersion),
    ManifestError,
>)
    ensures
        match sidecar_manifest(*file) {
            Ok((m, version)) => r is Ok && r->Ok_0.0@ == m && r->Ok_0.1 == version,
            Err(f) => r is Err && r->Err_0@ == f,
        },
{
    let kvs = match &file.key_value_metadata {
        Some(kvs) => kvs,
        None => {
            return Err(ManifestError::Missing);
        },
    };
    let (kv, version) = match find_entry(kvs, MANIFEST_KEY_V3) {
        Some(kv) => (kv, SidecarVersion::V3),
        None => match find_entry(kvs, MANIFEST_KEY_V2) {
            Some(kv) => (kv, SidecarVersion::V2),
            None => match find_entry(kvs, MANIFEST_KEY) {
                Some(kv) => (kv, SidecarVersion::V1),
                None => {
                    return Err(ManifestError::Missing);
                },
            },
        },
    };
    let bytes = match &kv.value {
        Some(b) => b,
        None => {
            return Err(ManifestError::Missing);
        },
    };
    let text: String = match utf8_text(bytes.as_slice()) {
        Some(t) => t,
        None => {
            return Err(
                ManifestError::Malformed("manifest value is not valid UTF-8".to_string()),
            );
        },
    };
    match IndexManifest::from_json(text.as_str()) {
        Ok(m) => Ok((m, version)),
        Err(e) => Err(e),
    }
}

/// The least row group after `start` at which an index of a manifest starts,
/// or `end` where none starts before it.
pub open spec fn next_start(list: Seq<EntryView>, start: nat, end: nat) -> nat
    decreases list.len(),
{
    if list.len() == 0 {
        end
    } else {
        let rest = next_start(list.drop_last(), start, end);
        let at = list.last().sidecar_row_group as nat;
        if start < at < rest {
            at
        } else {
            rest
        }
    }
}

/// The row groups that an index of a manifest spans: one, and from the third
/// version on all up to the next index or the end of the file.
pub open spec fn span_of(
    file: ParquetFile,
    list: Seq<EntryView>,
    e: EntryView,
    version: SidecarVersion,
) -> nat {
    let start = e.sidecar_row_group as nat;
    let end = next_start(list, start, file.row_groups@.len());
    if version == SidecarVersion::V3 && start + 1 < end {
        (end - start) as nat
    } else {
        1
    }
}

fn index_span(
    file: &ParquetFile,
    list: &Vec<IndexEntry>,
    e: &IndexEntry,
    version: SidecarVersion,
) -> (count: usize)
    ensures
        count == span_of(*file, entries(list@), e@, version),
        1 <= count,
        e.sidecar_row_group + count <= usize::MAX + 1,
{
    if version != SidecarVersion::V3 {
        return 1;
    }
    let ghost all = entries(list@);
    let start: usize = e.sidecar_row_group as usize;
    let mut end: usize = file.row_groups.len();
    let mut i: usize = 0;
    while i < list.len()
        invariant
            i <= list@.len(),
            all == entries(list@),
            start == e.sidecar_row_group,
            end == next_start(all.take(i as int), start as nat, file.row_groups@.len()),
        decreases list@.len() - i,
    {
        proof {
            assert(all.take(i + 1).drop_last() =~= all.take(i as int));
            assert(all[i as int] == list@[i as int]@);
        }
        let at: usize = list[i].sidecar_row_group as usize;
        if start < at && at < end {
            end = at;
        }
        i = i + 1;
    }
    proof {
        assert(all.take(i as int) =~= all);
    }
    if start < end && end - start > 1 {
        end - start
    } else {
        1
    }
}

/// The indexes of a manifest from `from` on, as they lie in a sidecar, up to
/// the first that cannot be loaded.
pub open spec fn indexes_from(
    file: ParquetFile,
    list: Seq<EntryView>,
    version: SidecarVersion,
    from: nat,
) -> Outcome<LoadedView>
    decreases list.len() - from,
{
    if from >= list.len() {
        Outcome { emitted: Seq::empty(), fault: None }
    } else {
        match index_at(
            file,
            list[from as int],
            span_of(file, list, list[from as int], version),
        ) {
            Err(f) => Outcome { emitted: Seq::empty(), fault: Some(f) },
            Ok(d) => indexes_from(file, list, version, from + 1).after(seq![d]),
        }
    }
}

/// Why a sidecar does not open over a source.
pub open spec fn open_fault(idx_file: ParquetFile, source: ParquetFile) -> Option<Fault> {
    match sidecar_manifest(idx_file) {
        Err(f) => Some(as_fault(f)),
        Ok((m, version)) => match fingerprint_of_file(source) {
            Err(f) => Some(f),
            Ok(actual) => if actual != m.source_fingerprint {
                Some(
                    as_fault(
                        ManifestFault::SourceFingerprintMismatch {
                            expected: m.source_fingerprint,
                            actual,
                        },
                    ),
                )
            } else {
                indexes_from(idx_file, m.indexes, version, 0).fault
            },
        },
    }
}

/// A sidecar that has been opened over its source.
#[derive(Debug)]
pub struct ParquetIndex {
    manifest: IndexManifest,
    data: Vec<LoadedIndexData>,
    rowset_format: RowsetFormat,
}

impl ParquetIndex {
    /// What the manifest says.
    pub closed spec fn manifest_view(&self) -> ManifestView {
        self.manifest@
    }

    /// What the indexes say, in the manifest's order.
    pub closed spec fn loaded(&self) -> Seq<LoadedView> {
        loaded_views(self.data@)
    }

    /// How row sets are stored.
    pub closed spec fn format(&self) -> RowsetFormat {
        self.rowset_format
    }

    #[verifier::type_invariant]
    spec fn consistent(&self) -> bool {
        &&& self.data@.len() == self.manifest.indexes@.len()
        &&& forall|i: int|
            0 <= i < self.data@.len() ==> loaded_as(
                self.manifest.indexes@[i]@.kind,
                (#[trigger] self.data@[i])@,
            )
    }

    /// That this is what a sidecar holds: its manifest, and its indexes.
    pub open spec fn holds(&self, idx_file: ParquetFile) -> bool {
        let (m, version) = sidecar_manifest(idx_file)->Ok_0;
        &&& self.manifest_view() == m
        &&& self.format() == version.format()
        &&& self.loaded() == indexes_from(idx_file, m.indexes, version, 0).emitted
    }

    /// Opens a sidecar over a source: reads its manifest, refuses it where
    /// the source has changed, and loads its indexes.
    pub fn open(idx_file: &ParquetFile, source: &ParquetFile) -> (r: Result<ParquetIndex>)
        ensures
            reports(r, open_fault(*idx_file, *source)),
            r is Ok ==> r->Ok_0.holds(*idx_file),
    {
        let (manifest, version) = match read_manifest(idx_file) {
            Ok(m) => m,
            Err(e) => {
                return Err(codec_err(&e));
            },
        };
        let actual = match compute_source_fingerprint(source) {
            Ok(fp) => fp,
            Err(e) => {
                return Err(e);
            },
        };
        if actual != manifest.source_fingerprint {
            return Err(
                codec_err(
                    &ManifestError::SourceFingerprintMismatch {
                        expected: manifest.source_fingerprint,
                        actual,
                    },
                ),
            );
        }
        let ghost list = manifest@.indexes;
        let ghost whole = indexes_from(*idx_file, list, version, 0);
        let mut data: Vec<LoadedIndexData> = Vec::new();
        let mut i: usize = 0;
        proof {
            assert(loaded_views(data@) + whole.emitted =~= whole.emitted);
        }
        while i < manifest.indexes.len()
            invariant
                i <= manifest.indexes@.len(),
                list == manifest@.indexes,
                data@.len() == i,
                open_fault(*idx_file, *source) == whole.fault,
                whole == indexes_from(*idx_file, list, version, i as nat).after(loaded_views(data@)),
                forall|k: int|
                    0 <= k < i ==> loaded_as(
                        manifest.indexes@[k]@.kind,
                        (#[trigger] data@[k])@,
                    ),
            decreases manifest.indexes@.len() - i,
        {
            proof {
                assert(list[i as int] == manifest.indexes@[i as int]@);
            }
            let count: usize = index_span(
                idx_file,
                &manifest.indexes,
                &manifest.indexes[i],
                version,
            );
            let d: LoadedIndexData = match load_index(idx_file, &manifest.indexes[i], count) {
                Ok(d) => d,
                Err(e) => {
                    return Err(e);
                },
            };
            let ghost before = data@;
            let ghost view = d@;
            data.push(d);
            proof {
                let rest = indexes_from(*idx_file, list, version, (i + 1) as nat);
                assert(loaded_views(data@) =~= loaded_views(before).push(view));
                assert(loaded_views(before) + (seq![view] + rest.emitted) =~= loaded_views(data@)
                    + rest.emitted);
            }
            i = i + 1;
        }
        proof {
            assert(loaded_views(data@) =~= whole.emitted);
        }
        Ok(ParquetIndex { manifest, data, rowset_format: version.rowset_format() })
    }

    /// The manifest.
    pub fn manifest(&self) -> (m: &IndexManifest)
        ensures
            m@ == self.manifest_view(),
    {
        &self.manifest
    }
}

/// The first index with a name, from `from` on.
pub open spec fn index_named(list: Seq<EntryView>, name: Seq<char>, from: nat) -> Option<nat>
    decreases list.len() - from,
{
    if from >= list.len() {
        None
    } else if list[from as int].name == name {
        Some(from)
    } else {
        index_named(list, name, from + 1)
    }
}

/// The names of entries.
pub open spec fn names_of(list: Seq<EntryView>) -> Seq<Seq<char>> {
    list.map_values(|e: EntryView| e.name)
}

/// The text that std's `Debug` gives of a list of strings.
pub uninterp spec fn debug_text(names: Seq<Seq<char>>) -> Seq<char>;

/// `format!` with the `Debug` form of a vector of strings: a text that
/// depends on the strings alone.
#[verifier::external_body]
fn debug_names(names: &Vec<String>) -> (s: String)
    ensures
        s@ == debug_text(texts(names@)),
{
    format!("{:?}", names)
}

/// The fault of a name that no index has.
pub open spec fn unknown_index(list: Seq<EntryView>, name: Seq<char>) -> Fault {
    Fault::InvalidInput(
        "sidecar has no index named `"@ + name + "` (have: "@ + debug_text(names_of(list)) + ")"@,
    )
}

impl ParquetIndex {
    /// The position of the index with a name.
    pub fn find_index(&self, name: &str) -> (r: Result<usize>)
        ensures
            match index_named(self.manifest_view().indexes, name@, 0) {
                Some(i) => r is Ok && r->Ok_0 == i && i < self.loaded().len() && i
                    < self.manifest_view().indexes.len(),
                None => reports(r, Some(unknown_index(self.manifest_view().indexes, name@))),
            },
    {
        proof {
            use_type_invariant(self);
        }
        let ghost list = self.manifest_view().indexes;
        let wanted: String = name.to_string();
        let mut names: Vec<String> = Vec::new();
        let mut i: usize = 0;
        while i < self.manifest.indexes.len()
            invariant
                i <= self.manifest.indexes@.len(),
                self.data@.len() == self.manifest.indexes@.len(),
                list == self.manifest_view().indexes,
                wanted@ == name@,
                index_named(list, name@, 0) == index_named(list, name@, i as nat),
                texts(names@) == names_of(list).take(i as int),
            decreases self.manifest.indexes@.len() - i,
        {
            proof {
                assert(list[i as int] == self.manifest.indexes@[i as int]@);
            }
            if self.manifest.indexes[i].name == wanted {
                return Ok(i);
            }
            let ghost before = names@;
            let copy: String = self.manifest.indexes[i].name.clone();
            let ghost text = copy@;
            names.push(copy);
            proof {
                assert(text == list[i as int].name);
                assert(texts(names@) =~= texts(before).push(text));
                assert(names_of(list).take(i + 1) =~= names_of(list).take(i as int).push(text));
            }
            i = i + 1;
        }
        proof {
            assert(names_of(list).take(i as int) =~= names_of(list));
        }
        let mut s: String = joined3("sidecar has no index named `", name, "` (have: ");
        s.append(debug_names(&names).as_str());
        s.append(")");
        Err(CodecError::InvalidInput(s))
    }
}

/// The keys of an index's rows.
pub open spec fn keys_in(d: LoadedView) -> Seq<SortKey> {
    match d {
        LoadedView::SortedI64 { values, .. } => values.map_values(|v: i64| v.key()),
        LoadedView::SortedI32 { values, .. } => values.map_values(|v: i32| v.key()),
        LoadedView::SortedBytes { values, .. } => values.map_values(
            |v: Seq<u8>| SortKey::Bytes(v),
        ),
        LoadedView::CompositePrefixI64I64 { values, .. } => values.map_values(
            |v: (i64, i64)| v.key(),
        ),
        LoadedView::Inverted { tokens, .. } => tokens.map_values(|v: Seq<u8>| SortKey::Bytes(v)),
        LoadedView::BloomPage { .. } => Seq::empty(),
    }
}

/// Where an index's rows point.
pub open spec fn postings_in(d: LoadedView) -> PostingsView {
    match d {
        LoadedView::SortedI64 { postings, .. } => postings,
        LoadedView::SortedI32 { postings, .. } => postings,
        LoadedView::SortedBytes { postings, .. } => postings,
        LoadedView::CompositePrefixI64I64 { postings, .. } => postings,
        LoadedView::Inverted { postings, .. } => postings,
        LoadedView::BloomPage { .. } => PostingsView {
            target_rgs: Seq::empty(),
            target_pages: Seq::empty(),
            rowsets: Seq::empty(),
        },
    }
}

/// That a lookup answered with the hits of the index rows that have a key.
pub open spec fn answers_key(
    r: Result<Vec<IndexHit>>,
    d: LoadedView,
    key: SortKey,
    format: RowsetFormat,
) -> bool {
    exists|start: nat, end: nat| #[trigger]
        is_run(keys_in(d), key, start, end) && answers(
            r,
            hits_in(postings_in(d), start, end, format),
        )
}

/// That a lookup answered with the hits of the index rows whose keys lie
/// between two.
pub open spec fn answers_between(
    r: Result<Vec<IndexHit>>,
    d: LoadedView,
    lo: SortKey,
    hi: SortKey,
    format: RowsetFormat,
) -> bool {
    exists|start: nat, end: nat| #[trigger]
        is_span(keys_in(d), lo, hi, start, end) && answers(
            r,
            hits_in(postings_in(d), start, end, format),
        )
}

/// Values and where they point, searched for a key.
fn run_hits<K: IndexKey>(values: &Vec<K>, postings: &Postings, target: &K, format: RowsetFormat) -> (r:
    Result<Vec<IndexHit>>)
    requires
        postings@.aligned(values@.len()),
    ensures
        exists|start: nat, end: nat| #[trigger]
            is_run(value_keys(values@), target.key(), start, end) && answers(
                r,
                hits_in(postings@, start, end, format),
            ),
{
    let (start, end) = find_run(values, target);
    collect_hits(postings, start, end, format)
}

/// Values and where they point, searched between two keys.
fn span_hits<K: IndexKey>(
    values: &Vec<K>,
    postings: &Postings,
    lo: &K,
    hi: &K,
    format: RowsetFormat,
) -> (r: Result<Vec<IndexHit>>)
    requires
        postings@.aligned(values@.len()),
    ensures
        exists|start: nat, end: nat| #[trigger]
            is_span(value_keys(values@), lo.key(), hi.key(), start, end) && answers(
                r,
                hits_in(postings@, start, end, format),
            ),
{
    let (start, end) = find_span(values, lo, hi);
    collect_hits(postings, start, end, format)
}

proof fn lemma_string_keys(values: Seq<Vec<u8>>)
    ensures
        value_keys(values) == byte_strings(values).map_values(|v: Seq<u8>| SortKey::Bytes(v)),
{
    assert(value_keys(values) =~= byte_strings(values).map_values(
        |v: Seq<u8>| SortKey::Bytes(v),
    ));
}

/// The fault of an index that is not sorted by the values of one column.
pub open spec fn not_sorted(name: Seq<char>) -> Fault {
    Fault::InvalidInput("index `"@ + name + "` is not a sorted index"@)
}

fn sorted_physical_type(entry: &IndexEntry) -> (r: Result<PhysicalType>)
    ensures
        match entry@.kind {
            KindView::Sorted { physical_type, .. } => r is Ok && r->Ok_0 == physical_type,
            _ => reports(r, Some(not_sorted(entry.name@))),
        },
{
    match &entry.kind {
        IndexKind::Sorted { physical_type, .. } => Ok(*physical_type),
        _ => Err(
            CodecError::InvalidInput(
                joined3("index `", entry.name.as_str(), "` is not a sorted index"),
            ),
        ),
    }
}

/// Why an equality lookup is refused.
pub open spec fn eq_fault(list: Seq<EntryView>, name: Seq<char>, key: Key<'_>) -> Option<Fault> {
    match index_named(list, name, 0) {
        None => Some(unknown_index(list, name)),
        Some(i) => match list[i as int].kind {
            KindView::Sorted { physical_type, .. } => if key.physical_type() != physical_type {
                Some(
                    Fault::InvalidInput(
                        "lookup_eq: key variant `"@ + key.kind_name() + "` does not match index `"@
                            + name + "` physical type "@ + physical_text(physical_type),
                    ),
                )
            } else {
                None
            },
            _ => Some(not_sorted(list[i as int].name)),
        },
    }
}

/// Why a range lookup is refused.
pub open spec fn range_fault(list: Seq<EntryView>, name: Seq<char>, lo: Key<'_>, hi: Key<'_>) -> Option<
    Fault,
> {
    match index_named(list, name, 0) {
        None => Some(unknown_index(list, name)),
        Some(i) => match list[i as int].kind {
            KindView::Sorted { physical_type, .. } => if lo.physical_type() != physical_type
                || hi.physical_type() != physical_type {
                Some(
                    Fault::InvalidInput(
                        "lookup_range: key variants ("@ + lo.kind_name() + ", "@ + hi.kind_name()
                            + ") do not match index `"@ + name + "` physical type "@
                            + physical_text(physical_type),
                    ),
                )
            } else {
                None
            },
            _ => Some(not_sorted(list[i as int].name)),
        },
    }
}

/// The fault of a lookup in an index of another kind.
pub open spec fn wrong_kind(head: Seq<char>, name: Seq<char>, tail: Seq<char>) -> Fault {
    Fault::InvalidInput(head + name + tail)
}

/// Why a lookup in an index over a pair of columns is refused, before its
/// keys are looked at.
pub open spec fn pair_fault(list: Seq<EntryView>, name: Seq<char>, head: Seq<char>) -> Option<Fault> {
    match index_named(list, name, 0) {
        None => Some(unknown_index(list, name)),
        Some(i) => match list[i as int].kind {
            KindView::CompositePrefix { .. } => None,
            _ => Some(
                wrong_kind(head, name, "` is not a (INT64, INT64) composite-prefix index"@),
            ),
        },
    }
}

/// Why an equality lookup over a pair of columns is refused.
pub open spec fn composite_eq_fault(
    list: Seq<EntryView>,
    name: Seq<char>,
    a: Key<'_>,
    b: Key<'_>,
) -> Option<Fault> {
    match pair_fault(list, name, "lookup_composite_eq: index `"@) {
        Some(f) => Some(f),
        None => if !(a is I64) || !(b is I64) {
            Some(
                Fault::InvalidInput(
                    "lookup_composite_eq: key variants `"@ + a.kind_name() + "`+`"@ + b.kind_name()
                        + "` do not match (INT64, INT64)"@,
                ),
            )
        } else {
            None
        },
    }
}

/// Why a lookup by the first of a pair of columns is refused.
pub open spec fn composite_prefix_fault(
    list: Seq<EntryView>,
    name: Seq<char>,
    a: Key<'_>,
) -> Option<Fault> {
    match pair_fault(list, name, "lookup_composite_prefix: index `"@) {
        Some(f) => Some(f),
        None => if !(a is I64) {
            Some(
                Fault::InvalidInput(
                    "lookup_composite_prefix: key variant `"@ + a.kind_name()
                        + "` does not match INT64"@,
                ),
            )
        } else {
            None
        },
    }
}

/// Why a token lookup is refused.
pub open spec fn token_fault(list: Seq<EntryView>, name: Seq<char>) -> Option<Fault> {
    match index_named(list, name, 0) {
        None => Some(unknown_index(list, name)),
        Some(i) => match list[i as int].kind {
            KindView::Inverted { .. } => None,
            _ => Some(
                wrong_kind("lookup_token: index `"@, name, "` is not an inverted index"@),
            ),
        },
    }
}

impl ParquetIndex {
    /// The index with a name.
    pub open spec fn index(&self, name: Seq<char>) -> LoadedView {
        self.loaded()[index_named(self.manifest_view().indexes, name, 0)->Some_0 as int]
    }

    /// The pages and rows of the source with a value.
    pub fn lookup_eq(&self, index_name: &str, key: &Key<'_>) -> (r: Result<Vec<IndexHit>>)
        ensures
            match eq_fault(self.manifest_view().indexes, index_name@, *key) {
                Some(f) => reports(r, Some(f)),
                None => answers_key(
                    r,
                    self.index(index_name@),
                    key.sort_key(),
                    self.format(),
                ),
            },
    {
        let i: usize = match self.find_index(index_name) {
            Ok(i) => i,
            Err(e) => {
                return Err(e);
            },
        };
        proof {
            use_type_invariant(self);
            assert(self.loaded()[i as int] == self.data@[i as int]@);
            assert(self.manifest_view().indexes[i as int] == self.manifest.indexes@[i as int]@);
        }
        let pt: PhysicalType = match sorted_physical_type(&self.manifest.indexes[i]) {
            Ok(t) => t,
            Err(e) => {
                proof {
                    lemma_index_named(self.manifest_view().indexes, index_name@, 0);
                }
                return Err(e);
            },
        };
        if !key.matches_physical_type(pt) {
            let mut s: String = joined3(
                "lookup_eq: key variant `",
                key.variant_name(),
                "` does not match index `",
            );
            s.append(index_name);
            s.append("` physical type ");
            s.append(physical_str(pt));
            return Err(CodecError::InvalidInput(s));
        }
        match (&self.data[i], key) {
            (LoadedIndexData::SortedI64 { values, postings }, Key::I64(v)) => {
                proof {
                    assert(keys_in(self.data@[i as int]@) =~= value_keys(values@));
                }
                run_hits(values, postings, v, self.rowset_format)
            },
            (LoadedIndexData::SortedI32 { values, postings }, Key::I32(v)) => {
                proof {
                    assert(keys_in(self.data@[i as int]@) =~= value_keys(values@));
                }
                run_hits(values, postings, v, self.rowset_format)
            },
            (LoadedIndexData::SortedBytes { values, postings }, Key::Bytes(v)) => {
                proof {
                    lemma_string_keys(values@);
                    assert(keys_in(self.data@[i as int]@) =~= value_keys(values@));
                }
                run_hits(values, postings, &slice_to_vec(v), self.rowset_format)
            },
            _ => Err(
                CodecError::InvalidInput(
                    joined3("lookup_eq: key/index type mismatch on `", index_name, "`"),
                ),
            ),
        }
    }

    /// The pages and rows of the source with a value of a range, both ends
    /// counted. A range whose ends are in the wrong order holds nothing.
    pub fn lookup_range(&self, index_name: &str, lo: &Key<'_>, hi: &Key<'_>) -> (r: Result<
        Vec<IndexHit>,
    >)
        ensures
            match range_fault(self.manifest_view().indexes, index_name@, *lo, *hi) {
                Some(f) => reports(r, Some(f)),
                None => if key_before(hi.sort_key(), lo.sort_key()) {
                    r is Ok && r->Ok_0@.len() == 0
                } else {
                    answers_between(
                        r,
                        self.index(index_name@),
                        lo.sort_key(),
                        hi.sort_key(),
                        self.format(),
                    )
                },
            },
    {
        let i: usize = match self.find_index(index_name) {
            Ok(i) => i,
            Err(e) => {
                return Err(e);
            },
        };
        proof {
            use_type_invariant(self);
            assert(self.loaded()[i as int] == self.data@[i as int]@);
            assert(self.manifest_view().indexes[i as int] == self.manifest.indexes@[i as int]@);
        }
        let pt: PhysicalType = match sorted_physical_type(&self.manifest.indexes[i]) {
            Ok(t) => t,
            Err(e) => {
                proof {
                    lemma_index_named(self.manifest_view().indexes, index_name@, 0);
                }
                return Err(e);
            },
        };
        if !lo.matches_physical_type(pt) || !hi.matches_physical_type(pt) {
            let mut s: String = joined3(
                "lookup_range: key variants (",
                lo.variant_name(),
                ", ",
            );
            s.append(hi.variant_name());
            s.append(") do not match index `");
            s.append(index_name);
            s.append("` physical type ");
            s.append(physical_str(pt));
            return Err(CodecError::InvalidInput(s));
        }
        match (&self.data[i], lo, hi) {
            (LoadedIndexData::SortedI64 { values, postings }, Key::I64(a), Key::I64(b)) => {
                if b.less(a) {
                    return Ok(Vec::new());
                }
                proof {
                    assert(keys_in(self.data@[i as int]@) =~= value_keys(values@));
                }
                span_hits(values, postings, a, b, self.rowset_format)
            },
            (LoadedIndexData::SortedI32 { values, postings }, Key::I32(a), Key::I32(b)) => {
                if b.less(a) {
                    return Ok(Vec::new());
                }
                proof {
                    assert(keys_in(self.data@[i as int]@) =~= value_keys(values@));
                }
                span_hits(values, postings, a, b, self.rowset_format)
            },
            (LoadedIndexData::SortedBytes { values, postings }, Key::Bytes(a), Key::Bytes(b)) => {
                if bytes_less(b, a) {
                    return Ok(Vec::new());
                }
                proof {
                    lemma_string_keys(values@);
                    assert(keys_in(self.data@[i as int]@) =~= value_keys(values@));
                }
                span_hits(
                    values,
                    postings,
                    &slice_to_vec(a),
                    &slice_to_vec(b),
                    self.rowset_format,
                )
            },
            _ => Err(
                CodecError::InvalidInput(
                    joined3("lookup_range: key/index type mismatch on `", index_name, "`"),
                ),
            ),
        }
    }

    /// The pages and rows of the source with a pair of values.
    pub fn lookup_composite_eq(&self, index_name: &str, key_a: &Key<'_>, key_b: &Key<'_>) -> (r:
        Result<Vec<IndexHit>>)
        ensures
            match composite_eq_fault(
                self.manifest_view().indexes,
                index_name@,
                *key_a,
                *key_b,
            ) {
                Some(f) => reports(r, Some(f)),
                None => answers_key(
                    r,
                    self.index(index_name@),
                    SortKey::Pair(key_a->I64_0 as int, key_b->I64_0 as int),
                    self.format(),
                ),
            },
    {
        let i: usize = match self.find_index(index_name) {
            Ok(i) => i,
            Err(e) => {
                return Err(e);
            },
        };
        proof {
            use_type_invariant(self);
            assert(self.loaded()[i as int] == self.data@[i as int]@);
            assert(self.manifest_view().indexes[i as int] == self.manifest.indexes@[i as int]@);
        }
        match &self.data[i] {
            LoadedIndexData::CompositePrefixI64I64 { values, postings } => match (key_a, key_b) {
                (Key::I64(a), Key::I64(b)) => {
                    proof {
                        assert(keys_in(self.data@[i as int]@) =~= value_keys(values@));
                    }
                    run_hits(values, postings, &(*a, *b), self.rowset_format)
                },
                _ => {
                    let mut s: String = joined3(
                        "lookup_composite_eq: key variants `",
                        key_a.variant_name(),
                        "`+`",
                    );
                    s.append(key_b.variant_name());
                    s.append("` do not match (INT64, INT64)");
                    Err(CodecError::InvalidInput(s))
                },
            },
            _ => Err(
                CodecError::InvalidInput(
                    joined3(
                        "lookup_composite_eq: index `",
                        index_name,
                        "` is not a (INT64, INT64) composite-prefix index",
                    ),
                ),
            ),
        }
    }

    /// The pages and rows of the source whose pair starts with a value.
    pub fn lookup_composite_prefix(&self, index_name: &str, key_a: &Key<'_>) -> (r: Result<
        Vec<IndexHit>,
    >)
        ensures
            match composite_prefix_fault(self.manifest_view().indexes, index_name@, *key_a) {
                Some(f) => reports(r, Some(f)),
                None => answers_between(
                    r,
                    self.index(index_name@),
                    SortKey::Pair(key_a->I64_0 as int, i64::MIN as int),
                    SortKey::Pair(key_a->I64_0 as int, i64::MAX as int),
                    self.format(),
                ),
            },
    {
        let i: usize = match self.find_index(index_name) {
            Ok(i) => i,
            Err(e) => {
                return Err(e);
            },
        };
        proof {
            use_type_invariant(self);
            assert(self.loaded()[i as int] == self.data@[i as int]@);
            assert(self.manifest_view().indexes[i as int] == self.manifest.indexes@[i as int]@);
        }
        match &self.data[i] {
            LoadedIndexData::CompositePrefixI64I64 { values, postings } => match key_a {
                Key::I64(a) => {
                    proof {
                        assert(keys_in(self.data@[i as int]@) =~= value_keys(values@));
                    }
                    span_hits(
                        values,
                        postings,
                        &(*a, i64::MIN),
                        &(*a, i64::MAX),
                        self.rowset_format,
                    )
                },
                _ => Err(
                    CodecError::InvalidInput(
                        joined3(
                            "lookup_composite_prefix: key variant `",
                            key_a.variant_name(),
                            "` does not match INT64",
                        ),
                    ),
                ),
            },
            _ => Err(
                CodecError::InvalidInput(
                    joined3(
                        "lookup_composite_prefix: index `",
                        index_name,
                        "` is not a (INT64, INT64) composite-prefix index",
                    ),
                ),
            ),
        }
    }

    /// The pages and rows of the source with a token, which must be one as
    /// the index's tokenizer gives it.
    pub fn lookup_token(&self, index_name: &str, normalized_token: &[u8]) -> (r: Result<
        Vec<IndexHit>,
    >)
        ensures
            match token_fault(self.manifest_view().indexes, index_name@) {
                Some(f) => reports(r, Some(f)),
                None => answers_key(
                    r,
                    self.index(index_name@),
                    SortKey::Bytes(normalized_token@),
                    self.format(),
                ),
            },
    {
        let i: usize = match self.find_index(index_name) {
            Ok(i) => i,
            Err(e) => {
                return Err(e);
            },
        };
        proof {
            use_type_invariant(self);
            assert(self.loaded()[i as int] == self.data@[i as int]@);
            assert(self.manifest_view().indexes[i as int] == self.manifest.indexes@[i as int]@);
        }
        match &self.data[i] {
            LoadedIndexData::Inverted { tokens, postings } => {
                proof {
                    lemma_string_keys(tokens@);
                    assert(keys_in(self.data@[i as int]@) =~= value_keys(tokens@));
                }
                run_hits(tokens, postings, &slice_to_vec(normalized_token), self.rowset_format)
            },
            _ => Err(
                CodecError::InvalidInput(
                    joined3("lookup_token: index `", index_name, "` is not an inverted index"),
                ),
            ),
        }
    }

    /// The pages of the source that may hold a value. Pages are named that
    /// do not hold it; none that does is left out.
    pub fn bloom_probe(&self, index_name: &str, key: &Key<'_>) -> (r: Result<Vec<(u32, u32)>>)
        ensures
            match bloom_fault(self.manifest_view().indexes, index_name@) {
                Some(f) => reports(r, Some(f)),
                None => gives(r, pages_told(self.index(index_name@), key_hash(*key))),
            },
    {
        let i: usize = match self.find_index(index_name) {
            Ok(i) => i,
            Err(e) => {
                return Err(e);
            },
        };
        proof {
            use_type_invariant(self);
            assert(self.loaded()[i as int] == self.data@[i as int]@);
            assert(self.manifest_view().indexes[i as int] == self.manifest.indexes@[i as int]@);
        }
        match &self.data[i] {
            LoadedIndexData::BloomPage { source_rgs, source_pages, blooms } => {
                probe_pages(source_rgs, source_pages, blooms, hash_of_key(key))
            },
            _ => Err(
                CodecError::InvalidInput(
                    joined3("bloom_probe: index `", index_name, "` is not a page-Bloom index"),
                ),
            ),
        }
    }
}

proof fn lemma_index_named(list: Seq<EntryView>, name: Seq<char>, from: nat)
    ensures
        index_named(list, name, from) matches Some(i) ==> i < list.len() && list[i as int].name
            == name,
    decreases list.len() - from,
{
    if from < list.len() && list[from as int].name != name {
        lemma_index_named(list, name, from + 1);
    }
}

} // verus!
