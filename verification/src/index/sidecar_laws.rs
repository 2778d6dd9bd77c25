//! What a sidecar that was built gives back when it is opened.
//!
//! A writer stores a table's columns over the row groups of a file, and its
//! manifest in the file's metadata. Opened over the source it was built from,
//! such a file gives back the manifest and the index rows, and the reads
//! through it are scans of the source.

use vstd::prelude::*;
use vstd::utf8::{encode_utf8, encode_utf8_decode_utf8, encode_utf8_valid_utf8};

use crate::delta::byte_strings;
use crate::error::{Fault, Outcome, Result};
use crate::index::bloom_laws::{holds_filters, law_bloom_read_is_scan};
use crate::index::builder::{
    bad_name, carries_manifest, column_keys, column_name, filter_table, holds_index_rows,
    i64_source, index_table, indexes_file, is_page_filter, page_list, page_values, ColumnData,
    KeySource, NamedColumn, SidecarTable,
};
use crate::index::file::{byte_values, i64_values, ParquetFile};
use crate::index::fingerprint::fingerprint_of_file;
use crate::index::keys::{IndexKey, SortKey};
use crate::index::laws::{
    between, holds_index, kept, law_equality_read_is_scan, law_range_read_is_scan, readable,
    same_key, wanted_rows, whole, Values,
};
use crate::index::lookup::{hits_in, is_run, is_span, PostingsView};
use crate::index::manifest::{
    manifest_json, EntryView, KindView, ManifestFault, ManifestView, PhysicalType,
    SourceFingerprint,
};
use crate::index::manifest_laws::{law_manifest_round_trip, writable_entry};
use crate::index::materialize::leaf_named;
use crate::index::order::RowView;
use crate::index::query::{
    anchor, bloom_fault, gives, gives_strings, key_hash, pages_told, query_token, reads_between,
    reads_between_strings, reads_key, reads_key_strings,
};
use crate::index::reader::{
    as_fault, composite_eq_fault, composite_prefix_fault, entry_with, eq_fault, index_at,
    index_named, indexes_from, is_pair, keys_in, next_start, open_fault, postings_in, range_fault,
    sidecar_manifest, span_of, token_fault, LoadedView, ParquetIndex, SidecarVersion,
};
use crate::index::rowset::RowsetFormat;
use crate::index::types::Key;

verus! {

/// That a file's metadata holds a text under a key.
pub open spec fn stores_text(file: ParquetFile, key: Seq<char>, text: Seq<char>) -> bool {
    &&& file.key_value_metadata is Some
    &&& entry_with(file.key_value_metadata->Some_0@, encode_utf8(key), 0) matches Some(kv) && {
        &&& kv.value is Some
        &&& kv.value->Some_0@ == encode_utf8(text)
    }
}

/// That the row groups of a file hold the columns of a table, each column cut
/// into parts of whatever size. There is at least one row group.
pub open spec fn stores_columns(file: ParquetFile, columns: Seq<NamedColumn>) -> bool {
    let n = file.row_groups@.len();
    &&& n >= 1
    &&& forall|c: int|
        0 <= c < columns.len() ==> match (#[trigger] columns[c]).data {
            ColumnData::I64(v) => file.i64s_over(0, n, c as nat) == Ok::<Seq<i64>, Fault>(v@),
            ColumnData::I32(v) => file.i32s_over(0, n, c as nat) == Ok::<Seq<i32>, Fault>(v@),
            ColumnData::ByteArray(v) => file.strings_over(0, n, c as nat) == Ok::<
                Seq<Seq<u8>>,
                Fault,
            >(byte_strings(v@)),
        }
}

/// That a file holds a sidecar as it was built: its columns over its row
/// groups, and its manifest under its key.
pub open spec fn stores_table(file: ParquetFile, t: SidecarTable) -> bool {
    stores_columns(file, t.columns@) && stores_text(file, t.manifest_key@, t.manifest_json@)
}

/// The entry of the one index of a sidecar.
pub open spec fn one_entry(index_name: Seq<char>, kind: KindView) -> EntryView {
    EntryView { name: index_name, kind, sidecar_row_group: 0 }
}

/// The manifest of a sidecar with one index over a file.
pub open spec fn one_manifest(file: ParquetFile, index_name: Seq<char>, kind: KindView) -> ManifestView {
    ManifestView {
        source_fingerprint: fingerprint_of_file(file)->Ok_0,
        indexes: seq![one_entry(index_name, kind)],
    }
}

/// The manifest of a sidecar that was built and stored is read back as it was
/// written.
pub proof fn law_written_manifest_is_read(
    idx_file: ParquetFile,
    t: SidecarTable,
    file: ParquetFile,
    index_name: Seq<char>,
    kind: KindView,
)
    requires
        carries_manifest(t, file, index_name, kind),
        stores_text(idx_file, t.manifest_key@, t.manifest_json@),
        writable_entry(one_entry(index_name, kind)),
    ensures
        sidecar_manifest(idx_file) == Ok::<(ManifestView, SidecarVersion), ManifestFault>(
            (one_manifest(file, index_name, kind), SidecarVersion::V3),
        ),
{
    let m = one_manifest(file, index_name, kind);
    encode_utf8_valid_utf8(manifest_json(m));
    encode_utf8_decode_utf8(manifest_json(m));
    law_manifest_round_trip(m);
}

/// A sidecar does not open over a source that has changed since it was
/// built: the fingerprints differ, and both are reported.
pub proof fn law_changed_source_is_refused(
    idx_file: ParquetFile,
    source: ParquetFile,
    actual: SourceFingerprint,
)
    requires
        sidecar_manifest(idx_file) is Ok,
        fingerprint_of_file(source) == Ok::<SourceFingerprint, Fault>(actual),
        actual != sidecar_manifest(idx_file)->Ok_0.0.source_fingerprint,
    ensures
        open_fault(idx_file, source) == Some(
            as_fault(
                ManifestFault::SourceFingerprintMismatch {
                    expected: sidecar_manifest(idx_file)->Ok_0.0.source_fingerprint,
                    actual,
                },
            ),
        ),
{
}

/// A sidecar with one index that was stored and can be loaded opens, and what
/// is opened has the manifest and the index.
proof fn lemma_opens(
    idx_file: ParquetFile,
    t: SidecarTable,
    file: ParquetFile,
    index_name: Seq<char>,
    kind: KindView,
)
    requires
        carries_manifest(t, file, index_name, kind),
        stores_table(idx_file, t),
        writable_entry(one_entry(index_name, kind)),
        fingerprint_of_file(file) is Ok,
        index_at(
            idx_file,
            one_entry(index_name, kind),
            idx_file.row_groups@.len(),
        ) is Ok,
    ensures
        open_fault(idx_file, file) is None,
        forall|ix: ParquetIndex| #[trigger]
            ix.holds(idx_file) ==> {
                &&& ix.manifest_view() == one_manifest(file, index_name, kind)
                &&& ix.format() == RowsetFormat::V2Tagged
                &&& index_named(ix.manifest_view().indexes, index_name, 0) == Some(0nat)
                &&& ix.index(index_name) == index_at(
                    idx_file,
                    one_entry(index_name, kind),
                    idx_file.row_groups@.len(),
                )->Ok_0
            },
{
    law_written_manifest_is_read(idx_file, t, file, index_name, kind);
    let list = one_manifest(file, index_name, kind).indexes;
    let e = one_entry(index_name, kind);
    let n = idx_file.row_groups@.len();
    assert(list[0] == e);
    assert(list.drop_last() =~= Seq::empty());
    assert(next_start(list.drop_last(), 0, n) == n);
    assert(next_start(list, 0, n) == n);
    assert(span_of(idx_file, list, e, SidecarVersion::V3) == n);
    let d = index_at(idx_file, e, n)->Ok_0;
    let rest = indexes_from(idx_file, list, SidecarVersion::V3, 1);
    assert(rest.emitted =~= Seq::empty());
    assert(indexes_from(idx_file, list, SidecarVersion::V3, 0).emitted =~= seq![d]);
}

/// The postings that columns from `at` on hold.
pub open spec fn column_postings(columns: Seq<NamedColumn>, at: int) -> PostingsView {
    PostingsView {
        target_rgs: columns[at].data->I32_0@,
        target_pages: columns[at + 1].data->I32_0@,
        rowsets: byte_strings(columns[at + 2].data->ByteArray_0@),
    }
}

/// What the columns of a table say as an index of a kind.
pub open spec fn table_view(columns: Seq<NamedColumn>, kind: KindView) -> LoadedView {
    match kind {
        KindView::Sorted { physical_type, .. } => {
            let postings = column_postings(columns, 1);
            match physical_type {
                PhysicalType::Int64 => LoadedView::SortedI64 {
                    values: columns[0].data->I64_0@,
                    postings,
                },
                PhysicalType::Int32 => LoadedView::SortedI32 {
                    values: columns[0].data->I32_0@,
                    postings,
                },
                PhysicalType::ByteArray => LoadedView::SortedBytes {
                    values: byte_strings(columns[0].data->ByteArray_0@),
                    postings,
                },
            }
        },
        KindView::CompositePrefix { .. } => {
            let a = columns[0].data->I64_0@;
            let b = columns[1].data->I64_0@;
            LoadedView::CompositePrefixI64I64 {
                values: Seq::new(a.len(), |i: int| (a[i], b[i])),
                postings: column_postings(columns, 2),
            }
        },
        KindView::Inverted { .. } => LoadedView::Inverted {
            tokens: byte_strings(columns[0].data->ByteArray_0@),
            postings: column_postings(columns, 1),
        },
        KindView::BloomPage { .. } => LoadedView::BloomPage {
            source_rgs: columns[0].data->I32_0@,
            source_pages: columns[1].data->I32_0@,
            blooms: byte_strings(columns[2].data->ByteArray_0@),
        },
    }
}

/// That an index over a pair of columns is one that readers take.
pub open spec fn loadable(kind: KindView) -> bool {
    kind is CompositePrefix ==> is_pair(kind->source_columns, kind->physical_types)
}

/// The rows that columns hold are as many as the columns have values.
proof fn lemma_column_lengths(
    columns: Seq<NamedColumn>,
    kind: KindView,
    rows: Seq<RowView>,
    file: ParquetFile,
    column: nat,
)
    requires
        holds_index_rows(columns, kind, rows, file, column),
    ensures
        column_keys(columns[0].data).len() == rows.len(),
        kind is CompositePrefix ==> column_postings(columns, 2).aligned(rows.len()),
        kind !is CompositePrefix ==> column_postings(columns, 1).aligned(rows.len()),
{
    let keys = rows.map_values(|r: RowView| r.key);
    assert(keys.len() == rows.len());
}

/// An index that was built is loaded as its table.
proof fn lemma_loads(
    idx_file: ParquetFile,
    columns: Seq<NamedColumn>,
    e: EntryView,
    rows: Seq<RowView>,
    file: ParquetFile,
    column: nat,
)
    requires
        stores_columns(idx_file, columns),
        holds_index_rows(columns, e.kind, rows, file, column),
        loadable(e.kind),
        e.sidecar_row_group == 0,
    ensures
        index_at(idx_file, e, idx_file.row_groups@.len()) == Ok::<LoadedView, Fault>(
            table_view(columns, e.kind),
        ),
{
    lemma_column_lengths(columns, e.kind, rows, file, column);
    let n = idx_file.row_groups@.len();
    assert(columns[0].data == columns[0].data);
    assert(columns[1].data == columns[1].data);
    assert(columns[2].data == columns[2].data);
    assert(columns[3].data == columns[3].data);
    if e.kind is CompositePrefix {
        assert(columns[4].data == columns[4].data);
    }
}

/// A table's view holds the index rows that the table was made of.
proof fn lemma_view_holds(
    columns: Seq<NamedColumn>,
    kind: KindView,
    rows: Seq<RowView>,
    file: ParquetFile,
    column: nat,
)
    requires
        holds_index_rows(columns, kind, rows, file, column),
    ensures
        holds_index(
            keys_in(table_view(columns, kind)),
            postings_in(table_view(columns, kind)),
            rows,
            file,
            column,
        ),
{
    lemma_column_lengths(columns, kind, rows, file, column);
    let keys = rows.map_values(|r: RowView| r.key);
    let loaded = keys_in(table_view(columns, kind));
    assert forall|i: int| 0 <= i < keys.len() implies loaded[i] == #[trigger] keys[i] by {
        if kind is CompositePrefix {
            assert(rows[i].key == SortKey::Pair(
                columns[0].data->I64_0@[i] as int,
                columns[1].data->I64_0@[i] as int,
            ));
        } else {
            assert(column_keys(columns[0].data)[i] == keys[i]);
        }
    }
    assert(loaded =~= keys);
}

/// Build, store, open: a sidecar with a sorted, composite or inverted index
/// that was built over a source and stored opens over that source. What is
/// opened has the manifest that was written, and the index of its name is
/// the table that was written.
pub proof fn law_built_index_opens(
    idx_file: ParquetFile,
    t: SidecarTable,
    file: ParquetFile,
    column: nat,
    source: KeySource,
    index_name: Seq<char>,
    kind: KindView,
)
    requires
        index_table(t, file, column, source, index_name, kind),
        loadable(kind),
        stores_table(idx_file, t),
        writable_entry(one_entry(index_name, kind)),
        fingerprint_of_file(file) is Ok,
    ensures
        open_fault(idx_file, file) is None,
        forall|ix: ParquetIndex| #[trigger]
            ix.holds(idx_file) ==> {
                &&& ix.manifest_view() == one_manifest(file, index_name, kind)
                &&& ix.format() == RowsetFormat::V2Tagged
                &&& index_named(ix.manifest_view().indexes, index_name, 0) == Some(0nat)
                &&& ix.index(index_name) == table_view(t.columns@, kind)
            },
{
    let rows = choose|rows: Seq<RowView>| #[trigger]
        indexes_file(rows, file, column, source) && holds_index_rows(
            t.columns@,
            kind,
            rows,
            file,
            column,
        );
    lemma_loads(idx_file, t.columns@, one_entry(index_name, kind), rows, file, column);
    lemma_opens(idx_file, t, file, index_name, kind);
}

/// Build, store, open: the same of a sidecar with a page-filter index.
pub proof fn law_built_filters_open<F: Fn(usize) -> u32>(
    idx_file: ParquetFile,
    t: SidecarTable,
    file: ParquetFile,
    column: nat,
    index_name: Seq<char>,
    fpp: Seq<char>,
    num_blocks: F,
)
    requires
        filter_table(t, file, column, index_name, fpp, num_blocks),
        stores_table(idx_file, t),
        writable_entry(one_entry(index_name, filter_kind(file, column, fpp))),
        fingerprint_of_file(file) is Ok,
    ensures
        open_fault(idx_file, file) is None,
        forall|ix: ParquetIndex| #[trigger]
            ix.holds(idx_file) ==> {
                &&& ix.manifest_view() == one_manifest(
                    file,
                    index_name,
                    filter_kind(file, column, fpp),
                )
                &&& index_named(ix.manifest_view().indexes, index_name, 0) == Some(0nat)
                &&& ix.index(index_name) == table_view(
                    t.columns@,
                    filter_kind(file, column, fpp),
                )
            },
{
    let kind = filter_kind(file, column, fpp);
    let c = t.columns@;
    let n = idx_file.row_groups@.len();
    let list = page_list(file, column, file.row_groups@.len());
    assert(c[0].data->I32_0@.len() == list.len());
    assert(c[1].data->I32_0@.len() == list.len());
    assert(idx_file.i32s_over(0, n, 0) == Ok::<Seq<i32>, Fault>(c[0].data->I32_0@));
    assert(idx_file.i32s_over(0, n, 1) == Ok::<Seq<i32>, Fault>(c[1].data->I32_0@));
    assert(idx_file.strings_over(0, n, 2) == Ok::<Seq<Seq<u8>>, Fault>(
        byte_strings(c[2].data->ByteArray_0@),
    ));
    lemma_opens(idx_file, t, file, index_name, kind);
}

/// The kind of a page-filter index over a column.
pub open spec fn filter_kind(file: ParquetFile, column: nat, fpp: Seq<char>) -> KindView {
    KindView::BloomPage {
        source_column: column_name(file, column, bad_name())->Ok_0,
        target_fpp: fpp,
    }
}

/// The one index of a sidecar refuses no lookup of its kind with a key of its
/// type.
pub proof fn law_built_index_takes_its_keys(
    file: ParquetFile,
    index_name: Seq<char>,
    kind: KindView,
    lo: Key<'_>,
    hi: Key<'_>,
)
    ensures
        ({
            let list = one_manifest(file, index_name, kind).indexes;
            match kind {
                KindView::Sorted { physical_type, .. } => {
                    &&& lo.physical_type() == physical_type ==> eq_fault(
                        list,
                        index_name,
                        lo,
                    ) is None
                    &&& lo.physical_type() == physical_type && hi.physical_type()
                        == physical_type ==> range_fault(list, index_name, lo, hi) is None
                },
                KindView::CompositePrefix { .. } => {
                    &&& lo is I64 ==> composite_prefix_fault(list, index_name, lo) is None
                    &&& lo is I64 && hi is I64 ==> composite_eq_fault(
                        list,
                        index_name,
                        lo,
                        hi,
                    ) is None
                },
                KindView::Inverted { tokenizer, .. } => {
                    &&& token_fault(list, index_name) is None
                    &&& forall|query: Seq<u8>|
                        #![trigger query_token(list, index_name, query)]
                        tokenizer.tokens(query).len() == 1 ==> query_token(
                            list,
                            index_name,
                            query,
                        ) == Ok::<Seq<u8>, Fault>(tokenizer.tokens(query)[0])
                },
                KindView::BloomPage { .. } => bloom_fault(list, index_name) is None,
            }
        }),
{
    let list = one_manifest(file, index_name, kind).indexes;
    assert(list[0] == one_entry(index_name, kind));
    assert(index_named(list, index_name, 0) == Some(0nat));
}

/// A source with an index over it: the pages are those of a column that the
/// manifest's name of it finds, and every row is where the file says.
pub open spec fn indexed_source(
    file: ParquetFile,
    column: nat,
    source: KeySource,
    kind: KindView,
    index_name: Seq<char>,
) -> bool {
    let list = seq![one_entry(index_name, kind)];
    &&& whole(file, column, source)
    &&& anchor(list, index_name) is Ok
    &&& leaf_named(file, anchor(list, index_name)->Ok_0) == Ok::<nat, Fault>(column)
}

/// What a scan of a source gives: the values of a column in the rows that have
/// a wanted key.
pub open spec fn scanned<T>(
    file: ParquetFile,
    source: KeySource,
    wanted: spec_fn(SortKey) -> bool,
    values: Values<T>,
) -> Outcome<T> {
    Outcome {
        emitted: kept(values, wanted_rows(source, wanted), 0, file.row_groups@.len()),
        fault: None,
    }
}

/// The reads of a key and of a range in an index that was built, stored and
/// opened.
proof fn lemma_built_reads<T>(
    ix: ParquetIndex,
    idx_file: ParquetFile,
    t: SidecarTable,
    file: ParquetFile,
    column: nat,
    source: KeySource,
    index_name: Seq<char>,
    kind: KindView,
    target_column: nat,
    values: Values<T>,
)
    requires
        index_table(t, file, column, source, index_name, kind),
        loadable(kind),
        stores_table(idx_file, t),
        writable_entry(one_entry(index_name, kind)),
        fingerprint_of_file(file) is Ok,
        ix.holds(idx_file),
        indexed_source(file, column, source, kind, index_name),
        readable(file, values),
    ensures
        forall|key: SortKey, start: nat, end: nat| #[trigger]
            is_run(keys_in(ix.index(index_name)), key, start, end) ==> ix.target(
                file,
                index_name,
                target_column,
            ).found_values(
                hits_in(postings_in(ix.index(index_name)), start, end, ix.format()),
                values,
            ) == scanned(file, source, same_key(key), values),
        forall|lo: SortKey, hi: SortKey, start: nat, end: nat| #[trigger]
            is_span(keys_in(ix.index(index_name)), lo, hi, start, end) ==> ix.target(
                file,
                index_name,
                target_column,
            ).found_values(
                hits_in(postings_in(ix.index(index_name)), start, end, ix.format()),
                values,
            ) == scanned(file, source, between(lo, hi), values),
{
    law_built_index_opens(idx_file, t, file, column, source, index_name, kind);
    let rows = choose|rows: Seq<RowView>| #[trigger]
        indexes_file(rows, file, column, source) && holds_index_rows(
            t.columns@,
            kind,
            rows,
            file,
            column,
        );
    lemma_view_holds(t.columns@, kind, rows, file, column);
    let target = ix.target(file, index_name, target_column);
    let d = ix.index(index_name);
    let keys = keys_in(d);
    let p = postings_in(d);
    assert forall|key: SortKey, start: nat, end: nat| #[trigger]
        is_run(keys, key, start, end) implies target.found_values(
        hits_in(p, start, end, ix.format()),
        values,
    ) == scanned(file, source, same_key(key), values) by {
        law_equality_read_is_scan(
            target,
            column,
            source,
            rows,
            keys,
            p,
            key,
            start,
            end,
            values,
        );
    }
    assert forall|lo: SortKey, hi: SortKey, start: nat, end: nat| #[trigger]
        is_span(keys, lo, hi, start, end) implies target.found_values(
        hits_in(p, start, end, ix.format()),
        values,
    ) == scanned(file, source, between(lo, hi), values) by {
        law_range_read_is_scan(
            target,
            column,
            source,
            rows,
            keys,
            p,
            lo,
            hi,
            start,
            end,
            values,
        );
    }
}

/// Build, store, open, read: what an equality read gives through an index that
/// was built, stored and opened is what a scan of the source gives.
pub proof fn law_built_index_reads_a_key<T>(
    ix: ParquetIndex,
    idx_file: ParquetFile,
    t: SidecarTable,
    file: ParquetFile,
    column: nat,
    source: KeySource,
    index_name: Seq<char>,
    kind: KindView,
    target_column: nat,
    values: Values<T>,
    key: SortKey,
    r: Result<Vec<T>>,
)
    requires
        index_table(t, file, column, source, index_name, kind),
        loadable(kind),
        stores_table(idx_file, t),
        writable_entry(one_entry(index_name, kind)),
        fingerprint_of_file(file) is Ok,
        ix.holds(idx_file),
        indexed_source(file, column, source, kind, index_name),
        readable(file, values),
        reads_key(
            r,
            ix.index(index_name),
            key,
            ix.format(),
            ix.target(file, index_name, target_column),
            values,
        ),
    ensures
        gives(r, scanned(file, source, same_key(key), values)),
{
    lemma_built_reads(
        ix,
        idx_file,
        t,
        file,
        column,
        source,
        index_name,
        kind,
        target_column,
        values,
    );
}

/// Build, store, open, read: the same of a range read.
pub proof fn law_built_index_reads_a_range<T>(
    ix: ParquetIndex,
    idx_file: ParquetFile,
    t: SidecarTable,
    file: ParquetFile,
    column: nat,
    source: KeySource,
    index_name: Seq<char>,
    kind: KindView,
    target_column: nat,
    values: Values<T>,
    lo: SortKey,
    hi: SortKey,
    r: Result<Vec<T>>,
)
    requires
        index_table(t, file, column, source, index_name, kind),
        loadable(kind),
        stores_table(idx_file, t),
        writable_entry(one_entry(index_name, kind)),
        fingerprint_of_file(file) is Ok,
        ix.holds(idx_file),
        indexed_source(file, column, source, kind, index_name),
        readable(file, values),
        reads_between(
            r,
            ix.index(index_name),
            lo,
            hi,
            ix.format(),
            ix.target(file, index_name, target_column),
            values,
        ),
    ensures
        gives(r, scanned(file, source, between(lo, hi), values)),
{
    lemma_built_reads(
        ix,
        idx_file,
        t,
        file,
        column,
        source,
        index_name,
        kind,
        target_column,
        values,
    );
}

/// Build, store, open, read: the same of an equality read, or of a read of a
/// token, that gives byte strings.
pub proof fn law_built_index_reads_strings_of_a_key(
    ix: ParquetIndex,
    idx_file: ParquetFile,
    t: SidecarTable,
    file: ParquetFile,
    column: nat,
    source: KeySource,
    index_name: Seq<char>,
    kind: KindView,
    target_column: nat,
    key: SortKey,
    r: Result<Vec<Vec<u8>>>,
)
    requires
        index_table(t, file, column, source, index_name, kind),
        loadable(kind),
        stores_table(idx_file, t),
        writable_entry(one_entry(index_name, kind)),
        fingerprint_of_file(file) is Ok,
        ix.holds(idx_file),
        indexed_source(file, column, source, kind, index_name),
        readable(file, byte_values(file, target_column)),
        reads_key_strings(
            r,
            ix.index(index_name),
            key,
            ix.format(),
            ix.target(file, index_name, target_column),
        ),
    ensures
        gives_strings(r, scanned(file, source, same_key(key), byte_values(file, target_column))),
{
    lemma_built_reads(
        ix,
        idx_file,
        t,
        file,
        column,
        source,
        index_name,
        kind,
        target_column,
        byte_values(file, target_column),
    );
}

/// Build, store, open, read: the same of a range read that gives byte strings.
pub proof fn law_built_index_reads_strings_of_a_range(
    ix: ParquetIndex,
    idx_file: ParquetFile,
    t: SidecarTable,
    file: ParquetFile,
    column: nat,
    source: KeySource,
    index_name: Seq<char>,
    kind: KindView,
    target_column: nat,
    lo: SortKey,
    hi: SortKey,
    r: Result<Vec<Vec<u8>>>,
)
    requires
        index_table(t, file, column, source, index_name, kind),
        loadable(kind),
        stores_table(idx_file, t),
        writable_entry(one_entry(index_name, kind)),
        fingerprint_of_file(file) is Ok,
        ix.holds(idx_file),
        indexed_source(file, column, source, kind, index_name),
        readable(file, byte_values(file, target_column)),
        reads_between_strings(
            r,
            ix.index(index_name),
            lo,
            hi,
            ix.format(),
            ix.target(file, index_name, target_column),
        ),
    ensures
        gives_strings(r, scanned(file, source, between(lo, hi), byte_values(file, target_column))),
{
    lemma_built_reads(
        ix,
        idx_file,
        t,
        file,
        column,
        source,
        index_name,
        kind,
        target_column,
        byte_values(file, target_column),
    );
}

/// Build, store, open, read: what an equality read gives through a page-filter
/// index that was built, stored and opened is what a scan of the source
/// gives.
pub proof fn law_built_filters_read_a_key<F: Fn(usize) -> u32>(
    ix: ParquetIndex,
    idx_file: ParquetFile,
    t: SidecarTable,
    file: ParquetFile,
    column: nat,
    index_name: Seq<char>,
    fpp: Seq<char>,
    num_blocks: F,
    target_column: nat,
    key: i64,
    r: Result<Vec<i64>>,
)
    requires
        filter_table(t, file, column, index_name, fpp, num_blocks),
        forall|n: usize, b: u32| #[trigger]
            call_ensures(num_blocks, (n,), b) ==> 1 <= b && 32 * b <= i32::MAX,
        stores_table(idx_file, t),
        writable_entry(one_entry(index_name, filter_kind(file, column, fpp))),
        fingerprint_of_file(file) is Ok,
        ix.holds(idx_file),
        whole(file, column, i64_source(file, column)),
        leaf_named(file, column_name(file, column, bad_name())->Ok_0) == Ok::<nat, Fault>(column),
        readable(file, i64_values(file, target_column)),
        gives(
            r,
            ix.target(file, index_name, target_column).page_matches(
                pages_told(ix.index(index_name), key_hash(Key::I64(key))),
                key,
            ),
        ),
    ensures
        gives(
            r,
            scanned(
                file,
                i64_source(file, column),
                same_key(SortKey::Int(key as int)),
                i64_values(file, target_column),
            ),
        ),
{
    law_built_filters_open(idx_file, t, file, column, index_name, fpp, num_blocks);
    let c = t.columns@;
    let v = c[2].data->ByteArray_0@;
    let blooms = byte_strings(v);
    let list = page_list(file, column, file.row_groups@.len());
    assert forall|i: int| 0 <= i < list.len() implies is_page_filter(
        #[trigger] blooms[i],
        page_values(file, column, list[i].0, list[i].1),
        num_blocks,
    ) by {
        assert(blooms[i] == v[i]@);
    }
    assert(holds_filters(
        c[0].data->I32_0@,
        c[1].data->I32_0@,
        blooms,
        file,
        column,
        num_blocks,
    ));
    law_bloom_read_is_scan(
        ix.target(file, index_name, target_column),
        column,
        c[0].data->I32_0@,
        c[1].data->I32_0@,
        blooms,
        num_blocks,
        key,
    );
}

} // verus!
