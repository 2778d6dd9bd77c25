//! Reading of the rows that a lookup names.

use vstd::prelude::*;

use crate::bits::{
    bit, get_bit, holds_rows, lemma_byte_plain, lemma_pack_holds, lemma_pack_unique, pack, set_bit,
};
use crate::bloom::{contains, filter_in, parquet_xxh64, xxh64, SplitBlockBloomFilter};
use crate::delta::byte_strings;
use crate::error::{reports, CodecError, Fault, Outcome, Result};
use crate::index::file::{byte_values, i32_values, i64_values, read_column_i64, ParquetFile};
use crate::index::keys::{key_before, SortKey};
use crate::index::lookup::{hits_in, is_run, is_span};
use crate::index::manifest::{EntryView, IndexKind, KindView, Tokenizer};
use crate::index::materialize::{
    assemble_groups, assembled, bitmaps_of, leaf_named, mask_err, materialize_byte_array,
    materialize_i32, materialize_i64, resolve_leaf_by_name, selected_values, short_mask,
    GroupBitmap, Reach,
};
use crate::index::reader::{
    composite_eq_fault, composite_prefix_fault, eq_fault, index_named, keys_in, postings_in,
    range_fault, unknown_index, wrong_kind, LoadedView, ParquetIndex,
};
use crate::index::rowset::RowsetFormat;
use crate::index::types::{hit_views, HitView, IndexHit, Key};
use crate::plain::{encode_plain_i32, encode_plain_i64, plain_bytes_i32, plain_bytes_i64};
use crate::text::{dec, joined3, text1};
use crate::wrap::{as_u32, low32};

verus! {

/// The column of the source whose pages the hits of an index speak of. For
/// an index over several columns it is the first of them.
pub open spec fn anchor(list: Seq<EntryView>, name: Seq<char>) -> std::result::Result<
    Seq<char>,
    Fault,
> {
    match index_named(list, name, 0) {
        None => Err(unknown_index(list, name)),
        Some(i) => match list[i as int].kind {
            KindView::Sorted { source_column, .. } => Ok(source_column),
            KindView::CompositePrefix { source_columns, .. } => if source_columns.len() == 0 {
                Err(
                    Fault::InvalidInput(
                        "composite index `"@ + name + "` has empty source_columns"@,
                    ),
                )
            } else {
                Ok(source_columns[0])
            },
            KindView::Inverted { source_column, .. } => Ok(source_column),
            KindView::BloomPage { .. } => Err(
                Fault::InvalidInput("index `"@ + name + "` does not produce IndexHits"@),
            ),
        },
    }
}

/// An index, a source, and the column that is read from it.
pub struct Target {
    pub indexes: Seq<EntryView>,
    pub name: Seq<char>,
    pub source: ParquetFile,
    pub column: nat,
}

impl Target {
    /// The row groups that hits name, each with the rows named in it.
    pub open spec fn groups(self, hits: Seq<HitView>) -> Outcome<(u32, Seq<bool>)> {
        match anchor(self.indexes, self.name) {
            Err(f) => Outcome { emitted: Seq::empty(), fault: Some(f) },
            Ok(c) => match leaf_named(self.source, c) {
                Err(f) => Outcome { emitted: Seq::empty(), fault: Some(f) },
                Ok(col) => assembled(self.source, col, hits, Reach::Rows, 0),
            },
        }
    }

    /// The values of the column in the rows that hits name.
    pub open spec fn named_values<T>(
        self,
        hits: Seq<HitView>,
        values: spec_fn(nat) -> std::result::Result<Seq<T>, Fault>,
    ) -> Outcome<T> {
        if hits.len() == 0 {
            Outcome { emitted: Seq::empty(), fault: None }
        } else {
            let groups = self.groups(hits);
            match groups.fault {
                Some(f) => Outcome { emitted: Seq::empty(), fault: Some(f) },
                None => selected_values(groups.emitted, self.column, values),
            }
        }
    }

    /// The values of the column in the rows that a lookup found, or the
    /// fault of the lookup.
    pub open spec fn found_values<T>(
        self,
        found: Outcome<HitView>,
        values: spec_fn(nat) -> std::result::Result<Seq<T>, Fault>,
    ) -> Outcome<T> {
        match found.fault {
            Some(f) => Outcome { emitted: Seq::empty(), fault: Some(f) },
            None => self.named_values(found.emitted, values),
        }
    }
}

/// That a read gave the values of an outcome, or failed as it did.
pub open spec fn gives<T>(r: Result<Vec<T>>, o: Outcome<T>) -> bool {
    reports(r, o.fault) && (r is Ok ==> r->Ok_0@ == o.emitted)
}

/// That a read gave the byte strings of an outcome, or failed as it did.
pub open spec fn gives_strings(r: Result<Vec<Vec<u8>>>, o: Outcome<Seq<u8>>) -> bool {
    reports(r, o.fault) && (r is Ok ==> byte_strings(r->Ok_0@) == o.emitted)
}

/// That a read gave the values in the rows of an index key.
pub open spec fn reads_key<T>(
    r: Result<Vec<T>>,
    d: LoadedView,
    key: SortKey,
    format: RowsetFormat,
    target: Target,
    values: spec_fn(nat) -> std::result::Result<Seq<T>, Fault>,
) -> bool {
    exists|start: nat, end: nat| #[trigger]
        is_run(keys_in(d), key, start, end) && gives(
            r,
            target.found_values(hits_in(postings_in(d), start, end, format), values),
        )
}

/// That a read gave the values in the rows of the index keys between two.
pub open spec fn reads_between<T>(
    r: Result<Vec<T>>,
    d: LoadedView,
    lo: SortKey,
    hi: SortKey,
    format: RowsetFormat,
    target: Target,
    values: spec_fn(nat) -> std::result::Result<Seq<T>, Fault>,
) -> bool {
    exists|start: nat, end: nat| #[trigger]
        is_span(keys_in(d), lo, hi, start, end) && gives(
            r,
            target.found_values(hits_in(postings_in(d), start, end, format), values),
        )
}

/// That a read gave the byte strings in the rows of an index key.
pub open spec fn reads_key_strings(
    r: Result<Vec<Vec<u8>>>,
    d: LoadedView,
    key: SortKey,
    format: RowsetFormat,
    target: Target,
) -> bool {
    exists|start: nat, end: nat| #[trigger]
        is_run(keys_in(d), key, start, end) && gives_strings(
            r,
            target.found_values(
                hits_in(postings_in(d), start, end, format),
                byte_values(target.source, target.column),
            ),
        )
}

/// That a read gave the byte strings in the rows of the index keys between
/// two.
pub open spec fn reads_between_strings(
    r: Result<Vec<Vec<u8>>>,
    d: LoadedView,
    lo: SortKey,
    hi: SortKey,
    format: RowsetFormat,
    target: Target,
) -> bool {
    exists|start: nat, end: nat| #[trigger]
        is_span(keys_in(d), lo, hi, start, end) && gives_strings(
            r,
            target.found_values(
                hits_in(postings_in(d), start, end, format),
                byte_values(target.source, target.column),
            ),
        )
}

impl ParquetIndex {
    /// An index of this sidecar, a source, and the column that is read.
    pub open spec fn target(&self, source: ParquetFile, name: Seq<char>, column: nat) -> Target {
        Target { indexes: self.manifest_view().indexes, name, source, column }
    }

    /// The column of the source whose pages the hits of an index speak of.
    fn anchor_column(&self, index_name: &str) -> (r: Result<String>)
        ensures
            match anchor(self.manifest_view().indexes, index_name@) {
                Ok(c) => r is Ok && r->Ok_0@ == c,
                Err(f) => reports(r, Some(f)),
            },
    {
        let i: usize = match self.find_index(index_name) {
            Ok(i) => i,
            Err(e) => {
                return Err(e);
            },
        };
        let m = self.manifest();
        proof {
            assert(self.manifest_view().indexes[i as int] == m.indexes@[i as int]@);
        }
        match &m.indexes[i].kind {
            IndexKind::Sorted { source_column, .. } => Ok(source_column.clone()),
            IndexKind::CompositePrefix { source_columns, .. } => {
                if source_columns.len() == 0 {
                    Err(
                        CodecError::InvalidInput(
                            joined3(
                                "composite index `",
                                index_name,
                                "` has empty source_columns",
                            ),
                        ),
                    )
                } else {
                    Ok(source_columns[0].clone())
                }
            },
            IndexKind::Inverted { source_column, .. } => Ok(source_column.clone()),
            IndexKind::BloomPage { .. } => Err(
                CodecError::InvalidInput(
                    joined3("index `", index_name, "` does not produce IndexHits"),
                ),
            ),
        }
    }

    /// The bitmaps of the rows that hits of an index name.
    pub fn assemble_bitmaps(
        &self,
        source: &ParquetFile,
        index_name: &str,
        hits: &Vec<IndexHit>,
    ) -> (r: Result<Vec<GroupBitmap>>)
        ensures
            reports(r, self.target(*source, index_name@, 0).groups(hit_views(hits@)).fault),
            r is Ok ==> bitmaps_of(
                r->Ok_0@,
                self.target(*source, index_name@, 0).groups(hit_views(hits@)).emitted,
            ),
    {
        let name: String = match self.anchor_column(index_name) {
            Ok(c) => c,
            Err(e) => {
                return Err(e);
            },
        };
        let column: usize = match resolve_leaf_by_name(source, name.as_str()) {
            Ok(c) => c,
            Err(e) => {
                return Err(e);
            },
        };
        assemble_groups(source, column, hits, Reach::Rows)
    }

    /// The i64 values of a column in the rows that hits name.
    fn gather_i64(
        &self,
        source: &ParquetFile,
        index_name: &str,
        hits: &Vec<IndexHit>,
        target_column: usize,
    ) -> (r: Result<Vec<i64>>)
        ensures
            gives(
                r,
                self.target(*source, index_name@, target_column as nat).named_values(
                    hit_views(hits@),
                    i64_values(*source, target_column as nat),
                ),
            ),
    {
        if hits.len() == 0 {
            let out: Vec<i64> = Vec::new();
            return Ok(out);
        }
        let groups: Vec<GroupBitmap> = match self.assemble_bitmaps(source, index_name, hits) {
            Ok(g) => g,
            Err(e) => {
                return Err(e);
            },
        };
        let ghost of = self.target(*source, index_name@, 0).groups(hit_views(hits@)).emitted;
        materialize_i64(source, &groups, target_column, Ghost(of))
    }

    /// The i32 values of a column in the rows that hits name.
    fn gather_i32(
        &self,
        source: &ParquetFile,
        index_name: &str,
        hits: &Vec<IndexHit>,
        target_column: usize,
    ) -> (r: Result<Vec<i32>>)
        ensures
            gives(
                r,
                self.target(*source, index_name@, target_column as nat).named_values(
                    hit_views(hits@),
                    i32_values(*source, target_column as nat),
                ),
            ),
    {
        if hits.len() == 0 {
            let out: Vec<i32> = Vec::new();
            return Ok(out);
        }
        let groups: Vec<GroupBitmap> = match self.assemble_bitmaps(source, index_name, hits) {
            Ok(g) => g,
            Err(e) => {
                return Err(e);
            },
        };
        let ghost of = self.target(*source, index_name@, 0).groups(hit_views(hits@)).emitted;
        materialize_i32(source, &groups, target_column, Ghost(of))
    }

    /// The byte strings of a column in the rows that hits name.
    fn gather_byte_array(
        &self,
        source: &ParquetFile,
        index_name: &str,
        hits: &Vec<IndexHit>,
        target_column: usize,
    ) -> (r: Result<Vec<Vec<u8>>>)
        ensures
            gives_strings(
                r,
                self.target(*source, index_name@, target_column as nat).named_values(
                    hit_views(hits@),
                    byte_values(*source, target_column as nat),
                ),
            ),
    {
        if hits.len() == 0 {
            let out: Vec<Vec<u8>> = Vec::new();
            proof {
                assert(byte_strings(out@) =~= Seq::empty());
            }
            return Ok(out);
        }
        let groups: Vec<GroupBitmap> = match self.assemble_bitmaps(source, index_name, hits) {
            Ok(g) => g,
            Err(e) => {
                return Err(e);
            },
        };
        let ghost of = self.target(*source, index_name@, 0).groups(hit_views(hits@)).emitted;
        materialize_byte_array(source, &groups, target_column, Ghost(of))
    }

    /// The values of an i64 column in the rows whose indexed value is the key.
    pub fn read_column_i64_where_eq(
        &self,
        source: &ParquetFile,
        index_name: &str,
        key: i64,
        target_column: usize,
    ) -> (r: Result<Vec<i64>>)
        ensures
            match eq_fault(self.manifest_view().indexes, index_name@, Key::I64(key)) {
                Some(f) => reports(r, Some(f)),
                None => reads_key(
                    r,
                    self.index(index_name@),
                    SortKey::Int(key as int),
                    self.format(),
                    self.target(*source, index_name@, target_column as nat),
                    i64_values(*source, target_column as nat),
                ),
            },
    {
        let hits: Vec<IndexHit> = match self.lookup_eq(index_name, &Key::I64(key)) {
            Ok(h) => h,
            Err(e) => {
                return Err(e);
            },
        };
        self.gather_i64(source, index_name, &hits, target_column)
    }

    /// The values of an i32 column in the rows whose indexed value is the key.
    pub fn read_column_i32_where_eq(
        &self,
        source: &ParquetFile,
        index_name: &str,
        key: i32,
        target_column: usize,
    ) -> (r: Result<Vec<i32>>)
        ensures
            match eq_fault(self.manifest_view().indexes, index_name@, Key::I32(key)) {
                Some(f) => reports(r, Some(f)),
                None => reads_key(
                    r,
                    self.index(index_name@),
                    SortKey::Int(key as int),
                    self.format(),
                    self.target(*source, index_name@, target_column as nat),
                    i32_values(*source, target_column as nat),
                ),
            },
    {
        let hits: Vec<IndexHit> = match self.lookup_eq(index_name, &Key::I32(key)) {
            Ok(h) => h,
            Err(e) => {
                return Err(e);
            },
        };
        self.gather_i32(source, index_name, &hits, target_column)
    }

    /// The values of a byte_array column in the rows whose indexed value is the key.
    pub fn read_column_byte_array_where_eq(
        &self,
        source: &ParquetFile,
        index_name: &str,
        key: &[u8],
        target_column: usize,
    ) -> (r: Result<Vec<Vec<u8>>>)
        ensures
            match eq_fault(self.manifest_view().indexes, index_name@, Key::Bytes(key)) {
                Some(f) => reports(r, Some(f)),
                None => reads_key_strings(
                    r,
                    self.index(index_name@),
                    SortKey::Bytes(key@),
                    self.format(),
                    self.target(*source, index_name@, target_column as nat),
                ),
            },
    {
        let hits: Vec<IndexHit> = match self.lookup_eq(index_name, &Key::Bytes(key)) {
            Ok(h) => h,
            Err(e) => {
                return Err(e);
            },
        };
        self.gather_byte_array(source, index_name, &hits, target_column)
    }

    /// The values of an i64 column in the rows whose indexed value lies in a
    /// range, both ends counted.
    pub fn read_column_i64_where_range(
        &self,
        source: &ParquetFile,
        index_name: &str,
        lo: i64,
        hi: i64,
        target_column: usize,
    ) -> (r: Result<Vec<i64>>)
        ensures
            match range_fault(
                self.manifest_view().indexes,
                index_name@,
                Key::I64(lo),
                Key::I64(hi),
            ) {
                Some(f) => reports(r, Some(f)),
                None => if key_before(SortKey::Int(hi as int), SortKey::Int(lo as int)) {
                    r is Ok && r->Ok_0@.len() == 0
                } else {
                    reads_between(
                        r,
                        self.index(index_name@),
                        SortKey::Int(lo as int),
                        SortKey::Int(hi as int),
                        self.format(),
                        self.target(*source, index_name@, target_column as nat),
                        i64_values(*source, target_column as nat),
                    )
                },
            },
    {
        let hits: Vec<IndexHit> = match self.lookup_range(
            index_name,
            &Key::I64(lo),
            &Key::I64(hi),
        ) {
            Ok(h) => h,
            Err(e) => {
                return Err(e);
            },
        };
        self.gather_i64(source, index_name, &hits, target_column)
    }

    /// The values of an i32 column in the rows whose indexed value lies in a
    /// range, both ends counted.
    pub fn read_column_i32_where_range(
        &self,
        source: &ParquetFile,
        index_name: &str,
        lo: i32,
        hi: i32,
        target_column: usize,
    ) -> (r: Result<Vec<i32>>)
        ensures
            match range_fault(
                self.manifest_view().indexes,
                index_name@,
                Key::I32(lo),
                Key::I32(hi),
            ) {
                Some(f) => reports(r, Some(f)),
                None => if key_before(SortKey::Int(hi as int), SortKey::Int(lo as int)) {
                    r is Ok && r->Ok_0@.len() == 0
                } else {
                    reads_between(
                        r,
                        self.index(index_name@),
                        SortKey::Int(lo as int),
                        SortKey::Int(hi as int),
                        self.format(),
                        self.target(*source, index_name@, target_column as nat),
                        i32_values(*source, target_column as nat),
                    )
                },
            },
    {
        let hits: Vec<IndexHit> = match self.lookup_range(
            index_name,
            &Key::I32(lo),
            &Key::I32(hi),
        ) {
            Ok(h) => h,
            Err(e) => {
                return Err(e);
            },
        };
        self.gather_i32(source, index_name, &hits, target_column)
    }

    /// The values of a byte_array column in the rows whose indexed value lies in a
    /// range, both ends counted.
    pub fn read_column_byte_array_where_range(
        &self,
        source: &ParquetFile,
        index_name: &str,
        lo: &[u8],
        hi: &[u8],
        target_column: usize,
    ) -> (r: Result<Vec<Vec<u8>>>)
        ensures
            match range_fault(
                self.manifest_view().indexes,
                index_name@,
                Key::Bytes(lo),
                Key::Bytes(hi),
            ) {
                Some(f) => reports(r, Some(f)),
                None => if key_before(SortKey::Bytes(hi@), SortKey::Bytes(lo@)) {
                    r is Ok && r->Ok_0@.len() == 0
                } else {
                    reads_between_strings(
                        r,
                        self.index(index_name@),
                        SortKey::Bytes(lo@),
                        SortKey::Bytes(hi@),
                        self.format(),
                        self.target(*source, index_name@, target_column as nat),
                    )
                },
            },
    {
        let hits: Vec<IndexHit> = match self.lookup_range(
            index_name,
            &Key::Bytes(lo),
            &Key::Bytes(hi),
        ) {
            Ok(h) => h,
            Err(e) => {
                return Err(e);
            },
        };
        let r = self.gather_byte_array(source, index_name, &hits, target_column);
        proof {
            assert(hit_views(hits@).len() == hits@.len());
            if r is Ok {
                assert(byte_strings(r->Ok_0@).len() == r->Ok_0@.len());
            }
        }
        r
    }

    /// The values of an i64 column in the rows whose indexed pair is the
    /// given one.
    pub fn read_column_i64_where_composite_eq(
        &self,
        source: &ParquetFile,
        index_name: &str,
        key_a: i64,
        key_b: i64,
        target_column: usize,
    ) -> (r: Result<Vec<i64>>)
        ensures
            match composite_eq_fault(
                self.manifest_view().indexes,
                index_name@,
                Key::I64(key_a),
                Key::I64(key_b),
            ) {
                Some(f) => reports(r, Some(f)),
                None => reads_key(
                    r,
                    self.index(index_name@),
                    SortKey::Pair(key_a as int, key_b as int),
                    self.format(),
                    self.target(*source, index_name@, target_column as nat),
                    i64_values(*source, target_column as nat),
                ),
            },
    {
        let hits: Vec<IndexHit> = match self.lookup_composite_eq(
            index_name,
            &Key::I64(key_a),
            &Key::I64(key_b),
        ) {
            Ok(h) => h,
            Err(e) => {
                return Err(e);
            },
        };
        self.gather_i64(source, index_name, &hits, target_column)
    }

    /// The values of an i64 column in the rows whose indexed pair starts
    /// with a value.
    pub fn read_column_i64_where_composite_prefix(
        &self,
        source: &ParquetFile,
        index_name: &str,
        key_a: i64,
        target_column: usize,
    ) -> (r: Result<Vec<i64>>)
        ensures
            match composite_prefix_fault(
                self.manifest_view().indexes,
                index_name@,
                Key::I64(key_a),
            ) {
                Some(f) => reports(r, Some(f)),
                None => reads_between(
                    r,
                    self.index(index_name@),
                    SortKey::Pair(key_a as int, i64::MIN as int),
                    SortKey::Pair(key_a as int, i64::MAX as int),
                    self.format(),
                    self.target(*source, index_name@, target_column as nat),
                    i64_values(*source, target_column as nat),
                ),
            },
    {
        let hits: Vec<IndexHit> = match self.lookup_composite_prefix(index_name, &Key::I64(key_a)) {
            Ok(h) => h,
            Err(e) => {
                return Err(e);
            },
        };
        self.gather_i64(source, index_name, &hits, target_column)
    }
}

/// The one token of a query in an inverted index, or why there is none.
pub open spec fn query_token(list: Seq<EntryView>, name: Seq<char>, query: Seq<u8>) -> std::result::Result<
    Seq<u8>,
    Fault,
> {
    match index_named(list, name, 0) {
        None => Err(unknown_index(list, name)),
        Some(i) => match list[i as int].kind {
            KindView::Inverted { tokenizer, .. } => if tokenizer.tokens(query).len() != 1 {
                Err(
                    Fault::InvalidInput(
                        "read_column_byte_array_where_token: query produced "@ + dec(
                            tokenizer.tokens(query).len(),
                        )
                            + " tokens (expected 1; multi-token composition is a higher-level concern)"@,
                    ),
                )
            } else {
                Ok(tokenizer.tokens(query)[0])
            },
            _ => Err(
                wrong_kind(
                    "read_column_byte_array_where_token: index `"@,
                    name,
                    "` is not an inverted index"@,
                ),
            ),
        },
    }
}

impl ParquetIndex {
    /// The one token of a query.
    fn token_of(&self, index_name: &str, query: &[u8]) -> (r: Result<Vec<u8>>)
        ensures
            match query_token(self.manifest_view().indexes, index_name@, query@) {
                Ok(t) => r is Ok && r->Ok_0@ == t,
                Err(f) => reports(r, Some(f)),
            },
    {
        let i: usize = match self.find_index(index_name) {
            Ok(i) => i,
            Err(e) => {
                return Err(e);
            },
        };
        let m = self.manifest();
        proof {
            assert(self.manifest_view().indexes[i as int] == m.indexes@[i as int]@);
        }
        let tokenizer: Tokenizer = match &m.indexes[i].kind {
            IndexKind::Inverted { tokenizer, .. } => *tokenizer,
            _ => {
                return Err(
                    CodecError::InvalidInput(
                        joined3(
                            "read_column_byte_array_where_token: index `",
                            index_name,
                            "` is not an inverted index",
                        ),
                    ),
                );
            },
        };
        let mut found: Vec<Vec<u8>> = tokenizer.tokenize(query);
        proof {
            assert(byte_strings(found@).len() == found@.len());
        }
        if found.len() != 1 {
            return Err(
                CodecError::InvalidInput(
                    text1(
                        "read_column_byte_array_where_token: query produced ",
                        found.len() as u128,
                        " tokens (expected 1; multi-token composition is a higher-level concern)",
                    ),
                ),
            );
        }
        proof {
            assert(byte_strings(found@)[0] == found@[0]@);
        }
        Ok(found.swap_remove(0))
    }

    /// The byte strings of a column in the rows whose indexed text has the
    /// token of a query.
    pub fn read_column_byte_array_where_token(
        &self,
        source: &ParquetFile,
        index_name: &str,
        query: &[u8],
        target_column: usize,
    ) -> (r: Result<Vec<Vec<u8>>>)
        ensures
            match query_token(self.manifest_view().indexes, index_name@, query@) {
                Err(f) => reports(r, Some(f)),
                Ok(token) => reads_key_strings(
                    r,
                    self.index(index_name@),
                    SortKey::Bytes(token),
                    self.format(),
                    self.target(*source, index_name@, target_column as nat),
                ),
            },
    {
        let token: Vec<u8> = match self.token_of(index_name, query) {
            Ok(t) => t,
            Err(e) => {
                return Err(e);
            },
        };
        let hits: Vec<IndexHit> = match self.lookup_token(index_name, token.as_slice()) {
            Ok(h) => h,
            Err(e) => {
                return Err(e);
            },
        };
        self.gather_byte_array(source, index_name, &hits, target_column)
    }
}

// ---- Page bloom filters ----

/// The hash of a value in a bloom filter: that of its plain bytes.
pub open spec fn key_hash(key: Key<'_>) -> u64 {
    match key {
        Key::I64(v) => xxh64(plain_bytes_i64(v), 0),
        Key::I32(v) => xxh64(plain_bytes_i32(v), 0),
        Key::Bytes(v) => xxh64(v@, 0),
    }
}

/// Why a page-bloom lookup is refused.
pub open spec fn bloom_fault(list: Seq<EntryView>, name: Seq<char>) -> Option<Fault> {
    match index_named(list, name, 0) {
        None => Some(unknown_index(list, name)),
        Some(i) => match list[i as int].kind {
            KindView::BloomPage { .. } => None,
            _ => Some(
                wrong_kind("bloom_probe: index `"@, name, "` is not a page-Bloom index"@),
            ),
        },
    }
}

/// The pages from index row `from` on whose filter holds a hash, up to the
/// first filter that cannot be read.
pub open spec fn candidates(
    source_rgs: Seq<i32>,
    source_pages: Seq<i32>,
    blooms: Seq<Seq<u8>>,
    hash: u64,
    from: nat,
) -> Outcome<(u32, u32)>
    decreases blooms.len() - from,
{
    if from >= blooms.len() {
        Outcome { emitted: Seq::empty(), fault: None }
    } else {
        match filter_in(blooms[from as int]) {
            Err(f) => Outcome { emitted: Seq::empty(), fault: Some(f) },
            Ok(bits) => candidates(source_rgs, source_pages, blooms, hash, from + 1).after(
                if contains(bits, hash) {
                    seq![
                        (low32(source_rgs[from as int] as int), low32(
                            source_pages[from as int] as int,
                        )),
                    ]
                } else {
                    Seq::empty()
                },
            ),
        }
    }
}

/// The pages of the source that may hold a value, as a page-bloom index
/// tells.
pub open spec fn pages_told(d: LoadedView, hash: u64) -> Outcome<(u32, u32)> {
    match d {
        LoadedView::BloomPage { source_rgs, source_pages, blooms } => candidates(
            source_rgs,
            source_pages,
            blooms,
            hash,
            0,
        ),
        _ => Outcome { emitted: Seq::empty(), fault: None },
    }
}

/// The pages whose filter holds a hash.
pub(crate) fn probe_pages(
    source_rgs: &Vec<i32>,
    source_pages: &Vec<i32>,
    blooms: &Vec<Vec<u8>>,
    hash: u64,
) -> (r: Result<Vec<(u32, u32)>>)
    requires
        source_rgs@.len() == blooms@.len(),
        source_pages@.len() == blooms@.len(),
    ensures
        gives(r, candidates(source_rgs@, source_pages@, byte_strings(blooms@), hash, 0)),
{
    let ghost all = byte_strings(blooms@);
    let ghost whole = candidates(source_rgs@, source_pages@, all, hash, 0);
    let mut out: Vec<(u32, u32)> = Vec::new();
    let mut i: usize = 0;
    proof {
        assert(out@ + whole.emitted =~= whole.emitted);
    }
    while i < blooms.len()
        invariant
            i <= blooms@.len(),
            source_rgs@.len() == blooms@.len(),
            source_pages@.len() == blooms@.len(),
            all == byte_strings(blooms@),
            whole == candidates(source_rgs@, source_pages@, all, hash, 0),
            whole == candidates(source_rgs@, source_pages@, all, hash, i as nat).after(out@),
        decreases blooms@.len() - i,
    {
        let ghost before = out@;
        proof {
            assert(all[i as int] == blooms@[i as int]@);
        }
        let filter = match SplitBlockBloomFilter::from_bytes(blooms[i].as_slice()) {
            Ok(f) => f,
            Err(e) => {
                return Err(e);
            },
        };
        if filter.contains_hash(hash) {
            out.push((as_u32(source_rgs[i] as i128), as_u32(source_pages[i] as i128)));
        }
        proof {
            let rest = candidates(source_rgs@, source_pages@, all, hash, (i + 1) as nat);
            let step: Seq<(u32, u32)> = if contains(filter.bits(), hash) {
                seq![
                    (low32(source_rgs@[i as int] as int), low32(source_pages@[i as int] as int)),
                ]
            } else {
                Seq::empty()
            };
            assert(out@ =~= before + step);
            assert(before + (step + rest.emitted) =~= out@ + rest.emitted);
        }
        i = i + 1;
    }
    proof {
        assert(whole.emitted =~= out@);
    }
    Ok(out)
}

/// The hits of pages as wholes.
pub open spec fn page_hits(pages: Seq<(u32, u32)>) -> Seq<HitView> {
    pages.map_values(
        |p: (u32, u32)| HitView { row_group: p.0, page: p.1, rowset: Seq::empty() },
    )
}

fn pages_as_hits(pages: &Vec<(u32, u32)>) -> (hits: Vec<IndexHit>)
    ensures
        hit_views(hits@) == page_hits(pages@),
{
    let mut hits: Vec<IndexHit> = Vec::new();
    let mut i: usize = 0;
    while i < pages.len()
        invariant
            i <= pages@.len(),
            hits@.len() == i,
            forall|k: int|
                0 <= k < i ==> (#[trigger] hits@[k])@ == (HitView {
                    row_group: pages@[k].0,
                    page: pages@[k].1,
                    rowset: Seq::empty(),
                }),
        decreases pages@.len() - i,
    {
        let rowset: Vec<u8> = Vec::new();
        proof {
            assert(rowset@ =~= Seq::empty());
        }
        hits.push(IndexHit { row_group: pages[i].0, page: pages[i].1, rowset });
        i = i + 1;
    }
    proof {
        assert(hit_views(hits@) =~= page_hits(pages@));
    }
    hits
}

/// The rows among given ones in which a column has the key.
pub open spec fn rows_with(rows: Seq<bool>, values: Seq<i64>, key: i64) -> Seq<bool> {
    Seq::new(rows.len(), |r: int| rows[r] && r < values.len() && values[r] == key)
}

/// Row groups with their rows in which a column has the key, up to the first
/// whose column cannot be read or has more values than there are rows.
pub open spec fn groups_with(
    groups: Seq<(u32, Seq<bool>)>,
    column: nat,
    values: spec_fn(nat) -> std::result::Result<Seq<i64>, Fault>,
    key: i64,
) -> Outcome<(u32, Seq<bool>)>
    decreases groups.len(),
{
    if groups.len() == 0 {
        Outcome { emitted: Seq::empty(), fault: None }
    } else {
        let (rg, rows) = groups[0];
        match values(rg as nat) {
            Err(f) => Outcome { emitted: Seq::empty(), fault: Some(f) },
            Ok(v) => if v.len() > rows.len() {
                Outcome {
                    emitted: Seq::empty(),
                    fault: Some(short_mask(rows.len(), column, rg as nat, v.len())),
                }
            } else {
                groups_with(groups.skip(1), column, values, key).after(
                    seq![(rg, rows_with(rows, v, key))],
                )
            },
        }
    }
}

/// The bitmap of the rows among those of a bitmap in which a column has the
/// key.
fn bitmap_with(
    bitmap: &Vec<u8>,
    num_rows: usize,
    values: &Vec<i64>,
    key: i64,
    Ghost(rows): Ghost<Seq<bool>>,
) -> (out: Vec<u8>)
    requires
        bitmap@ == pack(rows),
        num_rows == rows.len(),
        values@.len() <= num_rows,
    ensures
        out@ == pack(rows_with(rows, values@, key)),
{
    let ghost exact = rows_with(rows, values@, key);
    let len: usize = bitmap.len();
    let mut out: Vec<u8> = vec![0u8; len];
    proof {
        lemma_pack_holds(rows);
        assert forall|i: nat| i < 8 * len implies (#[trigger] bit(out@, i) == 1) == (i
            < exact.take(0).len() && exact.take(0)[i as int]) by {
            lemma_byte_plain(i % 8);
        }
    }
    let mut r: usize = 0;
    while r < values.len()
        invariant
            r <= values@.len() <= num_rows == rows.len(),
            exact == rows_with(rows, values@, key),
            bitmap@ == pack(rows),
            holds_rows(bitmap@, rows),
            len == bitmap@.len() == out@.len(),
            holds_rows(out@, exact.take(r as int)),
        decreases values@.len() - r,
    {
        proof {
            assert((bit(bitmap@, r as nat) == 1) == (r < rows.len() && rows[r as int]));
        }
        let ghost before = out@;
        if get_bit(bitmap.as_slice(), r) && values[r] == key {
            set_bit(&mut out, 0, r);
            proof {
                assert(before.skip(0) =~= before);
                assert(out@.skip(0) =~= out@);
            }
        }
        proof {
            assert forall|i: nat| i < 8 * out@.len() implies (#[trigger] bit(out@, i) == 1) == (i
                < exact.take(r + 1).len() && exact.take(r + 1)[i as int]) by {
                assert((bit(before, i) == 1) == (i < exact.take(r as int).len() && exact.take(
                    r as int,
                )[i as int]));
                assert(bit(out@, i) == if i == r && exact[r as int] {
                    1
                } else {
                    bit(before, i)
                });
            }
        }
        r = r + 1;
    }
    proof {
        assert forall|i: nat| i < 8 * out@.len() implies (#[trigger] bit(out@, i) == 1) == (i
            < exact.len() && exact[i as int]) by {
            assert((bit(out@, i) == 1) == (i < exact.take(r as int).len() && exact.take(
                r as int,
            )[i as int]));
        }
        lemma_pack_unique(out@, exact);
    }
    out
}

/// The bitmaps of the rows among those of bitmaps in which a column has the
/// key.
fn bitmaps_with(
    source: &ParquetFile,
    groups: &Vec<GroupBitmap>,
    column: usize,
    key: i64,
    Ghost(of): Ghost<Seq<(u32, Seq<bool>)>>,
) -> (r: Result<Vec<GroupBitmap>>)
    requires
        bitmaps_of(groups@, of),
    ensures
        ({
            let o = groups_with(of, column as nat, i64_values(*source, column as nat), key);
            reports(r, o.fault) && (r is Ok ==> bitmaps_of(r->Ok_0@, o.emitted))
        }),
{
    let ghost values = i64_values(*source, column as nat);
    let ghost whole = groups_with(of, column as nat, values, key);
    let ghost mut done: Seq<(u32, Seq<bool>)> = Seq::empty();
    let mut out: Vec<GroupBitmap> = Vec::new();
    let mut i: usize = 0;
    proof {
        assert(of.skip(0) =~= of);
        assert(done + whole.emitted =~= whole.emitted);
    }
    while i < groups.len()
        invariant
            i <= groups@.len(),
            bitmaps_of(groups@, of),
            values == i64_values(*source, column as nat),
            whole == groups_with(of, column as nat, values, key),
            whole == groups_with(of.skip(i as int), column as nat, values, key).after(done),
            bitmaps_of(out@, done),
        decreases groups@.len() - i,
    {
        let g = &groups[i];
        let ghost rows = of[i as int].1;
        proof {
            assert(of.skip(i as int)[0] == of[i as int]);
            assert(of.skip(i as int).skip(1) =~= of.skip(i + 1));
        }
        let v = match read_column_i64(source, g.row_group as usize, column) {
            Ok(v) => v,
            Err(e) => {
                return Err(e);
            },
        };
        if v.len() > g.num_rows {
            return Err(mask_err(g.num_rows, column, g.row_group, v.len()));
        }
        let bitmap: Vec<u8> = bitmap_with(&g.bitmap, g.num_rows, v, key, Ghost(rows));
        out.push(GroupBitmap { row_group: g.row_group, num_rows: g.num_rows, bitmap });
        proof {
            let rest = groups_with(of.skip(i + 1), column as nat, values, key);
            let step = (g.row_group, rows_with(rows, v@, key));
            assert(done + (seq![step] + rest.emitted) =~= done.push(step) + rest.emitted);
            done = done.push(step);
        }
        i = i + 1;
    }
    proof {
        assert(whole.emitted =~= done);
    }
    Ok(out)
}

impl Target {
    /// The row groups that candidate pages lie in, each with the rows of
    /// those pages in which the indexed column has the key.
    pub open spec fn page_groups(self, pages: Seq<(u32, u32)>, key: i64) -> Outcome<
        (u32, Seq<bool>),
    > {
        let i = index_named(self.indexes, self.name, 0)->Some_0;
        match leaf_named(self.source, self.indexes[i as int].kind->BloomPage_source_column) {
            Err(f) => Outcome { emitted: Seq::empty(), fault: Some(f) },
            Ok(col) => {
                let groups = assembled(self.source, col, page_hits(pages), Reach::Pages, 0);
                match groups.fault {
                    Some(f) => Outcome { emitted: Seq::empty(), fault: Some(f) },
                    None => groups_with(
                        groups.emitted,
                        col,
                        i64_values(self.source, col),
                        key,
                    ),
                }
            },
        }
    }

    /// The values of the column in the rows of candidate pages in which the
    /// indexed column has the key.
    pub open spec fn page_matches(self, pages: Outcome<(u32, u32)>, key: i64) -> Outcome<i64> {
        if pages.fault is Some {
            Outcome { emitted: Seq::empty(), fault: pages.fault }
        } else if pages.emitted.len() == 0 {
            Outcome { emitted: Seq::empty(), fault: None }
        } else {
            let groups = self.page_groups(pages.emitted, key);
            match groups.fault {
                Some(f) => Outcome { emitted: Seq::empty(), fault: Some(f) },
                None => selected_values(
                    groups.emitted,
                    self.column,
                    i64_values(self.source, self.column),
                ),
            }
        }
    }
}

/// The hash of a value in a bloom filter.
pub(crate) fn hash_of_key(key: &Key<'_>) -> (h: u64)
    ensures
        h == key_hash(*key),
{
    match key {
        Key::I64(v) => parquet_xxh64(encode_plain_i64(*v).as_slice()),
        Key::I32(v) => parquet_xxh64(encode_plain_i32(*v).as_slice()),
        Key::Bytes(v) => parquet_xxh64(v),
    }
}

impl ParquetIndex {
    /// The i64 values of a column in the rows whose indexed value is the key.
    /// A filter can name pages without the key, so the indexed column is read
    /// in the pages that the filters name, and its values decide.
    pub fn read_column_i64_via_bloom_eq(
        &self,
        source: &ParquetFile,
        index_name: &str,
        key: i64,
        target_column: usize,
    ) -> (r: Result<Vec<i64>>)
        ensures
            match bloom_fault(self.manifest_view().indexes, index_name@) {
                Some(f) => reports(r, Some(f)),
                None => gives(
                    r,
                    self.target(*source, index_name@, target_column as nat).page_matches(
                        pages_told(self.index(index_name@), key_hash(Key::I64(key))),
                        key,
                    ),
                ),
            },
    {
        let pages: Vec<(u32, u32)> = match self.bloom_probe(index_name, &Key::I64(key)) {
            Ok(p) => p,
            Err(e) => {
                return Err(e);
            },
        };
        if pages.len() == 0 {
            let out: Vec<i64> = Vec::new();
            return Ok(out);
        }
        let i: usize = match self.find_index(index_name) {
            Ok(i) => i,
            Err(e) => {
                return Err(e);
            },
        };
        let m = self.manifest();
        proof {
            assert(self.manifest_view().indexes[i as int] == m.indexes@[i as int]@);
        }
        let name: String = match &m.indexes[i].kind {
            IndexKind::BloomPage { source_column, .. } => source_column.clone(),
            _ => {
                let out: Vec<i64> = Vec::new();
                return Ok(out);
            },
        };
        let column: usize = match resolve_leaf_by_name(source, name.as_str()) {
            Ok(c) => c,
            Err(e) => {
                return Err(e);
            },
        };
        let hits: Vec<IndexHit> = pages_as_hits(&pages);
        let groups: Vec<GroupBitmap> = match assemble_groups(source, column, &hits, Reach::Pages) {
            Ok(g) => g,
            Err(e) => {
                return Err(e);
            },
        };
        let ghost of = assembled(*source, column as nat, hit_views(hits@), Reach::Pages, 0).emitted;
        let exact: Vec<GroupBitmap> = match bitmaps_with(source, &groups, column, key, Ghost(of)) {
            Ok(g) => g,
            Err(e) => {
                return Err(e);
            },
        };
        let ghost cut = groups_with(
            of,
            column as nat,
            i64_values(*source, column as nat),
            key,
        ).emitted;
        materialize_i64(source, &exact, target_column, Ghost(cut))
    }
}

/// That a page has a filter, from index row `from` on, that holds a hash.
pub open spec fn is_told(
    source_rgs: Seq<i32>,
    source_pages: Seq<i32>,
    blooms: Seq<Seq<u8>>,
    hash: u64,
    from: nat,
    page: (u32, u32),
) -> bool {
    exists|i: int|
        from <= i < blooms.len() && contains(filter_in(#[trigger] blooms[i])->Ok_0, hash) && page
            == (source_rgs[i] as u32, source_pages[i] as u32)
}

/// A page is told exactly where its filter holds the hash: filters rule pages
/// out.
pub proof fn law_told_pages_have_holding_filters(
    source_rgs: Seq<i32>,
    source_pages: Seq<i32>,
    blooms: Seq<Seq<u8>>,
    hash: u64,
    from: nat,
)
    requires
        source_rgs.len() == blooms.len(),
        source_pages.len() == blooms.len(),
        forall|i: int| 0 <= i < blooms.len() ==> filter_in(#[trigger] blooms[i]) is Ok,
        forall|i: int| 0 <= i < blooms.len() ==> #[trigger] source_rgs[i] >= 0,
        forall|i: int| 0 <= i < blooms.len() ==> #[trigger] source_pages[i] >= 0,
    ensures
        ({
            let told = candidates(source_rgs, source_pages, blooms, hash, from);
            &&& told.fault is None
            &&& forall|i: int|
                from <= i < blooms.len() && contains(
                    filter_in(#[trigger] blooms[i])->Ok_0,
                    hash,
                ) ==> told.emitted.contains((source_rgs[i] as u32, source_pages[i] as u32))
            &&& forall|k: int|
                0 <= k < told.emitted.len() ==> is_told(
                    source_rgs,
                    source_pages,
                    blooms,
                    hash,
                    from,
                    #[trigger] told.emitted[k],
                )
        }),
    decreases blooms.len() - from,
{
    let told = candidates(source_rgs, source_pages, blooms, hash, from).emitted;
    if from < blooms.len() {
        let at = from as int;
        let rest = candidates(source_rgs, source_pages, blooms, hash, from + 1).emitted;
        law_told_pages_have_holding_filters(source_rgs, source_pages, blooms, hash, from + 1);
        let bits = filter_in(blooms[at])->Ok_0;
        assert(source_rgs[at] >= 0 && source_pages[at] >= 0);
        let here: Seq<(u32, u32)> = if contains(bits, hash) {
            seq![(source_rgs[at] as u32, source_pages[at] as u32)]
        } else {
            Seq::empty()
        };
        assert(told =~= here + rest);
        assert forall|i: int|
            from <= i < blooms.len() && contains(
                filter_in(#[trigger] blooms[i])->Ok_0,
                hash,
            ) implies told.contains((source_rgs[i] as u32, source_pages[i] as u32)) by {
            if i == at {
                assert(told[0] == here[0]);
            } else {
                let p = (source_rgs[i] as u32, source_pages[i] as u32);
                assert(rest.contains(p));
                let k = choose|k: int| 0 <= k < rest.len() && rest[k] == p;
                assert(told[here.len() + k] == p);
            }
        }
        assert forall|k: int| 0 <= k < told.len() implies is_told(
            source_rgs,
            source_pages,
            blooms,
            hash,
            from,
            #[trigger] told[k],
        ) by {
            if k < here.len() {
                assert(contains(filter_in(blooms[at])->Ok_0, hash));
            } else {
                let p = rest[k - here.len()];
                assert(told[k] == p);
                assert(is_told(source_rgs, source_pages, blooms, hash, from + 1, p));
                let i = choose|i: int|
                    from + 1 <= i < blooms.len() && contains(
                        filter_in(#[trigger] blooms[i])->Ok_0,
                        hash,
                    ) && p == (source_rgs[i] as u32, source_pages[i] as u32);
                assert(contains(filter_in(blooms[i])->Ok_0, hash));
            }
        }
    }
}

} // verus!
