use ematix_parquet_codec::index::builder::{
    ColumnData, CompressionCodec, IndexBuilder, SidecarTable, TargetFpp,
};
use ematix_parquet_codec::index::file::{
    ChunkData, ColumnChunk, ColumnValues, KeyValue, PageHeader, PageType, ParquetFile, RowGroup,
};
use ematix_parquet_codec::index::manifest::{MANIFEST_KEY, MANIFEST_KEY_V2, MANIFEST_KEY_V3};
use ematix_parquet_codec::index::page_layout::{chunk_byte_range, walk_data_pages};
use ematix_parquet_codec::index::reader::ParquetIndex;
use ematix_parquet_codec::index::types::Key;
use ematix_parquet_codec::index::{compute_source_fingerprint, crc32_ieee, IndexKind, Tokenizer};
use ematix_parquet_codec::schema::{FieldRepetitionType, ParquetType, SchemaElement};
use ematix_parquet_codec::CodecError;

fn element(name: &str, column_type: Option<ParquetType>, children: Option<i32>) -> SchemaElement {
    SchemaElement {
        column_type,
        repetition_type: Some(FieldRepetitionType::Required),
        name: name.as_bytes().to_vec(),
        num_children: children,
    }
}

fn data_pages(sizes: &[i32]) -> Vec<PageHeader> {
    let mut pages = vec![PageHeader {
        page_type: PageType::DictionaryPage,
        v1_num_values: None,
        v2_num_values: None,
    }];
    for n in sizes {
        pages.push(PageHeader {
            page_type: PageType::DataPage,
            v1_num_values: Some(*n),
            v2_num_values: None,
        });
    }
    pages
}

fn chunk(values: ColumnValues, sizes: &[i32]) -> ColumnChunk {
    ColumnChunk { data: Some(ChunkData { values, pages: data_pages(sizes) }) }
}

/// Columns `key` and `other` (INT64), `small` (INT32) and `note`
/// (BYTE_ARRAY), in two row groups of five and three rows.
fn source() -> ParquetFile {
    let note = |t: &[&str]| -> ColumnValues {
        ColumnValues::ByteArray(t.iter().map(|s| s.as_bytes().to_vec()).collect())
    };
    ParquetFile {
        footer: b"footer bytes".to_vec(),
        num_rows: 8,
        schema: vec![
            element("root", None, Some(4)),
            element("key", Some(ParquetType::Int64), None),
            element("other", Some(ParquetType::Int64), None),
            element("small", Some(ParquetType::Int32), None),
            element("note", Some(ParquetType::ByteArray), None),
        ],
        row_groups: vec![
            RowGroup {
                num_rows: 5,
                columns: vec![
                    chunk(ColumnValues::I64(vec![7, 3, 7, 1, 9]), &[2, 3]),
                    chunk(ColumnValues::I64(vec![10, 20, 30, 40, 50]), &[5]),
                    chunk(ColumnValues::I32(vec![1, 2, 1, 2, 3]), &[2, 3]),
                    chunk(note(&["Red Fox", "blue", "red", "a b", "fox"]), &[2, 3]),
                ],
            },
            RowGroup {
                num_rows: 3,
                columns: vec![
                    chunk(ColumnValues::I64(vec![3, 7, -5]), &[3]),
                    chunk(ColumnValues::I64(vec![60, 70, 80]), &[3]),
                    chunk(ColumnValues::I32(vec![2, 2, -1]), &[3]),
                    chunk(note(&["red", "", "green fox"]), &[3]),
                ],
            },
        ],
        key_value_metadata: None,
    }
}

/// The values of a column from row `from` up to row `to`.
fn part(data: &ColumnData, from: usize, to: usize) -> ColumnValues {
    match data {
        ColumnData::I64(v) => ColumnValues::I64(v[from..to].to_vec()),
        ColumnData::I32(v) => ColumnValues::I32(v[from..to].to_vec()),
        ColumnData::ByteArray(v) => ColumnValues::ByteArray(v[from..to].to_vec()),
    }
}

fn rows_of(table: &SidecarTable) -> usize {
    match &table.columns[0].data {
        ColumnData::I64(v) => v.len(),
        ColumnData::I32(v) => v.len(),
        ColumnData::ByteArray(v) => v.len(),
    }
}

/// A sidecar file that holds a table in row groups of at most `size` rows,
/// its manifest under a key.
fn stored_under(table: &SidecarTable, size: usize, key: &str) -> ParquetFile {
    let n = rows_of(table);
    let mut row_groups = Vec::new();
    let mut from = 0;
    loop {
        let to = if n - from < size { n } else { from + size };
        let columns = table
            .columns
            .iter()
            .map(|c| ColumnChunk {
                data: Some(ChunkData { values: part(&c.data, from, to), pages: vec![] }),
            })
            .collect();
        row_groups.push(RowGroup { num_rows: (to - from) as i64, columns });
        from = to;
        if from == n {
            break;
        }
    }
    ParquetFile {
        footer: vec![],
        num_rows: n as i64,
        schema: vec![],
        row_groups,
        key_value_metadata: Some(vec![KeyValue {
            key: key.as_bytes().to_vec(),
            value: Some(table.manifest_json.as_bytes().to_vec()),
        }]),
    }
}

/// A sidecar file that holds a table as it asks to be stored.
fn stored(table: &SidecarTable) -> ParquetFile {
    let file = stored_under(
        table,
        table.row_group_size.unwrap_or(usize::MAX),
        table.manifest_key.as_str(),
    );
    assert_eq!(file.row_groups.len(), table.row_group_count as usize);
    file
}

fn message<T>(r: Result<T, CodecError>) -> String {
    match r {
        Err(CodecError::InvalidInput(m)) => m,
        Err(e) => panic!("expected InvalidInput, got {e:?}"),
        Ok(_) => panic!("expected InvalidInput, got a value"),
    }
}

#[test]
fn fingerprints_tell_the_state_of_a_file() {
    let fp = compute_source_fingerprint(&source()).unwrap();
    assert_eq!(fp.footer_length, 12);
    assert_eq!(fp.footer_crc32, crc32_ieee(b"footer bytes"));
    assert_eq!(fp.num_rows, 8);
    assert_eq!(fp.num_row_groups, 2);
}

#[test]
fn pages_share_out_the_rows() {
    let pages = walk_data_pages(&source(), 0, 0).unwrap();
    let seen: Vec<(u32, usize, usize)> =
        pages.iter().map(|p| (p.page_idx, p.first_row, p.num_values)).collect();
    assert_eq!(seen, vec![(0, 0, 2), (1, 2, 3)]);
    assert_eq!(message(walk_data_pages(&source(), 2, 0)), "row group 2 out of range");
    assert_eq!(message(walk_data_pages(&source(), 1, 9)), "column 9 out of range in rg 1");
    let mut broken = source();
    broken.row_groups[0].columns[0].data.as_mut().unwrap().pages[1].v1_num_values = None;
    assert_eq!(
        message(walk_data_pages(&broken, 0, 0)),
        "data page missing both V1 and V2 header"
    );
}

#[test]
fn chunks_start_at_their_first_page() {
    assert_eq!(chunk_byte_range(Some(4), 100, 50), Some((4, 50)));
    assert_eq!(chunk_byte_range(Some(200), 100, 50), Some((100, 50)));
    assert_eq!(chunk_byte_range(None, 100, 50), Some((100, 50)));
    assert_eq!(chunk_byte_range(None, -1, 50), None);
}

#[test]
fn sorted_index_rows_are_one_per_key_and_page() {
    let table = IndexBuilder::new(&source()).write_sorted_i64("by_key", 0).unwrap();
    assert_eq!(table.codec, CompressionCodec::Snappy);
    assert_eq!(table.manifest_key, MANIFEST_KEY_V3);
    assert_eq!(table.row_group_count, 1);
    let names: Vec<&str> = table.columns.iter().map(|c| c.name.as_str()).collect();
    assert_eq!(names, vec!["value", "target_rg", "target_page", "target_rowset"]);
    match &table.columns[0].data {
        ColumnData::I64(v) => assert_eq!(v, &vec![-5, 1, 3, 3, 7, 7, 7, 9]),
        other => panic!("expected I64, got {other:?}"),
    }
    match (&table.columns[1].data, &table.columns[2].data) {
        (ColumnData::I32(rg), ColumnData::I32(page)) => {
            assert_eq!(rg, &vec![1, 0, 0, 1, 0, 0, 1, 0]);
            assert_eq!(page, &vec![0, 1, 0, 0, 0, 1, 0, 1]);
        }
        other => panic!("expected I32, got {other:?}"),
    }
    match &table.columns[3].data {
        // Tag, then one bit per row of the page.
        ColumnData::ByteArray(v) => assert_eq!(v[4], vec![0, 0b01]),
        other => panic!("expected ByteArray, got {other:?}"),
    }
}

#[test]
fn an_index_answers_what_a_scan_answers() {
    let file = source();
    let table = IndexBuilder::new(&file).write_sorted_i64("by_key", 0).unwrap();
    let index = ParquetIndex::open(&stored(&table), &file).unwrap();
    // Key 7 lies in rows 0 and 2 of the first row group and row 1 of the
    // second.
    assert_eq!(
        index.read_column_i64_where_eq(&file, "by_key", 7, 1).unwrap(),
        vec![10, 30, 70]
    );
    assert_eq!(index.read_column_i64_where_eq(&file, "by_key", 8, 1).unwrap(), Vec::<i64>::new());
    assert_eq!(
        index.read_column_i64_where_range(&file, "by_key", 1, 7, 1).unwrap(),
        vec![10, 20, 30, 40, 60, 70]
    );
    assert_eq!(
        index.read_column_i64_where_range(&file, "by_key", 7, 1, 1).unwrap(),
        Vec::<i64>::new()
    );
    let hits = index.lookup_eq("by_key", &Key::I64(7)).unwrap();
    let seen: Vec<(u32, u32, Vec<u8>)> =
        hits.iter().map(|h| (h.row_group, h.page, h.rowset.clone())).collect();
    assert_eq!(seen, vec![(0, 0, vec![0b01]), (0, 1, vec![0b001]), (1, 0, vec![0b010])]);
    assert_eq!(index.manifest().indexes.len(), 1);
}

#[test]
fn indexes_over_other_types_answer_too() {
    let file = source();
    let table = IndexBuilder::new(&file).write_sorted_i32("by_small", 2).unwrap();
    let index = ParquetIndex::open(&stored(&table), &file).unwrap();
    assert_eq!(
        index.read_column_i32_where_eq(&file, "by_small", 2, 2).unwrap(),
        vec![2, 2, 2, 2]
    );
    assert_eq!(
        index.read_column_i32_where_range(&file, "by_small", -1, 1, 2).unwrap(),
        vec![1, 1, -1]
    );
    let table = IndexBuilder::new(&file).write_sorted_byte_array("by_note", 3).unwrap();
    let index = ParquetIndex::open(&stored(&table), &file).unwrap();
    assert_eq!(
        index.read_column_byte_array_where_eq(&file, "by_note", b"red", 3).unwrap(),
        vec![b"red".to_vec(), b"red".to_vec()]
    );
    assert_eq!(
        index.read_column_byte_array_where_range(&file, "by_note", b"", b"b", 3).unwrap(),
        vec![b"Red Fox".to_vec(), b"a b".to_vec(), b"".to_vec()]
    );
}

#[test]
fn composite_indexes_answer_pairs_and_prefixes() {
    let file = source();
    let table =
        IndexBuilder::new(&file).write_sorted_composite_prefix_i64_i64("pair", 0, 1).unwrap();
    let index = ParquetIndex::open(&stored(&table), &file).unwrap();
    assert_eq!(
        index.read_column_i64_where_composite_eq(&file, "pair", 7, 30, 1).unwrap(),
        vec![30]
    );
    assert_eq!(
        index.read_column_i64_where_composite_eq(&file, "pair", 7, 31, 1).unwrap(),
        Vec::<i64>::new()
    );
    assert_eq!(
        index.read_column_i64_where_composite_prefix(&file, "pair", 7, 1).unwrap(),
        vec![10, 30, 70]
    );
    assert_eq!(
        message(index.lookup_composite_eq("pair", &Key::I32(1), &Key::I64(2))),
        "lookup_composite_eq: key variants `I32`+`I64` do not match (INT64, INT64)"
    );
    assert_eq!(
        message(index.lookup_composite_prefix("pair", &Key::Bytes(b"x"))),
        "lookup_composite_prefix: key variant `Bytes` does not match INT64"
    );
}

#[test]
fn inverted_indexes_answer_tokens() {
    let file = source();
    let table = IndexBuilder::new(&file)
        .write_inverted_byte_array("words", 3, Tokenizer::WhitespaceLowercaseV1)
        .unwrap();
    let index = ParquetIndex::open(&stored(&table), &file).unwrap();
    assert_eq!(
        index.read_column_byte_array_where_token(&file, "words", b"FOX", 3).unwrap(),
        vec![b"Red Fox".to_vec(), b"fox".to_vec(), b"green fox".to_vec()]
    );
    assert_eq!(index.lookup_token("words", b"Fox").unwrap().len(), 0);
    assert_eq!(
        message(index.read_column_byte_array_where_token(&file, "words", b"a b", 3)),
        "read_column_byte_array_where_token: query produced 2 tokens (expected 1; multi-token composition is a higher-level concern)"
    );
}

#[test]
fn page_filters_leave_out_no_page() {
    let file = source();
    let fpp = TargetFpp { text: "0.01".to_string(), in_unit_interval: true };
    let table = IndexBuilder::new(&file)
        .write_bloom_page_i64("maybe", 0, &fpp, |_| 1)
        .unwrap();
    assert_eq!(table.codec, CompressionCodec::Uncompressed);
    let index = ParquetIndex::open(&stored(&table), &file).unwrap();
    let pages = index.bloom_probe("maybe", &Key::I64(7)).unwrap();
    assert_eq!(pages, vec![(0, 0), (0, 1), (1, 0)]);
    assert_eq!(index.bloom_probe("maybe", &Key::I64(1)).unwrap(), vec![(0, 1)]);
    assert_eq!(
        index.read_column_i64_via_bloom_eq(&file, "maybe", 7, 0).unwrap(),
        vec![7, 7, 7]
    );
    // The other column, in the rows with the key.
    assert_eq!(
        index.read_column_i64_via_bloom_eq(&file, "maybe", 7, 1).unwrap(),
        vec![10, 30, 70]
    );
    assert_eq!(
        index.read_column_i64_via_bloom_eq(&file, "maybe", 1000, 0).unwrap(),
        Vec::<i64>::new()
    );
    match &index.manifest().indexes[0].kind {
        IndexKind::BloomPage { target_fpp, .. } => assert_eq!(target_fpp, "0.01"),
        other => panic!("expected BloomPage, got {other:?}"),
    }
    let odd = TargetFpp { text: "1".to_string(), in_unit_interval: false };
    assert!(IndexBuilder::new(&file).write_bloom_page_i64("x", 0, &odd, |_| 1).is_err());
}

#[test]
fn a_sidecar_of_a_changed_source_is_refused() {
    let file = source();
    let table = IndexBuilder::new(&file).write_sorted_i64("by_key", 0).unwrap();
    let mut changed = source();
    changed.num_rows = 9;
    let m = message(ParquetIndex::open(&stored(&table), &changed));
    assert!(m.starts_with("sidecar fingerprint mismatch: source file changed"), "{m}");
    assert!(m.contains("num_rows=8") && m.contains("num_rows=9"), "{m}");
}

#[test]
fn sidecars_without_a_manifest_are_refused() {
    let file = source();
    let table = IndexBuilder::new(&file).write_sorted_i64("by_key", 0).unwrap();
    let mut idx = stored(&table);
    idx.key_value_metadata = None;
    assert_eq!(
        message(ParquetIndex::open(&idx, &file)),
        "sidecar manifest key `ematix_index_manifest_v1` missing"
    );
    let mut idx = stored(&table);
    idx.key_value_metadata.as_mut().unwrap()[0].value = Some(vec![0xFF]);
    assert!(message(ParquetIndex::open(&idx, &file)).contains("not valid UTF-8"));
    let mut idx = stored(&table);
    if let Some(d) = &mut idx.row_groups[0].columns[0].data {
        d.values = ColumnValues::I64(vec![1]);
    }
    assert_eq!(
        message(ParquetIndex::open(&idx, &file)),
        "index `by_key` row group 0 has mismatched column lengths (value=1, rg=8, page=8, rowset=8)"
    );
}

#[test]
fn lookups_check_the_index_and_the_key() {
    let file = source();
    let table = IndexBuilder::new(&file).write_sorted_i64("by_key", 0).unwrap();
    let index = ParquetIndex::open(&stored(&table), &file).unwrap();
    assert_eq!(
        message(index.lookup_eq("nope", &Key::I64(1))),
        "sidecar has no index named `nope` (have: [\"by_key\"])"
    );
    assert_eq!(
        message(index.lookup_eq("by_key", &Key::I32(1))),
        "lookup_eq: key variant `I32` does not match index `by_key` physical type Int64"
    );
    assert_eq!(
        message(index.lookup_token("by_key", b"x")),
        "lookup_token: index `by_key` is not an inverted index"
    );
    assert_eq!(
        message(index.bloom_probe("by_key", &Key::I64(1))),
        "bloom_probe: index `by_key` is not a page-Bloom index"
    );
    assert_eq!(
        message(index.lookup_composite_eq("by_key", &Key::I64(1), &Key::I64(1))),
        "lookup_composite_eq: index `by_key` is not a (INT64, INT64) composite-prefix index"
    );
}

#[test]
fn a_source_without_the_indexed_column_cannot_be_read() {
    let file = source();
    let table = IndexBuilder::new(&file).write_sorted_i64("by_key", 0).unwrap();
    let index = ParquetIndex::open(&stored(&table), &file).unwrap();
    let mut renamed = source();
    renamed.schema[1].name = b"id".to_vec();
    assert_eq!(
        message(index.read_column_i64_where_eq(&renamed, "by_key", 7, 1)),
        "indexed column `key` not found in source file's schema"
    );
    let mut cut = source();
    cut.row_groups.truncate(1);
    assert_eq!(
        message(index.read_column_i64_where_eq(&cut, "by_key", 7, 1)),
        "index hit references row_group 1 out of source range"
    );
    let mut merged = source();
    merged.row_groups[0].columns[0].data.as_mut().unwrap().pages = data_pages(&[5]);
    assert_eq!(
        message(index.read_column_i64_where_eq(&merged, "by_key", 7, 1)),
        "index hit references page 1 in rg 0 but indexed column has only 1 pages"
    );
}

#[test]
fn columns_of_other_types_are_not_indexed() {
    let file = source();
    assert!(IndexBuilder::new(&file).write_sorted_i64("x", 2).is_err());
    assert!(IndexBuilder::new(&file).write_sorted_i32("x", 0).is_err());
    assert!(IndexBuilder::new(&file).write_sorted_byte_array("x", 0).is_err());
    assert!(IndexBuilder::new(&file).write_sorted_i64("x", 9).is_err());
}

#[test]
fn an_index_may_span_row_groups() {
    let file = source();
    let table = IndexBuilder::new(&file).write_sorted_i64("by_key", 0).unwrap();
    let whole = ParquetIndex::open(&stored(&table), &file).unwrap();
    for size in 1..9 {
        let cut = stored_under(&table, size, &table.manifest_key);
        let index = ParquetIndex::open(&cut, &file).unwrap();
        for key in [-5, 1, 3, 7, 8, 9] {
            assert_eq!(
                index.read_column_i64_where_eq(&file, "by_key", key, 1).unwrap(),
                whole.read_column_i64_where_eq(&file, "by_key", key, 1).unwrap()
            );
        }
    }
}

#[test]
fn a_large_index_is_read_whole() {
    let n = 300_000usize;
    let file = ParquetFile {
        footer: b"large".to_vec(),
        num_rows: n as i64,
        schema: vec![
            element("root", None, Some(1)),
            element("key", Some(ParquetType::Int64), None),
        ],
        row_groups: vec![RowGroup {
            num_rows: n as i64,
            columns: vec![chunk(ColumnValues::I64((0..n as i64).rev().collect()), &[n as i32])],
        }],
        key_value_metadata: None,
    };
    let table = IndexBuilder::new(&file).write_sorted_i64("by_key", 0).unwrap();
    assert_eq!(table.row_group_count, 2);
    let index = ParquetIndex::open(&stored(&table), &file).unwrap();
    for key in [0, 262_143, 262_144, 299_999] {
        assert_eq!(index.read_column_i64_where_eq(&file, "by_key", key, 0).unwrap(), vec![key]);
    }
}

#[test]
fn older_sidecars_have_one_row_group_per_index() {
    let file = source();
    let table = IndexBuilder::new(&file).write_sorted_i64("by_key", 0).unwrap();
    let idx = stored_under(&table, usize::MAX, MANIFEST_KEY_V2);
    let index = ParquetIndex::open(&idx, &file).unwrap();
    assert_eq!(
        index.read_column_i64_where_eq(&file, "by_key", 7, 1).unwrap(),
        vec![10, 30, 70]
    );
    // Rows -5, 1 and 3 of the index, and no more.
    let idx = stored_under(&table, 3, MANIFEST_KEY_V2);
    let index = ParquetIndex::open(&idx, &file).unwrap();
    assert_eq!(index.lookup_eq("by_key", &Key::I64(3)).unwrap().len(), 1);
    assert_eq!(index.lookup_eq("by_key", &Key::I64(7)).unwrap().len(), 0);
    // Bare row sets: the tag is taken for the first bits.
    let idx = stored_under(&table, usize::MAX, MANIFEST_KEY);
    let index = ParquetIndex::open(&idx, &file).unwrap();
    assert_eq!(
        index.lookup_eq("by_key", &Key::I64(1)).unwrap()[0].rowset,
        vec![0, 0b010]
    );
}
