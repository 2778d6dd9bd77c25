use ematix_parquet_codec::index::{
    IndexEntry, IndexKind, IndexManifest, ManifestError, PhysicalType, SourceFingerprint, Tokenizer,
};

#[test]
fn whitespace_lowercase_v1_basic() {
    let toks = Tokenizer::WhitespaceLowercaseV1.tokenize(b"Hello World");
    assert_eq!(toks, vec![b"hello".to_vec(), b"world".to_vec()]);
}

#[test]
fn whitespace_lowercase_v1_collapses_runs_of_whitespace() {
    let toks = Tokenizer::WhitespaceLowercaseV1.tokenize(b"  foo  \t\n  bar  ");
    assert_eq!(toks, vec![b"foo".to_vec(), b"bar".to_vec()]);
}

#[test]
fn whitespace_lowercase_v1_preserves_inner_punctuation() {
    // No stemming, no punctuation stripping.
    let toks = Tokenizer::WhitespaceLowercaseV1.tokenize(b"don't u.s.a.");
    assert_eq!(toks, vec![b"don't".to_vec(), b"u.s.a.".to_vec()]);
}

#[test]
fn whitespace_lowercase_v1_empty_input() {
    let toks = Tokenizer::WhitespaceLowercaseV1.tokenize(b"");
    assert!(toks.is_empty());
}

#[test]
fn whitespace_lowercase_v1_only_whitespace() {
    let toks = Tokenizer::WhitespaceLowercaseV1.tokenize(b"   \t  \n ");
    assert!(toks.is_empty());
}

#[test]
fn whitespace_lowercase_v1_unicode_bytes_passed_through_unchanged() {
    // ASCII-only lowercasing — non-ASCII bytes (everything ≥ 0x80,
    // i.e. every byte of a multi-byte UTF-8 codepoint) survive
    // verbatim. "Über" begins with `Ü` which is `0xC3 0x9C` in
    // UTF-8 — neither byte is ASCII, so no fold happens.
    let toks = Tokenizer::WhitespaceLowercaseV1.tokenize("Über café".as_bytes());
    assert_eq!(toks.len(), 2);
    // Input "Über" stays bit-identical: the Ü's two bytes are
    // both non-ASCII (0xC3 0x9C), and the trailing `ber` is
    // already lowercase ASCII.
    assert_eq!(toks[0], "Über".as_bytes().to_vec());
    // "café" similarly survives — every byte is either lowercase
    // ASCII or part of a multi-byte codepoint.
    assert_eq!(toks[1], "café".as_bytes().to_vec());
}

#[test]
fn whitespace_lowercase_v1_mixed_case_ascii_only_folds() {
    // Pure ASCII confirms the lowercasing is doing work.
    let toks = Tokenizer::WhitespaceLowercaseV1.tokenize(b"HELLO World FoO");
    assert_eq!(
        toks,
        vec![b"hello".to_vec(), b"world".to_vec(), b"foo".to_vec()]
    );
}

fn sample_fp() -> SourceFingerprint {
    SourceFingerprint {
        footer_length: 12345,
        footer_crc32: 0xDEAD_BEEF,
        num_rows: 5_000_000,
        num_row_groups: 16,
    }
}

fn sample_manifest() -> IndexManifest {
    IndexManifest {
        source_fingerprint: sample_fp(),
        indexes: vec![
            IndexEntry {
                name: "idx_orderkey".into(),
                kind: IndexKind::Sorted {
                    source_column: "l_orderkey".into(),
                    physical_type: PhysicalType::Int64,
                },
                sidecar_row_group: 0,
            },
            IndexEntry {
                name: "idx_partkey_bloom".into(),
                kind: IndexKind::BloomPage {
                    source_column: "l_partkey".into(),
                    target_fpp: "0.01".into(),
                },
                sidecar_row_group: 1,
            },
            IndexEntry {
                name: "idx_shipdate_partkey".into(),
                kind: IndexKind::CompositePrefix {
                    source_columns: vec!["l_shipdate".into(), "l_partkey".into()],
                    physical_types: vec![PhysicalType::Int32, PhysicalType::Int64],
                },
                sidecar_row_group: 2,
            },
            IndexEntry {
                name: "idx_comment_text".into(),
                kind: IndexKind::Inverted {
                    source_column: "l_comment".into(),
                    tokenizer: Tokenizer::WhitespaceLowercaseV1,
                },
                sidecar_row_group: 3,
            },
        ],
    }
}

#[test]
fn round_trip_all_kinds() {
    let m = sample_manifest();
    let j = m.to_json();
    let back = IndexManifest::from_json(&j).expect("parse");
    assert_eq!(m, back);
}

#[test]
fn round_trip_empty() {
    let m = IndexManifest {
        source_fingerprint: sample_fp(),
        indexes: vec![],
    };
    let j = m.to_json();
    let back = IndexManifest::from_json(&j).expect("parse");
    assert_eq!(m, back);
}

#[test]
fn unknown_top_level_keys_ignored() {
    // Forward-compat: a future producer may add fields the
    // current reader doesn't know. Reader must skip them, not
    // error out.
    let j = r#"{"version":"v1","future_thing":42,
                "source_fingerprint":{"footer_length":1,"footer_crc32":2,"num_rows":3,"num_row_groups":4,"future_fp_field":"ignored"},
                "extras":{"nested":[1,2,3]},
                "indexes":[]}"#;
    let m = IndexManifest::from_json(j).expect("parse");
    assert_eq!(m.source_fingerprint.footer_length, 1);
    assert_eq!(m.source_fingerprint.num_row_groups, 4);
    assert_eq!(m.indexes.len(), 0);
}

#[test]
fn unknown_index_per_entry_field_ignored() {
    // Same forward-compat rule, but for fields inside an index
    // entry.
    let j = r#"{"version":"v1",
                "source_fingerprint":{"footer_length":1,"footer_crc32":2,"num_rows":3,"num_row_groups":4},
                "indexes":[{"name":"x","sidecar_row_group":0,"type":"sorted","source_column":"c","physical_type":"INT64","future_field":"ok"}]}"#;
    let m = IndexManifest::from_json(j).expect("parse");
    assert_eq!(m.indexes.len(), 1);
    assert_eq!(m.indexes[0].name, "x");
}

#[test]
fn unsupported_version_rejected() {
    let j = r#"{"version":"v2","source_fingerprint":{"footer_length":1,"footer_crc32":2,"num_rows":3,"num_row_groups":4},"indexes":[]}"#;
    match IndexManifest::from_json(j) {
        Err(ManifestError::UnsupportedVersion(v)) => assert_eq!(v, "v2"),
        other => panic!("expected UnsupportedVersion, got {other:?}"),
    }
}

#[test]
fn unsupported_tokenizer_rejected() {
    let j = r#"{"version":"v1",
                "source_fingerprint":{"footer_length":1,"footer_crc32":2,"num_rows":3,"num_row_groups":4},
                "indexes":[{"name":"x","sidecar_row_group":0,"type":"inverted","source_column":"c","tokenizer":"klingon_v3"}]}"#;
    match IndexManifest::from_json(j) {
        Err(ManifestError::UnsupportedTokenizer(t)) => assert_eq!(t, "klingon_v3"),
        other => panic!("expected UnsupportedTokenizer, got {other:?}"),
    }
}

#[test]
fn unknown_index_type_rejected() {
    let j = r#"{"version":"v1",
                "source_fingerprint":{"footer_length":1,"footer_crc32":2,"num_rows":3,"num_row_groups":4},
                "indexes":[{"name":"x","sidecar_row_group":0,"type":"future_index","source_column":"c"}]}"#;
    match IndexManifest::from_json(j) {
        Err(ManifestError::Malformed(msg)) => {
            assert!(msg.contains("unknown index type"), "{msg}");
        }
        other => panic!("expected Malformed, got {other:?}"),
    }
}

#[test]
fn missing_top_level_field_rejected() {
    // No version key.
    let j = r#"{"source_fingerprint":{"footer_length":1,"footer_crc32":2,"num_rows":3,"num_row_groups":4},"indexes":[]}"#;
    match IndexManifest::from_json(j) {
        Err(ManifestError::Malformed(msg)) => assert!(msg.contains("version")),
        other => panic!("expected Malformed, got {other:?}"),
    }
}

#[test]
fn strings_with_escapes() {
    let m = IndexManifest {
        source_fingerprint: sample_fp(),
        indexes: vec![IndexEntry {
            name: "weird\"name\\with\nstuff".into(),
            kind: IndexKind::Sorted {
                source_column: "col\twith\rwhitespace".into(),
                physical_type: PhysicalType::ByteArray,
            },
            sidecar_row_group: 7,
        }],
    };
    let j = m.to_json();
    let back = IndexManifest::from_json(&j).expect("parse");
    assert_eq!(m, back);
}

#[test]
fn fingerprint_mismatch_display() {
    let err = ManifestError::SourceFingerprintMismatch {
        expected: SourceFingerprint {
            footer_length: 100,
            footer_crc32: 0xAA,
            num_rows: 1000,
            num_row_groups: 2,
        },
        actual: SourceFingerprint {
            footer_length: 200,
            footer_crc32: 0xBB,
            num_rows: 1001,
            num_row_groups: 3,
        },
    };
    let s = err.to_string();
    assert!(s.contains("footer_len=100"), "{s}");
    assert!(s.contains("footer_len=200"), "{s}");
    assert!(s.contains("num_rows=1001"), "{s}");
}

#[test]
fn physical_type_round_trips() {
    for t in [
        PhysicalType::Int32,
        PhysicalType::Int64,
        PhysicalType::ByteArray,
    ] {
        let s = t.as_str();
        assert_eq!(PhysicalType::parse(s).unwrap(), t);
    }
}

#[test]
fn json_is_well_formed_and_parseable_minimum() {
    // Smallest possible manifest.
    let m = IndexManifest {
        source_fingerprint: SourceFingerprint {
            footer_length: 0,
            footer_crc32: 0,
            num_rows: 0,
            num_row_groups: 0,
        },
        indexes: vec![],
    };
    let j = m.to_json();
    // Sanity: starts with {, ends with }, has the version field.
    assert!(j.starts_with('{'));
    assert!(j.ends_with('}'));
    assert!(j.contains("\"version\":\"v1\""));
}

#[test]
fn a_token_is_the_only_token_of_itself() {
    let t = Tokenizer::WhitespaceLowercaseV1;
    for token in t.tokenize(b"Don't  PANIC at \t 42") {
        assert_eq!(t.tokenize(&token), vec![token]);
    }
}
