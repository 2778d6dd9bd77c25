use ematix_parquet_codec::levels::compute_max_levels;
use ematix_parquet_codec::schema::{FieldRepetitionType, ParquetType, SchemaElement};


fn root(n_children: i32) -> SchemaElement {
    SchemaElement {
        column_type: None,
        repetition_type: None,
        name: b"root".to_vec(),
        num_children: Some(n_children),
    }
}

fn leaf(rep: FieldRepetitionType) -> SchemaElement {
    SchemaElement {
        column_type: Some(ParquetType::Int32),
        repetition_type: Some(rep),
        name: b"leaf".to_vec(),
        num_children: None,
    }
}

#[test]
fn flat_required_column_has_zero_levels() {
    let schema = vec![root(1), leaf(FieldRepetitionType::Required)];
    let (rep, def) = compute_max_levels(&schema, 0).unwrap();
    assert_eq!(rep, 0);
    assert_eq!(def, 0);
}

#[test]
fn flat_optional_column_has_def_level_one() {
    let schema = vec![root(1), leaf(FieldRepetitionType::Optional)];
    let (rep, def) = compute_max_levels(&schema, 0).unwrap();
    assert_eq!(rep, 0);
    assert_eq!(def, 1);
}

#[test]
fn flat_repeated_column_has_both_levels_one() {
    let schema = vec![root(1), leaf(FieldRepetitionType::Repeated)];
    let (rep, def) = compute_max_levels(&schema, 0).unwrap();
    assert_eq!(rep, 1);
    assert_eq!(def, 1);
}

#[test]
fn tpch_lineitem_flat_each_column_independent() {
    // 16-column flat schema: alternating Required and Optional.
    let mut schema = vec![root(16)];
    for i in 0..16 {
        schema.push(leaf(if i % 2 == 0 {
            FieldRepetitionType::Required
        } else {
            FieldRepetitionType::Optional
        }));
    }
    for i in 0..16 {
        let (rep, def) = compute_max_levels(&schema, i).unwrap();
        assert_eq!(rep, 0, "leaf {i} rep");
        assert_eq!(def, if i % 2 == 0 { 0 } else { 1 }, "leaf {i} def");
    }
}

#[test]
fn leaf_index_out_of_range_errors() {
    let schema = vec![root(1), leaf(FieldRepetitionType::Required)];
    assert!(compute_max_levels(&schema, 1).is_err());
}

fn group(rep: FieldRepetitionType, n_children: i32) -> SchemaElement {
    SchemaElement {
        column_type: None,
        repetition_type: Some(rep),
        name: b"group".to_vec(),
        num_children: Some(n_children),
    }
}

#[test]
fn nested_columns_add_up_the_levels_of_their_ancestors() {
    // An optional list of optional items, then a required column.
    let schema = vec![
        root(2),
        group(FieldRepetitionType::Optional, 1),
        group(FieldRepetitionType::Repeated, 1),
        leaf(FieldRepetitionType::Optional),
        leaf(FieldRepetitionType::Required),
    ];
    assert_eq!(compute_max_levels(&schema, 0).unwrap(), (1, 3));
    assert_eq!(compute_max_levels(&schema, 1).unwrap(), (0, 0));
    assert!(compute_max_levels(&schema, 2).is_err());
}
