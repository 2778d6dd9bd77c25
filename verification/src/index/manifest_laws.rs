//! What is promised of manifests: reading one gives back what was written.

use vstd::prelude::*;

use crate::index::json::{
    close_at, comma_at, digits_end, digits_value, expect_at, fraction_at, i64_at, is_digit,
    is_exponent, is_fraction, is_number_char, is_ws, number_at, number_end, string_at, string_rest,
    u32_at, ws_end,
};
use crate::index::manifest::{
    array, entries_at, entries_from, entry_at, entry_json, entry_step, escaped, escaped_char,
    fingerprint_at, fingerprint_json, fingerprint_step, kind_members, kind_of, lemma_listed3,
    lemma_listed4, listed, manifest_in, manifest_json, manifest_step, member, no_entry_fields,
    no_fingerprint_fields, no_manifest_fields, object, object_from, quoted, strings_at,
    strings_from, taken, type_named, types_named, EntryFields, EntryView, FingerprintFields,
    KindView, ManifestFault, ManifestFields, ManifestView, PhysicalType, SourceFingerprint, Step,
    Tokenizer, MANIFEST_VERSION,
};
use crate::text::{dec, dec_int, digit_char};

verus! {

/// That a character is written in a way that is read back: any but the
/// control characters other than newline, carriage return and tab.
pub open spec fn writable_char(c: char) -> bool {
    (c as u32) >= 0x20 || c == '\n' || c == '\r' || c == '\t'
}

/// That every character of a text is read back as written.
pub open spec fn writable(v: Seq<char>) -> bool {
    forall|i: int| 0 <= i < v.len() ==> writable_char(#[trigger] v[i])
}

/// That the texts of a kind are read back as written, that its rate is a
/// decimal fraction, and that its lists agree.
pub open spec fn writable_kind(kind: KindView) -> bool {
    match kind {
        KindView::Sorted { source_column, .. } => writable(source_column),
        KindView::BloomPage { source_column, target_fpp } => writable(source_column)
            && is_fraction(target_fpp),
        KindView::CompositePrefix { source_columns, physical_types } => {
            &&& source_columns.len() == physical_types.len()
            &&& forall|i: int| 0 <= i < source_columns.len() ==> writable(#[trigger] source_columns[i])
        },
        KindView::Inverted { source_column, .. } => writable(source_column),
    }
}

pub open spec fn writable_entry(e: EntryView) -> bool {
    writable(e.name) && writable_kind(e.kind)
}

/// That `text` lies in `s` from `pos` on.
spec fn here(s: Seq<char>, pos: nat, text: Seq<char>) -> bool {
    pos + text.len() <= s.len() && s.subrange(pos as int, (pos + text.len()) as int) == text
}

proof fn lemma_here_parts(s: Seq<char>, pos: nat, a: Seq<char>, b: Seq<char>)
    requires
        here(s, pos, a + b),
    ensures
        here(s, pos, a),
        here(s, pos + a.len(), b),
{
    let whole = s.subrange(pos as int, (pos + (a + b).len()) as int);
    assert(s.subrange(pos as int, (pos + a.len()) as int) =~= whole.subrange(0, a.len() as int));
    assert(whole.subrange(0, a.len() as int) =~= a);
    assert(s.subrange((pos + a.len()) as int, (pos + a.len() + b.len()) as int) =~= whole.subrange(
        a.len() as int,
        (a + b).len() as int,
    ));
    assert(whole.subrange(a.len() as int, (a + b).len() as int) =~= b);
}

proof fn lemma_here_at(s: Seq<char>, pos: nat, text: Seq<char>, i: nat)
    requires
        here(s, pos, text),
        i < text.len(),
    ensures
        pos + i < s.len(),
        s[(pos + i) as int] == text[i as int],
{
    assert(s.subrange(pos as int, (pos + text.len()) as int)[i as int] == s[(pos + i) as int]);
}

proof fn lemma_here_char(s: Seq<char>, pos: nat, c: char)
    ensures
        here(s, pos, seq![c]) ==> pos < s.len() && s[pos as int] == c,
        pos < s.len() && s[pos as int] == c ==> here(s, pos, seq![c]),
{
    if here(s, pos, seq![c]) {
        lemma_here_at(s, pos, seq![c], 0);
    }
    if pos < s.len() && s[pos as int] == c {
        assert(s.subrange(pos as int, (pos + 1) as int) =~= seq![c]);
    }
}

proof fn lemma_text_footer_length()
    ensures
        writable("footer_length"@),
        "footer_length"@.len() == 13,
        "footer_length"@[0] == 'f',
{
    reveal_strlit("footer_length");
    assert("footer_length"@[0] == 'f');
    assert("footer_length"@[1] == 'o');
    assert("footer_length"@[2] == 'o');
    assert("footer_length"@[3] == 't');
    assert("footer_length"@[4] == 'e');
    assert("footer_length"@[5] == 'r');
    assert("footer_length"@[6] == '_');
    assert("footer_length"@[7] == 'l');
    assert("footer_length"@[8] == 'e');
    assert("footer_length"@[9] == 'n');
    assert("footer_length"@[10] == 'g');
    assert("footer_length"@[11] == 't');
    assert("footer_length"@[12] == 'h');
    assert forall|i: int| 0 <= i < 13 implies writable_char(#[trigger] "footer_length"@[i]) by {
        assert(i == 0 || i == 1 || i == 2 || i == 3 || i == 4 || i == 5 || i == 6 || i == 7 || i == 8 || i == 9 || i == 10 || i == 11 || i == 12);
    }
}

proof fn lemma_text_footer_crc32()
    ensures
        writable("footer_crc32"@),
        "footer_crc32"@.len() == 12,
        "footer_crc32"@[0] == 'f',
{
    reveal_strlit("footer_crc32");
    assert("footer_crc32"@[0] == 'f');
    assert("footer_crc32"@[1] == 'o');
    assert("footer_crc32"@[2] == 'o');
    assert("footer_crc32"@[3] == 't');
    assert("footer_crc32"@[4] == 'e');
    assert("footer_crc32"@[5] == 'r');
    assert("footer_crc32"@[6] == '_');
    assert("footer_crc32"@[7] == 'c');
    assert("footer_crc32"@[8] == 'r');
    assert("footer_crc32"@[9] == 'c');
    assert("footer_crc32"@[10] == '3');
    assert("footer_crc32"@[11] == '2');
    assert forall|i: int| 0 <= i < 12 implies writable_char(#[trigger] "footer_crc32"@[i]) by {
        assert(i == 0 || i == 1 || i == 2 || i == 3 || i == 4 || i == 5 || i == 6 || i == 7 || i == 8 || i == 9 || i == 10 || i == 11);
    }
}

proof fn lemma_text_num_rows()
    ensures
        writable("num_rows"@),
        "num_rows"@.len() == 8,
        "num_rows"@[0] == 'n',
{
    reveal_strlit("num_rows");
    assert("num_rows"@[0] == 'n');
    assert("num_rows"@[1] == 'u');
    assert("num_rows"@[2] == 'm');
    assert("num_rows"@[3] == '_');
    assert("num_rows"@[4] == 'r');
    assert("num_rows"@[5] == 'o');
    assert("num_rows"@[6] == 'w');
    assert("num_rows"@[7] == 's');
    assert forall|i: int| 0 <= i < 8 implies writable_char(#[trigger] "num_rows"@[i]) by {
        assert(i == 0 || i == 1 || i == 2 || i == 3 || i == 4 || i == 5 || i == 6 || i == 7);
    }
}

proof fn lemma_text_num_row_groups()
    ensures
        writable("num_row_groups"@),
        "num_row_groups"@.len() == 14,
        "num_row_groups"@[0] == 'n',
{
    reveal_strlit("num_row_groups");
    assert("num_row_groups"@[0] == 'n');
    assert("num_row_groups"@[1] == 'u');
    assert("num_row_groups"@[2] == 'm');
    assert("num_row_groups"@[3] == '_');
    assert("num_row_groups"@[4] == 'r');
    assert("num_row_groups"@[5] == 'o');
    assert("num_row_groups"@[6] == 'w');
    assert("num_row_groups"@[7] == '_');
    assert("num_row_groups"@[8] == 'g');
    assert("num_row_groups"@[9] == 'r');
    assert("num_row_groups"@[10] == 'o');
    assert("num_row_groups"@[11] == 'u');
    assert("num_row_groups"@[12] == 'p');
    assert("num_row_groups"@[13] == 's');
    assert forall|i: int| 0 <= i < 14 implies writable_char(#[trigger] "num_row_groups"@[i]) by {
        assert(i == 0 || i == 1 || i == 2 || i == 3 || i == 4 || i == 5 || i == 6 || i == 7 || i == 8 || i == 9 || i == 10 || i == 11 || i == 12 || i == 13);
    }
}

proof fn lemma_text_name()
    ensures
        writable("name"@),
        "name"@.len() == 4,
        "name"@[0] == 'n',
{
    reveal_strlit("name");
    assert("name"@[0] == 'n');
    assert("name"@[1] == 'a');
    assert("name"@[2] == 'm');
    assert("name"@[3] == 'e');
    assert forall|i: int| 0 <= i < 4 implies writable_char(#[trigger] "name"@[i]) by {
        assert(i == 0 || i == 1 || i == 2 || i == 3);
    }
}

proof fn lemma_text_sidecar_row_group()
    ensures
        writable("sidecar_row_group"@),
        "sidecar_row_group"@.len() == 17,
        "sidecar_row_group"@[0] == 's',
{
    reveal_strlit("sidecar_row_group");
    assert("sidecar_row_group"@[0] == 's');
    assert("sidecar_row_group"@[1] == 'i');
    assert("sidecar_row_group"@[2] == 'd');
    assert("sidecar_row_group"@[3] == 'e');
    assert("sidecar_row_group"@[4] == 'c');
    assert("sidecar_row_group"@[5] == 'a');
    assert("sidecar_row_group"@[6] == 'r');
    assert("sidecar_row_group"@[7] == '_');
    assert("sidecar_row_group"@[8] == 'r');
    assert("sidecar_row_group"@[9] == 'o');
    assert("sidecar_row_group"@[10] == 'w');
    assert("sidecar_row_group"@[11] == '_');
    assert("sidecar_row_group"@[12] == 'g');
    assert("sidecar_row_group"@[13] == 'r');
    assert("sidecar_row_group"@[14] == 'o');
    assert("sidecar_row_group"@[15] == 'u');
    assert("sidecar_row_group"@[16] == 'p');
    assert forall|i: int| 0 <= i < 17 implies writable_char(#[trigger] "sidecar_row_group"@[i]) by {
        assert(i == 0 || i == 1 || i == 2 || i == 3 || i == 4 || i == 5 || i == 6 || i == 7 || i == 8 || i == 9 || i == 10 || i == 11 || i == 12 || i == 13 || i == 14 || i == 15 || i == 16);
    }
}

proof fn lemma_text_type()
    ensures
        writable("type"@),
        "type"@.len() == 4,
        "type"@[0] == 't',
{
    reveal_strlit("type");
    assert("type"@[0] == 't');
    assert("type"@[1] == 'y');
    assert("type"@[2] == 'p');
    assert("type"@[3] == 'e');
    assert forall|i: int| 0 <= i < 4 implies writable_char(#[trigger] "type"@[i]) by {
        assert(i == 0 || i == 1 || i == 2 || i == 3);
    }
}

proof fn lemma_text_source_column()
    ensures
        writable("source_column"@),
        "source_column"@.len() == 13,
        "source_column"@[0] == 's',
{
    reveal_strlit("source_column");
    assert("source_column"@[0] == 's');
    assert("source_column"@[1] == 'o');
    assert("source_column"@[2] == 'u');
    assert("source_column"@[3] == 'r');
    assert("source_column"@[4] == 'c');
    assert("source_column"@[5] == 'e');
    assert("source_column"@[6] == '_');
    assert("source_column"@[7] == 'c');
    assert("source_column"@[8] == 'o');
    assert("source_column"@[9] == 'l');
    assert("source_column"@[10] == 'u');
    assert("source_column"@[11] == 'm');
    assert("source_column"@[12] == 'n');
    assert forall|i: int| 0 <= i < 13 implies writable_char(#[trigger] "source_column"@[i]) by {
        assert(i == 0 || i == 1 || i == 2 || i == 3 || i == 4 || i == 5 || i == 6 || i == 7 || i == 8 || i == 9 || i == 10 || i == 11 || i == 12);
    }
}

proof fn lemma_text_physical_type()
    ensures
        writable("physical_type"@),
        "physical_type"@.len() == 13,
        "physical_type"@[0] == 'p',
{
    reveal_strlit("physical_type");
    assert("physical_type"@[0] == 'p');
    assert("physical_type"@[1] == 'h');
    assert("physical_type"@[2] == 'y');
    assert("physical_type"@[3] == 's');
    assert("physical_type"@[4] == 'i');
    assert("physical_type"@[5] == 'c');
    assert("physical_type"@[6] == 'a');
    assert("physical_type"@[7] == 'l');
    assert("physical_type"@[8] == '_');
    assert("physical_type"@[9] == 't');
    assert("physical_type"@[10] == 'y');
    assert("physical_type"@[11] == 'p');
    assert("physical_type"@[12] == 'e');
    assert forall|i: int| 0 <= i < 13 implies writable_char(#[trigger] "physical_type"@[i]) by {
        assert(i == 0 || i == 1 || i == 2 || i == 3 || i == 4 || i == 5 || i == 6 || i == 7 || i == 8 || i == 9 || i == 10 || i == 11 || i == 12);
    }
}

proof fn lemma_text_target_fpp()
    ensures
        writable("target_fpp"@),
        "target_fpp"@.len() == 10,
        "target_fpp"@[0] == 't',
{
    reveal_strlit("target_fpp");
    assert("target_fpp"@[0] == 't');
    assert("target_fpp"@[1] == 'a');
    assert("target_fpp"@[2] == 'r');
    assert("target_fpp"@[3] == 'g');
    assert("target_fpp"@[4] == 'e');
    assert("target_fpp"@[5] == 't');
    assert("target_fpp"@[6] == '_');
    assert("target_fpp"@[7] == 'f');
    assert("target_fpp"@[8] == 'p');
    assert("target_fpp"@[9] == 'p');
    assert forall|i: int| 0 <= i < 10 implies writable_char(#[trigger] "target_fpp"@[i]) by {
        assert(i == 0 || i == 1 || i == 2 || i == 3 || i == 4 || i == 5 || i == 6 || i == 7 || i == 8 || i == 9);
    }
}

proof fn lemma_text_source_columns()
    ensures
        writable("source_columns"@),
        "source_columns"@.len() == 14,
        "source_columns"@[0] == 's',
{
    reveal_strlit("source_columns");
    assert("source_columns"@[0] == 's');
    assert("source_columns"@[1] == 'o');
    assert("source_columns"@[2] == 'u');
    assert("source_columns"@[3] == 'r');
    assert("source_columns"@[4] == 'c');
    assert("source_columns"@[5] == 'e');
    assert("source_columns"@[6] == '_');
    assert("source_columns"@[7] == 'c');
    assert("source_columns"@[8] == 'o');
    assert("source_columns"@[9] == 'l');
    assert("source_columns"@[10] == 'u');
    assert("source_columns"@[11] == 'm');
    assert("source_columns"@[12] == 'n');
    assert("source_columns"@[13] == 's');
    assert forall|i: int| 0 <= i < 14 implies writable_char(#[trigger] "source_columns"@[i]) by {
        assert(i == 0 || i == 1 || i == 2 || i == 3 || i == 4 || i == 5 || i == 6 || i == 7 || i == 8 || i == 9 || i == 10 || i == 11 || i == 12 || i == 13);
    }
}

proof fn lemma_text_physical_types()
    ensures
        writable("physical_types"@),
        "physical_types"@.len() == 14,
        "physical_types"@[0] == 'p',
{
    reveal_strlit("physical_types");
    assert("physical_types"@[0] == 'p');
    assert("physical_types"@[1] == 'h');
    assert("physical_types"@[2] == 'y');
    assert("physical_types"@[3] == 's');
    assert("physical_types"@[4] == 'i');
    assert("physical_types"@[5] == 'c');
    assert("physical_types"@[6] == 'a');
    assert("physical_types"@[7] == 'l');
    assert("physical_types"@[8] == '_');
    assert("physical_types"@[9] == 't');
    assert("physical_types"@[10] == 'y');
    assert("physical_types"@[11] == 'p');
    assert("physical_types"@[12] == 'e');
    assert("physical_types"@[13] == 's');
    assert forall|i: int| 0 <= i < 14 implies writable_char(#[trigger] "physical_types"@[i]) by {
        assert(i == 0 || i == 1 || i == 2 || i == 3 || i == 4 || i == 5 || i == 6 || i == 7 || i == 8 || i == 9 || i == 10 || i == 11 || i == 12 || i == 13);
    }
}

proof fn lemma_text_tokenizer()
    ensures
        writable("tokenizer"@),
        "tokenizer"@.len() == 9,
        "tokenizer"@[0] == 't',
{
    reveal_strlit("tokenizer");
    assert("tokenizer"@[0] == 't');
    assert("tokenizer"@[1] == 'o');
    assert("tokenizer"@[2] == 'k');
    assert("tokenizer"@[3] == 'e');
    assert("tokenizer"@[4] == 'n');
    assert("tokenizer"@[5] == 'i');
    assert("tokenizer"@[6] == 'z');
    assert("tokenizer"@[7] == 'e');
    assert("tokenizer"@[8] == 'r');
    assert forall|i: int| 0 <= i < 9 implies writable_char(#[trigger] "tokenizer"@[i]) by {
        assert(i == 0 || i == 1 || i == 2 || i == 3 || i == 4 || i == 5 || i == 6 || i == 7 || i == 8);
    }
}

proof fn lemma_text_version()
    ensures
        writable("version"@),
        "version"@.len() == 7,
        "version"@[0] == 'v',
{
    reveal_strlit("version");
    assert("version"@[0] == 'v');
    assert("version"@[1] == 'e');
    assert("version"@[2] == 'r');
    assert("version"@[3] == 's');
    assert("version"@[4] == 'i');
    assert("version"@[5] == 'o');
    assert("version"@[6] == 'n');
    assert forall|i: int| 0 <= i < 7 implies writable_char(#[trigger] "version"@[i]) by {
        assert(i == 0 || i == 1 || i == 2 || i == 3 || i == 4 || i == 5 || i == 6);
    }
}

proof fn lemma_text_source_fingerprint()
    ensures
        writable("source_fingerprint"@),
        "source_fingerprint"@.len() == 18,
        "source_fingerprint"@[0] == 's',
{
    reveal_strlit("source_fingerprint");
    assert("source_fingerprint"@[0] == 's');
    assert("source_fingerprint"@[1] == 'o');
    assert("source_fingerprint"@[2] == 'u');
    assert("source_fingerprint"@[3] == 'r');
    assert("source_fingerprint"@[4] == 'c');
    assert("source_fingerprint"@[5] == 'e');
    assert("source_fingerprint"@[6] == '_');
    assert("source_fingerprint"@[7] == 'f');
    assert("source_fingerprint"@[8] == 'i');
    assert("source_fingerprint"@[9] == 'n');
    assert("source_fingerprint"@[10] == 'g');
    assert("source_fingerprint"@[11] == 'e');
    assert("source_fingerprint"@[12] == 'r');
    assert("source_fingerprint"@[13] == 'p');
    assert("source_fingerprint"@[14] == 'r');
    assert("source_fingerprint"@[15] == 'i');
    assert("source_fingerprint"@[16] == 'n');
    assert("source_fingerprint"@[17] == 't');
    assert forall|i: int| 0 <= i < 18 implies writable_char(#[trigger] "source_fingerprint"@[i]) by {
        assert(i == 0 || i == 1 || i == 2 || i == 3 || i == 4 || i == 5 || i == 6 || i == 7 || i == 8 || i == 9 || i == 10 || i == 11 || i == 12 || i == 13 || i == 14 || i == 15 || i == 16 || i == 17);
    }
}

proof fn lemma_text_indexes()
    ensures
        writable("indexes"@),
        "indexes"@.len() == 7,
        "indexes"@[0] == 'i',
{
    reveal_strlit("indexes");
    assert("indexes"@[0] == 'i');
    assert("indexes"@[1] == 'n');
    assert("indexes"@[2] == 'd');
    assert("indexes"@[3] == 'e');
    assert("indexes"@[4] == 'x');
    assert("indexes"@[5] == 'e');
    assert("indexes"@[6] == 's');
    assert forall|i: int| 0 <= i < 7 implies writable_char(#[trigger] "indexes"@[i]) by {
        assert(i == 0 || i == 1 || i == 2 || i == 3 || i == 4 || i == 5 || i == 6);
    }
}

proof fn lemma_text_sorted()
    ensures
        writable("sorted"@),
        "sorted"@.len() == 6,
        "sorted"@[0] == 's',
{
    reveal_strlit("sorted");
    assert("sorted"@[0] == 's');
    assert("sorted"@[1] == 'o');
    assert("sorted"@[2] == 'r');
    assert("sorted"@[3] == 't');
    assert("sorted"@[4] == 'e');
    assert("sorted"@[5] == 'd');
    assert forall|i: int| 0 <= i < 6 implies writable_char(#[trigger] "sorted"@[i]) by {
        assert(i == 0 || i == 1 || i == 2 || i == 3 || i == 4 || i == 5);
    }
}

proof fn lemma_text_bloom_page()
    ensures
        writable("bloom_page"@),
        "bloom_page"@.len() == 10,
        "bloom_page"@[0] == 'b',
{
    reveal_strlit("bloom_page");
    assert("bloom_page"@[0] == 'b');
    assert("bloom_page"@[1] == 'l');
    assert("bloom_page"@[2] == 'o');
    assert("bloom_page"@[3] == 'o');
    assert("bloom_page"@[4] == 'm');
    assert("bloom_page"@[5] == '_');
    assert("bloom_page"@[6] == 'p');
    assert("bloom_page"@[7] == 'a');
    assert("bloom_page"@[8] == 'g');
    assert("bloom_page"@[9] == 'e');
    assert forall|i: int| 0 <= i < 10 implies writable_char(#[trigger] "bloom_page"@[i]) by {
        assert(i == 0 || i == 1 || i == 2 || i == 3 || i == 4 || i == 5 || i == 6 || i == 7 || i == 8 || i == 9);
    }
}

proof fn lemma_text_composite_prefix()
    ensures
        writable("composite_prefix"@),
        "composite_prefix"@.len() == 16,
        "composite_prefix"@[0] == 'c',
{
    reveal_strlit("composite_prefix");
    assert("composite_prefix"@[0] == 'c');
    assert("composite_prefix"@[1] == 'o');
    assert("composite_prefix"@[2] == 'm');
    assert("composite_prefix"@[3] == 'p');
    assert("composite_prefix"@[4] == 'o');
    assert("composite_prefix"@[5] == 's');
    assert("composite_prefix"@[6] == 'i');
    assert("composite_prefix"@[7] == 't');
    assert("composite_prefix"@[8] == 'e');
    assert("composite_prefix"@[9] == '_');
    assert("composite_prefix"@[10] == 'p');
    assert("composite_prefix"@[11] == 'r');
    assert("composite_prefix"@[12] == 'e');
    assert("composite_prefix"@[13] == 'f');
    assert("composite_prefix"@[14] == 'i');
    assert("composite_prefix"@[15] == 'x');
    assert forall|i: int| 0 <= i < 16 implies writable_char(#[trigger] "composite_prefix"@[i]) by {
        assert(i == 0 || i == 1 || i == 2 || i == 3 || i == 4 || i == 5 || i == 6 || i == 7 || i == 8 || i == 9 || i == 10 || i == 11 || i == 12 || i == 13 || i == 14 || i == 15);
    }
}

proof fn lemma_text_inverted()
    ensures
        writable("inverted"@),
        "inverted"@.len() == 8,
        "inverted"@[0] == 'i',
{
    reveal_strlit("inverted");
    assert("inverted"@[0] == 'i');
    assert("inverted"@[1] == 'n');
    assert("inverted"@[2] == 'v');
    assert("inverted"@[3] == 'e');
    assert("inverted"@[4] == 'r');
    assert("inverted"@[5] == 't');
    assert("inverted"@[6] == 'e');
    assert("inverted"@[7] == 'd');
    assert forall|i: int| 0 <= i < 8 implies writable_char(#[trigger] "inverted"@[i]) by {
        assert(i == 0 || i == 1 || i == 2 || i == 3 || i == 4 || i == 5 || i == 6 || i == 7);
    }
}

proof fn lemma_text_int32()
    ensures
        writable("INT32"@),
        "INT32"@.len() == 5,
        "INT32"@[0] == 'I',
        "INT32"@[3] == '3',
{
    reveal_strlit("INT32");
    assert("INT32"@[0] == 'I');
    assert("INT32"@[1] == 'N');
    assert("INT32"@[2] == 'T');
    assert("INT32"@[3] == '3');
    assert("INT32"@[4] == '2');
    assert forall|i: int| 0 <= i < 5 implies writable_char(#[trigger] "INT32"@[i]) by {
        assert(i == 0 || i == 1 || i == 2 || i == 3 || i == 4);
    }
}

proof fn lemma_text_int64()
    ensures
        writable("INT64"@),
        "INT64"@.len() == 5,
        "INT64"@[0] == 'I',
        "INT64"@[3] == '6',
{
    reveal_strlit("INT64");
    assert("INT64"@[0] == 'I');
    assert("INT64"@[1] == 'N');
    assert("INT64"@[2] == 'T');
    assert("INT64"@[3] == '6');
    assert("INT64"@[4] == '4');
    assert forall|i: int| 0 <= i < 5 implies writable_char(#[trigger] "INT64"@[i]) by {
        assert(i == 0 || i == 1 || i == 2 || i == 3 || i == 4);
    }
}

proof fn lemma_text_byte_array()
    ensures
        writable("BYTE_ARRAY"@),
        "BYTE_ARRAY"@.len() == 10,
        "BYTE_ARRAY"@[0] == 'B',
{
    reveal_strlit("BYTE_ARRAY");
    assert("BYTE_ARRAY"@[0] == 'B');
    assert("BYTE_ARRAY"@[1] == 'Y');
    assert("BYTE_ARRAY"@[2] == 'T');
    assert("BYTE_ARRAY"@[3] == 'E');
    assert("BYTE_ARRAY"@[4] == '_');
    assert("BYTE_ARRAY"@[5] == 'A');
    assert("BYTE_ARRAY"@[6] == 'R');
    assert("BYTE_ARRAY"@[7] == 'R');
    assert("BYTE_ARRAY"@[8] == 'A');
    assert("BYTE_ARRAY"@[9] == 'Y');
    assert forall|i: int| 0 <= i < 10 implies writable_char(#[trigger] "BYTE_ARRAY"@[i]) by {
        assert(i == 0 || i == 1 || i == 2 || i == 3 || i == 4 || i == 5 || i == 6 || i == 7 || i == 8 || i == 9);
    }
}

proof fn lemma_text_whitespace_lowercase_v1()
    ensures
        writable("whitespace_lowercase_v1"@),
        "whitespace_lowercase_v1"@.len() == 23,
        "whitespace_lowercase_v1"@[0] == 'w',
{
    reveal_strlit("whitespace_lowercase_v1");
    assert("whitespace_lowercase_v1"@[0] == 'w');
    assert("whitespace_lowercase_v1"@[1] == 'h');
    assert("whitespace_lowercase_v1"@[2] == 'i');
    assert("whitespace_lowercase_v1"@[3] == 't');
    assert("whitespace_lowercase_v1"@[4] == 'e');
    assert("whitespace_lowercase_v1"@[5] == 's');
    assert("whitespace_lowercase_v1"@[6] == 'p');
    assert("whitespace_lowercase_v1"@[7] == 'a');
    assert("whitespace_lowercase_v1"@[8] == 'c');
    assert("whitespace_lowercase_v1"@[9] == 'e');
    assert("whitespace_lowercase_v1"@[10] == '_');
    assert("whitespace_lowercase_v1"@[11] == 'l');
    assert("whitespace_lowercase_v1"@[12] == 'o');
    assert("whitespace_lowercase_v1"@[13] == 'w');
    assert("whitespace_lowercase_v1"@[14] == 'e');
    assert("whitespace_lowercase_v1"@[15] == 'r');
    assert("whitespace_lowercase_v1"@[16] == 'c');
    assert("whitespace_lowercase_v1"@[17] == 'a');
    assert("whitespace_lowercase_v1"@[18] == 's');
    assert("whitespace_lowercase_v1"@[19] == 'e');
    assert("whitespace_lowercase_v1"@[20] == '_');
    assert("whitespace_lowercase_v1"@[21] == 'v');
    assert("whitespace_lowercase_v1"@[22] == '1');
    assert forall|i: int| 0 <= i < 23 implies writable_char(#[trigger] "whitespace_lowercase_v1"@[i]) by {
        assert(i == 0 || i == 1 || i == 2 || i == 3 || i == 4 || i == 5 || i == 6 || i == 7 || i == 8 || i == 9 || i == 10 || i == 11 || i == 12 || i == 13 || i == 14 || i == 15 || i == 16 || i == 17 || i == 18 || i == 19 || i == 20 || i == 21 || i == 22);
    }
}

proof fn lemma_text_v1()
    ensures
        writable("v1"@),
        "v1"@.len() == 2,
        "v1"@[0] == 'v',
{
    reveal_strlit("v1");
    assert("v1"@[0] == 'v');
    assert("v1"@[1] == '1');
    assert forall|i: int| 0 <= i < 2 implies writable_char(#[trigger] "v1"@[i]) by {
        assert(i == 0 || i == 1);
    }
}

/// A quoted string is read back, and the reader stands after its quote.
proof fn lemma_string_rest_back(s: Seq<char>, pos: nat, v: Seq<char>)
    requires
        writable(v),
        here(s, pos, escaped(v) + seq!['"']),
    ensures
        string_rest(s, pos) == Ok::<(Seq<char>, nat), Seq<char>>(
            (v, pos + escaped(v).len() + 1),
        ),
    decreases v.len(),
{
    lemma_here_parts(s, pos, escaped(v), seq!['"']);
    lemma_here_char(s, pos + escaped(v).len(), '"');
    if v.len() == 0 {
        assert(v =~= Seq::<char>::empty());
    } else {
        let c = v[0];
        let rest = v.skip(1);
        let head = escaped_char(c);
        assert(writable_char(c));
        assert(writable(rest)) by {
            assert forall|i: int| 0 <= i < rest.len() implies writable_char(#[trigger] rest[i]) by {
                assert(rest[i] == v[i + 1]);
            }
        }
        assert(escaped(v) == head + escaped(rest));
        assert(escaped(v) + seq!['"'] =~= head + (escaped(rest) + seq!['"']));
        lemma_here_parts(s, pos, head, escaped(rest) + seq!['"']);
        lemma_here_at(s, pos, head, 0);
        if head.len() > 1 {
            lemma_here_at(s, pos, head, 1);
        }
        lemma_string_rest_back(s, pos + head.len(), rest);
        assert(seq![c] + rest =~= v);
        assert(head.len() == 1 || head.len() == 2);
    }
}

proof fn lemma_string_back(s: Seq<char>, pos: nat, v: Seq<char>)
    requires
        writable(v),
        here(s, pos, quoted(v)),
    ensures
        string_at(s, pos) == Ok::<(Seq<char>, nat), Seq<char>>((v, pos + quoted(v).len())),
        pos < s.len() && s[pos as int] == '"',
{
    assert(quoted(v) =~= seq!['"'] + (escaped(v) + seq!['"']));
    lemma_here_parts(s, pos, seq!['"'], escaped(v) + seq!['"']);
    lemma_here_char(s, pos, '"');
    lemma_string_rest_back(s, pos + 1, v);
}

proof fn lemma_dec_digits(n: nat)
    ensures
        digits_value(dec(n)) == Some(n),
        forall|i: int| 0 <= i < dec(n).len() ==> is_digit(#[trigger] dec(n)[i]),
        dec(n).len() > 0,
    decreases n,
{
    if n >= 10 {
        lemma_dec_digits(n / 10);
        let d = digit_char(n % 10);
        assert(dec(n).drop_last() =~= dec(n / 10));
        assert(dec(n).last() == d);
        assert(d as u32 == 48 + n % 10);
    } else {
        assert(digit_char(n) as u32 == 48 + n);
    }
}

/// The characters of a number end where another character comes.
proof fn lemma_number_run(s: Seq<char>, pos: nat, end: nat)
    requires
        pos <= end <= s.len(),
        forall|i: int| pos <= i < end ==> is_number_char(#[trigger] s[i]),
        end < s.len() ==> !is_number_char(s[end as int]),
    ensures
        number_end(s, pos) == end,
    decreases end - pos,
{
    if pos < end {
        assert(is_number_char(s[pos as int]));
        lemma_number_run(s, pos + 1, end);
    }
}

/// A number is read back where another character follows it.
proof fn lemma_number_back(s: Seq<char>, pos: nat, t: Seq<char>)
    requires
        t.len() > 0,
        forall|i: int| 0 <= i < t.len() ==> is_number_char(#[trigger] t[i]),
        here(s, pos, t),
        pos + t.len() < s.len() ==> !is_number_char(s[(pos + t.len()) as int]),
    ensures
        number_at(s, pos) == Ok::<(Seq<char>, nat), Seq<char>>((t, pos + t.len())),
{
    assert forall|i: int| pos <= i < pos + t.len() implies is_number_char(#[trigger] s[i]) by {
        lemma_here_at(s, pos, t, (i - pos) as nat);
        assert(is_number_char(t[i - pos]));
    }
    lemma_here_at(s, pos, t, 0);
    assert(is_number_char(t[0]));
    assert(!is_ws(s[pos as int]));
    lemma_number_run(s, pos, pos + t.len());
}

proof fn lemma_u32_back(s: Seq<char>, pos: nat, n: u32)
    requires
        here(s, pos, dec(n as nat)),
        pos + dec(n as nat).len() < s.len() ==> !is_number_char(
            s[(pos + dec(n as nat).len()) as int],
        ),
    ensures
        u32_at(s, pos) == Ok::<(u32, nat), Seq<char>>((n, pos + dec(n as nat).len())),
{
    let t = dec(n as nat);
    lemma_dec_digits(n as nat);
    assert forall|i: int| 0 <= i < t.len() implies is_number_char(#[trigger] t[i]) by {
        assert(is_digit(t[i]));
    }
    lemma_number_back(s, pos, t);
    assert(is_digit(t[0]));
}

proof fn lemma_i64_back(s: Seq<char>, pos: nat, n: i64)
    requires
        here(s, pos, dec_int(n as int)),
        pos + dec_int(n as int).len() < s.len() ==> !is_number_char(
            s[(pos + dec_int(n as int).len()) as int],
        ),
    ensures
        i64_at(s, pos) == Ok::<(i64, nat), Seq<char>>((n, pos + dec_int(n as int).len())),
{
    let t = dec_int(n as int);
    let magnitude: nat = if n < 0 {
        (-(n as int)) as nat
    } else {
        n as nat
    };
    lemma_dec_digits(magnitude);
    assert forall|i: int| 0 <= i < t.len() implies is_number_char(#[trigger] t[i]) by {
        if n < 0 {
            if i > 0 {
                assert(t[i] == dec(magnitude)[i - 1]);
            }
        } else {
            assert(is_digit(t[i]));
        }
    }
    lemma_number_back(s, pos, t);
    if n < 0 {
        assert(t.skip(1) =~= dec(magnitude));
        assert(t[0] == '-');
    } else {
        assert(is_digit(t[0]));
    }
}

proof fn lemma_digits_end(t: Seq<char>, pos: nat)
    ensures
        pos <= digits_end(t, pos),
        pos <= t.len() ==> digits_end(t, pos) <= t.len(),
        forall|i: int| pos <= i < digits_end(t, pos) ==> is_digit(#[trigger] t[i]),
    decreases t.len() - pos,
{
    if pos < t.len() && is_digit(t[pos as int]) {
        lemma_digits_end(t, pos + 1);
    }
}

proof fn lemma_fraction_chars(t: Seq<char>)
    requires
        is_fraction(t),
    ensures
        t.len() > 0,
        forall|i: int| 0 <= i < t.len() ==> is_number_char(#[trigger] t[i]),
{
    let start: nat = if t.len() > 0 && (t[0] == '+' || t[0] == '-') {
        1
    } else {
        0
    };
    let whole = digits_end(t, start);
    lemma_digits_end(t, start);
    lemma_digits_end(t, whole + 1);
    let end = if whole < t.len() && t[whole as int] == '.' {
        digits_end(t, whole + 1)
    } else {
        whole
    };
    lemma_digits_end(t, end + 1);
    lemma_digits_end(t, end + 2);
    assert forall|i: int| 0 <= i < t.len() implies is_number_char(#[trigger] t[i]) by {
        if i < start {
        } else if i < whole {
            assert(is_digit(t[i]));
        } else if i < end {
            if i > whole {
                assert(is_digit(t[i]));
            }
        } else if end < t.len() {
            assert(is_exponent(t, end));
            if i > end + 1 || (i == end + 1 && !(t[i] == '+' || t[i] == '-')) {
                assert(is_digit(t[i]));
            }
        }
    }
}

proof fn lemma_fraction_back(s: Seq<char>, pos: nat, t: Seq<char>)
    requires
        is_fraction(t),
        here(s, pos, t),
        pos + t.len() < s.len() ==> !is_number_char(s[(pos + t.len()) as int]),
    ensures
        fraction_at(s, pos) == Ok::<(Seq<char>, nat), Seq<char>>((t, pos + t.len())),
{
    lemma_fraction_chars(t);
    lemma_number_back(s, pos, t);
}

/// One member is read, and then what follows it.
proof fn lemma_member_back<S>(
    s: Seq<char>,
    pos: nat,
    state: S,
    step: Step<S>,
    key: Seq<char>,
    value: Seq<char>,
    next_state: S,
    more: bool,
)
    requires
        writable(key),
        here(s, pos, member(key, value)),
        pos + member(key, value).len() < s.len(),
        s[(pos + member(key, value).len()) as int] == if more {
            ','
        } else {
            '}'
        },
        step(state, key, pos + quoted(key).len() + 1) == Ok::<(S, nat), ManifestFault>(
            (next_state, value.len()),
        ),
    ensures
        object_from(s, pos, state, step) == object_from(
            s,
            pos + member(key, value).len() + if more {
                1nat
            } else {
                0nat
            },
            next_state,
            step,
        ),
{
    reveal_with_fuel(object_from::<int>, 1);
    let p1 = pos + quoted(key).len();
    assert(member(key, value) =~= quoted(key) + (seq![':'] + value));
    lemma_here_parts(s, pos, quoted(key), seq![':'] + value);
    lemma_string_back(s, pos, key);
    lemma_here_parts(s, p1, seq![':'], value);
    lemma_here_char(s, p1, ':');
    let end = pos + member(key, value).len();
    assert(p1 + 1 + value.len() == end);
    assert(expect_at(s, p1, ':') == Ok::<nat, Seq<char>>(p1 + 1));
    assert(close_at(s, pos, '}') is None);
    assert(ws_end(s, end) == end);
}

/// The closing brace ends an object.
proof fn lemma_object_end<S>(s: Seq<char>, pos: nat, state: S, step: Step<S>)
    requires
        pos < s.len(),
        s[pos as int] == '}',
    ensures
        object_from(s, pos, state, step) == Ok::<(S, nat), ManifestFault>((state, pos + 1)),
{
    reveal_with_fuel(object_from::<int>, 1);
}

proof fn lemma_split_comma(s: Seq<char>, pos: nat, a: Seq<char>, rest: Seq<char>)
    requires
        here(s, pos, a + seq![','] + rest),
    ensures
        here(s, pos, a),
        pos + a.len() < s.len(),
        s[(pos + a.len()) as int] == ',',
        here(s, pos + a.len() + 1, rest),
{
    assert(a + seq![','] + rest =~= a + (seq![','] + rest));
    lemma_here_parts(s, pos, a, seq![','] + rest);
    lemma_here_parts(s, pos + a.len(), seq![','], rest);
    lemma_here_char(s, pos + a.len(), ',');
}

/// An object opens with a brace, and a brace follows its members.
proof fn lemma_split_object(s: Seq<char>, pos: nat, body: Seq<char>)
    requires
        here(s, pos, seq!['{'] + body + seq!['}']),
    ensures
        expect_at(s, pos, '{') == Ok::<nat, Seq<char>>(pos + 1),
        here(s, pos + 1, body),
        pos + 1 + body.len() < s.len(),
        s[(pos + 1 + body.len()) as int] == '}',
{
    assert(seq!['{'] + body + seq!['}'] =~= seq!['{'] + (body + seq!['}']));
    lemma_here_parts(s, pos, seq!['{'], body + seq!['}']);
    lemma_here_char(s, pos, '{');
    lemma_here_parts(s, pos + 1, body, seq!['}']);
    lemma_here_char(s, pos + 1 + body.len(), '}');
}

proof fn lemma_split_array(s: Seq<char>, pos: nat, body: Seq<char>)
    requires
        here(s, pos, seq!['['] + body + seq![']']),
    ensures
        expect_at(s, pos, '[') == Ok::<nat, Seq<char>>(pos + 1),
        here(s, pos + 1, body),
        pos + 1 + body.len() < s.len(),
        s[(pos + 1 + body.len()) as int] == ']',
{
    assert(seq!['['] + body + seq![']'] =~= seq!['['] + (body + seq![']']));
    lemma_here_parts(s, pos, seq!['['], body + seq![']']);
    lemma_here_char(s, pos, '[');
    lemma_here_parts(s, pos + 1, body, seq![']']);
    lemma_here_char(s, pos + 1 + body.len(), ']');
}

/// The value of a member, and the position of it.
proof fn lemma_member_value(s: Seq<char>, pos: nat, key: Seq<char>, value: Seq<char>)
    requires
        here(s, pos, member(key, value)),
    ensures
        here(s, pos + quoted(key).len() + 1, value),
        pos + quoted(key).len() + 1 + value.len() == pos + member(key, value).len(),
{
    assert(member(key, value) =~= (quoted(key) + seq![':']) + value);
    lemma_here_parts(s, pos, quoted(key) + seq![':'], value);
}

proof fn lemma_fingerprint_back(s: Seq<char>, pos: nat, fp: SourceFingerprint)
    requires
        here(s, pos, fingerprint_json(fp)),
    ensures
        fingerprint_at(s, pos) == Ok::<(SourceFingerprint, nat), ManifestFault>(
            (fp, pos + fingerprint_json(fp).len()),
        ),
{
    lemma_text_footer_length();
    lemma_text_footer_crc32();
    lemma_text_num_rows();
    lemma_text_num_row_groups();
    let va = dec(fp.footer_length as nat);
    let vb = dec(fp.footer_crc32 as nat);
    let vc = dec_int(fp.num_rows as int);
    let vd = dec(fp.num_row_groups as nat);
    let a = member("footer_length"@, va);
    let b = member("footer_crc32"@, vb);
    let c = member("num_rows"@, vc);
    let d = member("num_row_groups"@, vd);
    let body = listed(seq![a, b, c, d]);
    let step = fingerprint_step(s);
    lemma_listed4(a, b, c, d);
    lemma_split_object(s, pos, body);
    let p0 = pos + 1;
    lemma_split_comma(s, p0, a, b + seq![','] + (c + seq![','] + d));
    let p1 = p0 + a.len() + 1;
    lemma_split_comma(s, p1, b, c + seq![','] + d);
    let p2 = p1 + b.len() + 1;
    lemma_split_comma(s, p2, c, d);
    let p3 = p2 + c.len() + 1;
    let f0 = no_fingerprint_fields();
    let f1 = FingerprintFields { footer_length: Some(fp.footer_length), ..f0 };
    let f2 = FingerprintFields { footer_crc32: Some(fp.footer_crc32), ..f1 };
    let f3 = FingerprintFields { num_rows: Some(fp.num_rows), ..f2 };
    let f4 = FingerprintFields { num_row_groups: Some(fp.num_row_groups), ..f3 };
    lemma_member_value(s, p0, "footer_length"@, va);
    lemma_u32_back(s, p0 + quoted("footer_length"@).len() + 1, fp.footer_length);
    lemma_member_back(s, p0, f0, step, "footer_length"@, va, f1, true);
    lemma_member_value(s, p1, "footer_crc32"@, vb);
    lemma_u32_back(s, p1 + quoted("footer_crc32"@).len() + 1, fp.footer_crc32);
    lemma_member_back(s, p1, f1, step, "footer_crc32"@, vb, f2, true);
    lemma_member_value(s, p2, "num_rows"@, vc);
    lemma_i64_back(s, p2 + quoted("num_rows"@).len() + 1, fp.num_rows);
    lemma_member_back(s, p2, f2, step, "num_rows"@, vc, f3, true);
    lemma_member_value(s, p3, "num_row_groups"@, vd);
    lemma_u32_back(s, p3 + quoted("num_row_groups"@).len() + 1, fp.num_row_groups);
    lemma_member_back(s, p3, f3, step, "num_row_groups"@, vd, f4, false);
    lemma_object_end(s, p3 + d.len(), f4, step);
}

/// Quoted strings between commas, up to the bracket that closes them.
proof fn lemma_strings_from_back(s: Seq<char>, pos: nat, items: Seq<Seq<char>>)
    requires
        forall|i: int| 0 <= i < items.len() ==> writable(#[trigger] items[i]),
        here(s, pos, listed(items.map_values(|c: Seq<char>| quoted(c)))),
        ({
            let end = pos + listed(items.map_values(|c: Seq<char>| quoted(c))).len();
            end < s.len() && s[end as int] == ']'
        }),
    ensures
        strings_from(s, pos) == Ok::<(Seq<Seq<char>>, nat), Seq<char>>(
            (items, pos + listed(items.map_values(|c: Seq<char>| quoted(c))).len() + 1),
        ),
    decreases items.len(),
{
    let all = items.map_values(|c: Seq<char>| quoted(c));
    if items.len() == 0 {
        assert(items =~= Seq::<Seq<char>>::empty());
    } else {
        let rest = items.skip(1);
        let more = rest.map_values(|c: Seq<char>| quoted(c));
        assert(all.skip(1) =~= more);
        assert(writable(items[0]));
        assert(seq![items[0]] + rest =~= items);
        assert forall|i: int| 0 <= i < rest.len() implies writable(#[trigger] rest[i]) by {
            assert(rest[i] == items[i + 1]);
        }
        if items.len() == 1 {
            assert(listed(all) == quoted(items[0]));
            lemma_string_back(s, pos, items[0]);
            let end = pos + quoted(items[0]).len();
            assert(ws_end(s, end) == end);
            assert(comma_at(s, end) == end);
            assert(rest =~= Seq::<Seq<char>>::empty());
            assert(strings_from(s, end) == Ok::<(Seq<Seq<char>>, nat), Seq<char>>(
                (Seq::empty(), end + 1),
            ));
        } else {
            lemma_split_comma(s, pos, quoted(items[0]), listed(more));
            lemma_string_back(s, pos, items[0]);
            let end = pos + quoted(items[0]).len();
            assert(comma_at(s, end) == end + 1);
            lemma_strings_from_back(s, end + 1, rest);
        }
    }
}

proof fn lemma_strings_back(s: Seq<char>, pos: nat, items: Seq<Seq<char>>)
    requires
        forall|i: int| 0 <= i < items.len() ==> writable(#[trigger] items[i]),
        here(s, pos, array(items.map_values(|c: Seq<char>| quoted(c)))),
    ensures
        strings_at(s, pos) == Ok::<(Seq<Seq<char>>, nat), Seq<char>>(
            (items, pos + array(items.map_values(|c: Seq<char>| quoted(c))).len()),
        ),
{
    let body = listed(items.map_values(|c: Seq<char>| quoted(c)));
    lemma_split_array(s, pos, body);
    lemma_strings_from_back(s, pos + 1, items);
}

proof fn lemma_type_name(t: PhysicalType)
    ensures
        writable(t.name()),
        type_named(t.name()) == Ok::<PhysicalType, ManifestFault>(t),
{
    lemma_text_int32();
    lemma_text_int64();
    lemma_text_byte_array();
}

proof fn lemma_type_names(types: Seq<PhysicalType>)
    ensures
        types_named(types.map_values(|t: PhysicalType| t.name())) == Ok::<
            Seq<PhysicalType>,
            ManifestFault,
        >(types),
    decreases types.len(),
{
    let names = types.map_values(|t: PhysicalType| t.name());
    if types.len() == 0 {
        assert(types =~= Seq::<PhysicalType>::empty());
    } else {
        lemma_type_name(types[0]);
        lemma_type_names(types.skip(1));
        assert(names.skip(1) =~= types.skip(1).map_values(|t: PhysicalType| t.name()));
        assert(seq![types[0]] + types.skip(1) =~= types);
    }
}

/// The name of a type is its own: reading it gives the type back.
pub proof fn law_type_names_round_trip(t: PhysicalType)
    ensures
        type_named(t.name()) == Ok::<PhysicalType, ManifestFault>(t),
{
    lemma_type_name(t);
}

/// The members of an entry of a kind, once its name and row group are read.
spec fn kind_fields(f: EntryFields, kind: KindView) -> EntryFields {
    match kind {
        KindView::Sorted { source_column, physical_type } => EntryFields {
            typ: Some("sorted"@),
            source_column: Some(source_column),
            physical_type: Some(physical_type.name()),
            ..f
        },
        KindView::BloomPage { source_column, target_fpp } => EntryFields {
            typ: Some("bloom_page"@),
            source_column: Some(source_column),
            target_fpp: Some(target_fpp),
            ..f
        },
        KindView::CompositePrefix { source_columns, physical_types } => EntryFields {
            typ: Some("composite_prefix"@),
            source_columns: Some(source_columns),
            physical_types: Some(physical_types.map_values(|t: PhysicalType| t.name())),
            ..f
        },
        KindView::Inverted { source_column, tokenizer } => EntryFields {
            typ: Some("inverted"@),
            source_column: Some(source_column),
            tokenizer: Some(tokenizer.name()),
            ..f
        },
    }
}

/// The keys of an entry are told apart.
proof fn lemma_entry_keys()
    ensures
        writable("name"@),
        writable("sidecar_row_group"@),
        writable("type"@),
        writable("source_column"@),
        writable("physical_type"@),
        writable("target_fpp"@),
        writable("source_columns"@),
        writable("physical_types"@),
        writable("tokenizer"@),
        "name"@.len() == 4 && "name"@[0] == 'n',
        "sidecar_row_group"@.len() == 17,
        "type"@.len() == 4 && "type"@[0] == 't',
        "source_column"@.len() == 13 && "source_column"@[0] == 's',
        "physical_type"@.len() == 13 && "physical_type"@[0] == 'p',
        "target_fpp"@.len() == 10,
        "source_columns"@.len() == 14 && "source_columns"@[0] == 's',
        "physical_types"@.len() == 14 && "physical_types"@[0] == 'p',
        "tokenizer"@.len() == 9,
{
    lemma_text_name();
    lemma_text_sidecar_row_group();
    lemma_text_type();
    lemma_text_source_column();
    lemma_text_physical_type();
    lemma_text_target_fpp();
    lemma_text_source_columns();
    lemma_text_physical_types();
    lemma_text_tokenizer();
}

/// A member whose value is a quoted string.
proof fn lemma_string_member(
    s: Seq<char>,
    pos: nat,
    f: EntryFields,
    key: Seq<char>,
    v: Seq<char>,
    next: EntryFields,
    more: bool,
)
    requires
        writable(key),
        writable(v),
        here(s, pos, member(key, quoted(v))),
        pos + member(key, quoted(v)).len() < s.len(),
        s[(pos + member(key, quoted(v)).len()) as int] == if more {
            ','
        } else {
            '}'
        },
        forall|p: nat|
            taken(string_at(s, p), p) is Ok && taken(string_at(s, p), p)->Ok_0.0 == v
                ==> #[trigger] entry_step(s)(f, key, p) == Ok::<(EntryFields, nat), ManifestFault>(
                (next, taken(string_at(s, p), p)->Ok_0.1),
            ),
    ensures
        object_from(s, pos, f, entry_step(s)) == object_from(
            s,
            pos + member(key, quoted(v)).len() + if more {
                1nat
            } else {
                0nat
            },
            next,
            entry_step(s),
        ),
{
    let p = pos + quoted(key).len() + 1;
    lemma_member_value(s, pos, key, quoted(v));
    lemma_string_back(s, p, v);
    lemma_member_back(s, pos, f, entry_step(s), key, quoted(v), next, more);
}

proof fn lemma_sorted_back(
    s: Seq<char>,
    pos: nat,
    f: EntryFields,
    source_column: Seq<char>,
    physical_type: PhysicalType,
)
    requires
        writable(source_column),
        ({
            let kind = KindView::Sorted { source_column, physical_type };
            let km = kind_members(kind);
            let text = km[0] + seq![','] + (km[1] + seq![','] + km[2]);
            here(s, pos, text) && pos + text.len() < s.len() && s[(pos + text.len()) as int] == '}'
        }),
    ensures
        ({
            let kind = KindView::Sorted { source_column, physical_type };
            let km = kind_members(kind);
            let text = km[0] + seq![','] + (km[1] + seq![','] + km[2]);
            object_from(s, pos, f, entry_step(s)) == Ok::<(EntryFields, nat), ManifestFault>(
                (kind_fields(f, kind), pos + text.len() + 1),
            )
        }),
{
    let kind = KindView::Sorted { source_column, physical_type };
    let km = kind_members(kind);
    lemma_entry_keys();
    lemma_text_sorted();
    lemma_type_name(physical_type);
    lemma_split_comma(s, pos, km[0], km[1] + seq![','] + km[2]);
    let p1 = pos + km[0].len() + 1;
    lemma_split_comma(s, p1, km[1], km[2]);
    let p2 = p1 + km[1].len() + 1;
    let f1 = EntryFields { typ: Some("sorted"@), ..f };
    let f2 = EntryFields { source_column: Some(source_column), ..f1 };
    let f3 = EntryFields { physical_type: Some(physical_type.name()), ..f2 };
    lemma_string_member(s, pos, f, "type"@, "sorted"@, f1, true);
    lemma_string_member(s, p1, f1, "source_column"@, source_column, f2, true);
    lemma_string_member(s, p2, f2, "physical_type"@, physical_type.name(), f3, false);
    lemma_object_end(s, p2 + km[2].len(), f3, entry_step(s));
}

proof fn lemma_inverted_back(
    s: Seq<char>,
    pos: nat,
    f: EntryFields,
    source_column: Seq<char>,
    tokenizer: Tokenizer,
)
    requires
        writable(source_column),
        ({
            let kind = KindView::Inverted { source_column, tokenizer };
            let km = kind_members(kind);
            let text = km[0] + seq![','] + (km[1] + seq![','] + km[2]);
            here(s, pos, text) && pos + text.len() < s.len() && s[(pos + text.len()) as int] == '}'
        }),
    ensures
        ({
            let kind = KindView::Inverted { source_column, tokenizer };
            let km = kind_members(kind);
            let text = km[0] + seq![','] + (km[1] + seq![','] + km[2]);
            object_from(s, pos, f, entry_step(s)) == Ok::<(EntryFields, nat), ManifestFault>(
                (kind_fields(f, kind), pos + text.len() + 1),
            )
        }),
{
    let kind = KindView::Inverted { source_column, tokenizer };
    let km = kind_members(kind);
    lemma_entry_keys();
    lemma_text_inverted();
    lemma_text_whitespace_lowercase_v1();
    lemma_split_comma(s, pos, km[0], km[1] + seq![','] + km[2]);
    let p1 = pos + km[0].len() + 1;
    lemma_split_comma(s, p1, km[1], km[2]);
    let p2 = p1 + km[1].len() + 1;
    let f1 = EntryFields { typ: Some("inverted"@), ..f };
    let f2 = EntryFields { source_column: Some(source_column), ..f1 };
    let f3 = EntryFields { tokenizer: Some(tokenizer.name()), ..f2 };
    lemma_string_member(s, pos, f, "type"@, "inverted"@, f1, true);
    lemma_string_member(s, p1, f1, "source_column"@, source_column, f2, true);
    lemma_string_member(s, p2, f2, "tokenizer"@, tokenizer.name(), f3, false);
    lemma_object_end(s, p2 + km[2].len(), f3, entry_step(s));
}

proof fn lemma_bloom_back(
    s: Seq<char>,
    pos: nat,
    f: EntryFields,
    source_column: Seq<char>,
    target_fpp: Seq<char>,
)
    requires
        writable(source_column),
        is_fraction(target_fpp),
        ({
            let kind = KindView::BloomPage { source_column, target_fpp };
            let km = kind_members(kind);
            let text = km[0] + seq![','] + (km[1] + seq![','] + km[2]);
            here(s, pos, text) && pos + text.len() < s.len() && s[(pos + text.len()) as int] == '}'
        }),
    ensures
        ({
            let kind = KindView::BloomPage { source_column, target_fpp };
            let km = kind_members(kind);
            let text = km[0] + seq![','] + (km[1] + seq![','] + km[2]);
            object_from(s, pos, f, entry_step(s)) == Ok::<(EntryFields, nat), ManifestFault>(
                (kind_fields(f, kind), pos + text.len() + 1),
            )
        }),
{
    let kind = KindView::BloomPage { source_column, target_fpp };
    let km = kind_members(kind);
    lemma_entry_keys();
    lemma_text_bloom_page();
    lemma_split_comma(s, pos, km[0], km[1] + seq![','] + km[2]);
    let p1 = pos + km[0].len() + 1;
    lemma_split_comma(s, p1, km[1], km[2]);
    let p2 = p1 + km[1].len() + 1;
    let f1 = EntryFields { typ: Some("bloom_page"@), ..f };
    let f2 = EntryFields { source_column: Some(source_column), ..f1 };
    let f3 = EntryFields { target_fpp: Some(target_fpp), ..f2 };
    lemma_string_member(s, pos, f, "type"@, "bloom_page"@, f1, true);
    lemma_string_member(s, p1, f1, "source_column"@, source_column, f2, true);
    lemma_member_value(s, p2, "target_fpp"@, target_fpp);
    lemma_fraction_back(s, p2 + quoted("target_fpp"@).len() + 1, target_fpp);
    lemma_member_back(s, p2, f2, entry_step(s), "target_fpp"@, target_fpp, f3, false);
    lemma_object_end(s, p2 + km[2].len(), f3, entry_step(s));
}

proof fn lemma_composite_back(
    s: Seq<char>,
    pos: nat,
    f: EntryFields,
    source_columns: Seq<Seq<char>>,
    physical_types: Seq<PhysicalType>,
)
    requires
        forall|i: int| 0 <= i < source_columns.len() ==> writable(#[trigger] source_columns[i]),
        ({
            let kind = KindView::CompositePrefix { source_columns, physical_types };
            let km = kind_members(kind);
            let text = km[0] + seq![','] + (km[1] + seq![','] + km[2]);
            here(s, pos, text) && pos + text.len() < s.len() && s[(pos + text.len()) as int] == '}'
        }),
    ensures
        ({
            let kind = KindView::CompositePrefix { source_columns, physical_types };
            let km = kind_members(kind);
            let text = km[0] + seq![','] + (km[1] + seq![','] + km[2]);
            object_from(s, pos, f, entry_step(s)) == Ok::<(EntryFields, nat), ManifestFault>(
                (kind_fields(f, kind), pos + text.len() + 1),
            )
        }),
{
    let kind = KindView::CompositePrefix { source_columns, physical_types };
    let km = kind_members(kind);
    let columns = array(source_columns.map_values(|c: Seq<char>| quoted(c)));
    let names = physical_types.map_values(|t: PhysicalType| t.name());
    let types = array(physical_types.map_values(|t: PhysicalType| quoted(t.name())));
    lemma_entry_keys();
    lemma_text_composite_prefix();
    lemma_split_comma(s, pos, km[0], km[1] + seq![','] + km[2]);
    let p1 = pos + km[0].len() + 1;
    lemma_split_comma(s, p1, km[1], km[2]);
    let p2 = p1 + km[1].len() + 1;
    let f1 = EntryFields { typ: Some("composite_prefix"@), ..f };
    let f2 = EntryFields { source_columns: Some(source_columns), ..f1 };
    let f3 = EntryFields { physical_types: Some(names), ..f2 };
    lemma_string_member(s, pos, f, "type"@, "composite_prefix"@, f1, true);
    lemma_member_value(s, p1, "source_columns"@, columns);
    lemma_strings_back(s, p1 + quoted("source_columns"@).len() + 1, source_columns);
    lemma_member_back(s, p1, f1, entry_step(s), "source_columns"@, columns, f2, true);
    lemma_member_value(s, p2, "physical_types"@, types);
    assert(names.map_values(|c: Seq<char>| quoted(c)) =~= physical_types.map_values(
        |t: PhysicalType| quoted(t.name()),
    ));
    assert forall|i: int| 0 <= i < names.len() implies writable(#[trigger] names[i]) by {
        lemma_type_name(physical_types[i]);
    }
    lemma_strings_back(s, p2 + quoted("physical_types"@).len() + 1, names);
    lemma_member_back(s, p2, f2, entry_step(s), "physical_types"@, types, f3, false);
    lemma_object_end(s, p2 + km[2].len(), f3, entry_step(s));
}

/// The members that tell of a kind tell of that kind.
proof fn lemma_kind_of_back(f: EntryFields, kind: KindView)
    requires
        writable_kind(kind),
    ensures
        kind_fields(f, kind).typ is Some,
        kind_of(kind_fields(f, kind).typ->Some_0, kind_fields(f, kind)) == Ok::<
            KindView,
            ManifestFault,
        >(kind),
        kind_fields(f, kind).name == f.name,
        kind_fields(f, kind).sidecar_row_group == f.sidecar_row_group,
{
    lemma_text_sorted();
    lemma_text_bloom_page();
    lemma_text_composite_prefix();
    lemma_text_inverted();
    match kind {
        KindView::Sorted { source_column, physical_type } => {
            lemma_type_name(physical_type);
        },
        KindView::BloomPage { source_column, target_fpp } => {},
        KindView::CompositePrefix { source_columns, physical_types } => {
            lemma_type_names(physical_types);
        },
        KindView::Inverted { source_column, tokenizer } => {},
    }
}

proof fn lemma_kind_back(s: Seq<char>, pos: nat, f: EntryFields, kind: KindView)
    requires
        writable_kind(kind),
        ({
            let km = kind_members(kind);
            let text = km[0] + seq![','] + (km[1] + seq![','] + km[2]);
            here(s, pos, text) && pos + text.len() < s.len() && s[(pos + text.len()) as int] == '}'
        }),
    ensures
        ({
            let km = kind_members(kind);
            let text = km[0] + seq![','] + (km[1] + seq![','] + km[2]);
            object_from(s, pos, f, entry_step(s)) == Ok::<(EntryFields, nat), ManifestFault>(
                (kind_fields(f, kind), pos + text.len() + 1),
            )
        }),
{
    match kind {
        KindView::Sorted { source_column, physical_type } => {
            lemma_sorted_back(s, pos, f, source_column, physical_type);
        },
        KindView::BloomPage { source_column, target_fpp } => {
            lemma_bloom_back(s, pos, f, source_column, target_fpp);
        },
        KindView::CompositePrefix { source_columns, physical_types } => {
            lemma_composite_back(s, pos, f, source_columns, physical_types);
        },
        KindView::Inverted { source_column, tokenizer } => {
            lemma_inverted_back(s, pos, f, source_column, tokenizer);
        },
    }
}

proof fn lemma_entry_back(s: Seq<char>, pos: nat, e: EntryView)
    requires
        writable_entry(e),
        here(s, pos, entry_json(e)),
    ensures
        entry_at(s, pos) == Ok::<(EntryView, nat), ManifestFault>(
            (e, pos + entry_json(e).len()),
        ),
{
    let va = quoted(e.name);
    let vb = dec(e.sidecar_row_group as nat);
    let a = member("name"@, va);
    let b = member("sidecar_row_group"@, vb);
    let km = kind_members(e.kind);
    let kinds = km[0] + seq![','] + (km[1] + seq![','] + km[2]);
    let members = seq![a, b] + km;
    let body = listed(members);
    let step = entry_step(s);
    lemma_entry_keys();
    assert(km.len() == 3);
    assert(km =~= seq![km[0], km[1], km[2]]);
    lemma_listed3(km[0], km[1], km[2]);
    assert(members.skip(1) =~= seq![b] + km);
    assert((seq![b] + km).skip(1) =~= km);
    assert(listed(seq![b] + km) == b + seq![','] + kinds);
    assert(body == a + seq![','] + (b + seq![','] + kinds));
    lemma_split_object(s, pos, body);
    let p0 = pos + 1;
    lemma_split_comma(s, p0, a, b + seq![','] + kinds);
    let p1 = p0 + a.len() + 1;
    lemma_split_comma(s, p1, b, kinds);
    let p2 = p1 + b.len() + 1;
    let f0 = no_entry_fields();
    let f1 = EntryFields { name: Some(e.name), ..f0 };
    let f2 = EntryFields { sidecar_row_group: Some(e.sidecar_row_group), ..f1 };
    lemma_string_member(s, p0, f0, "name"@, e.name, f1, true);
    lemma_member_value(s, p1, "sidecar_row_group"@, vb);
    lemma_u32_back(s, p1 + quoted("sidecar_row_group"@).len() + 1, e.sidecar_row_group);
    lemma_member_back(s, p1, f1, step, "sidecar_row_group"@, vb, f2, true);
    lemma_kind_back(s, p2, f2, e.kind);
    lemma_kind_of_back(f2, e.kind);
}

proof fn lemma_entries_from_back(s: Seq<char>, pos: nat, items: Seq<EntryView>)
    requires
        forall|i: int| 0 <= i < items.len() ==> writable_entry(#[trigger] items[i]),
        here(s, pos, listed(items.map_values(|e: EntryView| entry_json(e)))),
        ({
            let end = pos + listed(items.map_values(|e: EntryView| entry_json(e))).len();
            end < s.len() && s[end as int] == ']'
        }),
    ensures
        entries_from(s, pos) == Ok::<(Seq<EntryView>, nat), ManifestFault>(
            (items, pos + listed(items.map_values(|e: EntryView| entry_json(e))).len() + 1),
        ),
    decreases items.len(),
{
    let all = items.map_values(|e: EntryView| entry_json(e));
    if items.len() == 0 {
        assert(items =~= Seq::<EntryView>::empty());
    } else {
        let rest = items.skip(1);
        let more = rest.map_values(|e: EntryView| entry_json(e));
        let first = entry_json(items[0]);
        assert(all.skip(1) =~= more);
        assert(writable_entry(items[0]));
        assert(seq![items[0]] + rest =~= items);
        assert forall|i: int| 0 <= i < rest.len() implies writable_entry(#[trigger] rest[i]) by {
            assert(rest[i] == items[i + 1]);
        }
        assert(first[0] == '{');
        if items.len() == 1 {
            assert(listed(all) == first);
            lemma_here_at(s, pos, first, 0);
            lemma_entry_back(s, pos, items[0]);
            let end = pos + first.len();
            assert(ws_end(s, end) == end);
            assert(comma_at(s, end) == end);
            assert(rest =~= Seq::<EntryView>::empty());
            assert(entries_from(s, end) == Ok::<(Seq<EntryView>, nat), ManifestFault>(
                (Seq::empty(), end + 1),
            ));
        } else {
            lemma_split_comma(s, pos, first, listed(more));
            lemma_here_at(s, pos, first, 0);
            lemma_entry_back(s, pos, items[0]);
            let end = pos + first.len();
            assert(comma_at(s, end) == end + 1);
            lemma_entries_from_back(s, end + 1, rest);
        }
    }
}

proof fn lemma_entries_back(s: Seq<char>, pos: nat, items: Seq<EntryView>)
    requires
        forall|i: int| 0 <= i < items.len() ==> writable_entry(#[trigger] items[i]),
        here(s, pos, array(items.map_values(|e: EntryView| entry_json(e)))),
    ensures
        entries_at(s, pos) == Ok::<(Seq<EntryView>, nat), ManifestFault>(
            (items, pos + array(items.map_values(|e: EntryView| entry_json(e))).len()),
        ),
{
    let body = listed(items.map_values(|e: EntryView| entry_json(e)));
    lemma_split_array(s, pos, body);
    lemma_entries_from_back(s, pos + 1, items);
}

proof fn lemma_version_member(s: Seq<char>, pos: nat)
    requires
        here(s, pos, member("version"@, quoted(MANIFEST_VERSION@))),
        pos + member("version"@, quoted(MANIFEST_VERSION@)).len() < s.len(),
        s[(pos + member("version"@, quoted(MANIFEST_VERSION@)).len()) as int] == ',',
    ensures
        object_from(s, pos, no_manifest_fields(), manifest_step(s)) == object_from(
            s,
            pos + member("version"@, quoted(MANIFEST_VERSION@)).len() + 1,
            (ManifestFields { version: Some(MANIFEST_VERSION@), ..no_manifest_fields() }),
            manifest_step(s),
        ),
{
    lemma_text_version();
    lemma_text_v1();
    let v = quoted(MANIFEST_VERSION@);
    let f1 = ManifestFields { version: Some(MANIFEST_VERSION@), ..no_manifest_fields() };
    lemma_member_value(s, pos, "version"@, v);
    lemma_string_back(s, pos + quoted("version"@).len() + 1, MANIFEST_VERSION@);
    lemma_member_back(s, pos, no_manifest_fields(), manifest_step(s), "version"@, v, f1, true);
}

proof fn lemma_fingerprint_member(s: Seq<char>, pos: nat, f: ManifestFields, fp: SourceFingerprint)
    requires
        here(s, pos, member("source_fingerprint"@, fingerprint_json(fp))),
        pos + member("source_fingerprint"@, fingerprint_json(fp)).len() < s.len(),
        s[(pos + member("source_fingerprint"@, fingerprint_json(fp)).len()) as int] == ',',
    ensures
        object_from(s, pos, f, manifest_step(s)) == object_from(
            s,
            pos + member("source_fingerprint"@, fingerprint_json(fp)).len() + 1,
            (ManifestFields { fingerprint: Some(fp), ..f }),
            manifest_step(s),
        ),
{
    lemma_text_version();
    lemma_text_source_fingerprint();
    let v = fingerprint_json(fp);
    let next = ManifestFields { fingerprint: Some(fp), ..f };
    lemma_member_value(s, pos, "source_fingerprint"@, v);
    lemma_fingerprint_back(s, pos + quoted("source_fingerprint"@).len() + 1, fp);
    lemma_member_back(s, pos, f, manifest_step(s), "source_fingerprint"@, v, next, true);
}

proof fn lemma_indexes_member(s: Seq<char>, pos: nat, f: ManifestFields, items: Seq<EntryView>)
    requires
        forall|i: int| 0 <= i < items.len() ==> writable_entry(#[trigger] items[i]),
        ({
            let v = array(items.map_values(|e: EntryView| entry_json(e)));
            let end = pos + member("indexes"@, v).len();
            here(s, pos, member("indexes"@, v)) && end < s.len() && s[end as int] == '}'
        }),
    ensures
        object_from(s, pos, f, manifest_step(s)) is Ok,
        object_from(s, pos, f, manifest_step(s))->Ok_0.0 == (ManifestFields {
            indexes: Some(items),
            ..f
        }),
{
    lemma_text_version();
    lemma_text_source_fingerprint();
    lemma_text_indexes();
    let v = array(items.map_values(|e: EntryView| entry_json(e)));
    let next = ManifestFields { indexes: Some(items), ..f };
    lemma_member_value(s, pos, "indexes"@, v);
    lemma_entries_back(s, pos + quoted("indexes"@).len() + 1, items);
    lemma_member_back(s, pos, f, manifest_step(s), "indexes"@, v, next, false);
    lemma_object_end(s, pos + member("indexes"@, v).len(), next, manifest_step(s));
}

proof fn lemma_manifest_back(s: Seq<char>, m: ManifestView)
    requires
        forall|i: int| 0 <= i < m.indexes.len() ==> writable_entry(#[trigger] m.indexes[i]),
        here(s, 0, manifest_json(m)),
    ensures
        manifest_in(s) == Ok::<ManifestView, ManifestFault>(m),
{
    let a = member("version"@, quoted(MANIFEST_VERSION@));
    let b = member("source_fingerprint"@, fingerprint_json(m.source_fingerprint));
    let c = member("indexes"@, array(m.indexes.map_values(|e: EntryView| entry_json(e))));
    lemma_listed3(a, b, c);
    lemma_split_object(s, 0, listed(seq![a, b, c]));
    lemma_split_comma(s, 1, a, b + seq![','] + c);
    let p1: nat = 1 + a.len() + 1;
    lemma_split_comma(s, p1, b, c);
    let p2: nat = p1 + b.len() + 1;
    let f1 = ManifestFields { version: Some(MANIFEST_VERSION@), ..no_manifest_fields() };
    let f2 = ManifestFields { fingerprint: Some(m.source_fingerprint), ..f1 };
    lemma_version_member(s, 1);
    lemma_fingerprint_member(s, p1, f1, m.source_fingerprint);
    lemma_indexes_member(s, p2, f2, m.indexes);
}

/// Reading a manifest gives back what was written, wherever its texts hold
/// no control characters other than newlines, carriage returns and tabs.
pub proof fn law_manifest_round_trip(m: ManifestView)
    requires
        forall|i: int| 0 <= i < m.indexes.len() ==> writable_entry(#[trigger] m.indexes[i]),
    ensures
        manifest_in(manifest_json(m)) == Ok::<ManifestView, ManifestFault>(m),
{
    let s = manifest_json(m);
    assert(s.subrange(0, s.len() as int) =~= s);
    lemma_manifest_back(s, m);
}

} // verus!
