//! The manifest of a sidecar: which state of the source it was built from,
//! and the indexes it holds.
//!
//! A manifest is JSON in the sidecar's key-value metadata, under a key that
//! names the version of the sidecar.

use vstd::prelude::*;

use crate::index::json::{
    close_at, comma_at, expect_at, fraction_at, i64_at, left, lemma_number_at, lemma_string_at,
    lemma_ws_bounds, lemma_ws_end, skip_at, string_at, u32_at, ws_end, JsonParser,
};
use crate::text::{
    chars_of, dec, dec_int, hex, hex_padded, joined, joined3, push_dec, push_dec_i64, push_hex,
    push_hex_padded,
};

verus! {

/// The key of manifests whose row sets are bare bitmaps.
pub const MANIFEST_KEY: &'static str = "ematix_index_manifest_v1";

/// The key of manifests whose row sets are tagged.
pub const MANIFEST_KEY_V2: &'static str = "ematix_index_manifest_v2";

/// The key of manifests whose sorted indexes span several row groups.
pub const MANIFEST_KEY_V3: &'static str = "ematix_index_manifest_v3";

/// The version that a manifest states of its own shape.
pub const MANIFEST_VERSION: &'static str = "v1";

/// A sidecar's contents.
#[derive(Debug, Clone, PartialEq)]
pub struct IndexManifest {
    pub source_fingerprint: SourceFingerprint,
    pub indexes: Vec<IndexEntry>,
}

/// A state of a source file.
#[derive(Debug, Clone, Copy, PartialEq, Eq, Structural)]
pub struct SourceFingerprint {
    /// The byte length of the footer.
    pub footer_length: u32,
    /// The CRC-32 of the footer's bytes.
    pub footer_crc32: u32,
    /// The number of rows of the file.
    pub num_rows: i64,
    /// The number of row groups of the file.
    pub num_row_groups: u32,
}

/// One index of a sidecar.
#[derive(Debug, Clone, PartialEq)]
pub struct IndexEntry {
    /// The name that lookups go by.
    pub name: String,
    pub kind: IndexKind,
    /// The row group of the sidecar that holds the index.
    pub sidecar_row_group: u32,
}

/// What an index is over, and how it is laid out.
#[derive(Debug, Clone, PartialEq)]
pub enum IndexKind {
    /// Values of one column, ascending.
    Sorted { source_column: String, physical_type: PhysicalType },
    /// A bloom filter per page of a column. The false-positive rate is kept
    /// as the decimal fraction that it is written as.
    BloomPage { source_column: String, target_fpp: String },
    /// Values of two columns, ascending by the first and then the second.
    CompositePrefix { source_columns: Vec<String>, physical_types: Vec<PhysicalType> },
    /// Tokens of a text column, ascending.
    Inverted { source_column: String, tokenizer: Tokenizer },
}

/// The physical types that indexes are built over.
#[derive(Debug, Clone, Copy, PartialEq, Eq, Structural)]
pub enum PhysicalType {
    Int32,
    Int64,
    ByteArray,
}

/// How text is cut into tokens.
#[derive(Debug, Clone, Copy, PartialEq, Eq, Structural)]
pub enum Tokenizer {
    /// Words between ASCII white space, ASCII letters in lower case.
    WhitespaceLowercaseV1,
}

/// Why a manifest cannot be used.
#[derive(Debug)]
pub enum ManifestError {
    /// The sidecar has no manifest.
    Missing,
    /// The manifest is not the JSON that is expected.
    Malformed(String),
    /// The manifest states another version.
    UnsupportedVersion(String),
    /// The manifest names a tokenizer that is not known.
    UnsupportedTokenizer(String),
    /// The source is not in the state that the sidecar was built from.
    SourceFingerprintMismatch { expected: SourceFingerprint, actual: SourceFingerprint },
}

/// What a `ManifestError` says.
pub enum ManifestFault {
    Missing,
    Malformed(Seq<char>),
    UnsupportedVersion(Seq<char>),
    UnsupportedTokenizer(Seq<char>),
    SourceFingerprintMismatch { expected: SourceFingerprint, actual: SourceFingerprint },
}

impl View for ManifestError {
    type V = ManifestFault;

    open spec fn view(&self) -> ManifestFault {
        match *self {
            ManifestError::Missing => ManifestFault::Missing,
            ManifestError::Malformed(s) => ManifestFault::Malformed(s@),
            ManifestError::UnsupportedVersion(s) => ManifestFault::UnsupportedVersion(s@),
            ManifestError::UnsupportedTokenizer(s) => ManifestFault::UnsupportedTokenizer(s@),
            ManifestError::SourceFingerprintMismatch { expected, actual } => {
                ManifestFault::SourceFingerprintMismatch { expected, actual }
            },
        }
    }
}

/// The figures of a fingerprint, as the mismatch message lists them.
pub open spec fn fingerprint_text(fp: SourceFingerprint) -> Seq<char> {
    "footer_len="@ + dec(fp.footer_length as nat) + ", crc32=0x"@ + hex(fp.footer_crc32 as nat)
        + ", num_rows="@ + dec_int(fp.num_rows as int) + ", n_rg="@ + dec(fp.num_row_groups as nat)
}

impl ManifestFault {
    /// The message of the fault.
    pub open spec fn text(self) -> Seq<char> {
        match self {
            ManifestFault::Missing => "sidecar manifest key `"@ + MANIFEST_KEY@ + "` missing"@,
            ManifestFault::Malformed(s) => "sidecar manifest malformed: "@ + s,
            ManifestFault::UnsupportedVersion(v) => "sidecar manifest version `"@ + v
                + "` unsupported (expected `"@ + MANIFEST_VERSION@ + "`)"@,
            ManifestFault::UnsupportedTokenizer(t) =>
            "sidecar manifest references unknown tokenizer `"@ + t + "`"@,
            ManifestFault::SourceFingerprintMismatch { expected, actual } =>
            "sidecar fingerprint mismatch: source file changed (expected "@ + fingerprint_text(
                expected,
            ) + "; got "@ + fingerprint_text(actual) + ")"@,
        }
    }
}

fn push_fingerprint(s: &mut String, fp: &SourceFingerprint)
    ensures
        final(s)@ == old(s)@ + fingerprint_text(*fp),
{
    s.append("footer_len=");
    push_dec(s, fp.footer_length as u128);
    s.append(", crc32=0x");
    push_hex(s, fp.footer_crc32);
    s.append(", num_rows=");
    push_dec_i64(s, fp.num_rows);
    s.append(", n_rg=");
    push_dec(s, fp.num_row_groups as u128);
    proof {
        assert(s@ =~= old(s)@ + fingerprint_text(*fp));
    }
}

impl ManifestError {
    /// The message of the error.
    pub fn to_string(&self) -> (s: String)
        ensures
            s@ == self@.text(),
    {
        match self {
            ManifestError::Missing => joined3(
                "sidecar manifest key `",
                MANIFEST_KEY,
                "` missing",
            ),
            ManifestError::Malformed(m) => joined("sidecar manifest malformed: ", m.as_str()),
            ManifestError::UnsupportedVersion(v) => {
                let mut s: String = joined3(
                    "sidecar manifest version `",
                    v.as_str(),
                    "` unsupported (expected `",
                );
                s.append(MANIFEST_VERSION);
                s.append("`)");
                s
            },
            ManifestError::UnsupportedTokenizer(t) => joined3(
                "sidecar manifest references unknown tokenizer `",
                t.as_str(),
                "`",
            ),
            ManifestError::SourceFingerprintMismatch { expected, actual } => {
                let mut s: String =
                    "sidecar fingerprint mismatch: source file changed (expected ".to_string();
                push_fingerprint(&mut s, expected);
                s.append("; got ");
                push_fingerprint(&mut s, actual);
                s.append(")");
                s
            },
        }
    }
}

/// That a byte is ASCII white space.
pub open spec fn is_space(b: u8) -> bool {
    b == 0x20 || b == 0x09 || b == 0x0a || b == 0x0c || b == 0x0d
}

/// An ASCII letter in lower case; any other byte as it is.
pub open spec fn lowered(b: u8) -> u8 {
    if 0x41 <= b <= 0x5a {
        (b + 0x20) as u8
    } else {
        b
    }
}

/// The words before the one at the end of a text, and that one, which may be
/// empty.
pub open spec fn words(value: Seq<u8>) -> (Seq<Seq<u8>>, Seq<u8>)
    decreases value.len(),
{
    if value.len() == 0 {
        (Seq::empty(), Seq::empty())
    } else {
        let (done, open) = words(value.drop_last());
        if !is_space(value.last()) {
            (done, open.push(lowered(value.last())))
        } else if open.len() > 0 {
            (done.push(open), Seq::empty())
        } else {
            (done, open)
        }
    }
}

/// The lower-case words of a text.
pub open spec fn tokens(value: Seq<u8>) -> Seq<Seq<u8>> {
    let (done, open) = words(value);
    if open.len() > 0 {
        done.push(open)
    } else {
        done
    }
}

impl Tokenizer {
    /// The tokens of a text, in order.
    pub open spec fn tokens(self, value: Seq<u8>) -> Seq<Seq<u8>> {
        match self {
            Tokenizer::WhitespaceLowercaseV1 => tokens(value),
        }
    }

    /// Cuts a text into tokens.
    pub fn tokenize(self, value: &[u8]) -> (out: Vec<Vec<u8>>)
        ensures
            crate::delta::byte_strings(out@) == self.tokens(value@),
    {
        match self {
            Tokenizer::WhitespaceLowercaseV1 => whitespace_lowercase_v1(value),
        }
    }
}

fn whitespace_lowercase_v1(value: &[u8]) -> (out: Vec<Vec<u8>>)
    ensures
        crate::delta::byte_strings(out@) == tokens(value@),
{
    let mut out: Vec<Vec<u8>> = Vec::new();
    let mut word: Vec<u8> = Vec::new();
    let mut i: usize = 0;
    proof {
        assert(crate::delta::byte_strings(out@) =~= Seq::<Seq<u8>>::empty());
        assert(word@ =~= Seq::<u8>::empty());
    }
    while i < value.len()
        invariant
            i <= value@.len(),
            (crate::delta::byte_strings(out@), word@) == words(value@.take(i as int)),
        decreases value@.len() - i,
    {
        let b: u8 = value[i];
        proof {
            assert(value@.take(i + 1).drop_last() =~= value@.take(i as int));
        }
        if b == 0x20 || b == 0x09 || b == 0x0a || b == 0x0c || b == 0x0d {
            if word.len() > 0 {
                let ghost before = out@;
                let ghost closed = word@;
                out.push(word);
                word = Vec::new();
                proof {
                    assert(crate::delta::byte_strings(out@) =~= crate::delta::byte_strings(
                        before,
                    ).push(closed));
                    assert(word@ =~= Seq::<u8>::empty());
                }
            }
        } else {
            let low: u8 = if 0x41 <= b && b <= 0x5a {
                b + 0x20
            } else {
                b
            };
            word.push(low);
        }
        i = i + 1;
    }
    proof {
        assert(value@.take(i as int) =~= value@);
    }
    if word.len() > 0 {
        let ghost before = out@;
        let ghost closed = word@;
        out.push(word);
        proof {
            assert(crate::delta::byte_strings(out@) =~= crate::delta::byte_strings(before).push(
                closed,
            ));
        }
    }
    out
}

proof fn lemma_words_shape(value: Seq<u8>)
    ensures
        forall|i: int|
            0 <= i < words(value).0.len() ==> (#[trigger] words(value).0[i]).len() > 0
                && is_token(words(value).0[i]),
        is_token(words(value).1),
    decreases value.len(),
{
    if value.len() > 0 {
        lemma_words_shape(value.drop_last());
    }
}

/// That no byte of a word is white space or an upper-case letter.
pub open spec fn is_token(word: Seq<u8>) -> bool {
    forall|i: int|
        0 <= i < word.len() ==> !is_space(#[trigger] word[i]) && !(0x41 <= word[i] <= 0x5a)
}

/// No token is empty, and none holds white space or upper-case letters.
pub proof fn law_tokens_are_words(value: Seq<u8>)
    ensures
        forall|i: int|
            0 <= i < tokens(value).len() ==> (#[trigger] tokens(value)[i]).len() > 0 && is_token(
                tokens(value)[i],
            ),
{
    lemma_words_shape(value);
}

proof fn lemma_words_of_token(word: Seq<u8>)
    requires
        is_token(word),
    ensures
        words(word) == (Seq::<Seq<u8>>::empty(), word),
    decreases word.len(),
{
    if word.len() > 0 {
        assert(is_token(word.drop_last()));
        lemma_words_of_token(word.drop_last());
        assert(lowered(word.last()) == word.last());
        assert(word.drop_last().push(word.last()) =~= word);
    } else {
        assert(word =~= Seq::<u8>::empty());
    }
}

/// A token is its own only token, so a query that is one goes through
/// unchanged.
pub proof fn law_token_is_fixed(word: Seq<u8>)
    requires
        is_token(word),
        word.len() > 0,
    ensures
        tokens(word) == seq![word],
{
    lemma_words_of_token(word);
    assert(tokens(word) =~= seq![word]);
}

// ---- What a manifest says ----

/// What an `IndexKind` says.
pub enum KindView {
    Sorted { source_column: Seq<char>, physical_type: PhysicalType },
    BloomPage { source_column: Seq<char>, target_fpp: Seq<char> },
    CompositePrefix { source_columns: Seq<Seq<char>>, physical_types: Seq<PhysicalType> },
    Inverted { source_column: Seq<char>, tokenizer: Tokenizer },
}

/// What an `IndexEntry` says.
pub struct EntryView {
    pub name: Seq<char>,
    pub kind: KindView,
    pub sidecar_row_group: u32,
}

/// What an `IndexManifest` says.
pub struct ManifestView {
    pub source_fingerprint: SourceFingerprint,
    pub indexes: Seq<EntryView>,
}

/// The texts of a list of strings.
pub open spec fn texts(list: Seq<String>) -> Seq<Seq<char>> {
    list.map_values(|s: String| s@)
}

/// The views of a list of entries.
pub open spec fn entries(list: Seq<IndexEntry>) -> Seq<EntryView> {
    list.map_values(|e: IndexEntry| e@)
}

impl View for IndexKind {
    type V = KindView;

    open spec fn view(&self) -> KindView {
        match *self {
            IndexKind::Sorted { source_column, physical_type } => KindView::Sorted {
                source_column: source_column@,
                physical_type,
            },
            IndexKind::BloomPage { source_column, target_fpp } => KindView::BloomPage {
                source_column: source_column@,
                target_fpp: target_fpp@,
            },
            IndexKind::CompositePrefix { source_columns, physical_types } => {
                KindView::CompositePrefix {
                    source_columns: texts(source_columns@),
                    physical_types: physical_types@,
                }
            },
            IndexKind::Inverted { source_column, tokenizer } => KindView::Inverted {
                source_column: source_column@,
                tokenizer,
            },
        }
    }
}

impl View for IndexEntry {
    type V = EntryView;

    open spec fn view(&self) -> EntryView {
        EntryView {
            name: self.name@,
            kind: self.kind@,
            sidecar_row_group: self.sidecar_row_group,
        }
    }
}

impl View for IndexManifest {
    type V = ManifestView;

    open spec fn view(&self) -> ManifestView {
        ManifestView {
            source_fingerprint: self.source_fingerprint,
            indexes: entries(self.indexes@),
        }
    }
}

// ---- Writing ----

/// A character inside a quoted string.
pub open spec fn escaped_char(c: char) -> Seq<char> {
    if c == '"' {
        seq!['\\', '"']
    } else if c == '\\' {
        seq!['\\', '\\']
    } else if c == '\n' {
        seq!['\\', 'n']
    } else if c == '\r' {
        seq!['\\', 'r']
    } else if c == '\t' {
        seq!['\\', 't']
    } else if (c as u32) < 0x20 {
        seq!['\\', 'u'] + hex_padded(c as u32 as nat, 4)
    } else {
        seq![c]
    }
}

/// The characters of a quoted string.
pub open spec fn escaped(v: Seq<char>) -> Seq<char>
    decreases v.len(),
{
    if v.len() == 0 {
        Seq::empty()
    } else {
        escaped_char(v[0]) + escaped(v.skip(1))
    }
}

/// A string in quotes.
pub open spec fn quoted(v: Seq<char>) -> Seq<char> {
    seq!['"'] + escaped(v) + seq!['"']
}

/// A member of an object.
pub open spec fn member(key: Seq<char>, value: Seq<char>) -> Seq<char> {
    quoted(key) + seq![':'] + value
}

/// Texts with commas between them.
pub open spec fn listed(items: Seq<Seq<char>>) -> Seq<char>
    decreases items.len(),
{
    if items.len() == 0 {
        Seq::empty()
    } else if items.len() == 1 {
        items[0]
    } else {
        items[0] + seq![','] + listed(items.skip(1))
    }
}

/// An object of members.
pub open spec fn object(members: Seq<Seq<char>>) -> Seq<char> {
    seq!['{'] + listed(members) + seq!['}']
}

/// An array of items.
pub open spec fn array(items: Seq<Seq<char>>) -> Seq<char> {
    seq!['['] + listed(items) + seq![']']
}

impl PhysicalType {
    /// The name of the type.
    pub open spec fn name(self) -> Seq<char> {
        match self {
            PhysicalType::Int32 => "INT32"@,
            PhysicalType::Int64 => "INT64"@,
            PhysicalType::ByteArray => "BYTE_ARRAY"@,
        }
    }

    pub fn as_str(&self) -> (s: &'static str)
        ensures
            s@ == self.name(),
    {
        match *self {
            PhysicalType::Int32 => "INT32",
            PhysicalType::Int64 => "INT64",
            PhysicalType::ByteArray => "BYTE_ARRAY",
        }
    }
}

impl Tokenizer {
    /// The name of the tokenizer.
    pub open spec fn name(self) -> Seq<char> {
        match self {
            Tokenizer::WhitespaceLowercaseV1 => "whitespace_lowercase_v1"@,
        }
    }

    pub fn as_str(&self) -> (s: &'static str)
        ensures
            s@ == self.name(),
    {
        match *self {
            Tokenizer::WhitespaceLowercaseV1 => "whitespace_lowercase_v1",
        }
    }
}

/// A fingerprint as JSON.
pub open spec fn fingerprint_json(fp: SourceFingerprint) -> Seq<char> {
    object(
        seq![
            member("footer_length"@, dec(fp.footer_length as nat)),
            member("footer_crc32"@, dec(fp.footer_crc32 as nat)),
            member("num_rows"@, dec_int(fp.num_rows as int)),
            member("num_row_groups"@, dec(fp.num_row_groups as nat)),
        ],
    )
}

/// The members of an entry that tell of its kind.
pub open spec fn kind_members(kind: KindView) -> Seq<Seq<char>> {
    match kind {
        KindView::Sorted { source_column, physical_type } => seq![
            member("type"@, quoted("sorted"@)),
            member("source_column"@, quoted(source_column)),
            member("physical_type"@, quoted(physical_type.name())),
        ],
        KindView::BloomPage { source_column, target_fpp } => seq![
            member("type"@, quoted("bloom_page"@)),
            member("source_column"@, quoted(source_column)),
            member("target_fpp"@, target_fpp),
        ],
        KindView::CompositePrefix { source_columns, physical_types } => seq![
            member("type"@, quoted("composite_prefix"@)),
            member(
                "source_columns"@,
                array(source_columns.map_values(|c: Seq<char>| quoted(c))),
            ),
            member(
                "physical_types"@,
                array(physical_types.map_values(|t: PhysicalType| quoted(t.name()))),
            ),
        ],
        KindView::Inverted { source_column, tokenizer } => seq![
            member("type"@, quoted("inverted"@)),
            member("source_column"@, quoted(source_column)),
            member("tokenizer"@, quoted(tokenizer.name())),
        ],
    }
}

/// An entry as JSON.
pub open spec fn entry_json(e: EntryView) -> Seq<char> {
    object(
        seq![
            member("name"@, quoted(e.name)),
            member("sidecar_row_group"@, dec(e.sidecar_row_group as nat)),
        ] + kind_members(e.kind),
    )
}

/// A manifest as JSON.
pub open spec fn manifest_json(m: ManifestView) -> Seq<char> {
    object(
        seq![
            member("version"@, quoted(MANIFEST_VERSION@)),
            member("source_fingerprint"@, fingerprint_json(m.source_fingerprint)),
            member("indexes"@, array(m.indexes.map_values(|e: EntryView| entry_json(e)))),
        ],
    )
}

fn push_escaped_char(s: &mut String, c: char)
    ensures
        final(s)@ == old(s)@ + escaped_char(c),
{
    if c == '"' || c == '\\' {
        s.push('\\');
        s.push(c);
    } else if c == '\n' {
        s.push('\\');
        s.push('n');
    } else if c == '\r' {
        s.push('\\');
        s.push('r');
    } else if c == '\t' {
        s.push('\\');
        s.push('t');
    } else if (c as u32) < 0x20 {
        s.push('\\');
        s.push('u');
        push_hex_padded(s, c as u32, 4);
    } else {
        s.push(c);
    }
    proof {
        assert(s@ =~= old(s)@ + escaped_char(c));
    }
}

proof fn lemma_escaped_push(v: Seq<char>, c: char)
    ensures
        escaped(v.push(c)) == escaped(v) + escaped_char(c),
    decreases v.len(),
{
    if v.len() == 0 {
        assert(v.push(c).skip(1) =~= Seq::<char>::empty());
        assert(escaped(v.push(c)) == escaped_char(c) + escaped(v.push(c).skip(1)));
        assert(escaped(v) =~= Seq::<char>::empty());
        assert(escaped(v.push(c)) =~= escaped(v) + escaped_char(c));
    } else {
        lemma_escaped_push(v.skip(1), c);
        assert(v.push(c).skip(1) =~= v.skip(1).push(c));
        assert(escaped(v.push(c)) =~= escaped(v) + escaped_char(c));
    }
}

/// Appends a string in quotes.
fn write_json_string(s: &mut String, v: &str)
    ensures
        final(s)@ == old(s)@ + quoted(v@),
{
    let ghost start = s@;
    s.push('"');
    let chars: Vec<char> = chars_of(v);
    let mut i: usize = 0;
    proof {
        assert(s@ =~= start + seq!['"'] + escaped(chars@.take(0)));
    }
    while i < chars.len()
        invariant
            i <= chars@.len(),
            chars@ == v@,
            s@ == start + seq!['"'] + escaped(chars@.take(i as int)),
        decreases chars@.len() - i,
    {
        push_escaped_char(s, chars[i]);
        proof {
            lemma_escaped_push(chars@.take(i as int), chars@[i as int]);
            assert(chars@.take(i + 1) =~= chars@.take(i as int).push(chars@[i as int]));
            assert(s@ =~= start + seq!['"'] + escaped(chars@.take(i + 1)));
        }
        i = i + 1;
    }
    s.push('"');
    proof {
        assert(chars@.take(i as int) =~= v@);
        assert(s@ =~= start + quoted(v@));
    }
}

/// Appends the key of a member and the colon after it.
fn push_key(s: &mut String, key: &str)
    ensures
        final(s)@ == old(s)@ + (quoted(key@) + seq![':']),
{
    write_json_string(s, key);
    s.push(':');
    proof {
        assert(s@ =~= old(s)@ + (quoted(key@) + seq![':']));
    }
}

pub proof fn lemma_listed2(a: Seq<char>, b: Seq<char>)
    ensures
        listed(seq![a, b]) == a + seq![','] + b,
{
    assert(seq![a, b].skip(1) =~= seq![b]);
    assert(listed(seq![b]) == b);
    assert(listed(seq![a, b]) == a + seq![','] + listed(seq![a, b].skip(1)));
}

pub proof fn lemma_listed3(a: Seq<char>, b: Seq<char>, c: Seq<char>)
    ensures
        listed(seq![a, b, c]) == a + seq![','] + (b + seq![','] + c),
{
    lemma_listed2(b, c);
    assert(seq![a, b, c].skip(1) =~= seq![b, c]);
}

pub proof fn lemma_listed4(a: Seq<char>, b: Seq<char>, c: Seq<char>, d: Seq<char>)
    ensures
        listed(seq![a, b, c, d]) == a + seq![','] + (b + seq![','] + (c + seq![','] + d)),
{
    lemma_listed3(b, c, d);
    assert(seq![a, b, c, d].skip(1) =~= seq![b, c, d]);
}

pub proof fn lemma_listed_push(items: Seq<Seq<char>>, item: Seq<char>)
    ensures
        listed(items.push(item)) == if items.len() == 0 {
            item
        } else {
            listed(items) + seq![','] + item
        },
    decreases items.len(),
{
    if items.len() == 0 {
        assert(items.push(item)[0] == item);
    } else {
        lemma_listed_push(items.skip(1), item);
        assert(items.push(item).skip(1) =~= items.skip(1).push(item));
        assert(listed(items.push(item)) =~= listed(items) + seq![','] + item) by {
            if items.len() == 1 {
                assert(items.skip(1).len() == 0);
            }
        }
    }
}

impl SourceFingerprint {
    fn write_json(&self, s: &mut String)
        ensures
            final(s)@ == old(s)@ + fingerprint_json(*self),
    {
        let ghost a = member("footer_length"@, dec(self.footer_length as nat));
        let ghost b = member("footer_crc32"@, dec(self.footer_crc32 as nat));
        let ghost c = member("num_rows"@, dec_int(self.num_rows as int));
        let ghost d = member("num_row_groups"@, dec(self.num_row_groups as nat));
        let ghost start = s@;
        s.push('{');
        push_key(s, "footer_length");
        push_dec(s, self.footer_length as u128);
        proof {
            assert(s@ =~= start + seq!['{'] + a);
        }
        s.push(',');
        push_key(s, "footer_crc32");
        push_dec(s, self.footer_crc32 as u128);
        proof {
            assert(s@ =~= start + seq!['{'] + a + seq![','] + b);
        }
        s.push(',');
        push_key(s, "num_rows");
        push_dec_i64(s, self.num_rows);
        proof {
            assert(s@ =~= start + seq!['{'] + a + seq![','] + b + seq![','] + c);
        }
        s.push(',');
        push_key(s, "num_row_groups");
        push_dec(s, self.num_row_groups as u128);
        proof {
            assert(s@ =~= start + seq!['{'] + a + seq![','] + b + seq![','] + c + seq![','] + d);
        }
        s.push('}');
        proof {
            lemma_listed4(a, b, c, d);
            assert(s@ =~= start + fingerprint_json(*self));
        }
    }
}

/// Appends a comma, a key and the colon after it.
fn push_next_key(s: &mut String, key: &str)
    ensures
        forall|value: Seq<char>| #[trigger] (final(s)@ + value) == old(s)@ + (seq![','] + member(
            key@,
            value,
        )),
{
    s.push(',');
    push_key(s, key);
    proof {
        assert forall|value: Seq<char>| #[trigger] (s@ + value) == old(s)@ + (seq![','] + member(
            key@,
            value,
        )) by {
            assert(s@ + value =~= old(s)@ + (seq![','] + member(key@, value)));
        }
    }
}

/// Appends a comma and a member whose value is a string.
fn push_next_string(s: &mut String, key: &str, value: &str)
    ensures
        final(s)@ == old(s)@ + (seq![','] + member(key@, quoted(value@))),
{
    push_next_key(s, key);
    write_json_string(s, value);
}

/// An object of five members, written one after the other.
proof fn lemma_object5(
    start: Seq<char>,
    a: Seq<char>,
    b: Seq<char>,
    c: Seq<char>,
    d: Seq<char>,
    e: Seq<char>,
)
    ensures
        start + seq!['{'] + a + (seq![','] + b) + (seq![','] + c) + (seq![','] + d) + (seq![',']
            + e) + seq!['}'] == start + object(seq![a, b, c, d, e]),
{
    lemma_listed4(b, c, d, e);
    assert(seq![a, b, c, d, e].skip(1) =~= seq![b, c, d, e]);
    assert(listed(seq![a, b, c, d, e]) == a + seq![','] + listed(seq![b, c, d, e]));
    assert(start + seq!['{'] + a + (seq![','] + b) + (seq![','] + c) + (seq![','] + d) + (seq![',']
        + e) + seq!['}'] =~= start + object(seq![a, b, c, d, e]));
}

/// Appends an array of quoted strings.
fn push_strings(s: &mut String, items: &Vec<String>)
    ensures
        final(s)@ == old(s)@ + array(texts(items@).map_values(|c: Seq<char>| quoted(c))),
{
    let ghost all = texts(items@).map_values(|c: Seq<char>| quoted(c));
    s.push('[');
    let ghost start = s@;
    let mut i: usize = 0;
    proof {
        assert(s@ =~= start + listed(all.take(0)));
    }
    while i < items.len()
        invariant
            i <= items@.len(),
            all == texts(items@).map_values(|c: Seq<char>| quoted(c)),
            s@ == start + listed(all.take(i as int)),
        decreases items@.len() - i,
    {
        proof {
            lemma_listed_push(all.take(i as int), all[i as int]);
            assert(all.take(i + 1) =~= all.take(i as int).push(all[i as int]));
        }
        if i > 0 {
            s.push(',');
        }
        write_json_string(s, items[i].as_str());
        proof {
            assert(s@ =~= start + listed(all.take(i + 1)));
        }
        i = i + 1;
    }
    s.push(']');
    proof {
        assert(all.take(i as int) =~= all);
        assert(s@ =~= old(s)@ + array(all));
    }
}

/// Appends an array of the names of types.
fn push_types(s: &mut String, items: &Vec<PhysicalType>)
    ensures
        final(s)@ == old(s)@ + array(items@.map_values(|t: PhysicalType| quoted(t.name()))),
{
    let ghost all = items@.map_values(|t: PhysicalType| quoted(t.name()));
    s.push('[');
    let ghost start = s@;
    let mut i: usize = 0;
    proof {
        assert(s@ =~= start + listed(all.take(0)));
    }
    while i < items.len()
        invariant
            i <= items@.len(),
            all == items@.map_values(|t: PhysicalType| quoted(t.name())),
            s@ == start + listed(all.take(i as int)),
        decreases items@.len() - i,
    {
        proof {
            lemma_listed_push(all.take(i as int), all[i as int]);
            assert(all.take(i + 1) =~= all.take(i as int).push(all[i as int]));
        }
        if i > 0 {
            s.push(',');
        }
        write_json_string(s, items[i].as_str());
        proof {
            assert(s@ =~= start + listed(all.take(i + 1)));
        }
        i = i + 1;
    }
    s.push(']');
    proof {
        assert(all.take(i as int) =~= all);
        assert(s@ =~= old(s)@ + array(all));
    }
}

impl IndexKind {
    /// Appends the three members that tell of the kind, each after a comma.
    fn write_members(&self, s: &mut String)
        ensures
            final(s)@ == old(s)@ + (seq![','] + kind_members(self@)[0]) + (seq![',']
                + kind_members(self@)[1]) + (seq![','] + kind_members(self@)[2]),
    {
        match self {
            IndexKind::Sorted { source_column, physical_type } => {
                push_next_string(s, "type", "sorted");
                push_next_string(s, "source_column", source_column.as_str());
                push_next_string(s, "physical_type", physical_type.as_str());
            },
            IndexKind::BloomPage { source_column, target_fpp } => {
                push_next_string(s, "type", "bloom_page");
                push_next_string(s, "source_column", source_column.as_str());
                push_next_key(s, "target_fpp");
                s.append(target_fpp.as_str());
            },
            IndexKind::CompositePrefix { source_columns, physical_types } => {
                push_next_string(s, "type", "composite_prefix");
                push_next_key(s, "source_columns");
                push_strings(s, source_columns);
                push_next_key(s, "physical_types");
                push_types(s, physical_types);
            },
            IndexKind::Inverted { source_column, tokenizer } => {
                push_next_string(s, "type", "inverted");
                push_next_string(s, "source_column", source_column.as_str());
                push_next_string(s, "tokenizer", tokenizer.as_str());
            },
        }
    }
}

impl IndexEntry {
    fn write_json(&self, s: &mut String)
        ensures
            final(s)@ == old(s)@ + entry_json(self@),
    {
        let ghost start = s@;
        s.push('{');
        push_key(s, "name");
        write_json_string(s, self.name.as_str());
        proof {
            assert(s@ =~= start + seq!['{'] + member("name"@, quoted(self.name@)));
        }
        push_next_key(s, "sidecar_row_group");
        push_dec(s, self.sidecar_row_group as u128);
        self.kind.write_members(s);
        s.append("}");
        proof {
            lemma_entry_text(start, self@);
        }
    }
}

/// An entry, written member by member.
proof fn lemma_entry_text(start: Seq<char>, e: EntryView)
    ensures
        start + seq!['{'] + member("name"@, quoted(e.name)) + (seq![','] + member(
            "sidecar_row_group"@,
            dec(e.sidecar_row_group as nat),
        )) + (seq![','] + kind_members(e.kind)[0]) + (seq![','] + kind_members(e.kind)[1]) + (
        seq![','] + kind_members(e.kind)[2]) + "}"@ == start + entry_json(e),
{
    let a = member("name"@, quoted(e.name));
    let b = member("sidecar_row_group"@, dec(e.sidecar_row_group as nat));
    let km = kind_members(e.kind);
    reveal_strlit("}");
    assert("}"@ =~= seq!['}']);
    lemma_kind_members_three(e.kind);
    lemma_two_and_three(a, b, km);
    lemma_object5(start, a, b, km[0], km[1], km[2]);
}

proof fn lemma_kind_members_three(kind: KindView)
    ensures
        kind_members(kind).len() == 3,
{
}

proof fn lemma_two_and_three(a: Seq<char>, b: Seq<char>, km: Seq<Seq<char>>)
    requires
        km.len() == 3,
    ensures
        seq![a, b] + km == seq![a, b, km[0], km[1], km[2]],
{
    assert(seq![a, b] + km =~= seq![a, b, km[0], km[1], km[2]]);
}

impl IndexManifest {
    /// The manifest as JSON.
    pub fn to_json(&self) -> (s: String)
        ensures
            s@ == manifest_json(self@),
    {
        let ghost version = member("version"@, quoted(MANIFEST_VERSION@));
        let ghost fingerprint = member(
            "source_fingerprint"@,
            fingerprint_json(self.source_fingerprint),
        );
        let ghost all = self@.indexes.map_values(|e: EntryView| entry_json(e));
        let ghost indexes = member("indexes"@, array(all));
        let mut s: String = String::new();
        s.push('{');
        push_key(&mut s, "version");
        write_json_string(&mut s, MANIFEST_VERSION);
        proof {
            assert(s@ =~= seq!['{'] + version);
        }
        s.push(',');
        push_key(&mut s, "source_fingerprint");
        self.source_fingerprint.write_json(&mut s);
        proof {
            assert(s@ =~= seq!['{'] + version + seq![','] + fingerprint);
        }
        s.push(',');
        push_key(&mut s, "indexes");
        s.push('[');
        let ghost start = s@;
        let mut i: usize = 0;
        proof {
            assert(s@ =~= start + listed(all.take(0)));
        }
        while i < self.indexes.len()
            invariant
                i <= self.indexes@.len(),
                all == self@.indexes.map_values(|e: EntryView| entry_json(e)),
                s@ == start + listed(all.take(i as int)),
            decreases self.indexes@.len() - i,
        {
            proof {
                lemma_listed_push(all.take(i as int), all[i as int]);
                assert(all.take(i + 1) =~= all.take(i as int).push(all[i as int]));
            }
            if i > 0 {
                s.push(',');
            }
            self.indexes[i].write_json(&mut s);
            proof {
                assert(s@ =~= start + listed(all.take(i + 1)));
            }
            i = i + 1;
        }
        s.append("]}");
        proof {
            reveal_strlit("]}");
            assert("]}"@ =~= seq![']', '}']);
            assert(all.take(i as int) =~= all);
            lemma_listed3(version, fingerprint, indexes);
            assert(s@ =~= manifest_json(self@));
        }
        s
    }
}

// ---- Reading ----

/// What one member makes of what was read before it: given its key and the
/// position of its value, the new state and the characters of the value.
pub type Step<S> = spec_fn(S, Seq<char>, nat) -> Result<(S, nat), ManifestFault>;

/// A value and the characters it takes from `pos` on.
pub open spec fn taken<T>(r: Result<(T, nat), Seq<char>>, pos: nat) -> Result<
    (T, nat),
    ManifestFault,
> {
    match r {
        Ok((v, next)) => Ok((v, (next - pos) as nat)),
        Err(e) => Err(ManifestFault::Malformed(e)),
    }
}

#[via_fn]
proof fn object_decreases<S>(s: Seq<char>, pos: nat, state: S, step: Step<S>) {
    lemma_string_at(s, pos);
    lemma_ws_bounds(s);
}

/// What the members of an object that is open at `pos` make of a state, and
/// the position after the object.
#[verifier::opaque]
pub open spec fn object_from<S>(s: Seq<char>, pos: nat, state: S, step: Step<S>) -> Result<
    (S, nat),
    ManifestFault,
>
    decreases left(s, pos),
    via object_decreases::<S>
{
    match close_at(s, pos, '}') {
        Some(end) => Ok((state, end)),
        None => match string_at(s, pos) {
            Err(e) => Err(ManifestFault::Malformed(e)),
            Ok((key, p1)) => match expect_at(s, p1, ':') {
                Err(e) => Err(ManifestFault::Malformed(e)),
                Ok(p2) => match step(state, key, p2) {
                    Err(f) => Err(f),
                    Ok((next, n)) => object_from(s, comma_at(s, p2 + n), next, step),
                },
            },
        },
    }
}

/// What the members of the object at `pos` make of a state.
pub open spec fn object_at<S>(s: Seq<char>, pos: nat, state: S, step: Step<S>) -> Result<
    (S, nat),
    ManifestFault,
> {
    match expect_at(s, pos, '{') {
        Err(e) => Err(ManifestFault::Malformed(e)),
        Ok(p) => object_from(s, p, state, step),
    }
}

pub proof fn lemma_object_from<S>(s: Seq<char>, pos: nat, state: S, step: Step<S>)
    ensures
        object_from(s, pos, state, step) matches Ok((_, end)) ==> pos < end,
    decreases left(s, pos),
{
    reveal_with_fuel(object_from::<int>, 1);
    lemma_ws_bounds(s);
    lemma_string_at(s, pos);
    if close_at(s, pos, '}') is None {
        if let Ok((key, p1)) = string_at(s, pos) {
            if let Ok(p2) = expect_at(s, p1, ':') {
                if let Ok((next, n)) = step(state, key, p2) {
                    lemma_object_from(s, comma_at(s, p2 + n), next, step);
                }
            }
        }
    }
}

pub proof fn lemma_object_at<S>(s: Seq<char>, pos: nat, state: S, step: Step<S>)
    ensures
        object_at(s, pos, state, step) matches Ok((_, end)) ==> pos < end,
{
    lemma_ws_bounds(s);
    if let Ok(p) = expect_at(s, pos, '{') {
        lemma_object_from(s, p, state, step);
    }
}

#[via_fn]
proof fn strings_decreases(s: Seq<char>, pos: nat) {
    lemma_string_at(s, pos);
    lemma_ws_bounds(s);
}

/// The strings of an array that is open at `pos`, and the position after
/// the array.
pub open spec fn strings_from(s: Seq<char>, pos: nat) -> Result<(Seq<Seq<char>>, nat), Seq<char>>
    decreases left(s, pos),
    via strings_decreases
{
    match close_at(s, pos, ']') {
        Some(end) => Ok((Seq::empty(), end)),
        None => match string_at(s, pos) {
            Err(e) => Err(e),
            Ok((v, next)) => match strings_from(s, comma_at(s, next)) {
                Err(e) => Err(e),
                Ok((rest, end)) => Ok((seq![v] + rest, end)),
            },
        },
    }
}

/// The strings of the array at `pos`.
pub open spec fn strings_at(s: Seq<char>, pos: nat) -> Result<(Seq<Seq<char>>, nat), Seq<char>> {
    match expect_at(s, pos, '[') {
        Err(e) => Err(e),
        Ok(p) => strings_from(s, p),
    }
}

proof fn lemma_strings_from(s: Seq<char>, pos: nat)
    ensures
        strings_from(s, pos) matches Ok((_, end)) ==> pos < end,
    decreases left(s, pos),
{
    lemma_ws_bounds(s);
    lemma_string_at(s, pos);
    if close_at(s, pos, ']') is None {
        if let Ok((v, next)) = string_at(s, pos) {
            lemma_strings_from(s, comma_at(s, next));
        }
    }
}

proof fn lemma_strings_at(s: Seq<char>, pos: nat)
    ensures
        strings_at(s, pos) matches Ok((_, end)) ==> pos < end,
{
    lemma_ws_bounds(s);
    if let Ok(p) = expect_at(s, pos, '[') {
        lemma_strings_from(s, p);
    }
}

/// The members of a fingerprint that have been read.
pub struct FingerprintFields {
    pub footer_length: Option<u32>,
    pub footer_crc32: Option<u32>,
    pub num_rows: Option<i64>,
    pub num_row_groups: Option<u32>,
}

pub open spec fn no_fingerprint_fields() -> FingerprintFields {
    FingerprintFields {
        footer_length: None,
        footer_crc32: None,
        num_rows: None,
        num_row_groups: None,
    }
}

/// A value passed over.
pub open spec fn passed<S>(s: Seq<char>, state: S, pos: nat) -> Result<(S, nat), ManifestFault> {
    match skip_at(s, pos) {
        Ok(next) => Ok((state, (next - pos) as nat)),
        Err(e) => Err(ManifestFault::Malformed(e)),
    }
}

/// A member of a fingerprint; unknown ones are passed over.
pub open spec fn fingerprint_step(s: Seq<char>) -> Step<FingerprintFields> {
    |f: FingerprintFields, key: Seq<char>, pos: nat|
        if key == "footer_length"@ {
            match taken(u32_at(s, pos), pos) {
                Ok((v, n)) => Ok((FingerprintFields { footer_length: Some(v), ..f }, n)),
                Err(e) => Err(e),
            }
        } else if key == "footer_crc32"@ {
            match taken(u32_at(s, pos), pos) {
                Ok((v, n)) => Ok((FingerprintFields { footer_crc32: Some(v), ..f }, n)),
                Err(e) => Err(e),
            }
        } else if key == "num_rows"@ {
            match taken(i64_at(s, pos), pos) {
                Ok((v, n)) => Ok((FingerprintFields { num_rows: Some(v), ..f }, n)),
                Err(e) => Err(e),
            }
        } else if key == "num_row_groups"@ {
            match taken(u32_at(s, pos), pos) {
                Ok((v, n)) => Ok((FingerprintFields { num_row_groups: Some(v), ..f }, n)),
                Err(e) => Err(e),
            }
        } else {
            passed(s, f, pos)
        }
}

/// A fingerprint of the members that were read, all of which must be there.
pub open spec fn fingerprint_of(f: FingerprintFields) -> Result<SourceFingerprint, ManifestFault> {
    if f.footer_length is None {
        Err(ManifestFault::Malformed("source_fingerprint.footer_length"@))
    } else if f.footer_crc32 is None {
        Err(ManifestFault::Malformed("source_fingerprint.footer_crc32"@))
    } else if f.num_rows is None {
        Err(ManifestFault::Malformed("source_fingerprint.num_rows"@))
    } else if f.num_row_groups is None {
        Err(ManifestFault::Malformed("source_fingerprint.num_row_groups"@))
    } else {
        Ok(
            SourceFingerprint {
                footer_length: f.footer_length->Some_0,
                footer_crc32: f.footer_crc32->Some_0,
                num_rows: f.num_rows->Some_0,
                num_row_groups: f.num_row_groups->Some_0,
            },
        )
    }
}

/// The fingerprint at `pos`.
pub open spec fn fingerprint_at(s: Seq<char>, pos: nat) -> Result<
    (SourceFingerprint, nat),
    ManifestFault,
> {
    match object_at(s, pos, no_fingerprint_fields(), fingerprint_step(s)) {
        Err(f) => Err(f),
        Ok((fields, end)) => match fingerprint_of(fields) {
            Err(f) => Err(f),
            Ok(fp) => Ok((fp, end)),
        },
    }
}

/// The members of an entry that have been read.
pub struct EntryFields {
    pub name: Option<Seq<char>>,
    pub sidecar_row_group: Option<u32>,
    pub typ: Option<Seq<char>>,
    pub source_column: Option<Seq<char>>,
    pub physical_type: Option<Seq<char>>,
    pub target_fpp: Option<Seq<char>>,
    pub source_columns: Option<Seq<Seq<char>>>,
    pub physical_types: Option<Seq<Seq<char>>>,
    pub tokenizer: Option<Seq<char>>,
}

pub open spec fn no_entry_fields() -> EntryFields {
    EntryFields {
        name: None,
        sidecar_row_group: None,
        typ: None,
        source_column: None,
        physical_type: None,
        target_fpp: None,
        source_columns: None,
        physical_types: None,
        tokenizer: None,
    }
}

/// A member of an entry; unknown ones are passed over.
pub open spec fn entry_step(s: Seq<char>) -> Step<EntryFields> {
    |f: EntryFields, key: Seq<char>, pos: nat|
        if key == "name"@ {
            match taken(string_at(s, pos), pos) {
                Ok((v, n)) => Ok((EntryFields { name: Some(v), ..f }, n)),
                Err(e) => Err(e),
            }
        } else if key == "sidecar_row_group"@ {
            match taken(u32_at(s, pos), pos) {
                Ok((v, n)) => Ok((EntryFields { sidecar_row_group: Some(v), ..f }, n)),
                Err(e) => Err(e),
            }
        } else if key == "type"@ {
            match taken(string_at(s, pos), pos) {
                Ok((v, n)) => Ok((EntryFields { typ: Some(v), ..f }, n)),
                Err(e) => Err(e),
            }
        } else if key == "source_column"@ {
            match taken(string_at(s, pos), pos) {
                Ok((v, n)) => Ok((EntryFields { source_column: Some(v), ..f }, n)),
                Err(e) => Err(e),
            }
        } else if key == "physical_type"@ {
            match taken(string_at(s, pos), pos) {
                Ok((v, n)) => Ok((EntryFields { physical_type: Some(v), ..f }, n)),
                Err(e) => Err(e),
            }
        } else if key == "target_fpp"@ {
            match taken(fraction_at(s, pos), pos) {
                Ok((v, n)) => Ok((EntryFields { target_fpp: Some(v), ..f }, n)),
                Err(e) => Err(e),
            }
        } else if key == "source_columns"@ {
            match taken(strings_at(s, pos), pos) {
                Ok((v, n)) => Ok((EntryFields { source_columns: Some(v), ..f }, n)),
                Err(e) => Err(e),
            }
        } else if key == "physical_types"@ {
            match taken(strings_at(s, pos), pos) {
                Ok((v, n)) => Ok((EntryFields { physical_types: Some(v), ..f }, n)),
                Err(e) => Err(e),
            }
        } else if key == "tokenizer"@ {
            match taken(string_at(s, pos), pos) {
                Ok((v, n)) => Ok((EntryFields { tokenizer: Some(v), ..f }, n)),
                Err(e) => Err(e),
            }
        } else {
            passed(s, f, pos)
        }
}

/// The type of a name.
pub open spec fn type_named(name: Seq<char>) -> Result<PhysicalType, ManifestFault> {
    if name == "INT32"@ {
        Ok(PhysicalType::Int32)
    } else if name == "INT64"@ {
        Ok(PhysicalType::Int64)
    } else if name == "BYTE_ARRAY"@ {
        Ok(PhysicalType::ByteArray)
    } else {
        Err(ManifestFault::Malformed("unsupported physical_type `"@ + name + "`"@))
    }
}

/// The types of names, up to the first that names none.
pub open spec fn types_named(names: Seq<Seq<char>>) -> Result<Seq<PhysicalType>, ManifestFault>
    decreases names.len(),
{
    if names.len() == 0 {
        Ok(Seq::empty())
    } else {
        match type_named(names[0]) {
            Err(f) => Err(f),
            Ok(t) => match types_named(names.skip(1)) {
                Err(f) => Err(f),
                Ok(rest) => Ok(seq![t] + rest),
            },
        }
    }
}

/// The tokenizer of a name.
pub open spec fn tokenizer_named(name: Seq<char>) -> Result<Tokenizer, ManifestFault> {
    if name == "whitespace_lowercase_v1"@ {
        Ok(Tokenizer::WhitespaceLowercaseV1)
    } else {
        Err(ManifestFault::UnsupportedTokenizer(name))
    }
}

/// The kind that the members of an entry tell of.
pub open spec fn kind_of(typ: Seq<char>, f: EntryFields) -> Result<KindView, ManifestFault> {
    if typ == "sorted"@ {
        if f.source_column is None {
            Err(ManifestFault::Malformed("sorted.source_column"@))
        } else if f.physical_type is None {
            Err(ManifestFault::Malformed("sorted.physical_type"@))
        } else {
            match type_named(f.physical_type->Some_0) {
                Err(e) => Err(e),
                Ok(t) => Ok(
                    KindView::Sorted {
                        source_column: f.source_column->Some_0,
                        physical_type: t,
                    },
                ),
            }
        }
    } else if typ == "bloom_page"@ {
        if f.source_column is None {
            Err(ManifestFault::Malformed("bloom_page.source_column"@))
        } else if f.target_fpp is None {
            Err(ManifestFault::Malformed("bloom_page.target_fpp"@))
        } else {
            Ok(
                KindView::BloomPage {
                    source_column: f.source_column->Some_0,
                    target_fpp: f.target_fpp->Some_0,
                },
            )
        }
    } else if typ == "composite_prefix"@ {
        if f.source_columns is None {
            Err(ManifestFault::Malformed("composite_prefix.source_columns"@))
        } else if f.physical_types is None {
            Err(ManifestFault::Malformed("composite_prefix.physical_types"@))
        } else if f.source_columns->Some_0.len() != f.physical_types->Some_0.len() {
            Err(
                ManifestFault::Malformed(
                    "composite_prefix: source_columns and physical_types differ in length"@,
                ),
            )
        } else {
            match types_named(f.physical_types->Some_0) {
                Err(e) => Err(e),
                Ok(types) => Ok(
                    KindView::CompositePrefix {
                        source_columns: f.source_columns->Some_0,
                        physical_types: types,
                    },
                ),
            }
        }
    } else if typ == "inverted"@ {
        if f.source_column is None {
            Err(ManifestFault::Malformed("inverted.source_column"@))
        } else if f.tokenizer is None {
            Err(ManifestFault::Malformed("inverted.tokenizer"@))
        } else {
            match tokenizer_named(f.tokenizer->Some_0) {
                Err(e) => Err(e),
                Ok(t) => Ok(
                    KindView::Inverted { source_column: f.source_column->Some_0, tokenizer: t },
                ),
            }
        }
    } else {
        Err(ManifestFault::Malformed("unknown index type `"@ + typ + "`"@))
    }
}

/// The entry that its members tell of.
pub open spec fn entry_of(f: EntryFields) -> Result<EntryView, ManifestFault> {
    if f.name is None {
        Err(ManifestFault::Malformed("index.name"@))
    } else if f.sidecar_row_group is None {
        Err(ManifestFault::Malformed("index.sidecar_row_group"@))
    } else if f.typ is None {
        Err(ManifestFault::Malformed("index.type"@))
    } else {
        match kind_of(f.typ->Some_0, f) {
            Err(e) => Err(e),
            Ok(kind) => Ok(
                EntryView {
                    name: f.name->Some_0,
                    kind,
                    sidecar_row_group: f.sidecar_row_group->Some_0,
                },
            ),
        }
    }
}

/// The entry at `pos`.
pub open spec fn entry_at(s: Seq<char>, pos: nat) -> Result<(EntryView, nat), ManifestFault> {
    match object_at(s, pos, no_entry_fields(), entry_step(s)) {
        Err(f) => Err(f),
        Ok((fields, end)) => match entry_of(fields) {
            Err(f) => Err(f),
            Ok(e) => Ok((e, end)),
        },
    }
}

proof fn lemma_entry_at(s: Seq<char>, pos: nat)
    ensures
        entry_at(s, pos) matches Ok((_, end)) ==> pos < end,
        pos >= s.len() ==> entry_at(s, pos) is Err,
{
    lemma_object_at(s, pos, no_entry_fields(), entry_step(s));
    lemma_ws_bounds(s);
}

#[via_fn]
proof fn entries_decreases(s: Seq<char>, pos: nat) {
    lemma_entry_at(s, pos);
    lemma_ws_bounds(s);
}

/// The entries of an array that is open at `pos`, and the position after
/// the array.
pub open spec fn entries_from(s: Seq<char>, pos: nat) -> Result<
    (Seq<EntryView>, nat),
    ManifestFault,
>
    decreases left(s, pos),
    via entries_decreases
{
    match close_at(s, pos, ']') {
        Some(end) => Ok((Seq::empty(), end)),
        None => match entry_at(s, pos) {
            Err(f) => Err(f),
            Ok((e, next)) => match entries_from(s, comma_at(s, next)) {
                Err(f) => Err(f),
                Ok((rest, end)) => Ok((seq![e] + rest, end)),
            },
        },
    }
}

/// The entries of the array at `pos`.
pub open spec fn entries_at(s: Seq<char>, pos: nat) -> Result<
    (Seq<EntryView>, nat),
    ManifestFault,
> {
    match expect_at(s, pos, '[') {
        Err(e) => Err(ManifestFault::Malformed(e)),
        Ok(p) => entries_from(s, p),
    }
}

proof fn lemma_entries_from(s: Seq<char>, pos: nat)
    ensures
        entries_from(s, pos) matches Ok((_, end)) ==> pos < end,
    decreases left(s, pos),
{
    lemma_ws_bounds(s);
    lemma_entry_at(s, pos);
    if close_at(s, pos, ']') is None {
        if let Ok((e, next)) = entry_at(s, pos) {
            lemma_entries_from(s, comma_at(s, next));
        }
    }
}

proof fn lemma_entries_at(s: Seq<char>, pos: nat)
    ensures
        entries_at(s, pos) matches Ok((_, end)) ==> pos < end,
{
    lemma_ws_bounds(s);
    if let Ok(p) = expect_at(s, pos, '[') {
        lemma_entries_from(s, p);
    }
}

/// The members of a manifest that have been read.
pub struct ManifestFields {
    pub version: Option<Seq<char>>,
    pub fingerprint: Option<SourceFingerprint>,
    pub indexes: Option<Seq<EntryView>>,
}

pub open spec fn no_manifest_fields() -> ManifestFields {
    ManifestFields { version: None, fingerprint: None, indexes: None }
}

/// A member of a manifest; unknown ones are passed over.
pub open spec fn manifest_step(s: Seq<char>) -> Step<ManifestFields> {
    |f: ManifestFields, key: Seq<char>, pos: nat|
        if key == "version"@ {
            match taken(string_at(s, pos), pos) {
                Ok((v, n)) => Ok((ManifestFields { version: Some(v), ..f }, n)),
                Err(e) => Err(e),
            }
        } else if key == "source_fingerprint"@ {
            match fingerprint_at(s, pos) {
                Ok((v, next)) => Ok(
                    (ManifestFields { fingerprint: Some(v), ..f }, (next - pos) as nat),
                ),
                Err(e) => Err(e),
            }
        } else if key == "indexes"@ {
            match entries_at(s, pos) {
                Ok((v, next)) => Ok(
                    (ManifestFields { indexes: Some(v), ..f }, (next - pos) as nat),
                ),
                Err(e) => Err(e),
            }
        } else {
            passed(s, f, pos)
        }
}

/// The manifest that its members tell of.
pub open spec fn manifest_of(f: ManifestFields) -> Result<ManifestView, ManifestFault> {
    if f.version is None {
        Err(ManifestFault::Malformed("missing `version` key"@))
    } else if f.version->Some_0 != MANIFEST_VERSION@ {
        Err(ManifestFault::UnsupportedVersion(f.version->Some_0))
    } else if f.fingerprint is None {
        Err(ManifestFault::Malformed("missing `source_fingerprint` key"@))
    } else if f.indexes is None {
        Err(ManifestFault::Malformed("missing `indexes` key"@))
    } else {
        Ok(
            ManifestView {
                source_fingerprint: f.fingerprint->Some_0,
                indexes: f.indexes->Some_0,
            },
        )
    }
}

/// The manifest that a text spells. What follows its object is not looked
/// at.
pub open spec fn manifest_in(s: Seq<char>) -> Result<ManifestView, ManifestFault> {
    match object_at(s, 0, no_manifest_fields(), manifest_step(s)) {
        Err(f) => Err(f),
        Ok((fields, _)) => manifest_of(fields),
    }
}

/// Whether a key is the given one.
fn is_key(key: &String, name: &str) -> (b: bool)
    ensures
        b == (key@ == name@),
{
    *key == name.to_string()
}

fn malformed(message: String) -> (e: ManifestError)
    ensures
        e@ == ManifestFault::Malformed(message@),
{
    ManifestError::Malformed(message)
}

fn missing(message: &str) -> (e: ManifestError)
    ensures
        e@ == ManifestFault::Malformed(message@),
{
    ManifestError::Malformed(message.to_string())
}

/// That a reader followed `want`: it stands after the value, or failed in
/// the same way.
pub open spec fn followed<T, V>(
    before: JsonParser,
    after: JsonParser,
    r: Result<T, ManifestError>,
    seen: V,
    want: Result<(V, nat), ManifestFault>,
) -> bool {
    &&& after.wf()
    &&& after.text() == before.text()
    &&& match want {
        Ok((v, next)) => r is Ok && seen == v && after.at() == next,
        Err(f) => r is Err && r->Err_0@ == f,
    }
}

/// Reads the strings of an array.
fn parse_strings(p: &mut JsonParser) -> (r: Result<Vec<String>, String>)
    requires
        old(p).wf(),
    ensures
        final(p).wf(),
        final(p).text() == old(p).text(),
        match strings_at(old(p).text(), old(p).at()) {
            Ok((v, next)) => r is Ok && texts(r->Ok_0@) == v && final(p).at() == next,
            Err(e) => r is Err && r->Err_0@ == e,
        },
{
    match p.expect('[') {
        Ok(_) => {},
        Err(e) => {
            return Err(e);
        },
    }
    let ghost s = p.text();
    let ghost start = p.at();
    let mut out: Vec<String> = Vec::new();
    proof {
        match strings_from(s, start) {
            Ok((v, end)) => {
                assert(texts(out@) + v =~= v);
            },
            Err(e) => {},
        }
    }
    loop
        invariant
            p.wf(),
            p.text() == s,
            s == old(p).text(),
            strings_at(s, old(p).at()) == strings_from(s, start),
            match strings_from(s, p.at()) {
                Ok((v, end)) => strings_from(s, start) == Ok::<(Seq<Seq<char>>, nat), Seq<char>>(
                    (texts(out@) + v, end),
                ),
                Err(e) => strings_from(s, start) == Err::<(Seq<Seq<char>>, nat), Seq<char>>(e),
            },
        decreases left(s, p.at()),
    {
        let ghost here = p.at();
        proof {
            lemma_ws_bounds(s);
            lemma_string_at(s, here);
            lemma_string_at(s, ws_end(s, here));
            lemma_after_ws(s, here);
        }
        if p.try_close(']') {
            proof {
                assert(texts(out@) + Seq::<Seq<char>>::empty() =~= texts(out@));
            }
            return Ok(out);
        }
        let v: String = match p.string() {
            Ok(v) => v,
            Err(e) => {
                return Err(e);
            },
        };
        p.consume_comma();
        let ghost before = out@;
        let ghost text = v@;
        out.push(v);
        proof {
            assert(texts(out@) =~= texts(before).push(text));
            match strings_from(s, p.at()) {
                Ok((rest, end)) => {
                    assert(texts(before) + (seq![text] + rest) =~= texts(out@) + rest);
                },
                Err(e) => {},
            }
        }
    }
}

/// Readers pass white space first, so they read the same after it.
proof fn lemma_after_ws(s: Seq<char>, pos: nat)
    ensures
        ws_end(s, ws_end(s, pos)) == ws_end(s, pos),
        string_at(s, ws_end(s, pos)) == string_at(s, pos),
        entry_at(s, ws_end(s, pos)) == entry_at(s, pos),
{
    lemma_ws_end(s, pos);
}

impl SourceFingerprint {
    fn parse_json(p: &mut JsonParser) -> (r: Result<SourceFingerprint, ManifestError>)
        requires
            old(p).wf(),
        ensures
            followed(
                *old(p),
                *final(p),
                r,
                r->Ok_0,
                fingerprint_at(old(p).text(), old(p).at()),
            ),
    {
        match p.expect('{') {
            Ok(_) => {},
            Err(e) => {
                return Err(malformed(e));
            },
        }
        let ghost s = p.text();
        let ghost start = p.at();
        let ghost step = fingerprint_step(s);
        let mut f = FingerprintFields {
            footer_length: None,
            footer_crc32: None,
            num_rows: None,
            num_row_groups: None,
        };
        loop
            invariant_except_break
                object_from(s, start, no_fingerprint_fields(), step) == object_from(
                    s,
                    p.at(),
                    f,
                    step,
                ),
            invariant
                p.wf(),
                p.text() == s,
                s == old(p).text(),
                step == fingerprint_step(s),
                object_at(s, old(p).at(), no_fingerprint_fields(), step) == object_from(
                    s,
                    start,
                    no_fingerprint_fields(),
                    step,
                ),
            ensures
                object_from(s, start, no_fingerprint_fields(), step) == Ok::<
                    (FingerprintFields, nat),
                    ManifestFault,
                >((f, p.at())),
            decreases left(s, p.at()),
        {
            let ghost here = p.at();
            proof {
                lemma_ws_bounds(s);
                reveal_with_fuel(object_from::<int>, 1);
            lemma_string_at(s, here);
                lemma_after_ws(s, here);
            }
            if p.try_close('}') {
                break ;
            }
            let key: String = match p.string() {
                Ok(k) => k,
                Err(e) => {
                    return Err(malformed(e));
                },
            };
            match p.expect(':') {
                Ok(_) => {},
                Err(e) => {
                    return Err(malformed(e));
                },
            }
            proof {
                lemma_number_at(s, p.at());
                lemma_ws_bounds(s);
            }
            if is_key(&key, "footer_length") {
                match p.u32() {
                    Ok(v) => {
                        f.footer_length = Some(v);
                    },
                    Err(e) => {
                        return Err(malformed(e));
                    },
                }
            } else if is_key(&key, "footer_crc32") {
                match p.u32() {
                    Ok(v) => {
                        f.footer_crc32 = Some(v);
                    },
                    Err(e) => {
                        return Err(malformed(e));
                    },
                }
            } else if is_key(&key, "num_rows") {
                match p.i64() {
                    Ok(v) => {
                        f.num_rows = Some(v);
                    },
                    Err(e) => {
                        return Err(malformed(e));
                    },
                }
            } else if is_key(&key, "num_row_groups") {
                match p.u32() {
                    Ok(v) => {
                        f.num_row_groups = Some(v);
                    },
                    Err(e) => {
                        return Err(malformed(e));
                    },
                }
            } else {
                match p.skip_value() {
                    Ok(_) => {},
                    Err(e) => {
                        return Err(malformed(e));
                    },
                }
            }
            p.consume_comma();
        }
        let footer_length: u32 = match f.footer_length {
            Some(v) => v,
            None => {
                return Err(missing("source_fingerprint.footer_length"));
            },
        };
        let footer_crc32: u32 = match f.footer_crc32 {
            Some(v) => v,
            None => {
                return Err(missing("source_fingerprint.footer_crc32"));
            },
        };
        let num_rows: i64 = match f.num_rows {
            Some(v) => v,
            None => {
                return Err(missing("source_fingerprint.num_rows"));
            },
        };
        let num_row_groups: u32 = match f.num_row_groups {
            Some(v) => v,
            None => {
                return Err(missing("source_fingerprint.num_row_groups"));
            },
        };
        Ok(SourceFingerprint { footer_length, footer_crc32, num_rows, num_row_groups })
    }
}

/// The members of an entry as they are read.
struct EntryParts {
    name: Option<String>,
    sidecar_row_group: Option<u32>,
    typ: Option<String>,
    source_column: Option<String>,
    physical_type: Option<String>,
    target_fpp: Option<String>,
    source_columns: Option<Vec<String>>,
    physical_types: Option<Vec<String>>,
    tokenizer: Option<String>,
}

spec fn text_of(o: Option<String>) -> Option<Seq<char>> {
    match o {
        Some(s) => Some(s@),
        None => None,
    }
}

spec fn texts_of(o: Option<Vec<String>>) -> Option<Seq<Seq<char>>> {
    match o {
        Some(v) => Some(texts(v@)),
        None => None,
    }
}

impl EntryParts {
    spec fn fields(&self) -> EntryFields {
        EntryFields {
            name: text_of(self.name),
            sidecar_row_group: self.sidecar_row_group,
            typ: text_of(self.typ),
            source_column: text_of(self.source_column),
            physical_type: text_of(self.physical_type),
            target_fpp: text_of(self.target_fpp),
            source_columns: texts_of(self.source_columns),
            physical_types: texts_of(self.physical_types),
            tokenizer: text_of(self.tokenizer),
        }
    }
}

/// Reads the value of one member of an entry.
fn read_entry_member(p: &mut JsonParser, key: &String, parts: EntryParts) -> (r: Result<
    EntryParts,
    ManifestError,
>)
    requires
        old(p).wf(),
    ensures
        final(p).wf(),
        final(p).text() == old(p).text(),
        match entry_step(old(p).text())(parts.fields(), key@, old(p).at()) {
            Ok((next, n)) => r is Ok && r->Ok_0.fields() == next && final(p).at() == old(p).at()
                + n,
            Err(f) => r is Err && r->Err_0@ == f,
        },
{
    let ghost s = p.text();
    let mut f: EntryParts = parts;
    proof {
        lemma_number_at(s, p.at());
        lemma_string_at(s, p.at());
        lemma_strings_at(s, p.at());
        lemma_ws_bounds(s);
    }
    if is_key(key, "name") {
        match p.string() {
            Ok(v) => {
                f.name = Some(v);
            },
            Err(e) => {
                return Err(malformed(e));
            },
        }
    } else if is_key(key, "sidecar_row_group") {
        match p.u32() {
            Ok(v) => {
                f.sidecar_row_group = Some(v);
            },
            Err(e) => {
                return Err(malformed(e));
            },
        }
    } else if is_key(key, "type") {
        match p.string() {
            Ok(v) => {
                f.typ = Some(v);
            },
            Err(e) => {
                return Err(malformed(e));
            },
        }
    } else if is_key(key, "source_column") {
        match p.string() {
            Ok(v) => {
                f.source_column = Some(v);
            },
            Err(e) => {
                return Err(malformed(e));
            },
        }
    } else if is_key(key, "physical_type") {
        match p.string() {
            Ok(v) => {
                f.physical_type = Some(v);
            },
            Err(e) => {
                return Err(malformed(e));
            },
        }
    } else if is_key(key, "target_fpp") {
        match p.fraction() {
            Ok(v) => {
                f.target_fpp = Some(v);
            },
            Err(e) => {
                return Err(malformed(e));
            },
        }
    } else if is_key(key, "source_columns") {
        match parse_strings(p) {
            Ok(v) => {
                f.source_columns = Some(v);
            },
            Err(e) => {
                return Err(malformed(e));
            },
        }
    } else if is_key(key, "physical_types") {
        match parse_strings(p) {
            Ok(v) => {
                f.physical_types = Some(v);
            },
            Err(e) => {
                return Err(malformed(e));
            },
        }
    } else if is_key(key, "tokenizer") {
        match p.string() {
            Ok(v) => {
                f.tokenizer = Some(v);
            },
            Err(e) => {
                return Err(malformed(e));
            },
        }
    } else {
        match p.skip_value() {
            Ok(_) => {},
            Err(e) => {
                return Err(malformed(e));
            },
        }
    }
    Ok(f)
}

/// Reads the members of an entry.
fn parse_entry_parts(p: &mut JsonParser) -> (r: Result<EntryParts, ManifestError>)
    requires
        old(p).wf(),
    ensures
        followed(
            *old(p),
            *final(p),
            r,
            r->Ok_0.fields(),
            object_at(old(p).text(), old(p).at(), no_entry_fields(), entry_step(old(p).text())),
        ),
{
    match p.expect('{') {
        Ok(_) => {},
        Err(e) => {
            return Err(malformed(e));
        },
    }
    let ghost s = p.text();
    let ghost start = p.at();
    let ghost step = entry_step(s);
    let mut f = EntryParts {
        name: None,
        sidecar_row_group: None,
        typ: None,
        source_column: None,
        physical_type: None,
        target_fpp: None,
        source_columns: None,
        physical_types: None,
        tokenizer: None,
    };
    loop
        invariant
            p.wf(),
            p.text() == s,
            s == old(p).text(),
            step == entry_step(s),
            object_at(s, old(p).at(), no_entry_fields(), step) == object_from(
                s,
                start,
                no_entry_fields(),
                step,
            ),
            object_from(s, start, no_entry_fields(), step) == object_from(
                s,
                p.at(),
                f.fields(),
                step,
            ),
        decreases left(s, p.at()),
    {
        let ghost here = p.at();
        proof {
            lemma_ws_bounds(s);
            reveal_with_fuel(object_from::<int>, 1);
            lemma_string_at(s, here);
            lemma_after_ws(s, here);
        }
        if p.try_close('}') {
            return Ok(f);
        }
        let key: String = match p.string() {
            Ok(k) => k,
            Err(e) => {
                return Err(malformed(e));
            },
        };
        match p.expect(':') {
            Ok(_) => {},
            Err(e) => {
                return Err(malformed(e));
            },
        }
        proof {
            lemma_ws_bounds(s);
        }
        f = match read_entry_member(p, &key, f) {
            Ok(f) => f,
            Err(e) => {
                return Err(e);
            },
        };
        p.consume_comma();
    }
}

impl PhysicalType {
    /// The type of a name.
    pub fn parse(s: &str) -> (r: Result<PhysicalType, ManifestError>)
        ensures
            match type_named(s@) {
                Ok(t) => r is Ok && r->Ok_0 == t,
                Err(f) => r is Err && r->Err_0@ == f,
            },
    {
        let name: String = s.to_string();
        if is_key(&name, "INT32") {
            Ok(PhysicalType::Int32)
        } else if is_key(&name, "INT64") {
            Ok(PhysicalType::Int64)
        } else if is_key(&name, "BYTE_ARRAY") {
            Ok(PhysicalType::ByteArray)
        } else {
            Err(malformed(joined3("unsupported physical_type `", s, "`")))
        }
    }
}

impl Tokenizer {
    /// The tokenizer of a name.
    pub fn parse(s: &str) -> (r: Result<Tokenizer, ManifestError>)
        ensures
            match tokenizer_named(s@) {
                Ok(t) => r is Ok && r->Ok_0 == t,
                Err(f) => r is Err && r->Err_0@ == f,
            },
    {
        let name: String = s.to_string();
        if is_key(&name, "whitespace_lowercase_v1") {
            Ok(Tokenizer::WhitespaceLowercaseV1)
        } else {
            Err(ManifestError::UnsupportedTokenizer(name))
        }
    }
}

/// The types of names.
fn parse_types(names: &Vec<String>) -> (r: Result<Vec<PhysicalType>, ManifestError>)
    ensures
        match types_named(texts(names@)) {
            Ok(t) => r is Ok && r->Ok_0@ == t,
            Err(f) => r is Err && r->Err_0@ == f,
        },
{
    let ghost all = texts(names@);
    let mut out: Vec<PhysicalType> = Vec::new();
    let mut i: usize = 0;
    proof {
        assert(all.skip(0) =~= all);
        match types_named(all) {
            Ok(t) => {
                assert(out@ + t =~= t);
            },
            Err(f) => {},
        }
    }
    while i < names.len()
        invariant
            i <= names@.len(),
            all == texts(names@),
            match types_named(all.skip(i as int)) {
                Ok(t) => types_named(all) == Ok::<Seq<PhysicalType>, ManifestFault>(out@ + t),
                Err(f) => types_named(all) == Err::<Seq<PhysicalType>, ManifestFault>(f),
            },
        decreases names@.len() - i,
    {
        proof {
            assert(all.skip(i as int).skip(1) =~= all.skip(i + 1));
            assert(all.skip(i as int)[0] == names@[i as int]@);
        }
        let t: PhysicalType = match PhysicalType::parse(names[i].as_str()) {
            Ok(t) => t,
            Err(e) => {
                return Err(e);
            },
        };
        let ghost before = out@;
        out.push(t);
        proof {
            match types_named(all.skip(i + 1)) {
                Ok(rest) => {
                    assert(before + (seq![t] + rest) =~= out@ + rest);
                },
                Err(f) => {},
            }
        }
        i = i + 1;
    }
    proof {
        assert(all.skip(i as int) =~= Seq::<Seq<char>>::empty());
        assert(out@ + Seq::<PhysicalType>::empty() =~= out@);
    }
    Ok(out)
}

/// The kind that the members of an entry tell of.
fn build_kind(typ: &String, f: EntryParts) -> (r: Result<IndexKind, ManifestError>)
    ensures
        match kind_of(typ@, f.fields()) {
            Ok(kind) => r is Ok && r->Ok_0@ == kind,
            Err(e) => r is Err && r->Err_0@ == e,
        },
{
    if is_key(typ, "sorted") {
        let source_column: String = match f.source_column {
            Some(c) => c,
            None => {
                return Err(missing("sorted.source_column"));
            },
        };
        let name: String = match f.physical_type {
            Some(t) => t,
            None => {
                return Err(missing("sorted.physical_type"));
            },
        };
        let physical_type: PhysicalType = match PhysicalType::parse(name.as_str()) {
            Ok(t) => t,
            Err(e) => {
                return Err(e);
            },
        };
        return Ok(IndexKind::Sorted { source_column, physical_type });
    }
    if is_key(typ, "bloom_page") {
        let source_column: String = match f.source_column {
            Some(c) => c,
            None => {
                return Err(missing("bloom_page.source_column"));
            },
        };
        let target_fpp: String = match f.target_fpp {
            Some(t) => t,
            None => {
                return Err(missing("bloom_page.target_fpp"));
            },
        };
        return Ok(IndexKind::BloomPage { source_column, target_fpp });
    }
    if is_key(typ, "composite_prefix") {
        let source_columns: Vec<String> = match f.source_columns {
            Some(c) => c,
            None => {
                return Err(missing("composite_prefix.source_columns"));
            },
        };
        let names: Vec<String> = match f.physical_types {
            Some(t) => t,
            None => {
                return Err(missing("composite_prefix.physical_types"));
            },
        };
        if source_columns.len() != names.len() {
            return Err(
                missing(
                    "composite_prefix: source_columns and physical_types differ in length",
                ),
            );
        }
        let physical_types: Vec<PhysicalType> = match parse_types(&names) {
            Ok(t) => t,
            Err(e) => {
                return Err(e);
            },
        };
        return Ok(IndexKind::CompositePrefix { source_columns, physical_types });
    }
    if is_key(typ, "inverted") {
        let source_column: String = match f.source_column {
            Some(c) => c,
            None => {
                return Err(missing("inverted.source_column"));
            },
        };
        let name: String = match f.tokenizer {
            Some(t) => t,
            None => {
                return Err(missing("inverted.tokenizer"));
            },
        };
        let tokenizer: Tokenizer = match Tokenizer::parse(name.as_str()) {
            Ok(t) => t,
            Err(e) => {
                return Err(e);
            },
        };
        return Ok(IndexKind::Inverted { source_column, tokenizer });
    }
    Err(malformed(joined3("unknown index type `", typ.as_str(), "`")))
}

/// Reads one entry.
fn parse_one_index(p: &mut JsonParser) -> (r: Result<IndexEntry, ManifestError>)
    requires
        old(p).wf(),
    ensures
        followed(*old(p), *final(p), r, r->Ok_0@, entry_at(old(p).text(), old(p).at())),
{
    let mut f: EntryParts = match parse_entry_parts(p) {
        Ok(f) => f,
        Err(e) => {
            return Err(e);
        },
    };
    let ghost fields = f.fields();
    let name: String = match f.name {
        Some(n) => n,
        None => {
            return Err(missing("index.name"));
        },
    };
    let sidecar_row_group: u32 = match f.sidecar_row_group {
        Some(n) => n,
        None => {
            return Err(missing("index.sidecar_row_group"));
        },
    };
    let typ: String = match f.typ {
        Some(t) => t,
        None => {
            return Err(missing("index.type"));
        },
    };
    f.name = None;
    f.typ = None;
    proof {
        assert(kind_of(typ@, f.fields()) == kind_of(typ@, fields));
    }
    match build_kind(&typ, f) {
        Ok(kind) => Ok(IndexEntry { name, kind, sidecar_row_group }),
        Err(e) => Err(e),
    }
}

/// Reads the entries of an array.
fn parse_indexes(p: &mut JsonParser) -> (r: Result<Vec<IndexEntry>, ManifestError>)
    requires
        old(p).wf(),
    ensures
        followed(*old(p), *final(p), r, entries(r->Ok_0@), entries_at(old(p).text(), old(p).at())),
{
    match p.expect('[') {
        Ok(_) => {},
        Err(e) => {
            return Err(malformed(e));
        },
    }
    let ghost s = p.text();
    let ghost start = p.at();
    let mut out: Vec<IndexEntry> = Vec::new();
    proof {
        match entries_from(s, start) {
            Ok((v, end)) => {
                assert(entries(out@) + v =~= v);
            },
            Err(e) => {},
        }
    }
    loop
        invariant
            p.wf(),
            p.text() == s,
            s == old(p).text(),
            entries_at(s, old(p).at()) == entries_from(s, start),
            match entries_from(s, p.at()) {
                Ok((v, end)) => entries_from(s, start) == Ok::<
                    (Seq<EntryView>, nat),
                    ManifestFault,
                >((entries(out@) + v, end)),
                Err(e) => entries_from(s, start) == Err::<(Seq<EntryView>, nat), ManifestFault>(e),
            },
        decreases left(s, p.at()),
    {
        let ghost here = p.at();
        proof {
            lemma_ws_bounds(s);
            lemma_entry_at(s, here);
            lemma_after_ws(s, here);
        }
        if p.try_close(']') {
            proof {
                assert(entries(out@) + Seq::<EntryView>::empty() =~= entries(out@));
            }
            return Ok(out);
        }
        let e: IndexEntry = match parse_one_index(p) {
            Ok(e) => e,
            Err(e) => {
                return Err(e);
            },
        };
        p.consume_comma();
        let ghost before = out@;
        let ghost view = e@;
        out.push(e);
        proof {
            assert(entries(out@) =~= entries(before).push(view));
            match entries_from(s, p.at()) {
                Ok((rest, end)) => {
                    assert(entries(before) + (seq![view] + rest) =~= entries(out@) + rest);
                },
                Err(e) => {},
            }
        }
    }
}

spec fn entries_of(o: Option<Vec<IndexEntry>>) -> Option<Seq<EntryView>> {
    match o {
        Some(v) => Some(entries(v@)),
        None => None,
    }
}

impl IndexManifest {
    /// Reads a manifest. Members that are not known are passed over.
    pub fn from_json(text: &str) -> (r: Result<IndexManifest, ManifestError>)
        ensures
            match manifest_in(text@) {
                Ok(m) => r is Ok && r->Ok_0@ == m,
                Err(f) => r is Err && r->Err_0@ == f,
            },
    {
        let mut p = JsonParser::new(text);
        match p.expect('{') {
            Ok(_) => {},
            Err(e) => {
                return Err(malformed(e));
            },
        }
        let ghost s = text@;
        let ghost start = p.at();
        let ghost step = manifest_step(s);
        let ghost whole = object_from(s, start, no_manifest_fields(), step);
        let mut version: Option<String> = None;
        let mut fingerprint: Option<SourceFingerprint> = None;
        let mut indexes: Option<Vec<IndexEntry>> = None;
        loop
            invariant_except_break
                whole == object_from(
                    s,
                    p.at(),
                    (ManifestFields {
                        version: text_of(version),
                        fingerprint,
                        indexes: entries_of(indexes),
                    }),
                    step,
                ),
            invariant
                p.wf(),
                p.text() == s,
                s == text@,
                step == manifest_step(s),
                object_at(s, 0, no_manifest_fields(), step) == whole,
            ensures
                whole is Ok,
                whole->Ok_0.0 == (ManifestFields {
                    version: text_of(version),
                    fingerprint,
                    indexes: entries_of(indexes),
                }),
            decreases left(s, p.at()),
        {
            let ghost here = p.at();
            proof {
                lemma_ws_bounds(s);
                reveal_with_fuel(object_from::<int>, 1);
            lemma_string_at(s, here);
                lemma_after_ws(s, here);
            }
            if p.try_close('}') {
                break ;
            }
            let key: String = match p.string() {
                Ok(k) => k,
                Err(e) => {
                    return Err(malformed(e));
                },
            };
            match p.expect(':') {
                Ok(_) => {},
                Err(e) => {
                    return Err(malformed(e));
                },
            }
            proof {
                lemma_string_at(s, p.at());
                lemma_object_at(s, p.at(), no_fingerprint_fields(), fingerprint_step(s));
                lemma_entries_at(s, p.at());
                lemma_ws_bounds(s);
            }
            if is_key(&key, "version") {
                match p.string() {
                    Ok(v) => {
                        version = Some(v);
                    },
                    Err(e) => {
                        return Err(malformed(e));
                    },
                }
            } else if is_key(&key, "source_fingerprint") {
                match SourceFingerprint::parse_json(&mut p) {
                    Ok(v) => {
                        fingerprint = Some(v);
                    },
                    Err(e) => {
                        return Err(e);
                    },
                }
            } else if is_key(&key, "indexes") {
                match parse_indexes(&mut p) {
                    Ok(v) => {
                        indexes = Some(v);
                    },
                    Err(e) => {
                        return Err(e);
                    },
                }
            } else {
                match p.skip_value() {
                    Ok(_) => {},
                    Err(e) => {
                        return Err(malformed(e));
                    },
                }
            }
            p.consume_comma();
        }
        let version: String = match version {
            Some(v) => v,
            None => {
                return Err(missing("missing `version` key"));
            },
        };
        if !is_key(&version, MANIFEST_VERSION) {
            return Err(ManifestError::UnsupportedVersion(version));
        }
        let source_fingerprint: SourceFingerprint = match fingerprint {
            Some(v) => v,
            None => {
                return Err(missing("missing `source_fingerprint` key"));
            },
        };
        let indexes: Vec<IndexEntry> = match indexes {
            Some(v) => v,
            None => {
                return Err(missing("missing `indexes` key"));
            },
        };
        Ok(IndexManifest { source_fingerprint, indexes })
    }
}

} // verus!
