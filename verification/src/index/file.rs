//! What the index reads of a file: its footer, its schema, and per column
//! chunk the decoded values and the headers of its pages.

use vstd::prelude::*;

use crate::delta::byte_strings;
use crate::error::{reports, CodecError, Fault, Result};
use crate::schema::SchemaElement;
use crate::text::{dec, text1, text2};

verus! {

/// The kind of a page.
#[derive(Debug, Clone, Copy, PartialEq, Eq, Structural)]
pub enum PageType {
    DataPage,
    IndexPage,
    DictionaryPage,
    DataPageV2,
}

/// What a page header says of the number of values of a data page, in the
/// header of either version.
#[derive(Debug, Clone, Copy, PartialEq, Eq, Structural)]
pub struct PageHeader {
    pub page_type: PageType,
    pub v1_num_values: Option<i32>,
    pub v2_num_values: Option<i32>,
}

/// The decoded values of a column chunk.
#[derive(Debug)]
pub enum ColumnValues {
    I32(Vec<i32>),
    I64(Vec<i64>),
    ByteArray(Vec<Vec<u8>>),
    /// Values of a type that no index is built over.
    Other,
}

/// A column chunk whose metadata is inline.
#[derive(Debug)]
pub struct ChunkData {
    pub values: ColumnValues,
    pub pages: Vec<PageHeader>,
}

/// A column of a row group; without inline metadata nothing of it is read.
#[derive(Debug)]
pub struct ColumnChunk {
    pub data: Option<ChunkData>,
}

/// A row group of a file.
#[derive(Debug)]
pub struct RowGroup {
    pub num_rows: i64,
    pub columns: Vec<ColumnChunk>,
}

/// An entry of a file's key-value metadata.
#[derive(Debug)]
pub struct KeyValue {
    pub key: Vec<u8>,
    pub value: Option<Vec<u8>>,
}

/// A file.
#[derive(Debug)]
pub struct ParquetFile {
    /// The bytes of the footer.
    pub footer: Vec<u8>,
    pub num_rows: i64,
    pub schema: Vec<SchemaElement>,
    pub row_groups: Vec<RowGroup>,
    pub key_value_metadata: Option<Vec<KeyValue>>,
}

impl ParquetFile {
    /// The chunk of a column in a row group, or why there is none.
    pub open spec fn chunk_at(&self, row_group: nat, column: nat) -> std::result::Result<
        ChunkData,
        Fault,
    > {
        if row_group >= self.row_groups@.len() {
            Err(Fault::InvalidInput("row group "@ + dec(row_group) + " out of range"@))
        } else if column >= self.row_groups@[row_group as int].columns@.len() {
            Err(
                Fault::InvalidInput(
                    "column "@ + dec(column) + " out of range in rg "@ + dec(row_group) + ""@,
                ),
            )
        } else {
            match self.row_groups@[row_group as int].columns@[column as int].data {
                Some(d) => Ok(d),
                None => Err(Fault::InvalidInput("column missing inline meta_data"@)),
            }
        }
    }

    /// The chunk of a column in a row group.
    pub fn chunk(&self, row_group: usize, column: usize) -> (r: Result<&ChunkData>)
        ensures
            match self.chunk_at(row_group as nat, column as nat) {
                Ok(d) => r is Ok && *r->Ok_0 == d,
                Err(f) => reports(r, Some(f)),
            },
    {
        if row_group >= self.row_groups.len() {
            return Err(
                CodecError::InvalidInput(
                    text1("row group ", row_group as u128, " out of range"),
                ),
            );
        }
        let columns = &self.row_groups[row_group].columns;
        if column >= columns.len() {
            return Err(
                CodecError::InvalidInput(
                    text2(
                        "column ",
                        column as u128,
                        " out of range in rg ",
                        row_group as u128,
                        "",
                    ),
                ),
            );
        }
        match &columns[column].data {
            Some(d) => Ok(d),
            None => Err(CodecError::InvalidInput("column missing inline meta_data".to_string())),
        }
    }
}

/// The fault of a column that holds values of another type.
pub open spec fn type_fault(row_group: nat, column: nat, wanted: Seq<char>) -> Fault {
    Fault::InvalidInput(
        "column "@ + dec(column) + " in rg "@ + dec(row_group) + " does not hold "@ + wanted,
    )
}

fn type_err(row_group: usize, column: usize, wanted: &str) -> (e: CodecError)
    ensures
        e@ == type_fault(row_group as nat, column as nat, wanted@),
{
    let mut s: String = text2(
        "column ",
        column as u128,
        " in rg ",
        row_group as u128,
        " does not hold ",
    );
    s.append(wanted);
    CodecError::InvalidInput(s)
}

impl ParquetFile {
    /// The 64-bit integers of a column in a row group.
    pub open spec fn i64s(&self, row_group: nat, column: nat) -> std::result::Result<
        Seq<i64>,
        Fault,
    > {
        match self.chunk_at(row_group, column) {
            Err(f) => Err(f),
            Ok(d) => match d.values {
                ColumnValues::I64(v) => Ok(v@),
                _ => Err(type_fault(row_group, column, "INT64"@)),
            },
        }
    }

    /// The 32-bit integers of a column in a row group.
    pub open spec fn i32s(&self, row_group: nat, column: nat) -> std::result::Result<
        Seq<i32>,
        Fault,
    > {
        match self.chunk_at(row_group, column) {
            Err(f) => Err(f),
            Ok(d) => match d.values {
                ColumnValues::I32(v) => Ok(v@),
                _ => Err(type_fault(row_group, column, "INT32"@)),
            },
        }
    }

    /// The byte strings of a column in a row group.
    pub open spec fn byte_arrays(&self, row_group: nat, column: nat) -> std::result::Result<
        Seq<Vec<u8>>,
        Fault,
    > {
        match self.chunk_at(row_group, column) {
            Err(f) => Err(f),
            Ok(d) => match d.values {
                ColumnValues::ByteArray(v) => Ok(v@),
                _ => Err(type_fault(row_group, column, "BYTE_ARRAY"@)),
            },
        }
    }
}

/// What a column holds in `count` row groups from `first` on, one after the
/// other, or why one of them cannot be read. There is at least one.
pub open spec fn over<T>(
    part: spec_fn(nat) -> std::result::Result<Seq<T>, Fault>,
    first: nat,
    count: nat,
) -> std::result::Result<Seq<T>, Fault>
    decreases count,
{
    if count <= 1 {
        part(first)
    } else {
        match over(part, first, (count - 1) as nat) {
            Err(f) => Err(f),
            Ok(head) => match part((first + count - 1) as nat) {
                Err(f) => Err(f),
                Ok(tail) => Ok(head + tail),
            },
        }
    }
}

/// For each row group, the 64-bit integers of a column.
pub open spec fn i64_values(source: ParquetFile, column: nat) -> spec_fn(nat) -> std::result::Result<
    Seq<i64>,
    Fault,
> {
    |rg: nat| source.i64s(rg, column)
}

/// For each row group, the 32-bit integers of a column.
pub open spec fn i32_values(source: ParquetFile, column: nat) -> spec_fn(nat) -> std::result::Result<
    Seq<i32>,
    Fault,
> {
    |rg: nat| source.i32s(rg, column)
}

/// For each row group, the bytes of the byte strings of a column.
pub open spec fn byte_values(source: ParquetFile, column: nat) -> spec_fn(nat) -> std::result::Result<
    Seq<Seq<u8>>,
    Fault,
> {
    |rg: nat|
        match source.byte_arrays(rg, column) {
            Ok(v) => Ok(byte_strings(v)),
            Err(f) => Err(f),
        }
}

impl ParquetFile {
    /// The 64-bit integers of a column in consecutive row groups.
    pub open spec fn i64s_over(&self, first: nat, count: nat, column: nat) -> std::result::Result<
        Seq<i64>,
        Fault,
    > {
        over(i64_values(*self, column), first, count)
    }

    /// The 32-bit integers of a column in consecutive row groups.
    pub open spec fn i32s_over(&self, first: nat, count: nat, column: nat) -> std::result::Result<
        Seq<i32>,
        Fault,
    > {
        over(i32_values(*self, column), first, count)
    }

    /// The bytes of the byte strings of a column in consecutive row groups.
    pub open spec fn strings_over(&self, first: nat, count: nat, column: nat) -> std::result::Result<
        Seq<Seq<u8>>,
        Fault,
    > {
        over(byte_values(*self, column), first, count)
    }
}

/// The 64-bit integers of a column in a row group.
pub fn read_column_i64(file: &ParquetFile, row_group: usize, column: usize) -> (r: Result<&Vec<i64>>)
    ensures
        match file.i64s(row_group as nat, column as nat) {
            Ok(v) => r is Ok && r->Ok_0@ == v,
            Err(f) => reports(r, Some(f)),
        },
{
    match file.chunk(row_group, column) {
        Ok(d) => match &d.values {
            ColumnValues::I64(v) => Ok(v),
            _ => Err(type_err(row_group, column, "INT64")),
        },
        Err(e) => Err(e),
    }
}

/// The 32-bit integers of a column in a row group.
pub fn read_column_i32(file: &ParquetFile, row_group: usize, column: usize) -> (r: Result<&Vec<i32>>)
    ensures
        match file.i32s(row_group as nat, column as nat) {
            Ok(v) => r is Ok && r->Ok_0@ == v,
            Err(f) => reports(r, Some(f)),
        },
{
    match file.chunk(row_group, column) {
        Ok(d) => match &d.values {
            ColumnValues::I32(v) => Ok(v),
            _ => Err(type_err(row_group, column, "INT32")),
        },
        Err(e) => Err(e),
    }
}

/// The byte strings of a column in a row group.
pub fn read_column_byte_array(file: &ParquetFile, row_group: usize, column: usize) -> (r: Result<
    &Vec<Vec<u8>>,
>)
    ensures
        match file.byte_arrays(row_group as nat, column as nat) {
            Ok(v) => r is Ok && r->Ok_0@ == v,
            Err(f) => reports(r, Some(f)),
        },
{
    match file.chunk(row_group, column) {
        Ok(d) => match &d.values {
            ColumnValues::ByteArray(v) => Ok(v),
            _ => Err(type_err(row_group, column, "BYTE_ARRAY")),
        },
        Err(e) => Err(e),
    }
}

} // verus!
