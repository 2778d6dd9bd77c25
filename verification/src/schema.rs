//! The parts of a file's schema and footer that the decoders read.

use vstd::prelude::*;

verus! {

/// The physical type of a leaf column.
#[derive(Debug, Clone, Copy, PartialEq, Eq, Structural)]
pub enum ParquetType {
    Boolean,
    Int32,
    Int64,
    Int96,
    Float,
    Double,
    ByteArray,
    FixedLenByteArray,
}

/// How often a field occurs in its parent.
#[derive(Debug, Clone, Copy, PartialEq, Eq, Structural)]
pub enum FieldRepetitionType {
    Required,
    Optional,
    Repeated,
}

/// One node of a schema tree. A schema lists its nodes depth first, the
/// root group before all others.
#[derive(Debug, Clone)]
pub struct SchemaElement {
    pub column_type: Option<ParquetType>,
    pub repetition_type: Option<FieldRepetitionType>,
    pub name: Vec<u8>,
    pub num_children: Option<i32>,
}

} // verus!
