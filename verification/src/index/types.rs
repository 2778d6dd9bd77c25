//! What lookups are asked, and what they answer.

use vstd::prelude::*;

use crate::index::keys::SortKey;
use crate::index::manifest::PhysicalType;

verus! {

/// A value that is looked up.
#[derive(Debug, Clone)]
pub enum Key<'a> {
    I64(i64),
    I32(i32),
    Bytes(&'a [u8]),
}

impl<'a> Key<'a> {
    /// The key of the value.
    pub open spec fn sort_key(self) -> SortKey {
        match self {
            Key::I64(v) => SortKey::Int(v as int),
            Key::I32(v) => SortKey::Int(v as int),
            Key::Bytes(v) => SortKey::Bytes(v@),
        }
    }

    /// The physical type of columns that the value can be looked up in.
    pub open spec fn physical_type(self) -> PhysicalType {
        match self {
            Key::I64(_) => PhysicalType::Int64,
            Key::I32(_) => PhysicalType::Int32,
            Key::Bytes(_) => PhysicalType::ByteArray,
        }
    }

    /// The name of the value's kind.
    pub open spec fn kind_name(self) -> Seq<char> {
        match self {
            Key::I64(_) => "I64"@,
            Key::I32(_) => "I32"@,
            Key::Bytes(_) => "Bytes"@,
        }
    }

    /// Whether the value can be looked up in a column of a type.
    pub fn matches_physical_type(&self, ty: PhysicalType) -> (b: bool)
        ensures
            b == (self.physical_type() == ty),
    {
        match self {
            Key::I64(_) => ty == PhysicalType::Int64,
            Key::I32(_) => ty == PhysicalType::Int32,
            Key::Bytes(_) => ty == PhysicalType::ByteArray,
        }
    }

    /// The name of the value's kind.
    pub fn variant_name(&self) -> (s: &'static str)
        ensures
            s@ == self.kind_name(),
    {
        match self {
            Key::I64(_) => "I64",
            Key::I32(_) => "I32",
            Key::Bytes(_) => "Bytes",
        }
    }
}

/// A page of the source and the rows of it that match.
#[derive(Debug, Clone)]
pub struct IndexHit {
    /// The row group of the source.
    pub row_group: u32,
    /// The data page within the column chunk; dictionary pages do not count.
    pub page: u32,
    /// One bit per row of the page.
    pub rowset: Vec<u8>,
}

/// What a hit says.
pub struct HitView {
    pub row_group: u32,
    pub page: u32,
    pub rowset: Seq<u8>,
}

impl View for IndexHit {
    type V = HitView;

    open spec fn view(&self) -> HitView {
        HitView { row_group: self.row_group, page: self.page, rowset: self.rowset@ }
    }
}

/// What hits say.
pub open spec fn hit_views(hits: Seq<IndexHit>) -> Seq<HitView> {
    hits.map_values(|h: IndexHit| h@)
}

} // verus!
