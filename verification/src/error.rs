//! The errors of the library, and their mathematical view.

use vstd::prelude::*;

use crate::text::{dec, joined, text1, text2, text3};

verus! {

/// Why a byte cursor could not read a primitive.
#[derive(Debug, Clone, Copy, PartialEq, Eq, Structural)]
pub enum FormatError {
    /// The stream ends before the value does.
    UnexpectedEof,
    /// A variable-length integer does not fit its type.
    VarintOverflow,
    /// A value of a type that the protocol does not have.
    UnknownType(u8),
    /// Values nested deeper than is followed.
    NestingTooDeep,
    /// A required field of a struct is absent.
    MissingField(u8),
}

#[derive(Debug)]
pub enum CodecError {
    /// A primitive of the wire format could not be read.
    Wire(FormatError),
    /// A compressed or packed body could not be expanded.
    Decompress(String),
    /// A PLAIN-encoded byte stream had a partial value at the end: the
    /// buffer length is not a multiple of the fixed value width.
    UnalignedPlainBuffer { value_width: usize, buffer_len: usize },
    /// The caller asked for `n` values but the buffer holds fewer than
    /// `n * value_width` bytes.
    UnderflowingPlainBuffer { value_width: usize, buffer_len: usize, requested_values: usize },
    /// A bit width outside the supported range.
    BitWidthOutOfRange(u8),
    /// A dictionary-encoded data page had a body of zero bytes, so the
    /// leading bit-width byte was missing.
    EmptyDictPageBody,
    /// A dictionary index referenced a slot beyond the dictionary.
    DictIndexOutOfRange { index: u32, dict_size: usize },
    /// A required input was malformed.
    InvalidInput(String),
    /// A combination of options that no decoder handles.
    Unsupported(String),
    /// A parallel runner saw its cancellation token fire.
    Cancelled,
}

/// What a `CodecError` says, with texts as character sequences.
pub enum Fault {
    Wire(FormatError),
    Decompress(Seq<char>),
    UnalignedPlainBuffer { value_width: usize, buffer_len: usize },
    UnderflowingPlainBuffer { value_width: usize, buffer_len: usize, requested_values: usize },
    BitWidthOutOfRange(u8),
    EmptyDictPageBody,
    DictIndexOutOfRange { index: u32, dict_size: usize },
    InvalidInput(Seq<char>),
    Unsupported(Seq<char>),
    Cancelled,
}

impl View for CodecError {
    type V = Fault;

    open spec fn view(&self) -> Fault {
        match *self {
            CodecError::Wire(e) => Fault::Wire(e),
            CodecError::Decompress(s) => Fault::Decompress(s@),
            CodecError::UnalignedPlainBuffer { value_width, buffer_len } => {
                Fault::UnalignedPlainBuffer { value_width, buffer_len }
            },
            CodecError::UnderflowingPlainBuffer { value_width, buffer_len, requested_values } => {
                Fault::UnderflowingPlainBuffer { value_width, buffer_len, requested_values }
            },
            CodecError::BitWidthOutOfRange(w) => Fault::BitWidthOutOfRange(w),
            CodecError::EmptyDictPageBody => Fault::EmptyDictPageBody,
            CodecError::DictIndexOutOfRange { index, dict_size } => {
                Fault::DictIndexOutOfRange { index, dict_size }
            },
            CodecError::InvalidInput(s) => Fault::InvalidInput(s@),
            CodecError::Unsupported(s) => Fault::Unsupported(s@),
            CodecError::Cancelled => Fault::Cancelled,
        }
    }
}

impl FormatError {
    /// What the error says.
    pub open spec fn text(self) -> Seq<char> {
        match self {
            FormatError::UnexpectedEof => "unexpected end of input"@,
            FormatError::VarintOverflow => "variable-length integer out of range"@,
            FormatError::UnknownType(t) => "unknown type "@ + dec(t as nat) + ""@,
            FormatError::NestingTooDeep => "values nested too deep"@,
            FormatError::MissingField(f) => "required field "@ + dec(f as nat) + " is missing"@,
        }
    }

    pub fn to_string(&self) -> (s: String)
        ensures
            s@ == self.text(),
    {
        match *self {
            FormatError::UnexpectedEof => "unexpected end of input".to_string(),
            FormatError::VarintOverflow => "variable-length integer out of range".to_string(),
            FormatError::UnknownType(t) => text1("unknown type ", t as u128, ""),
            FormatError::NestingTooDeep => "values nested too deep".to_string(),
            FormatError::MissingField(f) => text1("required field ", f as u128, " is missing"),
        }
    }
}

impl Fault {
    /// What the fault says.
    pub open spec fn text(self) -> Seq<char> {
        match self {
            Fault::Wire(e) => "wire-format error: "@ + e.text(),
            Fault::Decompress(s) => "decompression failed: "@ + s,
            Fault::UnalignedPlainBuffer { value_width, buffer_len } => "PLAIN buffer length "@
                + dec(buffer_len as nat) + " not a multiple of "@ + dec(value_width as nat) + ""@,
            Fault::UnderflowingPlainBuffer { value_width, buffer_len, requested_values } =>
            "PLAIN buffer length "@ + dec(buffer_len as nat) + " too short for "@ + dec(
                requested_values as nat,
            ) + " values of width "@ + dec(value_width as nat) + ""@,
            Fault::BitWidthOutOfRange(w) => "bit_width "@ + dec(w as nat)
                + " outside supported [0, 64]"@,
            Fault::EmptyDictPageBody => "dictionary-encoded data page had an empty body"@,
            Fault::DictIndexOutOfRange { index, dict_size } => "dictionary index "@ + dec(
                index as nat,
            ) + " ≥ dict size "@ + dec(dict_size as nat) + ""@,
            Fault::InvalidInput(s) => "invalid input: "@ + s,
            Fault::Unsupported(s) => "unsupported: "@ + s,
            Fault::Cancelled => "parallel decode cancelled by token"@,
        }
    }
}

impl CodecError {
    /// What the error says.
    pub fn to_string(&self) -> (s: String)
        ensures
            s@ == self@.text(),
    {
        match self {
            CodecError::Wire(e) => joined("wire-format error: ", e.to_string().as_str()),
            CodecError::Decompress(s) => joined("decompression failed: ", s.as_str()),
            CodecError::UnalignedPlainBuffer { value_width, buffer_len } => text2(
                "PLAIN buffer length ",
                *buffer_len as u128,
                " not a multiple of ",
                *value_width as u128,
                "",
            ),
            CodecError::UnderflowingPlainBuffer { value_width, buffer_len, requested_values } =>
            text3(
                "PLAIN buffer length ",
                *buffer_len as u128,
                " too short for ",
                *requested_values as u128,
                " values of width ",
                *value_width as u128,
                "",
            ),
            CodecError::BitWidthOutOfRange(w) => text1(
                "bit_width ",
                *w as u128,
                " outside supported [0, 64]",
            ),
            CodecError::EmptyDictPageBody =>
            "dictionary-encoded data page had an empty body".to_string(),
            CodecError::DictIndexOutOfRange { index, dict_size } => text2(
                "dictionary index ",
                *index as u128,
                " ≥ dict size ",
                *dict_size as u128,
                "",
            ),
            CodecError::InvalidInput(s) => joined("invalid input: ", s.as_str()),
            CodecError::Unsupported(s) => joined("unsupported: ", s.as_str()),
            CodecError::Cancelled => "parallel decode cancelled by token".to_string(),
        }
    }
}

impl From<FormatError> for CodecError {
    fn from(e: FormatError) -> (r: CodecError) {
        CodecError::Wire(e)
    }
}

impl vstd::std_specs::convert::FromSpecImpl<FormatError> for CodecError {
    open spec fn obeys_from_spec() -> bool {
        true
    }

    open spec fn from_spec(e: FormatError) -> CodecError {
        CodecError::Wire(e)
    }
}

/// That a call failed with exactly `fault`, or succeeded where there is none.
pub open spec fn reports<T>(r: Result<T>, fault: Option<Fault>) -> bool {
    match fault {
        None => r is Ok,
        Some(f) => r is Err && r->Err_0@ == f,
    }
}

/// Values handed out in order, and the fault that ended them early, if any.
pub struct Outcome<T> {
    pub emitted: Seq<T>,
    pub fault: Option<Fault>,
}

impl<T> Outcome<T> {
    /// The same outcome with more values in front.
    pub open spec fn after(self, before: Seq<T>) -> Outcome<T> {
        Outcome { emitted: before + self.emitted, fault: self.fault }
    }
}

pub type Result<T> = std::result::Result<T, CodecError>;

} // verus!
