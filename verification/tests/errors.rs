use ematix_parquet_codec::error::FormatError;
use ematix_parquet_codec::CodecError;

#[test]
fn errors_say_what_is_wrong() {
    assert_eq!(
        CodecError::Wire(FormatError::UnexpectedEof).to_string(),
        "wire-format error: unexpected end of input"
    );
    assert_eq!(
        CodecError::Decompress("x".to_string()).to_string(),
        "decompression failed: x"
    );
    assert_eq!(
        CodecError::UnalignedPlainBuffer { value_width: 8, buffer_len: 12 }.to_string(),
        "PLAIN buffer length 12 not a multiple of 8"
    );
    assert_eq!(
        CodecError::UnderflowingPlainBuffer { value_width: 4, buffer_len: 7, requested_values: 2 }
            .to_string(),
        "PLAIN buffer length 7 too short for 2 values of width 4"
    );
    assert_eq!(
        CodecError::BitWidthOutOfRange(65).to_string(),
        "bit_width 65 outside supported [0, 64]"
    );
    assert_eq!(
        CodecError::EmptyDictPageBody.to_string(),
        "dictionary-encoded data page had an empty body"
    );
    assert_eq!(
        CodecError::DictIndexOutOfRange { index: 4, dict_size: 3 }.to_string(),
        "dictionary index 4 ≥ dict size 3"
    );
    assert_eq!(CodecError::InvalidInput("y".to_string()).to_string(), "invalid input: y");
    assert_eq!(CodecError::Unsupported("z".to_string()).to_string(), "unsupported: z");
    assert_eq!(CodecError::Cancelled.to_string(), "parallel decode cancelled by token");
}

#[test]
fn wire_errors_convert() {
    let e: CodecError = FormatError::MissingField(3).into();
    assert_eq!(e.to_string(), "wire-format error: required field 3 is missing");
    assert_eq!(FormatError::VarintOverflow.to_string(), "variable-length integer out of range");
    assert_eq!(FormatError::UnknownType(14).to_string(), "unknown type 14");
    assert_eq!(FormatError::NestingTooDeep.to_string(), "values nested too deep");
}
