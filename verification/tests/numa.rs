use ematix_parquet_codec::CodecError;
use ematix_parquet_codec::parallel::numa::parse_cpulist;

#[test]
fn parse_cpulist_round_trip() {
    assert_eq!(parse_cpulist("0").unwrap(), vec![0]);
    assert_eq!(parse_cpulist("0-3").unwrap(), vec![0, 1, 2, 3]);
    assert_eq!(parse_cpulist("0,2,4").unwrap(), vec![0, 2, 4]);
    assert_eq!(
        parse_cpulist("0-3,8,12-13").unwrap(),
        vec![0, 1, 2, 3, 8, 12, 13]
    );
    assert!(parse_cpulist("").unwrap().is_empty());
}

#[test]
fn parse_cpulist_rejects_garbage() {
    assert!(parse_cpulist("notanumber").is_err());
    assert!(parse_cpulist("0-").is_err());
}

#[test]
fn cpulists_allow_white_space_and_sort() {
    assert_eq!(parse_cpulist("9, 1 - 3 ,+0").unwrap(), vec![0, 1, 2, 3, 9]);
    assert_eq!(parse_cpulist("3-1").unwrap(), Vec::<u32>::new());
    assert_eq!(parse_cpulist("2,2").unwrap(), vec![2, 2]);
    match parse_cpulist("1,x") {
        Err(CodecError::InvalidInput(m)) => assert_eq!(m, "bad cpulist entry: x"),
        other => panic!("expected InvalidInput, got {other:?}"),
    }
    match parse_cpulist("1-y") {
        Err(CodecError::InvalidInput(m)) => assert_eq!(m, "bad cpulist range: 1-y"),
        other => panic!("expected InvalidInput, got {other:?}"),
    }
    assert!(parse_cpulist("4294967296").is_err());
    assert!(parse_cpulist(",").is_err());
}
