use rumd::range::{parse, unsatisfied_range, ByteRange, Range, RangeError};

#[test]
fn closed_range_within_the_file() {
    assert_eq!(parse("bytes=0-99", 1000), Ok(ByteRange { start: 0, end: 99, total: 1000 }));
    assert_eq!(parse("bytes=5-5", 10), Ok(ByteRange { start: 5, end: 5, total: 10 }));
    assert_eq!(parse("bytes=0-999", 1000), Ok(ByteRange { start: 0, end: 999, total: 1000 }));
}

#[test]
fn open_range_runs_to_the_last_byte() {
    assert_eq!(parse("bytes=100-", 1000), Ok(ByteRange { start: 100, end: 999, total: 1000 }));
    assert_eq!(parse("bytes=0-", 1), Ok(ByteRange { start: 0, end: 0, total: 1 }));
}

#[test]
fn suffix_range_counts_from_the_end() {
    assert_eq!(parse("bytes=-50", 1000), Ok(ByteRange { start: 950, end: 999, total: 1000 }));
    assert_eq!(parse("bytes=-1", 1000), Ok(ByteRange { start: 999, end: 999, total: 1000 }));
}

#[test]
fn suffix_longer_than_the_file_is_the_whole_file() {
    assert_eq!(parse("bytes=-1000", 1000), parse("bytes=0-999", 1000));
    assert_eq!(parse("bytes=-5000", 1000), Ok(ByteRange { start: 0, end: 999, total: 1000 }));
}

#[test]
fn end_beyond_the_file_is_cut_back() {
    assert_eq!(parse("bytes=10-3000", 1000), Ok(ByteRange { start: 10, end: 999, total: 1000 }));
    assert_eq!(parse("bytes=999-1000", 1000), Ok(ByteRange { start: 999, end: 999, total: 1000 }));
}

#[test]
fn start_beyond_the_file_is_unsatisfiable() {
    assert_eq!(parse("bytes=2000-3000", 1000), Err(RangeError::Unsatisfiable));
    assert_eq!(parse("bytes=1000-", 1000), Err(RangeError::Unsatisfiable));
    assert_eq!(parse("bytes=1000-1000", 1000), Err(RangeError::Unsatisfiable));
    assert_eq!(parse("bytes=0-0", 0), Err(RangeError::Unsatisfiable));
}

#[test]
fn empty_suffix_and_empty_file_are_unsatisfiable() {
    assert_eq!(parse("bytes=-0", 1000), Err(RangeError::Unsatisfiable));
    assert_eq!(parse("bytes=-5", 0), Err(RangeError::Unsatisfiable));
}

#[test]
fn malformed_values_are_refused() {
    for header in [
        "",
        "bytes",
        "bytes=",
        "bytes=-",
        "bytes=5",
        "bytes=a-b",
        "bytes=0-9,20-29",
        "bytes=9-0",
        "bytes=2000-1000",
        "bytes= 0-9",
        "bytes=0 -9",
        "bytes=0-9 ",
        "bytes=+1-9",
        "bytes=--5",
        "bytes=1-2-3",
        "items=0-9",
        "Bytes=0-9",
        "bytes=bytes=0-9",
        "0-9",
        "bytes=٣-٤",
        "bytes=0-é",
    ] {
        assert_eq!(parse(header, 1000), Err(RangeError::Malformed), "{:?}", header);
    }
}

#[test]
fn numbers_beyond_64_bits_are_malformed() {
    assert_eq!(
        Range::from_str("bytes=0-18446744073709551615"),
        Ok(Range { start: Some(0), end: Some(u64::MAX) })
    );
    assert_eq!(Range::from_str("bytes=0-18446744073709551616"), Err(RangeError::Malformed));
    assert_eq!(Range::from_str("bytes=99999999999999999999-"), Err(RangeError::Malformed));
}

#[test]
fn header_forms_are_told_apart() {
    assert_eq!(Range::from_str("bytes=1-2"), Ok(Range { start: Some(1), end: Some(2) }));
    assert_eq!(Range::from_str("bytes=7-"), Ok(Range { start: Some(7), end: None }));
    assert_eq!(Range::from_str("bytes=-7"), Ok(Range { start: None, end: Some(7) }));
    assert_eq!(Range::from_str("bytes=007-010"), Ok(Range { start: Some(7), end: Some(10) }));
    assert_eq!("bytes=1-2".parse::<Range>(), Ok(Range { start: Some(1), end: Some(2) }));
}

#[test]
fn resolve_refuses_a_range_without_sides() {
    assert_eq!(Range { start: None, end: None }.resolve(10), Err(RangeError::Malformed));
    assert_eq!(Range { start: Some(5), end: Some(4) }.resolve(10), Err(RangeError::Malformed));
}

#[test]
fn content_range_texts() {
    let range = ByteRange { start: 0, end: 99, total: 1000 };
    assert_eq!(range.content_range(), "bytes 0-99/1000");
    assert_eq!(range.len(), 100);
    let all = ByteRange { start: 0, end: u64::MAX - 1, total: u64::MAX };
    assert_eq!(all.content_range(), "bytes 0-18446744073709551614/18446744073709551615");
    assert_eq!(unsatisfied_range(1000), "bytes */1000");
    assert_eq!(unsatisfied_range(0), "bytes */0");
}
