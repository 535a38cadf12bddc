//! The record parser on its own: the value grammar, fragment splitting,
//! and the separator rules.

use chunkscan::error::ScanError;
use chunkscan::records::{parse_chunk, parse_record, parse_value};

fn value_of(text: &[u8]) -> Result<i64, ScanError> {
    let v = text.to_vec();
    let n = v.len();
    parse_value(&v, 0, n)
}

#[test]
fn plain_integers_scale_to_tenths() {
    assert_eq!(value_of(b"7"), Ok(70));
    assert_eq!(value_of(b"0"), Ok(0));
    assert_eq!(value_of(b"123"), Ok(1230));
    assert_eq!(value_of(b"-4"), Ok(-40));
}

#[test]
fn one_fractional_digit() {
    assert_eq!(value_of(b"3.0"), Ok(30));
    assert_eq!(value_of(b"-2.5"), Ok(-25));
    assert_eq!(value_of(b"0.1"), Ok(1));
    assert_eq!(value_of(b"-0.1"), Ok(-1));
    assert_eq!(value_of(b"99.9"), Ok(999));
}

#[test]
fn malformed_values_are_refused() {
    assert_eq!(value_of(b""), Err(ScanError::BadValue));
    assert_eq!(value_of(b"-"), Err(ScanError::BadValue));
    assert_eq!(value_of(b"."), Err(ScanError::BadValue));
    assert_eq!(value_of(b".5"), Err(ScanError::BadValue));
    assert_eq!(value_of(b"3."), Err(ScanError::BadValue));
    assert_eq!(value_of(b"3.00"), Err(ScanError::BadValue));
    assert_eq!(value_of(b"1.2.3"), Err(ScanError::BadValue));
    assert_eq!(value_of(b"abc"), Err(ScanError::BadValue));
    assert_eq!(value_of(b"12x.3"), Err(ScanError::BadValue));
    assert_eq!(value_of(b"1e5"), Err(ScanError::BadValue));
    assert_eq!(value_of(b" 1"), Err(ScanError::BadValue));
    assert_eq!(value_of(b"--1"), Err(ScanError::BadValue));
}

#[test]
fn range_edges_of_the_machine_word() {
    // i64::MIN == -9223372036854775808 tenths == -922337203685477580.8
    assert_eq!(value_of(b"-922337203685477580.8"), Ok(i64::MIN));
    assert_eq!(value_of(b"922337203685477580.7"), Ok(i64::MAX));
    assert_eq!(
        value_of(b"922337203685477580.8"),
        Err(ScanError::ValueOutOfRange)
    );
    assert_eq!(
        value_of(b"-922337203685477580.9"),
        Err(ScanError::ValueOutOfRange)
    );
    assert_eq!(
        value_of(b"99999999999999999999"),
        Err(ScanError::ValueOutOfRange)
    );
}

#[test]
fn record_splits_at_first_separator() {
    let v = b"city name;12.5".to_vec();
    let n = v.len();
    let rec = parse_record(&v, 0, n).unwrap();
    assert_eq!(rec.key, b"city name".to_vec());
    assert_eq!(rec.value, 125);

    // An empty key before the separator is a key like any other.
    let v = b";1.0".to_vec();
    let n = v.len();
    let rec = parse_record(&v, 0, n).unwrap();
    assert_eq!(rec.key, b"".to_vec());
    assert_eq!(rec.value, 10);

    let v = b"no separator here".to_vec();
    let n = v.len();
    assert_eq!(
        parse_record(&v, 0, n).unwrap_err(),
        ScanError::MissingSeparator
    );
}

#[test]
fn chunk_splits_on_terminators_and_drops_empty_fragments() {
    let v = b"\n\nAA;1.0\n\nBB;2.0\n".to_vec();
    let n = v.len();
    let recs = parse_chunk(&v, 0, n).unwrap();
    assert_eq!(recs.len(), 2);
    assert_eq!(recs[0].key, b"AA".to_vec());
    assert_eq!(recs[0].value, 10);
    assert_eq!(recs[1].key, b"BB".to_vec());
    assert_eq!(recs[1].value, 20);
}

#[test]
fn chunk_parses_final_unterminated_fragment() {
    // The parser itself takes a trailing fragment; the aligner is what
    // keeps unterminated bytes out of a chunk.
    let v = b"AA;1.0\nBB;2.0".to_vec();
    let n = v.len();
    let recs = parse_chunk(&v, 0, n).unwrap();
    assert_eq!(recs.len(), 2);
    assert_eq!(recs[1].key, b"BB".to_vec());
}

#[test]
fn empty_chunk_has_no_records() {
    let v = Vec::new();
    let recs = parse_chunk(&v, 0, 0).unwrap();
    assert_eq!(recs.len(), 0);
}

#[test]
fn first_bad_fragment_decides_the_error() {
    let v = b"AA;1.0\nbad\nCC;zz\n".to_vec();
    let n = v.len();
    assert_eq!(
        parse_chunk(&v, 0, n).unwrap_err(),
        ScanError::MissingSeparator
    );
}
