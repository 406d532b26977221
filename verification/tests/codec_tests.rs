use mst_cluster::Error;
use mst_cluster::codec::number_to_str;
use mst_cluster::codec::parse_records;
use mst_cluster::codec::str_to_number;

#[test]
fn parses_plain_digits() {
    assert_eq!(str_to_number("00").unwrap(), vec![0u8, 0]);
    assert_eq!(str_to_number("0123456789").unwrap(), vec![0u8, 1, 2, 3, 4, 5, 6, 7, 8, 9]);
}

#[test]
fn parses_hex_letters_both_cases() {
    assert_eq!(str_to_number("ff").unwrap(), vec![15u8, 15]);
    assert_eq!(str_to_number("aF").unwrap(), vec![10u8, 15]);
    assert_eq!(str_to_number("AbCdEf").unwrap(), vec![10u8, 11, 12, 13, 14, 15]);
}

#[test]
fn parses_empty_line_to_empty_record() {
    assert_eq!(str_to_number("").unwrap(), Vec::<u8>::new());
}

#[test]
fn rejects_non_hex_character() {
    match str_to_number("0g") {
        Err(Error::ParseError { line }) => assert_eq!(line, "0g"),
        other => panic!("expected a parse error, got {:?}", other),
    }
}

#[test]
fn renders_decimal_numerals() {
    assert_eq!(number_to_str(&vec![0u8, 0]), "00");
    assert_eq!(number_to_str(&vec![1u8, 0]), "10");
    assert_eq!(number_to_str(&vec![15u8, 14]), "1514");
    assert_eq!(number_to_str(&Vec::<u8>::new()), "");
}

#[test]
fn round_trips_records_with_small_digits() {
    let r = vec![1u8, 2, 3, 9, 0];
    assert_eq!(str_to_number(&number_to_str(&r)).unwrap(), r);
}

#[test]
fn round_trip_fails_above_nine() {
    // A digit of ten renders as two numerals and re-parses as two digits.
    let r = vec![10u8];
    assert_eq!(number_to_str(&r), "10");
    assert_eq!(str_to_number(&number_to_str(&r)).unwrap(), vec![1u8, 0]);
}

#[test]
fn parse_records_accepts_uniform_lines() {
    let lines = vec!["00".to_string(), "ff".to_string(), "a1".to_string()];
    let rs = parse_records(&lines).unwrap();
    assert_eq!(rs, vec![vec![0u8, 0], vec![15u8, 15], vec![10u8, 1]]);
}

#[test]
fn parse_records_rejects_length_mismatch() {
    let lines = vec!["00".to_string(), "fff".to_string()];
    match parse_records(&lines) {
        Err(Error::ParseError { line }) => assert_eq!(line, "fff"),
        other => panic!("expected a parse error, got {:?}", other),
    }
}

#[test]
fn parse_records_rejects_bad_digit() {
    let lines = vec!["00".to_string(), "0z".to_string()];
    match parse_records(&lines) {
        Err(Error::ParseError { line }) => assert_eq!(line, "0z"),
        other => panic!("expected a parse error, got {:?}", other),
    }
}

#[test]
fn parse_records_accepts_empty_input() {
    let rs = parse_records(&Vec::new()).unwrap();
    assert!(rs.is_empty());
}
