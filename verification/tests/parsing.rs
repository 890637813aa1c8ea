use chunked_stats::decimal::push_tenths;
use chunked_stats::lines::find_line_end;
use chunked_stats::record::{find_last_separator, parse_record};
use chunked_stats::{fast_parse, RecordFault};

fn text_of(t: i64) -> Vec<u8> {
    let mut out = Vec::new();
    push_tenths(&mut out, t);
    out
}

#[test]
fn parses_negative_value() {
    assert_eq!(fast_parse(b"-3.2"), Ok(-32));
    assert_eq!(fast_parse(b"-3.2").unwrap() as f64 / 10.0, -3.2);
}

#[test]
fn parses_zero() {
    assert_eq!(fast_parse(b"0.0"), Ok(0));
    assert_eq!(fast_parse(b"0.0").unwrap() as f64 / 10.0, 0.0);
    assert_eq!(fast_parse(b"-0.0"), Ok(0));
}

#[test]
fn parses_two_digit_value() {
    assert_eq!(fast_parse(b"99.9"), Ok(999));
    assert_eq!(fast_parse(b"99.9").unwrap() as f64 / 10.0, 99.9);
}

#[test]
fn parses_leading_zeros_and_long_values() {
    assert_eq!(fast_parse(b"007.5"), Ok(75));
    assert_eq!(fast_parse(b"12345.6"), Ok(123456));
    assert_eq!(fast_parse(b"-12345.6"), Ok(-123456));
}

#[test]
fn agrees_with_general_parser_on_a_range() {
    let mut t: i64 = -9999;
    while t <= 9999 {
        let text = text_of(t);
        let as_str = String::from_utf8(text.clone()).unwrap();
        let general: f64 = as_str.parse().unwrap();
        let fast = fast_parse(&text).unwrap();
        assert_eq!(fast, t);
        assert_eq!(fast as f64 / 10.0, general);
        t += 1;
    }
}

#[test]
fn rejects_text_that_is_no_value() {
    assert_eq!(fast_parse(b""), Err(RecordFault::InvalidValue));
    assert_eq!(fast_parse(b"-"), Err(RecordFault::InvalidValue));
    assert_eq!(fast_parse(b"12"), Err(RecordFault::InvalidValue));
    assert_eq!(fast_parse(b".5"), Err(RecordFault::InvalidValue));
    assert_eq!(fast_parse(b"-.5"), Err(RecordFault::InvalidValue));
    assert_eq!(fast_parse(b"1."), Err(RecordFault::InvalidValue));
    assert_eq!(fast_parse(b"1.25"), Err(RecordFault::InvalidValue));
    assert_eq!(fast_parse(b"1x.2"), Err(RecordFault::InvalidValue));
    assert_eq!(fast_parse(b"1.x"), Err(RecordFault::InvalidValue));
    assert_eq!(fast_parse(b"+1.2"), Err(RecordFault::InvalidValue));
    assert_eq!(fast_parse(b"--1.2"), Err(RecordFault::InvalidValue));
    assert_eq!(fast_parse(b"1.2\n"), Err(RecordFault::InvalidValue));
    assert_eq!(fast_parse(b"1e3.0"), Err(RecordFault::InvalidValue));
}

#[test]
fn accepts_the_whole_range_of_tenths() {
    assert_eq!(fast_parse(b"922337203685477580.7"), Ok(i64::MAX));
    assert_eq!(fast_parse(b"-922337203685477580.8"), Ok(i64::MIN));
    assert_eq!(fast_parse(b"-922337203685477580.7"), Ok(-i64::MAX));
}

#[test]
fn rejects_values_out_of_range() {
    assert_eq!(fast_parse(b"922337203685477580.8"), Err(RecordFault::ValueOutOfRange));
    assert_eq!(fast_parse(b"-922337203685477580.9"), Err(RecordFault::ValueOutOfRange));
    assert_eq!(fast_parse(b"99999999999999999999999999.9"), Err(RecordFault::ValueOutOfRange));
    assert_eq!(fast_parse(b"1844674407370955161.6"), Err(RecordFault::ValueOutOfRange));
}

#[test]
fn malformed_wins_over_out_of_range() {
    assert_eq!(fast_parse(b"99999999999999999999999999x.9"), Err(RecordFault::InvalidValue));
}

#[test]
fn writes_tenths_with_one_decimal() {
    assert_eq!(text_of(0), b"0.0".to_vec());
    assert_eq!(text_of(5), b"0.5".to_vec());
    assert_eq!(text_of(-5), b"-0.5".to_vec());
    assert_eq!(text_of(-32), b"-3.2".to_vec());
    assert_eq!(text_of(999), b"99.9".to_vec());
    assert_eq!(text_of(1000), b"100.0".to_vec());
    assert_eq!(text_of(i64::MAX), b"922337203685477580.7".to_vec());
    assert_eq!(text_of(i64::MIN), b"-922337203685477580.8".to_vec());
}

#[test]
fn push_tenths_appends() {
    let mut out = b"x=".to_vec();
    push_tenths(&mut out, 123);
    push_tenths(&mut out, -7);
    assert_eq!(out, b"x=12.3-0.7".to_vec());
}

#[test]
fn text_round_trips() {
    for t in [0i64, 1, -1, 9, 10, -10, 99, 100, 12345, -98765, i64::MAX, i64::MIN] {
        assert_eq!(fast_parse(&text_of(t)), Ok(t));
    }
}

#[test]
fn finds_the_last_separator() {
    assert_eq!(find_last_separator(b"Paris;12.3"), Some(5));
    assert_eq!(find_last_separator(b"a;b;1.0"), Some(3));
    assert_eq!(find_last_separator(b";"), Some(0));
    assert_eq!(find_last_separator(b"Paris"), None);
    assert_eq!(find_last_separator(b""), None);
}

#[test]
fn splits_a_record() {
    assert_eq!(parse_record(b"Paris;12.3"), Ok((5, 123)));
    assert_eq!(parse_record(b"Oslo;-2.5"), Ok((4, -25)));
    assert_eq!(parse_record(b";1.0"), Ok((0, 10)));
}

#[test]
fn splits_at_the_rightmost_separator() {
    assert_eq!(parse_record(b"St;Denis;4.5"), Ok((8, 45)));
    assert_eq!(parse_record(b";;0.1"), Ok((1, 1)));
}

#[test]
fn record_without_separator() {
    assert_eq!(parse_record(b"Paris 12.3"), Err(RecordFault::MissingSeparator));
    assert_eq!(parse_record(b""), Err(RecordFault::MissingSeparator));
}

#[test]
fn record_with_key_that_is_no_text() {
    assert_eq!(parse_record(b"\xff\xfe;1.0"), Err(RecordFault::InvalidKey));
    assert_eq!(parse_record(b"\xc3;1.0"), Err(RecordFault::InvalidKey));
    assert_eq!(parse_record(b"\xed\xa0\x80;1.0"), Err(RecordFault::InvalidKey));
    assert_eq!(parse_record(b"\xc0\x80;1.0"), Err(RecordFault::InvalidKey));
}

#[test]
fn record_with_key_beyond_ascii() {
    let line = "Zürich;8.1".as_bytes();
    assert_eq!(parse_record(line), Ok((7, 81)));
    let line = "東京;21.4".as_bytes();
    assert_eq!(parse_record(line), Ok((6, 214)));
}

#[test]
fn record_with_bad_value() {
    assert_eq!(parse_record(b"Paris;"), Err(RecordFault::InvalidValue));
    assert_eq!(parse_record(b"Paris;abc"), Err(RecordFault::InvalidValue));
    assert_eq!(parse_record(b"Paris;12"), Err(RecordFault::InvalidValue));
    assert_eq!(
        parse_record(b"Paris;99999999999999999999.9"),
        Err(RecordFault::ValueOutOfRange)
    );
}

#[test]
fn key_fault_comes_before_value_fault() {
    assert_eq!(parse_record(b"\xff;abc"), Err(RecordFault::InvalidKey));
}

#[test]
fn finds_the_end_of_a_line() {
    let data = b"ab\ncd\n\nef";
    assert_eq!(find_line_end(data, 0), 2);
    assert_eq!(find_line_end(data, 2), 2);
    assert_eq!(find_line_end(data, 3), 5);
    assert_eq!(find_line_end(data, 6), 6);
    assert_eq!(find_line_end(data, 7), 9);
    assert_eq!(find_line_end(data, 9), 9);
    assert_eq!(find_line_end(data, 100), 9);
    assert_eq!(find_line_end(b"", 0), 0);
}
