use keyed_stats::number::{parse_decimal, push_decimal, WHOLE_CAP};
use keyed_stats::stats::VALUE_LIMIT;

fn text_of(v: i64) -> String {
    let mut out: Vec<u8> = Vec::new();
    push_decimal(&mut out, v);
    String::from_utf8(out).unwrap()
}

#[test]
fn plain_decimals_are_read_in_tenths() {
    assert_eq!(parse_decimal(b"10.0"), Some(100));
    assert_eq!(parse_decimal(b"22.1"), Some(221));
    assert_eq!(parse_decimal(b"-3.4"), Some(-34));
    assert_eq!(parse_decimal(b"+3.4"), Some(34));
    assert_eq!(parse_decimal(b"0"), Some(0));
    assert_eq!(parse_decimal(b"-0.0"), Some(0));
    assert_eq!(parse_decimal(b"5"), Some(50));
    assert_eq!(parse_decimal(b"007.5"), Some(75));
}

#[test]
fn point_may_lead_or_trail() {
    assert_eq!(parse_decimal(b"5."), Some(50));
    assert_eq!(parse_decimal(b".5"), Some(5));
    assert_eq!(parse_decimal(b"-.5"), Some(-5));
    assert_eq!(parse_decimal(b"."), None);
    assert_eq!(parse_decimal(b"-."), None);
}

#[test]
fn further_digits_round_to_the_nearest_tenth() {
    assert_eq!(parse_decimal(b"1.24"), Some(12));
    assert_eq!(parse_decimal(b"1.25"), Some(13));
    assert_eq!(parse_decimal(b"1.249999"), Some(12));
    assert_eq!(parse_decimal(b"-1.25"), Some(-13));
    assert_eq!(parse_decimal(b"-1.24"), Some(-12));
    assert_eq!(parse_decimal(b"0.95"), Some(10));
    assert_eq!(parse_decimal(b"0.04"), Some(0));
    assert_eq!(parse_decimal(b"-0.04"), Some(0));
    assert_eq!(parse_decimal(b"9.99"), Some(100));
}

#[test]
fn what_is_not_a_decimal_does_not_parse() {
    let bad: [&[u8]; 16] = [
        b"", b"+", b"-", b"abc", b"1e3", b"inf", b"NaN", b"1.2.3", b"1,5", b" 1.0", b"1.0 ",
        b"1.0\r", b"--1", b"+-1", b"1;2", b"0x10",
    ];
    for text in bad {
        assert_eq!(parse_decimal(text), None);
    }
}

#[test]
fn the_limit_is_the_largest_magnitude() {
    assert_eq!(VALUE_LIMIT, 999_999_999_999_999_999);
    assert_eq!(WHOLE_CAP, 100_000_000_000_000_000);
    assert_eq!(parse_decimal(b"99999999999999999.9"), Some(VALUE_LIMIT));
    assert_eq!(parse_decimal(b"-99999999999999999.9"), Some(-VALUE_LIMIT));
    assert_eq!(parse_decimal(b"99999999999999999.94"), Some(VALUE_LIMIT));
    assert_eq!(parse_decimal(b"99999999999999999.95"), None);
    assert_eq!(parse_decimal(b"100000000000000000"), None);
    assert_eq!(parse_decimal(b"-100000000000000000.0"), None);
    assert_eq!(parse_decimal(b"000000000000000000000000000001.5"), Some(15));
    assert_eq!(parse_decimal(b"123456789012345678901234567890123456789012345678901234567890"), None);
}

#[test]
fn measurements_are_written_with_one_fractional_digit() {
    assert_eq!(text_of(0), "0.0");
    assert_eq!(text_of(5), "0.5");
    assert_eq!(text_of(-5), "-0.5");
    assert_eq!(text_of(100), "10.0");
    assert_eq!(text_of(-34), "-3.4");
    assert_eq!(text_of(1234), "123.4");
    assert_eq!(text_of(VALUE_LIMIT), "99999999999999999.9");
    assert_eq!(text_of(i64::MAX), "922337203685477580.7");
    assert_eq!(text_of(i64::MIN), "-922337203685477580.8");
}

#[test]
fn writing_appends() {
    let mut out: Vec<u8> = b"x=".to_vec();
    push_decimal(&mut out, -12);
    push_decimal(&mut out, 7);
    assert_eq!(out, b"x=-1.20.7".to_vec());
}

#[test]
fn written_measurements_read_back() {
    let mut v: i64 = -2500;
    while v <= 2500 {
        assert_eq!(parse_decimal(text_of(v).as_bytes()), Some(v));
        v += 1;
    }
}
