use keyed_stats::scan::find_byte;
use keyed_stats::{parse_line, Record};

#[test]
fn a_line_is_key_delimiter_measurement() {
    assert_eq!(parse_line(b"Paris;10.0"), Some(Record { key: b"Paris".to_vec(), value: 100 }));
    assert_eq!(parse_line(b"Lyon;-5.3"), Some(Record { key: b"Lyon".to_vec(), value: -53 }));
    assert_eq!(parse_line(b"St. John's;15"), Some(Record { key: b"St. John's".to_vec(), value: 150 }));
}

#[test]
fn the_key_is_taken_as_it_stands() {
    assert_eq!(parse_line(b" a b ;1.0"), Some(Record { key: b" a b ".to_vec(), value: 10 }));
    assert_eq!(parse_line(b";1.0"), Some(Record { key: Vec::new(), value: 10 }));
    let key = "Zürich".as_bytes().to_vec();
    assert_eq!(parse_line("Zürich;1.0".as_bytes()), Some(Record { key, value: 10 }));
}

#[test]
fn a_line_without_delimiter_holds_nothing() {
    assert_eq!(parse_line(b""), None);
    assert_eq!(parse_line(b"Paris"), None);
    assert_eq!(parse_line(b"Paris 10.0"), None);
}

#[test]
fn a_key_that_is_not_text_holds_nothing() {
    assert_eq!(parse_line(b"\xff;1.0"), None);
    assert_eq!(parse_line(b"ab\xc3;1.0"), None);
    assert_eq!(parse_line(b"\xed\xa0\x80;1.0"), None);
    assert_eq!(parse_line(b"\xc0\x80;1.0"), None);
}

#[test]
fn a_measurement_that_is_no_decimal_holds_nothing() {
    assert_eq!(parse_line(b"Paris;"), None);
    assert_eq!(parse_line(b"Paris;ten"), None);
    assert_eq!(parse_line(b"Paris;10.0;20.0"), None);
    assert_eq!(parse_line(b"Paris;10.0\r"), None);
    assert_eq!(parse_line(b"Paris; 10.0"), None);
    assert_eq!(parse_line(b"Paris;inf"), None);
    assert_eq!(parse_line(b"Paris;100000000000000000.0"), None);
}

#[test]
fn find_byte_gives_the_first_position_from_the_start() {
    assert_eq!(find_byte(b"a;b;c", 0, b';'), 1);
    assert_eq!(find_byte(b"a;b;c", 1, b';'), 1);
    assert_eq!(find_byte(b"a;b;c", 2, b';'), 3);
    assert_eq!(find_byte(b"a;b;c", 4, b';'), 5);
    assert_eq!(find_byte(b"a;b;c", 5, b';'), 5);
    assert_eq!(find_byte(b"", 0, b';'), 0);
}
