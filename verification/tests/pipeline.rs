use keyed_stats::{aggregate, report, summarize, summarize_with};

#[test]
fn empty_buffer_gives_empty_braces() {
    assert_eq!(summarize(b""), "{}");
    assert_eq!(summarize_with(b"", 0), "{}");
    assert_eq!(summarize_with(b"", 7), "{}");
}

#[test]
fn end_to_end_example() {
    let input = b"Paris;10.0\nParis;20.0\nLyon;5.0\n";
    assert_eq!(summarize(input), "{Lyon=5.0/5.0/5.0, Paris=10.0/15.0/20.0}");
}

#[test]
fn end_to_end_without_final_terminator() {
    let input = b"Paris;10.0\nParis;20.0\nLyon;5.0";
    assert_eq!(summarize_with(input, 2), "{Lyon=5.0/5.0/5.0, Paris=10.0/15.0/20.0}");
}

#[test]
fn keys_come_out_in_byte_order() {
    let input = b"Zurich;1.0\nAmsterdam;1.0\nBerlin;1.0\n";
    assert_eq!(
        summarize(input),
        "{Amsterdam=1.0/1.0/1.0, Berlin=1.0/1.0/1.0, Zurich=1.0/1.0/1.0}"
    );
}

#[test]
fn prefix_key_comes_first_and_upper_case_before_lower_case() {
    let input = b"ab;1\na;2\nB;3\nabc;4\n";
    assert_eq!(
        summarize_with(input, 3),
        "{B=3.0/3.0/3.0, a=2.0/2.0/2.0, ab=1.0/1.0/1.0, abc=4.0/4.0/4.0}"
    );
}

#[test]
fn keys_beyond_ascii_are_ordered_by_their_bytes() {
    let input = "Zürich;1.5\nZurich;2.5\nÅre;-3.0\n".as_bytes();
    assert_eq!(
        summarize_with(input, 2),
        "{Zurich=2.5/2.5/2.5, Zürich=1.5/1.5/1.5, Åre=-3.0/-3.0/-3.0}"
    );
}

#[test]
fn report_does_not_depend_on_the_number_of_partitions() {
    let mut input: Vec<u8> = Vec::new();
    let keys = ["Oslo", "Lima", "Cairo", "Pune", "Quito"];
    for i in 0..500usize {
        let key = keys[(i * 7) % keys.len()];
        let tenths = ((i * 37) % 1999) as i64 - 999;
        let sign = if tenths < 0 { "-" } else { "" };
        let line = format!("{};{}{}.{}\n", key, sign, tenths.abs() / 10, tenths.abs() % 10);
        input.extend_from_slice(line.as_bytes());
    }
    let one = summarize_with(&input, 1);
    for workers in 0..40usize {
        assert_eq!(summarize_with(&input, workers), one);
    }
    assert_eq!(summarize_with(&input, input.len() + 5), one);
    assert_eq!(summarize(&input), one);
}

#[test]
fn a_key_seen_once_has_equal_min_mean_and_max() {
    let input = b"Oslo;-7.3\nLima;18.2\nLima;19.0\n";
    let table = aggregate(input, 4);
    let oslo = table.get(b"Oslo").unwrap();
    assert_eq!(oslo.min, -73);
    assert_eq!(oslo.max, -73);
    assert_eq!(oslo.sum, -73);
    assert_eq!(oslo.count, 1);
    assert_eq!(oslo.mean(), -73);
    assert_eq!(report(table), "{Lima=18.2/18.6/19.0, Oslo=-7.3/-7.3/-7.3}");
}

#[test]
fn a_malformed_line_changes_nothing() {
    let clean = b"K;1.0\nK;2.0\nK;4.5\n";
    let expected = summarize_with(clean, 1);
    assert_eq!(expected, "{K=1.0/2.5/4.5}");
    let dirty: [&[u8]; 7] = [
        b"K;1.0\nno delimiter here\nK;2.0\nK;4.5\n",
        b"K;1.0\nK;abc\nK;2.0\nK;4.5\n",
        b"K;1.0\nK;2.0\n\nK;4.5\n",
        b"K;1.0\nK;2.0\nK;4.5\nK;\n",
        b"K;9;9\nK;1.0\nK;2.0\nK;4.5\n",
        b"K;1.0\n\xff\xfe;3.0\nK;2.0\nK;4.5\n",
        b"K;1.0\nK;2.0\nK;4.5\nK;1e3",
    ];
    for input in dirty {
        for workers in 1..5usize {
            assert_eq!(summarize_with(input, workers), expected);
        }
    }
}

#[test]
fn only_malformed_lines_give_empty_braces() {
    assert_eq!(summarize_with(b"\n\n\n", 2), "{}");
    assert_eq!(summarize_with(b"nothing\nat all;\n;\n", 2), "{}");
}

#[test]
fn empty_key_is_a_key() {
    assert_eq!(summarize_with(b";5\n;7\n", 2), "{=5.0/6.0/7.0}");
}

#[test]
fn key_is_not_trimmed() {
    assert_eq!(summarize_with(b" a;1\na;2\na ;3\n", 1), "{ a=1.0/1.0/1.0, a=2.0/2.0/2.0, a =3.0/3.0/3.0}");
}

#[test]
fn mean_is_rounded_half_away_from_zero() {
    assert_eq!(summarize_with(b"a;0.1\na;0.2\n", 1), "{a=0.1/0.2/0.2}");
    assert_eq!(summarize_with(b"a;-0.1\na;-0.2\n", 1), "{a=-0.2/-0.2/-0.1}");
    assert_eq!(summarize_with(b"a;0.1\na;0.1\na;0.2\n", 1), "{a=0.1/0.1/0.2}");
    assert_eq!(summarize_with(b"a;0.1\na;0.2\na;0.2\n", 1), "{a=0.1/0.2/0.2}");
    assert_eq!(summarize_with(b"a;-0.4\na;0.3\n", 1), "{a=-0.4/-0.1/0.3}");
    assert_eq!(summarize_with(b"a;-0.4\na;0.4\n", 1), "{a=-0.4/0.0/0.4}");
}
