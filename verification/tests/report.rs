use keyed_stats::order::key_less;
use keyed_stats::report::insert_sorted;
use keyed_stats::{finalize, render, render_bytes, report, AggregateTable, CityTemp, KeyAggregate, Record};

fn entry(city: &str, min: i64, mean: i64, max: i64) -> CityTemp {
    CityTemp {
        city: city.as_bytes().to_vec(),
        min_temp: min,
        max_temp: max,
        mean_temp: mean,
        total_temp: mean as i128,
        count: 1,
    }
}

fn table_of(records: &[(&str, i64)]) -> AggregateTable {
    let mut table = AggregateTable::new();
    for (key, value) in records {
        table.observe(Record { key: key.as_bytes().to_vec(), value: *value });
    }
    table
}

#[test]
fn mean_is_the_rounded_quotient() {
    let mean = |sum: i128, count: u64| KeyAggregate { min: -1000, max: 1000, sum, count }.mean();
    assert_eq!(mean(300, 2), 150);
    assert_eq!(mean(3, 2), 2);
    assert_eq!(mean(-3, 2), -2);
    assert_eq!(mean(1, 2), 1);
    assert_eq!(mean(-1, 2), -1);
    assert_eq!(mean(1, 3), 0);
    assert_eq!(mean(2, 3), 1);
    assert_eq!(mean(-2, 3), -1);
    assert_eq!(mean(-1, 3), 0);
    assert_eq!(mean(0, 5), 0);
    assert_eq!(mean(7, 1), 7);
    assert_eq!(mean(-7, 1), -7);
    assert_eq!(mean(449, 100), 4);
    assert_eq!(mean(450, 100), 5);
}

#[test]
fn mean_of_the_largest_aggregate() {
    let limit: i64 = 999_999_999_999_999_999;
    let full = KeyAggregate { min: limit, max: limit, sum: limit as i128 * u64::MAX as i128, count: u64::MAX };
    assert_eq!(full.mean(), limit);
    let low = KeyAggregate { min: -limit, max: -limit, sum: -(limit as i128) * u64::MAX as i128, count: u64::MAX };
    assert_eq!(low.mean(), -limit);
}

#[test]
fn aggregates_combine() {
    let a = KeyAggregate::first(12);
    assert_eq!(a, KeyAggregate { min: 12, max: 12, sum: 12, count: 1 });
    let b = a.observe(-5);
    assert_eq!(b, KeyAggregate { min: -5, max: 12, sum: 7, count: 2 });
    let c = b.combine(KeyAggregate { min: 0, max: 40, sum: 60, count: 3 });
    assert_eq!(c, KeyAggregate { min: -5, max: 40, sum: 67, count: 5 });
    assert_eq!(c.mean(), 13);
}

#[test]
fn finish_computes_the_mean() {
    let made = CityTemp::finish(b"Oslo".to_vec(), KeyAggregate { min: -20, max: 31, sum: 16, count: 3 });
    assert_eq!(
        made,
        CityTemp {
            city: b"Oslo".to_vec(),
            min_temp: -20,
            max_temp: 31,
            mean_temp: 5,
            total_temp: 16,
            count: 3
        }
    );
}

#[test]
fn keys_are_ordered_byte_by_byte() {
    assert!(key_less(b"a", b"b"));
    assert!(!key_less(b"b", b"a"));
    assert!(!key_less(b"a", b"a"));
    assert!(key_less(b"", b"a"));
    assert!(!key_less(b"", b""));
    assert!(!key_less(b"a", b""));
    assert!(key_less(b"ab", b"abc"));
    assert!(!key_less(b"abc", b"ab"));
    assert!(key_less(b"Z", b"a"));
    assert!(key_less(b"abc", b"abd"));
    assert!(key_less(b"a\x7f", b"a\x80"));
    assert!(key_less("z".as_bytes(), "é".as_bytes()));
}

#[test]
fn insert_sorted_keeps_the_order() {
    let mut entries: Vec<CityTemp> = Vec::new();
    assert_eq!(insert_sorted(&mut entries, entry("m", 1, 1, 1)), 0);
    assert_eq!(insert_sorted(&mut entries, entry("z", 2, 2, 2)), 1);
    assert_eq!(insert_sorted(&mut entries, entry("a", 3, 3, 3)), 0);
    assert_eq!(insert_sorted(&mut entries, entry("n", 4, 4, 4)), 2);
    assert_eq!(insert_sorted(&mut entries, entry("ma", 5, 5, 5)), 2);
    let keys: Vec<Vec<u8>> = entries.iter().map(|e| e.city.clone()).collect();
    assert_eq!(keys, vec![b"a".to_vec(), b"m".to_vec(), b"ma".to_vec(), b"n".to_vec(), b"z".to_vec()]);
    assert_eq!(entries[3], entry("n", 4, 4, 4));
}

#[test]
fn finalize_lists_the_table_in_key_order() {
    let table = table_of(&[("Zurich", 10), ("Amsterdam", 30), ("Berlin", -7), ("Amsterdam", 41)]);
    let entries = finalize(table);
    assert_eq!(
        entries,
        vec![
            CityTemp {
                city: b"Amsterdam".to_vec(),
                min_temp: 30,
                max_temp: 41,
                mean_temp: 36,
                total_temp: 71,
                count: 2
            },
            CityTemp {
                city: b"Berlin".to_vec(),
                min_temp: -7,
                max_temp: -7,
                mean_temp: -7,
                total_temp: -7,
                count: 1
            },
            CityTemp {
                city: b"Zurich".to_vec(),
                min_temp: 10,
                max_temp: 10,
                mean_temp: 10,
                total_temp: 10,
                count: 1
            },
        ]
    );
}

#[test]
fn finalize_of_the_empty_table_is_empty() {
    assert_eq!(finalize(AggregateTable::new()), vec![]);
}

#[test]
fn finished_mean_lies_between_min_and_max() {
    let mut table = AggregateTable::new();
    for i in 0..300i64 {
        let key = format!("k{}", i % 7);
        table.observe(Record { key: key.into_bytes(), value: (i * 37) % 211 - 100 });
    }
    let entries = finalize(table);
    assert_eq!(entries.len(), 7);
    for e in &entries {
        assert!(e.min_temp <= e.mean_temp && e.mean_temp <= e.max_temp);
    }
    for pair in entries.windows(2) {
        assert!(pair[0].city < pair[1].city);
    }
}

#[test]
fn entry_text_is_key_equals_min_mean_max() {
    assert_eq!(entry("Paris", 100, 150, 200).to_text(), "Paris=10.0/15.0/20.0");
    assert_eq!(entry("Vostok", -892, -551, -5).to_text(), "Vostok=-89.2/-55.1/-0.5");
    assert_eq!(entry("", 0, 0, 0).to_text(), "=0.0/0.0/0.0");
    assert_eq!(entry("Öl", 1, 2, 3).to_text(), "Öl=0.1/0.2/0.3");
}

#[test]
fn push_text_appends() {
    let mut out: Vec<u8> = b"{".to_vec();
    entry("a", 1, 2, 3).push_text(&mut out);
    assert_eq!(out, b"{a=0.1/0.2/0.3".to_vec());
}

#[test]
fn render_joins_with_comma_and_space() {
    assert_eq!(render(&vec![]), "{}");
    assert_eq!(render(&vec![entry("a", 1, 2, 3)]), "{a=0.1/0.2/0.3}");
    assert_eq!(
        render(&vec![entry("a", 1, 2, 3), entry("b", -10, 0, 10), entry("c", 5, 5, 5)]),
        "{a=0.1/0.2/0.3, b=-1.0/0.0/1.0, c=0.5/0.5/0.5}"
    );
}

#[test]
fn render_keeps_the_order_given() {
    assert_eq!(
        render(&vec![entry("b", 1, 1, 1), entry("a", 2, 2, 2)]),
        "{b=0.1/0.1/0.1, a=0.2/0.2/0.2}"
    );
}

#[test]
fn render_bytes_takes_any_key() {
    let odd = CityTemp {
        city: vec![0xff, 0x00],
        min_temp: 1,
        max_temp: 1,
        mean_temp: 1,
        total_temp: 1,
        count: 1,
    };
    assert_eq!(render_bytes(&vec![odd]), b"{\xff\x00=0.1/0.1/0.1}".to_vec());
}

#[test]
fn report_of_a_table() {
    assert_eq!(report(AggregateTable::new()), "{}");
    let table = table_of(&[("b", 25), ("a", -15), ("b", 30)]);
    assert_eq!(report(table), "{a=-1.5/-1.5/-1.5, b=2.5/2.8/3.0}");
}
