use keyed_stats::{aggregate, aggregate_partition, AggregateTable, KeyAggregate, Partition, Record};

fn record(key: &str, value: i64) -> Record {
    Record { key: key.as_bytes().to_vec(), value }
}

fn sorted_entries(table: AggregateTable) -> Vec<(Vec<u8>, KeyAggregate)> {
    let mut entries = table.into_entries();
    entries.sort_by(|a, b| a.0.cmp(&b.0));
    entries
}

fn table_of(records: &[(&str, i64)]) -> AggregateTable {
    let mut table = AggregateTable::new();
    for (key, value) in records {
        table.observe(record(key, *value));
    }
    table
}

#[test]
fn new_table_is_empty() {
    let table = AggregateTable::new();
    assert_eq!(table.get(b"a"), None);
    assert_eq!(table.into_entries(), vec![]);
}

#[test]
fn first_reading_starts_a_key() {
    let mut table = AggregateTable::new();
    table.observe(record("a", 15));
    assert_eq!(table.get(b"a"), Some(KeyAggregate { min: 15, max: 15, sum: 15, count: 1 }));
    assert_eq!(table.get(b"b"), None);
    assert_eq!(table.get(b""), None);
}

#[test]
fn further_readings_are_combined() {
    let table = table_of(&[("a", 15), ("b", -4), ("a", -20), ("a", 40), ("b", -4)]);
    assert_eq!(table.get(b"a"), Some(KeyAggregate { min: -20, max: 40, sum: 35, count: 3 }));
    assert_eq!(table.get(b"b"), Some(KeyAggregate { min: -4, max: -4, sum: -8, count: 2 }));
}

#[test]
fn entries_list_every_key_once() {
    let table = table_of(&[("b", 1), ("a", 2), ("c", 3), ("a", 4)]);
    assert_eq!(
        sorted_entries(table),
        vec![
            (b"a".to_vec(), KeyAggregate { min: 2, max: 4, sum: 6, count: 2 }),
            (b"b".to_vec(), KeyAggregate { min: 1, max: 1, sum: 1, count: 1 }),
            (b"c".to_vec(), KeyAggregate { min: 3, max: 3, sum: 3, count: 1 }),
        ]
    );
}

#[test]
fn merge_combines_shared_keys_and_takes_over_the_others() {
    let mut global = table_of(&[("a", 10), ("a", 30), ("b", 5)]);
    let local = table_of(&[("a", -10), ("c", 7), ("c", 9)]);
    global.merge(local);
    assert_eq!(
        sorted_entries(global),
        vec![
            (b"a".to_vec(), KeyAggregate { min: -10, max: 30, sum: 30, count: 3 }),
            (b"b".to_vec(), KeyAggregate { min: 5, max: 5, sum: 5, count: 1 }),
            (b"c".to_vec(), KeyAggregate { min: 7, max: 9, sum: 16, count: 2 }),
        ]
    );
}

#[test]
fn merge_with_an_empty_table_changes_nothing() {
    let mut global = table_of(&[("a", 10), ("b", 5)]);
    global.merge(AggregateTable::new());
    let mut other = AggregateTable::new();
    other.merge(table_of(&[("a", 10), ("b", 5)]));
    assert_eq!(sorted_entries(global), sorted_entries(other));
}

#[test]
fn merge_order_does_not_matter() {
    let parts: [&[(&str, i64)]; 3] = [
        &[("a", 10), ("b", 5), ("a", 12)],
        &[("b", -3), ("c", 8)],
        &[("a", -100), ("c", 9), ("d", 0)],
    ];
    let orders: [[usize; 3]; 6] = [[0, 1, 2], [0, 2, 1], [1, 0, 2], [1, 2, 0], [2, 0, 1], [2, 1, 0]];
    let expected = vec![
        (b"a".to_vec(), KeyAggregate { min: -100, max: 12, sum: -78, count: 3 }),
        (b"b".to_vec(), KeyAggregate { min: -3, max: 5, sum: 2, count: 2 }),
        (b"c".to_vec(), KeyAggregate { min: 8, max: 9, sum: 17, count: 2 }),
        (b"d".to_vec(), KeyAggregate { min: 0, max: 0, sum: 0, count: 1 }),
    ];
    for order in orders {
        let mut global = AggregateTable::new();
        for i in order {
            global.merge(table_of(parts[i]));
        }
        assert_eq!(sorted_entries(global), expected);
    }
    // Grouped the other way round: the second and third first, then the first.
    let mut right = table_of(parts[1]);
    right.merge(table_of(parts[2]));
    let mut global = table_of(parts[0]);
    global.merge(right);
    assert_eq!(sorted_entries(global), expected);
}

#[test]
fn a_partition_is_tabulated_line_by_line() {
    let buffer = b"a;1.0\nb;2.0\na;3.0\nc;4.0\n";
    let first = aggregate_partition(buffer, &Partition { start: 0, end: 12 });
    assert_eq!(
        sorted_entries(first),
        vec![
            (b"a".to_vec(), KeyAggregate { min: 10, max: 10, sum: 10, count: 1 }),
            (b"b".to_vec(), KeyAggregate { min: 20, max: 20, sum: 20, count: 1 }),
        ]
    );
    let second = aggregate_partition(buffer, &Partition { start: 12, end: 24 });
    assert_eq!(
        sorted_entries(second),
        vec![
            (b"a".to_vec(), KeyAggregate { min: 30, max: 30, sum: 30, count: 1 }),
            (b"c".to_vec(), KeyAggregate { min: 40, max: 40, sum: 40, count: 1 }),
        ]
    );
    let none = aggregate_partition(buffer, &Partition { start: 6, end: 6 });
    assert_eq!(none.into_entries(), vec![]);
}

#[test]
fn one_partition_and_many_give_the_same_table() {
    let mut buffer: Vec<u8> = Vec::new();
    for i in 0..1000usize {
        let line = format!("key{};{}.{}\n", i % 23, (i * 31) % 90, i % 10);
        buffer.extend_from_slice(line.as_bytes());
        if i % 50 == 0 {
            buffer.extend_from_slice(b"broken line\n");
        }
    }
    let whole = Partition { start: 0, end: buffer.len() };
    let expected = sorted_entries(aggregate_partition(&buffer, &whole));
    assert_eq!(expected.len(), 23);
    for workers in [0usize, 1, 2, 3, 5, 8, 13, 64, 1000, 100000] {
        assert_eq!(sorted_entries(aggregate(&buffer, workers)), expected);
    }
}
