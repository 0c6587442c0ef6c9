use keyed_stats::{partition, Partition};

fn rebuilt(buffer: &[u8], parts: &[Partition]) -> Vec<u8> {
    let mut out: Vec<u8> = Vec::new();
    for p in parts {
        out.extend_from_slice(&buffer[p.start..p.end]);
    }
    out
}

fn check_cover(buffer: &[u8], count: usize) -> Vec<Partition> {
    let parts = partition(buffer, count);
    assert_eq!(rebuilt(buffer, &parts), buffer.to_vec());
    let mut offset = 0usize;
    for p in &parts {
        assert_eq!(p.start, offset);
        assert!(p.start < p.end);
        assert!(p.end <= buffer.len());
        if p.end < buffer.len() {
            assert_eq!(buffer[p.end - 1], b'\n');
        }
        offset = p.end;
    }
    assert_eq!(offset, buffer.len());
    if count >= 1 {
        assert!(parts.len() <= count);
    }
    parts
}

#[test]
fn empty_buffer_has_no_partition() {
    assert_eq!(partition(b"", 0), vec![]);
    assert_eq!(partition(b"", 1), vec![]);
    assert_eq!(partition(b"", 8), vec![]);
}

#[test]
fn one_partition_is_the_whole_buffer() {
    let buffer = b"a;1\nb;2\nc;3\n";
    assert_eq!(partition(buffer, 1), vec![Partition { start: 0, end: 12 }]);
}

#[test]
fn no_partition_asked_for_is_one_partition() {
    let buffer = b"a;1\nb;2\nc;3\n";
    assert_eq!(partition(buffer, 0), vec![Partition { start: 0, end: 12 }]);
}

#[test]
fn boundaries_follow_the_terminator_after_the_stride() {
    // Lines end after bytes 3, 7 and 11; the stride is 6.
    let buffer = b"a;1\nb;2\nc;3\n";
    assert_eq!(
        partition(buffer, 2),
        vec![Partition { start: 0, end: 8 }, Partition { start: 8, end: 12 }]
    );
    // The stride is 4: the byte at 4 starts the second line, whose end is 8.
    assert_eq!(
        partition(buffer, 3),
        vec![Partition { start: 0, end: 8 }, Partition { start: 8, end: 12 }]
    );
    // The stride is 3: the byte at 3 is a terminator, so the boundary is 4.
    assert_eq!(
        partition(buffer, 4),
        vec![
            Partition { start: 0, end: 4 },
            Partition { start: 4, end: 8 },
            Partition { start: 8, end: 12 }
        ]
    );
}

#[test]
fn a_buffer_without_terminator_is_one_partition() {
    let buffer = b"no terminator in here at all";
    for count in 0..10usize {
        assert_eq!(partition(buffer, count), vec![Partition { start: 0, end: buffer.len() }]);
    }
}

#[test]
fn last_line_without_terminator_ends_the_last_partition() {
    let buffer = b"a;1\nb;2\nc;3";
    assert_eq!(
        partition(buffer, 4),
        vec![
            Partition { start: 0, end: 4 },
            Partition { start: 4, end: 8 },
            Partition { start: 8, end: 11 }
        ]
    );
}

#[test]
fn more_partitions_than_lines() {
    let buffer = b"a;1\nb;2\n";
    let parts = check_cover(buffer, 100);
    assert_eq!(parts, vec![Partition { start: 0, end: 4 }, Partition { start: 4, end: 8 }]);
}

#[test]
fn partitions_cover_the_buffer_for_every_count() {
    let mut buffer: Vec<u8> = Vec::new();
    for i in 0..200usize {
        for _ in 0..(i * 13 % 17) {
            buffer.push(b'x');
        }
        if i % 5 != 0 {
            buffer.push(b';');
            buffer.push(b'0' + (i % 10) as u8);
        }
        buffer.push(b'\n');
    }
    for count in 0..300usize {
        check_cover(&buffer, count);
    }
    buffer.extend_from_slice(b"tail without end");
    for count in 0..300usize {
        check_cover(&buffer, count);
    }
    check_cover(&buffer, usize::MAX);
}

#[test]
fn only_terminators() {
    let buffer = b"\n\n\n\n\n";
    for count in 0..8usize {
        check_cover(buffer, count);
    }
    assert_eq!(partition(buffer, 5).len(), 3);
}
