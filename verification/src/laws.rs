//! What holds of the pipeline as a whole: cutting the buffer and merging the
//! partial tables, in whatever order, gives the table of the whole buffer.

use vstd::prelude::*;
use crate::partition::{is_cover, is_line_aligned, piece, Partition};
use crate::record::{
    ends_lines, lemma_readings_concat, lemma_readings_of_terminated_line,
    lemma_readings_well_formed, parse_line_spec, readings, Reading,
};
use crate::pipeline::report_spec;
use crate::render::{joined_rows, render_spec, CLOSE_BRACE, OPEN_BRACE};
use crate::report::{is_listing, lemma_listing_unique, listing, row_of, Row};
use crate::scan::NEWLINE;
use crate::stats::{lemma_mean_between, lemma_single_mean, sum_of, Stats};
use crate::summary::{
    aggregate_spec, lemma_merge_associates, lemma_merge_commutes, lemma_merge_empty,
    lemma_tabulate_concat, lemma_tabulate_empty, lemma_tabulate_well_formed, merge_spec,
    summary_well_formed, tabulate, values_for, Summary,
};

verus! {

/// The tables merged one after the other, starting from the empty table.
pub open spec fn merge_all(tables: Seq<Summary>) -> Summary
    decreases tables.len(),
{
    if tables.len() == 0 {
        Summary::empty()
    } else {
        merge_spec(merge_all(tables.drop_last()), tables.last())
    }
}

/// The tables of the partitions of a buffer, each tabulated on its own.
pub open spec fn piece_tables(buf: Seq<u8>, parts: Seq<Partition>) -> Seq<Summary> {
    parts.map_values(|p: Partition| aggregate_spec(piece(buf, p)))
}

/// Where the first `k` partitions end: zero for none.
spec fn prefix_end(parts: Seq<Partition>, k: int) -> int {
    if k == 0 {
        0
    } else {
        parts[k - 1].end as int
    }
}

/// The tables of the first `k` partitions, merged, are the table of the
/// buffer up to where they end, and that prefix ends its lines unless it is
/// the whole buffer.
proof fn lemma_merged_prefix(buf: Seq<u8>, parts: Seq<Partition>, k: int)
    requires
        is_cover(buf, parts),
        is_line_aligned(buf, parts),
        0 <= k <= parts.len(),
    ensures
        0 <= prefix_end(parts, k) <= buf.len(),
        merge_all(piece_tables(buf, parts).take(k)) == aggregate_spec(
            buf.subrange(0, prefix_end(parts, k)),
        ),
        prefix_end(parts, k) < buf.len() ==> ends_lines(buf.subrange(0, prefix_end(parts, k))),
    decreases k,
{
    let tables = piece_tables(buf, parts);
    if k == 0 {
        lemma_tabulate_empty();
        assert(buf.subrange(0, 0) =~= Seq::<u8>::empty());
        assert(readings(Seq::<u8>::empty()) =~= Seq::empty());
        assert(tables.take(0).len() == 0);
    } else {
        lemma_merged_prefix(buf, parts, k - 1);
        let p = parts[k - 1];
        let from = prefix_end(parts, k - 1);
        assert(p.start == from) by {
            if k - 1 > 0 {
                assert(parts[k - 2].end == parts[k - 2 + 1].start);
            }
        }
        let before = buf.subrange(0, from);
        let head = piece(buf, p);
        let after = buf.subrange(0, p.end as int);
        assert(after =~= before + head);
        assert(tables.take(k).drop_last() =~= tables.take(k - 1));
        assert(tables.take(k).last() == aggregate_spec(head));
        if from < buf.len() {
            lemma_readings_concat(before, head);
            lemma_tabulate_concat(readings(before), readings(head));
        } else {
            assert(head =~= Seq::<u8>::empty());
            assert(after =~= before);
            lemma_tabulate_empty();
            assert(readings(head) =~= Seq::empty());
            lemma_merge_empty(aggregate_spec(before));
        }
        if p.end < buf.len() {
            assert(ends_lines(head));
            if head.len() > 0 {
                assert(after.last() == head.last());
            } else {
                assert(after =~= before);
            }
        }
    }
}

/// However a buffer is cut into line-aligned partitions that cover it, the
/// tables of the partitions merged give the table of the whole buffer: every
/// key has the same minimum, maximum, sum, count and mean as when the buffer
/// is tabulated in one piece.
pub proof fn lemma_partitioned_aggregation(buf: Seq<u8>, parts: Seq<Partition>)
    requires
        is_cover(buf, parts),
        is_line_aligned(buf, parts),
    ensures
        merge_all(piece_tables(buf, parts)) == aggregate_spec(buf),
{
    let tables = piece_tables(buf, parts);
    lemma_merged_prefix(buf, parts, parts.len() as int);
    assert(tables.take(parts.len() as int) =~= tables);
    assert(buf.subrange(0, buf.len() as int) =~= buf);
    if parts.len() == 0 {
        assert(buf.subrange(0, 0) =~= buf);
    }
}

/// Any one of the tables may be merged last.
pub proof fn lemma_merge_all_remove(tables: Seq<Summary>, i: int)
    requires
        0 <= i < tables.len(),
    ensures
        merge_all(tables) == merge_spec(merge_all(tables.remove(i)), tables[i]),
    decreases tables.len(),
{
    let front = tables.drop_last();
    let last = tables.last();
    if i == tables.len() - 1 {
        assert(tables.remove(i) =~= front);
    } else {
        lemma_merge_all_remove(front, i);
        let rest = front.remove(i);
        assert(tables.remove(i) =~= rest.push(last));
        assert(rest.push(last).drop_last() =~= rest);
        assert(front[i] == tables[i]);
        lemma_merge_associates(merge_all(rest), tables[i], last);
        lemma_merge_commutes(tables[i], last);
        lemma_merge_associates(merge_all(rest), last, tables[i]);
    }
}

/// Merging the same tables in another order gives the same table.
pub proof fn lemma_merge_all_any_order(a: Seq<Summary>, b: Seq<Summary>)
    requires
        a.to_multiset() == b.to_multiset(),
    ensures
        merge_all(a) == merge_all(b),
    decreases b.len(),
{
    a.to_multiset_ensures();
    b.to_multiset_ensures();
    if b.len() != 0 {
        let last = b.last();
        assert(b.contains(last)) by {
            assert(b[b.len() - 1] == last);
        }
        assert(b.to_multiset().count(last) > 0);
        assert(a.to_multiset().count(last) > 0);
        assert(a.contains(last));
        let i = choose|i: int| 0 <= i < a.len() && a[i] == last;
        assert(b.remove(b.len() - 1) =~= b.drop_last());
        assert(a.remove(i).to_multiset() =~= b.drop_last().to_multiset());
        lemma_merge_all_any_order(a.remove(i), b.drop_last());
        lemma_merge_all_remove(a, i);
    }
}

/// The table of a buffer is well formed: every key is text and was counted
/// at least once, and its rounded mean lies between its minimum and its
/// maximum.
pub proof fn lemma_aggregate_well_formed(buf: Seq<u8>)
    ensures
        summary_well_formed(aggregate_spec(buf)),
        forall|k: Seq<u8>| #[trigger]
            aggregate_spec(buf).contains_key(k) ==> aggregate_spec(buf)[k].count >= 1
                && aggregate_spec(buf)[k].min <= aggregate_spec(buf)[k].mean() <= aggregate_spec(
                buf,
            )[k].max,
{
    lemma_readings_well_formed(buf);
    lemma_tabulate_well_formed(readings(buf));
    assert forall|k: Seq<u8>| #[trigger] aggregate_spec(buf).contains_key(k) implies aggregate_spec(
        buf,
    )[k].count >= 1 && aggregate_spec(buf)[k].min <= aggregate_spec(buf)[k].mean()
        <= aggregate_spec(buf)[k].max by {
        lemma_mean_between(aggregate_spec(buf)[k]);
    }
}

/// The report of the empty buffer is a pair of braces.
pub proof fn lemma_empty_report()
    ensures
        report_spec(Seq::empty()) == seq![OPEN_BRACE, CLOSE_BRACE],
{
    let table = aggregate_spec(Seq::empty());
    lemma_tabulate_empty();
    assert(readings(Seq::<u8>::empty()) =~= Seq::empty());
    assert(table == Summary::empty());
    let none = Seq::<Row>::empty();
    assert(is_listing(none, table));
    lemma_listing_unique(none, listing(table), table);
    assert(joined_rows(none) =~= Seq::<u8>::empty());
    assert(render_spec(none) =~= seq![OPEN_BRACE, CLOSE_BRACE]);
}

/// A key that no reading has has no measurement.
pub proof fn lemma_values_for_absent(rs: Seq<Reading>, key: Seq<u8>)
    requires
        forall|i: int| 0 <= i < rs.len() ==> (#[trigger] rs[i]).key != key,
    ensures
        values_for(rs, key) == Seq::<int>::empty(),
    decreases rs.len(),
{
    if rs.len() != 0 {
        let front = rs.drop_last();
        assert forall|i: int| 0 <= i < front.len() implies (#[trigger] front[i]).key != key by {
            assert(front[i] == rs[i]);
        }
        lemma_values_for_absent(front, key);
        assert(rs.last() == rs[rs.len() - 1]);
    }
}

/// A key that exactly one reading has, has that reading's measurement as its
/// only one.
proof fn lemma_values_for_once(rs: Seq<Reading>, j: int)
    requires
        0 <= j < rs.len(),
        forall|i: int| 0 <= i < rs.len() && i != j ==> (#[trigger] rs[i]).key != rs[j].key,
    ensures
        values_for(rs, rs[j].key) == seq![rs[j].value],
    decreases rs.len(),
{
    let key = rs[j].key;
    let front = rs.drop_last();
    if j == rs.len() - 1 {
        assert forall|i: int| 0 <= i < front.len() implies (#[trigger] front[i]).key != key by {
            assert(front[i] == rs[i]);
        }
        lemma_values_for_absent(front, key);
        assert(Seq::<int>::empty().push(rs[j].value) =~= seq![rs[j].value]);
    } else {
        assert(front[j] == rs[j]);
        assert forall|i: int| 0 <= i < front.len() && i != j implies (#[trigger] front[i]).key
            != front[j].key by {
            assert(front[i] == rs[i]);
        }
        lemma_values_for_once(front, j);
        assert(rs.last() == rs[rs.len() - 1]);
    }
}

/// A key that exactly one reading has is in the table with that reading's
/// measurement as its minimum, its maximum, its sum and its mean, and with a
/// count of one.
pub proof fn lemma_singleton_key(rs: Seq<Reading>, j: int)
    requires
        0 <= j < rs.len(),
        forall|i: int| 0 <= i < rs.len() && i != j ==> (#[trigger] rs[i]).key != rs[j].key,
    ensures
        tabulate(rs).contains_key(rs[j].key),
        tabulate(rs)[rs[j].key] == Stats::single(rs[j].value),
        tabulate(rs)[rs[j].key].mean() == rs[j].value,
        row_of(rs[j].key, tabulate(rs)[rs[j].key]).min == rs[j].value,
        row_of(rs[j].key, tabulate(rs)[rs[j].key]).mean == rs[j].value,
        row_of(rs[j].key, tabulate(rs)[rs[j].key]).max == rs[j].value,
{
    lemma_values_for_once(rs, j);
    lemma_single_mean(rs[j].value);
    let vs = seq![rs[j].value];
    assert(vs.len() == 1 && vs[0] == rs[j].value);
    assert(vs.drop_last().len() == 0);
    assert(sum_of(vs.drop_last()) == 0);
    assert(vs.last() == rs[j].value);
    assert(Stats::of(vs) == Stats::single(rs[j].value));
}

/// A line that holds no reading, put between two lines of a buffer, changes
/// neither the readings of the buffer nor its table.
pub proof fn lemma_malformed_line_ignored(before: Seq<u8>, line: Seq<u8>, after: Seq<u8>)
    requires
        ends_lines(before),
        forall|i: int| 0 <= i < line.len() ==> line[i] != NEWLINE,
        parse_line_spec(line) is None,
    ensures
        readings(before + line.push(NEWLINE) + after) == readings(before + after),
        aggregate_spec(before + line.push(NEWLINE) + after) == aggregate_spec(before + after),
{
    let inserted = line.push(NEWLINE);
    assert(before + inserted + after =~= before + (inserted + after));
    lemma_readings_concat(before, inserted + after);
    assert(ends_lines(inserted)) by {
        assert(inserted.last() == NEWLINE);
    }
    lemma_readings_concat(inserted, after);
    lemma_readings_of_terminated_line(line);
    assert(Seq::<Reading>::empty() + readings(after) =~= readings(after));
    lemma_readings_concat(before, after);
}

} // verus!
