//! The whole pipeline, one stage after the other and none of them twice:
//! partition the buffer, tabulate the partitions in parallel, merge the
//! partial tables once all of them are there, finish the merged table, and
//! render the report. Nothing is shared between the workers but the buffer,
//! which none of them writes; the partial tables are merged by one thread, so
//! no lock is needed.

use vstd::prelude::*;
use vstd::utf8::encode_utf8;
use rayon::iter::IntoParallelRefIterator;
use rayon::iter::ParallelIterator;
use crate::partition::{is_cover, is_line_aligned, partition, piece, Partition};
use crate::record::{lemma_readings_concat, lemma_readings_len, readings};
use crate::render::{render, render_spec};
use crate::report::{finalize, is_listing, listing};
use crate::summary::{
    aggregate_spec, lemma_merge_commutes, lemma_tabulate_concat, lemma_tabulate_empty,
    lemma_values_for_len, merge_spec,
};
use crate::table::{aggregate_partition, counts_fit, AggregateTable};

verus! {

/// The report of a buffer: the rendered listing of the table of its
/// readings.
pub open spec fn report_spec(buffer: Seq<u8>) -> Seq<u8> {
    render_spec(listing(aggregate_spec(buffer)))
}

/// `num_cpus::get`: the number of logical processors, which depends on the
/// machine; nothing is claimed of it.
#[verifier::external_body]
fn processor_count() -> (count: usize) {
    num_cpus::get()
}

/// Whether every partition lies within a buffer of `len` bytes.
pub open spec fn all_within(parts: Seq<Partition>, len: int) -> bool {
    forall|i: int| 0 <= i < parts.len() ==> (#[trigger] parts[i]).start <= parts[i].end <= len
}

/// `rayon`'s `par_iter().map(..).collect()` into a `Vec`: the partitions are
/// handed to the worker pool, `aggregate_partition` runs once on each, and
/// the tables are collected in the order of the partitions.
#[verifier::external_body]
fn aggregate_each(buffer: &[u8], parts: &Vec<Partition>) -> (tables: Vec<AggregateTable>)
    requires
        all_within(parts@, buffer@.len() as int),
    ensures
        tables.len() == parts.len(),
        forall|i: int|
            0 <= i < tables.len() ==> (#[trigger] tables[i]).wf() && tables[i]@ == aggregate_spec(
                piece(buffer@, parts[i]),
            ),
{
    parts.par_iter().map(|part| aggregate_partition(buffer, part)).collect()
}

/// Where the partitions from position `k` on begin: the end of the buffer
/// for `k` past the last.
spec fn suffix_start(buf: Seq<u8>, parts: Seq<Partition>, k: int) -> int {
    if k < parts.len() {
        parts[k].start as int
    } else {
        buf.len() as int
    }
}

/// Merges the tables of the partitions of a buffer into the table of the
/// buffer.
fn merge_tables(
    tables: Vec<AggregateTable>,
    Ghost(buf): Ghost<Seq<u8>>,
    Ghost(parts): Ghost<Seq<Partition>>,
) -> (global: AggregateTable)
    requires
        buf.len() <= usize::MAX,
        is_cover(buf, parts),
        is_line_aligned(buf, parts),
        tables.len() == parts.len(),
        forall|i: int|
            0 <= i < tables.len() ==> (#[trigger] tables[i]).wf() && tables[i]@ == aggregate_spec(
                piece(buf, parts[i]),
            ),
    ensures
        global@ == aggregate_spec(buf),
        global.wf(),
{
    let mut tables = tables;
    let ghost all = tables@;
    let mut global = AggregateTable::new();
    proof {
        lemma_tabulate_empty();
        assert(buf.subrange(buf.len() as int, buf.len() as int) =~= Seq::<u8>::empty());
        assert(readings(Seq::<u8>::empty()) =~= Seq::empty());
        assert(all.take(all.len() as int) =~= all);
    }
    while tables.len() > 0
        invariant
            buf.len() <= usize::MAX,
            is_cover(buf, parts),
            is_line_aligned(buf, parts),
            all.len() == parts.len(),
            tables.len() <= all.len(),
            tables@ == all.take(tables.len() as int),
            forall|i: int|
                0 <= i < all.len() ==> (#[trigger] all[i]).wf() && all[i]@ == aggregate_spec(
                    piece(buf, parts[i]),
                ),
            global.wf(),
            0 <= suffix_start(buf, parts, tables.len() as int) <= buf.len(),
            global@ == aggregate_spec(
                buf.subrange(suffix_start(buf, parts, tables.len() as int), buf.len() as int),
            ),
        decreases tables.len(),
    {
        let ghost k = tables.len() as int;
        let local = tables.pop().unwrap();
        proof {
            assert(local == all[k - 1]);
            assert(tables@ =~= all.take(k - 1));
            let p = parts[k - 1];
            let from = suffix_start(buf, parts, k);
            assert(p.end == from) by {
                if k < parts.len() {
                    assert(parts[k - 1].end == parts[k - 1 + 1].start);
                }
            }
            let head = piece(buf, p);
            let tail = buf.subrange(from, buf.len() as int);
            let joined = buf.subrange(p.start as int, buf.len() as int);
            assert(joined =~= head + tail);
            if p.end < buf.len() {
                lemma_readings_concat(head, tail);
            } else {
                assert(tail =~= Seq::<u8>::empty());
                assert(head + tail =~= head);
                assert(readings(tail) =~= Seq::empty());
                assert(readings(head) + readings(tail) =~= readings(head));
            }
            lemma_tabulate_concat(readings(head), readings(tail));
            lemma_merge_commutes(local@, global@);
            assert(merge_spec(global@, local@) == aggregate_spec(joined));
            assert(counts_fit(global@, local@)) by {
                assert forall|key: Seq<u8>|
                    global@.contains_key(key) && #[trigger] local@.contains_key(key) implies global@[key].count
                    + local@[key].count <= u64::MAX by {
                    lemma_values_for_len(readings(joined), key);
                    lemma_readings_len(joined);
                    assert(aggregate_spec(joined)[key].count == global@[key].count
                        + local@[key].count);
                }
            }
        }
        global.merge(local);
    }
    proof {
        assert(buf.subrange(0, buf.len() as int) =~= buf);
    }
    global
}

/// Tabulates the readings of the buffer, the work divided among the worker
/// pool in about `workers` partitions. The table does not depend on
/// `workers`.
pub fn aggregate(buffer: &[u8], workers: usize) -> (table: AggregateTable)
    ensures
        table@ == aggregate_spec(buffer@),
        table.wf(),
{
    let parts = partition(buffer, workers);
    let tables = aggregate_each(buffer, &parts);
    merge_tables(tables, Ghost(buffer@), Ghost(parts@))
}

/// The report of a table: its keys in ascending order, each with minimum,
/// mean and maximum.
pub fn report(table: AggregateTable) -> (text: String)
    requires
        table.wf(),
    ensures
        encode_utf8(text@) == render_spec(listing(table@)),
        is_listing(listing(table@), table@),
{
    let entries = finalize(table);
    render(&entries)
}

/// The report of the buffer, the work divided among the worker pool in about
/// `workers` partitions. The report does not depend on `workers`.
pub fn summarize_with(buffer: &[u8], workers: usize) -> (text: String)
    ensures
        encode_utf8(text@) == report_spec(buffer@),
        is_listing(listing(aggregate_spec(buffer@)), aggregate_spec(buffer@)),
{
    report(aggregate(buffer, workers))
}

/// The report of the buffer, with one partition for each processor of the
/// machine.
pub fn summarize(buffer: &[u8]) -> (text: String)
    ensures
        encode_utf8(text@) == report_spec(buffer@),
        is_listing(listing(aggregate_spec(buffer@)), aggregate_spec(buffer@)),
{
    summarize_with(buffer, processor_count())
}

} // verus!
