//! The table from key to running statistics, kept in a hash map.

use vstd::prelude::*;
use vstd::slice::slice_subrange;
use vstd::utf8::valid_utf8;
use ahash::AHashMap;
use ahash::RandomState;
use crate::partition::{piece, Partition};
use crate::record::{
    ends_lines, lemma_readings_concat, lemma_readings_len, lemma_readings_of_line,
    lemma_readings_of_terminated_line, line_readings, parse_line, readings, Reading, Record,
};
use crate::scan::{find_byte, lemma_index_of_first, NEWLINE};
use crate::stats::{KeyAggregate, VALUE_LIMIT};
use crate::summary::{
    aggregate_spec, lemma_tabulate_empty, lemma_tabulate_push, lemma_values_for_len, merge_spec,
    observe_spec, summary_well_formed, tabulate, Summary,
};

verus! {

/// `ahash::RandomState`, the hasher state of the hash map; nothing is known
/// of what it holds.
#[verifier::external_type_specification]
#[verifier::external_body]
pub struct ExRandomState(RandomState);

/// `ahash::AHashMap`, the hash map that holds the table; what it holds is
/// known only through `contents`.
#[verifier::external_type_specification]
#[verifier::external_body]
#[verifier::reject_recursive_types(K)]
#[verifier::reject_recursive_types(V)]
#[verifier::reject_recursive_types(S)]
pub struct ExAHashMap<K, V, S>(AHashMap<K, V, S>);

/// Keys, as bytes, with the aggregate stored for each.
pub type Contents = Map<Seq<u8>, KeyAggregate>;

/// A key paired with its aggregate.
pub type Entry = (Vec<u8>, KeyAggregate);

/// What a hash map holds: each key's bytes with the aggregate stored for it.
pub uninterp spec fn contents(map: AHashMap<Vec<u8>, KeyAggregate, RandomState>) -> Contents;

/// `AHashMap::new`: a map that holds nothing.
#[verifier::external_body]
fn map_new() -> (map: AHashMap<Vec<u8>, KeyAggregate, RandomState>)
    ensures
        contents(map) == Contents::empty(),
{
    AHashMap::new()
}

/// `AHashMap::get`: the aggregate stored for `key`, if the map holds the key.
#[verifier::external_body]
fn map_get(map: &AHashMap<Vec<u8>, KeyAggregate, RandomState>, key: &[u8]) -> (found: Option<
    KeyAggregate,
>)
    ensures
        found == (if contents(*map).contains_key(key@) {
            Some(contents(*map)[key@])
        } else {
            None
        }),
{
    map.get(key).copied()
}

/// `AHashMap::insert`: afterwards the map holds `value` for `key`, and for
/// every other key what it held before.
#[verifier::external_body]
fn map_insert(
    map: &mut AHashMap<Vec<u8>, KeyAggregate, RandomState>,
    key: Vec<u8>,
    value: KeyAggregate,
)
    ensures
        contents(*final(map)) == contents(*old(map)).insert(key@, value),
{
    map.insert(key, value);
}

/// `AHashMap::into_iter`: every pair that the map holds, each key once, in
/// no particular order.
#[verifier::external_body]
fn map_into_entries(map: AHashMap<Vec<u8>, KeyAggregate, RandomState>) -> (entries: Vec<Entry>)
    ensures
        forall|i: int|
            0 <= i < entries.len() ==> contents(map).contains_pair(
                (#[trigger] entries[i]).0@,
                entries[i].1,
            ),
        forall|k: Seq<u8>| #[trigger]
            contents(map).contains_key(k) ==> listed(entries@, 0, k),
        distinct_keys(entries@),
{
    map.into_iter().collect()
}

/// Whether no two entries have the same key.
pub open spec fn distinct_keys(entries: Seq<Entry>) -> bool {
    forall|i: int, j: int|
        0 <= i < j < entries.len() ==> (#[trigger] entries[i]).0@ != (#[trigger] entries[j]).0@
}

/// Whether `key` is the key of an entry at position `from` or later.
pub open spec fn listed(entries: Seq<Entry>, from: int, key: Seq<u8>) -> bool {
    exists|j: int| from <= j < entries.len() && (#[trigger] entries[j]).0@ == key
}

/// A table from key to running statistics.
pub struct AggregateTable {
    map: AHashMap<Vec<u8>, KeyAggregate, RandomState>,
}

impl View for AggregateTable {
    type V = Summary;

    closed spec fn view(&self) -> Summary {
        Map::new(
            |k: Seq<u8>| contents(self.map).contains_key(k),
            |k: Seq<u8>| contents(self.map)[k]@,
        )
    }
}

/// Whether the counts of every key of both tables, added, fit the counter.
pub open spec fn counts_fit(a: Summary, b: Summary) -> bool {
    forall|k: Seq<u8>|
        a.contains_key(k) && #[trigger] b.contains_key(k) ==> a[k].count + b[k].count <= u64::MAX
}

/// Every key is text and every aggregate is well formed.
pub open spec fn contents_wf(held: Contents) -> bool {
    forall|k: Seq<u8>| #[trigger] held.contains_key(k) ==> valid_utf8(k) && held[k].wf()
}

impl AggregateTable {
    /// Every key is text and every aggregate is well formed.
    pub closed spec fn wf(&self) -> bool {
        contents_wf(contents(self.map))
    }

    /// A well-formed table has a well-formed view, and its counts fit the
    /// counter.
    pub proof fn lemma_wf(&self)
        requires
            self.wf(),
        ensures
            summary_well_formed(self@),
            forall|k: Seq<u8>| #[trigger] self@.contains_key(k) ==> self@[k].count <= u64::MAX,
    {
        assert forall|k: Seq<u8>| #[trigger] self@.contains_key(k) implies valid_utf8(k)
            && self@[k].well_formed() && -VALUE_LIMIT <= self@[k].min && self@[k].max
            <= VALUE_LIMIT && self@[k].count <= u64::MAX by {
            assert(contents(self.map).contains_key(k));
        }
    }

    /// The empty table.
    pub fn new() -> (table: AggregateTable)
        ensures
            table@ == Summary::empty(),
            table.wf(),
    {
        let table = AggregateTable { map: map_new() };
        proof {
            assert(table@ =~= Summary::empty());
        }
        table
    }

    /// The aggregate of `key`, if the table has the key.
    pub fn get(&self, key: &[u8]) -> (found: Option<KeyAggregate>)
        requires
            self.wf(),
        ensures
            match found {
                Some(a) => self@.contains_key(key@) && a@ == self@[key@] && a.wf(),
                None => !self@.contains_key(key@),
            },
    {
        map_get(&self.map, key)
    }

    /// Counts one reading: a new key starts with it, a known key has it
    /// combined into its aggregate.
    pub fn observe(&mut self, record: Record)
        requires
            old(self).wf(),
            record.wf(),
            old(self)@.contains_key(record.key@) ==> old(self)@[record.key@].count < u64::MAX,
        ensures
            final(self)@ == observe_spec(old(self)@, record@),
            final(self).wf(),
    {
        let Record { key, value } = record;
        let next = match map_get(&self.map, key.as_slice()) {
            Some(a) => a.observe(value),
            None => KeyAggregate::first(value),
        };
        map_insert(&mut self.map, key, next);
        proof {
            assert(self@ =~= observe_spec(old(self)@, record@));
        }
    }

    /// Takes the readings counted in `local` into this table: a key of both
    /// has its two aggregates combined, a key of `local` alone is taken over.
    pub fn merge(&mut self, local: AggregateTable)
        requires
            old(self).wf(),
            local.wf(),
            counts_fit(old(self)@, local@),
        ensures
            final(self)@ == merge_spec(old(self)@, local@),
            final(self).wf(),
    {
        let ghost start = contents(self.map);
        let ghost other = contents(local.map);
        let mut entries = map_into_entries(local.map);
        let ghost all = entries@;
        proof {
            assert forall|k: Seq<u8>|
                start.contains_key(k) && #[trigger] other.contains_key(k) implies start[k].count
                + other[k].count <= u64::MAX by {
                assert(old(self)@.contains_key(k) && local@.contains_key(k));
            }
            assert(all.take(all.len() as int) =~= all);
        }
        while entries.len() > 0
            invariant
                entries.len() <= all.len(),
                entries@ == all.take(entries.len() as int),
                contents_wf(start),
                contents_wf(other),
                forall|i: int|
                    0 <= i < all.len() ==> other.contains_pair((#[trigger] all[i]).0@, all[i].1),
                distinct_keys(all),
                forall|k: Seq<u8>|
                    start.contains_key(k) && #[trigger] other.contains_key(k) ==> start[k].count
                        + other[k].count <= u64::MAX,
                forall|k: Seq<u8>| #[trigger]
                    contents(self.map).contains_key(k) <==> start.contains_key(k) || listed(
                        all,
                        entries.len() as int,
                        k,
                    ),
                forall|k: Seq<u8>| #[trigger]
                    contents(self.map).contains_key(k) ==> valid_utf8(k) && contents(
                        self.map,
                    )[k].wf() && contents(self.map)[k]@ == (if listed(all, entries.len() as int, k) {
                        if start.contains_key(k) {
                            start[k]@.combine(other[k]@)
                        } else {
                            other[k]@
                        }
                    } else {
                        start[k]@
                    }),
            decreases entries.len(),
        {
            let ghost n = entries.len() as int;
            let ghost before = contents(self.map);
            let (key, theirs) = entries.pop().unwrap();
            proof {
                assert(all[n - 1] == (key, theirs));
                assert(other.contains_pair(all[n - 1].0@, all[n - 1].1));
                assert(other.contains_key(key@));
                assert(!listed(all, n, key@)) by {
                    if listed(all, n, key@) {
                        let j = choose|j: int| n <= j < all.len() && (#[trigger] all[j]).0@ == key@;
                        assert(all[n - 1].0@ != all[j].0@);
                    }
                }
                assert(before.contains_key(key@) <==> start.contains_key(key@));
            }
            let next = match map_get(&self.map, key.as_slice()) {
                Some(ours) => {
                    proof {
                        assert(before.contains_key(key@));
                        assert(ours@ == start[key@]@);
                    }
                    ours.combine(theirs)
                },
                None => theirs,
            };
            let ghost key_bytes = key@;
            map_insert(&mut self.map, key, next);
            proof {
                let after = contents(self.map);
                assert(entries@ =~= all.take(n - 1));
                assert(listed(all, n - 1, key_bytes)) by {
                    assert(all[n - 1].0@ == key_bytes);
                }
                assert forall|k: Seq<u8>| k != key_bytes implies (listed(all, n - 1, k) <==> listed(
                    all,
                    n,
                    k,
                )) by {
                    if listed(all, n - 1, k) {
                        let j = choose|j: int|
                            n - 1 <= j < all.len() && (#[trigger] all[j]).0@ == k;
                        assert(n <= j < all.len() && all[j].0@ == k);
                    }
                    if listed(all, n, k) {
                        let j = choose|j: int| n <= j < all.len() && (#[trigger] all[j]).0@ == k;
                        assert(n - 1 <= j < all.len() && all[j].0@ == k);
                    }
                }
                assert forall|k: Seq<u8>| #[trigger]
                    after.contains_key(k) <==> start.contains_key(k) || listed(all, n - 1, k) by {
                    if k != key_bytes {
                        assert(after.contains_key(k) == before.contains_key(k));
                    }
                }
                assert forall|k: Seq<u8>| #[trigger] after.contains_key(k) implies valid_utf8(k)
                    && after[k].wf() && after[k]@ == (if listed(all, n - 1, k) {
                    if start.contains_key(k) {
                        start[k]@.combine(other[k]@)
                    } else {
                        other[k]@
                    }
                } else {
                    start[k]@
                }) by {
                    if k != key_bytes {
                        assert(before.contains_key(k));
                        assert(after[k] == before[k]);
                    }
                }
            }
        }
        proof {
            let after = contents(self.map);
            assert forall|k: Seq<u8>| listed(all, 0, k) <==> #[trigger] other.contains_key(k) by {
                if listed(all, 0, k) {
                    let j = choose|j: int| 0 <= j < all.len() && (#[trigger] all[j]).0@ == k;
                    assert(other.contains_pair(all[j].0@, all[j].1));
                }
            }
            assert forall|k: Seq<u8>| #[trigger]
                self@.contains_key(k) == merge_spec(old(self)@, local@).contains_key(k) by {
                assert(after.contains_key(k) <==> start.contains_key(k) || listed(all, 0, k));
            }
            assert forall|k: Seq<u8>| #[trigger] self@.contains_key(k) implies self@[k]
                == merge_spec(old(self)@, local@)[k] by {
                assert(after.contains_key(k));
            }
            assert(self@ =~= merge_spec(old(self)@, local@));
        }
    }

    /// Hands out every key with its aggregate, each key once, in no
    /// particular order.
    pub fn into_entries(self) -> (entries: Vec<Entry>)
        requires
            self.wf(),
        ensures
            forall|i: int|
                0 <= i < entries.len() ==> {
                    &&& self@.contains_key((#[trigger] entries[i]).0@)
                    &&& self@[entries[i].0@] == entries[i].1@
                    &&& entries[i].1.wf()
                    &&& valid_utf8(entries[i].0@)
                },
            forall|k: Seq<u8>| #[trigger] self@.contains_key(k) ==> listed(entries@, 0, k),
            distinct_keys(entries@),
    {
        let entries = map_into_entries(self.map);
        proof {
            assert forall|i: int| 0 <= i < entries.len() implies {
                &&& self@.contains_key((#[trigger] entries[i]).0@)
                &&& self@[entries[i].0@] == entries[i].1@
                &&& entries[i].1.wf()
                &&& valid_utf8(entries[i].0@)
            } by {
                assert(contents(self.map).contains_pair(entries[i].0@, entries[i].1));
            }
            assert forall|k: Seq<u8>| #[trigger] self@.contains_key(k) implies listed(
                entries@,
                0,
                k,
            ) by {
                assert(contents(self.map).contains_key(k));
            }
        }
        entries
    }
}

/// Tabulates the readings of the lines of one partition of the buffer.
pub fn aggregate_partition(buffer: &[u8], part: &Partition) -> (table: AggregateTable)
    requires
        part.start <= part.end <= buffer.len(),
    ensures
        table@ == aggregate_spec(piece(buffer@, *part)),
        table.wf(),
{
    let bytes = slice_subrange(buffer, part.start, part.end);
    let n: usize = bytes.len();
    let mut table = AggregateTable::new();
    let mut pos: usize = 0;
    proof {
        lemma_tabulate_empty();
        assert(bytes@.take(0) =~= Seq::<u8>::empty());
        assert(readings(bytes@.take(0)) =~= Seq::empty());
    }
    while pos < n
        invariant
            n == bytes.len(),
            pos <= n,
            table.wf(),
            table@ == tabulate(readings(bytes@.take(pos as int))),
            pos < n ==> ends_lines(bytes@.take(pos as int)),
        decreases n - pos,
    {
        let at: usize = find_byte(bytes, pos, NEWLINE);
        let line = slice_subrange(bytes, pos, at);
        let next: usize = if at < n {
            at + 1
        } else {
            n
        };
        let ghost done = bytes@.take(pos as int);
        let ghost seen = readings(done);
        proof {
            lemma_index_of_first(bytes@.skip(pos as int), NEWLINE);
            assert forall|i: int| 0 <= i < line@.len() implies line@[i] != NEWLINE by {
                assert(line@[i] == bytes@.skip(pos as int)[i]);
            }
            if at < n {
                assert(bytes@.skip(pos as int)[at - pos] == bytes@[at as int]);
                assert(bytes@.take(next as int) =~= done + line@.push(NEWLINE));
                lemma_readings_concat(done, line@.push(NEWLINE));
                lemma_readings_of_terminated_line(line@);
                assert(bytes@.take(next as int).last() == NEWLINE);
            } else {
                assert(bytes@.take(next as int) =~= done + line@);
                lemma_readings_concat(done, line@);
                lemma_readings_of_line(line@);
            }
            assert(readings(bytes@.take(next as int)) == seen + line_readings(line@));
        }
        match parse_line(line) {
            Some(record) => {
                proof {
                    lemma_readings_len(done);
                    lemma_values_for_len(seen, record.key@);
                    lemma_tabulate_push(seen, record@);
                    assert(seen + seq![record@] =~= seen.push(record@));
                }
                table.observe(record);
            },
            None => {
                proof {
                    assert(seen + Seq::<Reading>::empty() =~= seen);
                }
            },
        }
        pos = next;
    }
    proof {
        assert(bytes@.take(n as int) =~= bytes@);
        assert(bytes@ =~= piece(buffer@, *part));
    }
    table
}

} // verus!
