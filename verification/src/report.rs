//! The finished table as a list of rows in key order.

use vstd::prelude::*;
use vstd::utf8::valid_utf8;
use crate::order::{
    bytes_lt, key_less, lemma_lt_asymmetric, lemma_lt_irreflexive, lemma_lt_total,
    lemma_lt_transitive,
};
use crate::stats::{KeyAggregate, Stats};
use crate::summary::Summary;
use crate::table::{distinct_keys, listed, AggregateTable, Entry};

verus! {

/// One key with its finished statistics, as mathematical values.
pub struct Row {
    pub key: Seq<u8>,
    pub min: int,
    pub mean: int,
    pub max: int,
    pub sum: int,
    pub count: nat,
}

/// The row of a key with the given statistics.
pub open spec fn row_of(key: Seq<u8>, s: Stats) -> Row {
    Row { key, min: s.min, mean: s.mean(), max: s.max, sum: s.sum, count: s.count }
}

/// One key with its finished statistics, counted in tenths.
#[derive(Clone, Debug, PartialEq, Eq)]
pub struct CityTemp {
    pub city: Vec<u8>,
    pub min_temp: i64,
    pub max_temp: i64,
    pub mean_temp: i64,
    pub total_temp: i128,
    pub count: u64,
}

impl View for CityTemp {
    type V = Row;

    open spec fn view(&self) -> Row {
        Row {
            key: self.city@,
            min: self.min_temp as int,
            mean: self.mean_temp as int,
            max: self.max_temp as int,
            sum: self.total_temp as int,
            count: self.count as nat,
        }
    }
}

/// The rows that a list of entries stands for.
pub open spec fn rows_of(entries: Seq<CityTemp>) -> Seq<Row> {
    entries.map_values(|e: CityTemp| e@)
}

/// Whether each row's key comes strictly before the keys of all later rows.
pub open spec fn ascending(rows: Seq<Row>) -> bool {
    forall|i: int, j: int|
        0 <= i < j < rows.len() ==> bytes_lt((#[trigger] rows[i]).key, (#[trigger] rows[j]).key)
}

/// Whether some row has this key.
pub open spec fn has_key(rows: Seq<Row>, key: Seq<u8>) -> bool {
    exists|i: int| 0 <= i < rows.len() && (#[trigger] rows[i]).key == key
}

/// Whether `rows` lists the table: in ascending key order, every row the row
/// of a key of the table, and every key of the table in some row.
pub open spec fn is_listing(rows: Seq<Row>, table: Summary) -> bool {
    &&& ascending(rows)
    &&& forall|i: int|
        0 <= i < rows.len() ==> table.contains_key((#[trigger] rows[i]).key) && rows[i] == row_of(
            rows[i].key,
            table[rows[i].key],
        )
    &&& forall|k: Seq<u8>| #[trigger] table.contains_key(k) ==> has_key(rows, k)
}

/// The listing of a table that has one.
pub open spec fn listing(table: Summary) -> Seq<Row> {
    choose|rows: Seq<Row>| is_listing(rows, table)
}

/// Two listings of one table agree on their first `n` rows.
proof fn lemma_listings_agree(a: Seq<Row>, b: Seq<Row>, table: Summary, n: int)
    requires
        is_listing(a, table),
        is_listing(b, table),
        0 <= n <= a.len(),
    ensures
        n <= b.len(),
        forall|i: int| 0 <= i < n ==> a[i] == b[i],
    decreases n,
{
    if n > 0 {
        lemma_listings_agree(a, b, table, n - 1);
        let i = n - 1;
        assert(table.contains_key(a[i].key));
        assert(has_key(b, a[i].key));
        let m = choose|m: int| 0 <= m < b.len() && (#[trigger] b[m]).key == a[i].key;
        if m < i {
            assert(a[m] == b[m]);
            assert(bytes_lt(a[m].key, a[i].key));
            lemma_lt_irreflexive(a[i].key);
        }
        if m > i {
            assert(table.contains_key(b[i].key));
            assert(has_key(a, b[i].key));
            let w = choose|w: int| 0 <= w < a.len() && (#[trigger] a[w]).key == b[i].key;
            assert(bytes_lt(b[i].key, b[m].key));
            if w < i {
                assert(a[w] == b[w]);
                assert(bytes_lt(b[w].key, b[i].key));
                lemma_lt_irreflexive(b[i].key);
            } else if w > i {
                assert(bytes_lt(a[i].key, a[w].key));
                lemma_lt_asymmetric(a[i].key, a[w].key);
            } else {
                lemma_lt_irreflexive(a[i].key);
            }
        }
        assert(m == i);
        assert(b[i] == row_of(b[i].key, table[b[i].key]));
    }
}

/// A table has at most one listing.
pub proof fn lemma_listing_unique(a: Seq<Row>, b: Seq<Row>, table: Summary)
    requires
        is_listing(a, table),
        is_listing(b, table),
    ensures
        a == b,
{
    lemma_listings_agree(a, b, table, a.len() as int);
    lemma_listings_agree(b, a, table, b.len() as int);
    assert(a =~= b);
}

/// Whether each entry's key comes strictly before the keys of all later
/// entries.
pub open spec fn keys_ascend(entries: Seq<CityTemp>) -> bool {
    forall|i: int, j: int|
        0 <= i < j < entries.len() ==> bytes_lt(
            (#[trigger] entries[i]).city@,
            (#[trigger] entries[j]).city@,
        )
}

impl CityTemp {
    /// The key is text, and the mean lies between the minimum and the
    /// maximum.
    pub open spec fn wf(&self) -> bool {
        &&& valid_utf8(self.city@)
        &&& self.min_temp <= self.mean_temp <= self.max_temp
        &&& self.count >= 1
    }

    /// The finished entry of a key with its aggregate: the mean is the sum
    /// divided by the count, rounded to the nearest tenth.
    pub fn finish(city: Vec<u8>, aggregate: KeyAggregate) -> (entry: CityTemp)
        requires
            aggregate.wf(),
        ensures
            entry@ == row_of(city@, aggregate@),
            entry.city == city,
            valid_utf8(city@) ==> entry.wf(),
    {
        CityTemp {
            city,
            min_temp: aggregate.min,
            max_temp: aggregate.max,
            mean_temp: aggregate.mean(),
            total_temp: aggregate.sum,
            count: aggregate.count,
        }
    }
}

/// Puts `entry` into a list in ascending key order that does not have its
/// key, at the place that keeps the order. Returns that place.
pub fn insert_sorted(entries: &mut Vec<CityTemp>, entry: CityTemp) -> (at: usize)
    requires
        keys_ascend(old(entries)@),
        forall|i: int| 0 <= i < old(entries).len() ==> (#[trigger] old(entries)[i]).city@ != entry.city@,
    ensures
        at <= old(entries).len(),
        final(entries)@ == old(entries)@.insert(at as int, entry),
        keys_ascend(final(entries)@),
{
    let mut at: usize = 0;
    while at < entries.len() && !key_less(entry.city.as_slice(), entries[at].city.as_slice())
        invariant
            at <= entries.len(),
            entries@ == old(entries)@,
            forall|i: int| 0 <= i < entries.len() ==> (#[trigger] entries[i]).city@ != entry.city@,
            forall|i: int| 0 <= i < at ==> bytes_lt((#[trigger] entries[i]).city@, entry.city@),
        decreases entries.len() - at,
    {
        proof {
            lemma_lt_total(entry.city@, entries[at as int].city@);
        }
        at = at + 1;
    }
    let ghost before = entries@;
    proof {
        assert forall|j: int| at <= j < before.len() implies bytes_lt(
            entry.city@,
            (#[trigger] before[j]).city@,
        ) by {
            if j > at {
                assert(bytes_lt(before[at as int].city@, before[j].city@));
                lemma_lt_transitive(entry.city@, before[at as int].city@, before[j].city@);
            }
        }
    }
    entries.insert(at, entry);
    proof {
        let after = entries@;
        assert forall|i: int, j: int| 0 <= i < j < after.len() implies bytes_lt(
            (#[trigger] after[i]).city@,
            (#[trigger] after[j]).city@,
        ) by {
            if j < at {
                assert(after[i] == before[i] && after[j] == before[j]);
            } else if j == at {
                assert(after[i] == before[i] && after[j] == entry);
            } else if i < at {
                assert(after[i] == before[i] && after[j] == before[j - 1]);
            } else if i == at {
                assert(after[i] == entry && after[j] == before[j - 1]);
            } else {
                assert(after[i] == before[i - 1] && after[j] == before[j - 1]);
            }
        }
    }
    at
}

/// Whether some entry has this key.
pub open spec fn holds_key(entries: Seq<CityTemp>, key: Seq<u8>) -> bool {
    exists|i: int| 0 <= i < entries.len() && (#[trigger] entries[i]).city@ == key
}

/// Finishes the table: every key's mean is computed, and the keys are put in
/// ascending order.
pub fn finalize(table: AggregateTable) -> (entries: Vec<CityTemp>)
    requires
        table.wf(),
    ensures
        is_listing(rows_of(entries@), table@),
        rows_of(entries@) == listing(table@),
        forall|i: int| 0 <= i < entries.len() ==> (#[trigger] entries[i]).wf(),
{
    let ghost summary = table@;
    let mut pairs: Vec<Entry> = table.into_entries();
    let ghost all = pairs@;
    let mut entries: Vec<CityTemp> = Vec::new();
    proof {
        assert(all.take(all.len() as int) =~= all);
    }
    while pairs.len() > 0
        invariant
            pairs.len() <= all.len(),
            pairs@ == all.take(pairs.len() as int),
            forall|i: int|
                0 <= i < all.len() ==> {
                    &&& summary.contains_key((#[trigger] all[i]).0@)
                    &&& summary[all[i].0@] == all[i].1@
                    &&& all[i].1.wf()
                    &&& valid_utf8(all[i].0@)
                },
            distinct_keys(all),
            keys_ascend(entries@),
            forall|i: int|
                0 <= i < entries.len() ==> {
                    &&& listed(all, pairs.len() as int, (#[trigger] entries[i]).city@)
                    &&& summary.contains_key(entries[i].city@)
                    &&& entries[i]@ == row_of(entries[i].city@, summary[entries[i].city@])
                    &&& entries[i].wf()
                },
            forall|k: Seq<u8>| #[trigger]
                listed(all, pairs.len() as int, k) ==> holds_key(entries@, k),
        decreases pairs.len(),
    {
        let ghost n = pairs.len() as int;
        let ghost before = entries@;
        let (key, aggregate) = pairs.pop().unwrap();
        let ghost key_bytes = key@;
        proof {
            assert(all[n - 1] == (key, aggregate));
            assert(pairs@ =~= all.take(n - 1));
            assert forall|i: int| 0 <= i < before.len() implies (#[trigger] before[i]).city@
                != key_bytes by {
                assert(listed(all, n, before[i].city@));
                let j = choose|j: int| n <= j < all.len() && (#[trigger] all[j]).0@ == before[i].city@;
                assert(all[n - 1].0@ != all[j].0@);
            }
        }
        let entry = CityTemp::finish(key, aggregate);
        let ghost made = entry;
        let at = insert_sorted(&mut entries, entry);
        proof {
            let after = entries@;
            assert(after[at as int] == made);
            assert forall|i: int| 0 <= i < after.len() implies {
                &&& listed(all, n - 1, (#[trigger] after[i]).city@)
                &&& summary.contains_key(after[i].city@)
                &&& after[i]@ == row_of(after[i].city@, summary[after[i].city@])
                &&& after[i].wf()
            } by {
                if i == at {
                    assert(all[n - 1].0@ == after[i].city@);
                } else {
                    let was = if i < at {
                        i
                    } else {
                        i - 1
                    };
                    assert(after[i] == before[was]);
                    assert(listed(all, n, before[was].city@));
                    let j = choose|j: int|
                        n <= j < all.len() && (#[trigger] all[j]).0@ == before[was].city@;
                    assert(n - 1 <= j < all.len() && all[j].0@ == after[i].city@);
                }
            }
            assert forall|k: Seq<u8>| #[trigger] listed(all, n - 1, k) implies holds_key(
                after,
                k,
            ) by {
                let j = choose|j: int| n - 1 <= j < all.len() && (#[trigger] all[j]).0@ == k;
                if j == n - 1 {
                    assert(after[at as int].city@ == k);
                } else {
                    assert(listed(all, n, k));
                    assert(holds_key(before, k));
                    let i = choose|i: int| 0 <= i < before.len() && (#[trigger] before[i]).city@ == k;
                    if i < at {
                        assert(after[i] == before[i]);
                    } else {
                        assert(after[i + 1] == before[i]);
                    }
                }
            }
        }
    }
    proof {
        let rows = rows_of(entries@);
        assert forall|i: int, j: int| 0 <= i < j < rows.len() implies bytes_lt(
            (#[trigger] rows[i]).key,
            (#[trigger] rows[j]).key,
        ) by {
            assert(bytes_lt(entries@[i].city@, entries@[j].city@));
        }
        assert forall|k: Seq<u8>| #[trigger] summary.contains_key(k) implies has_key(rows, k) by {
            assert(listed(all, 0, k));
            assert(holds_key(entries@, k));
            let i = choose|i: int| 0 <= i < entries.len() && (#[trigger] entries@[i]).city@ == k;
            assert(rows[i].key == k);
        }
        assert forall|i: int| 0 <= i < rows.len() implies summary.contains_key(
            (#[trigger] rows[i]).key,
        ) && rows[i] == row_of(rows[i].key, summary[rows[i].key]) by {
            assert(entries@[i]@ == row_of(entries@[i].city@, summary[entries@[i].city@]));
        }
        assert(is_listing(rows, summary));
        lemma_listing_unique(rows, listing(summary), summary);
    }
    entries
}

} // verus!
