//! The mathematical table from key to statistics, and how tables combine.

use vstd::prelude::*;
use vstd::utf8::valid_utf8;
use crate::record::{readings, Reading};
use crate::stats::{
    lemma_combine_well_formed, lemma_extremes, lemma_stats_concat, lemma_stats_push,
    lemma_stats_well_formed, max_of, min_of, Stats, VALUE_LIMIT,
};

verus! {

/// A table from key to the statistics of that key's measurements.
pub type Summary = Map<Seq<u8>, Stats>;

/// The measurements that a sequence of readings holds for one key, in order.
pub open spec fn values_for(rs: Seq<Reading>, key: Seq<u8>) -> Seq<int>
    decreases rs.len(),
{
    if rs.len() == 0 {
        Seq::empty()
    } else if rs.last().key == key {
        values_for(rs.drop_last(), key).push(rs.last().value)
    } else {
        values_for(rs.drop_last(), key)
    }
}

/// The table of a sequence of readings: a key is present where at least one
/// reading has it, with the statistics of all its measurements.
pub open spec fn tabulate(rs: Seq<Reading>) -> Summary {
    Map::new(|k: Seq<u8>| values_for(rs, k).len() > 0, |k: Seq<u8>| Stats::of(values_for(rs, k)))
}

/// The table of the readings of a buffer.
pub open spec fn aggregate_spec(bytes: Seq<u8>) -> Summary {
    tabulate(readings(bytes))
}

/// Two tables taken together: a key of both has the two statistics combined,
/// a key of one keeps its statistics.
pub open spec fn merge_spec(a: Summary, b: Summary) -> Summary {
    Map::new(
        |k: Seq<u8>| a.contains_key(k) || b.contains_key(k),
        |k: Seq<u8>|
            if a.contains_key(k) && b.contains_key(k) {
                a[k].combine(b[k])
            } else if a.contains_key(k) {
                a[k]
            } else {
                b[k]
            },
    )
}

/// The table after one more reading.
pub open spec fn observe_spec(a: Summary, r: Reading) -> Summary {
    a.insert(
        r.key,
        if a.contains_key(r.key) {
            a[r.key].combine(Stats::single(r.value))
        } else {
            Stats::single(r.value)
        },
    )
}

/// Every key is text, and every key's statistics are well formed and within
/// the limit on measurements.
pub open spec fn summary_well_formed(a: Summary) -> bool {
    forall|k: Seq<u8>| #[trigger]
        a.contains_key(k) ==> {
            &&& valid_utf8(k)
            &&& a[k].well_formed()
            &&& -VALUE_LIMIT <= a[k].min
            &&& a[k].max <= VALUE_LIMIT
        }
}

/// The measurements of a key in two sequences joined are those of the one
/// followed by those of the other.
pub proof fn lemma_values_for_concat(r1: Seq<Reading>, r2: Seq<Reading>, key: Seq<u8>)
    ensures
        values_for(r1 + r2, key) == values_for(r1, key) + values_for(r2, key),
    decreases r2.len(),
{
    if r2.len() == 0 {
        assert(r1 + r2 =~= r1);
        assert(values_for(r1, key) + values_for(r2, key) =~= values_for(r1, key));
    } else {
        let front = r2.drop_last();
        assert((r1 + r2).drop_last() =~= r1 + front);
        assert((r1 + r2).last() == r2.last());
        lemma_values_for_concat(r1, front, key);
        if r2.last().key == key {
            assert((values_for(r1, key) + values_for(front, key)).push(r2.last().value)
                =~= values_for(r1, key) + values_for(front, key).push(r2.last().value));
        }
    }
}

/// A key has at most as many measurements as there are readings.
pub proof fn lemma_values_for_len(rs: Seq<Reading>, key: Seq<u8>)
    ensures
        values_for(rs, key).len() <= rs.len(),
    decreases rs.len(),
{
    if rs.len() != 0 {
        lemma_values_for_len(rs.drop_last(), key);
    }
}

/// Whether some reading of the sequence has this key and this measurement.
pub open spec fn has_reading(rs: Seq<Reading>, key: Seq<u8>, value: int) -> bool {
    exists|j: int| 0 <= j < rs.len() && #[trigger] rs[j] == (Reading { key, value })
}

/// Every measurement of a key is the value of a reading with that key.
pub proof fn lemma_values_for_members(rs: Seq<Reading>, key: Seq<u8>)
    ensures
        forall|i: int|
            0 <= i < values_for(rs, key).len() ==> has_reading(
                rs,
                key,
                #[trigger] values_for(rs, key)[i],
            ),
    decreases rs.len(),
{
    if rs.len() != 0 {
        let front = rs.drop_last();
        lemma_values_for_members(front, key);
        assert forall|i: int| 0 <= i < values_for(rs, key).len() implies has_reading(
            rs,
            key,
            #[trigger] values_for(rs, key)[i],
        ) by {
            let v = values_for(rs, key)[i];
            if i < values_for(front, key).len() {
                assert(has_reading(front, key, values_for(front, key)[i]));
                let j = choose|j: int|
                    0 <= j < front.len() && #[trigger] front[j] == (Reading { key, value: v });
                assert(rs[j] == front[j]);
            } else {
                let j = rs.len() - 1;
                assert(rs[j] == (Reading { key, value: v }));
            }
        }
    }
}

/// One more reading is observed into the table of those before it.
pub proof fn lemma_tabulate_push(rs: Seq<Reading>, r: Reading)
    ensures
        tabulate(rs.push(r)) == observe_spec(tabulate(rs), r),
{
    let after = rs.push(r);
    assert(after.drop_last() =~= rs);
    assert forall|k: Seq<u8>| #[trigger]
        tabulate(after).contains_key(k) == observe_spec(tabulate(rs), r).contains_key(k) by {}
    assert forall|k: Seq<u8>| #[trigger] tabulate(after).contains_key(k) implies tabulate(after)[k]
        == observe_spec(tabulate(rs), r)[k] by {
        if k == r.key {
            lemma_stats_push(values_for(rs, k), r.value);
        }
    }
    assert(tabulate(after) =~= observe_spec(tabulate(rs), r));
}

/// The table of no readings is empty.
pub proof fn lemma_tabulate_empty()
    ensures
        tabulate(Seq::empty()) == Summary::empty(),
{
    assert(tabulate(Seq::empty()) =~= Summary::empty());
}

/// The table of two sequences joined is the two tables merged.
pub proof fn lemma_tabulate_concat(r1: Seq<Reading>, r2: Seq<Reading>)
    ensures
        tabulate(r1 + r2) == merge_spec(tabulate(r1), tabulate(r2)),
{
    let joined = tabulate(r1 + r2);
    let merged = merge_spec(tabulate(r1), tabulate(r2));
    assert forall|k: Seq<u8>| #[trigger] joined.contains_key(k) == merged.contains_key(k) by {
        lemma_values_for_concat(r1, r2, k);
    }
    assert forall|k: Seq<u8>| #[trigger] joined.contains_key(k) implies joined[k] == merged[k] by {
        lemma_values_for_concat(r1, r2, k);
        let v1 = values_for(r1, k);
        let v2 = values_for(r2, k);
        if v1.len() > 0 && v2.len() > 0 {
            lemma_stats_concat(v1, v2);
        } else if v1.len() > 0 {
            assert(v1 + v2 =~= v1);
        } else {
            assert(v1 + v2 =~= v2);
        }
    }
    assert(joined =~= merged);
}

/// Merging does not depend on the order of the two tables.
pub proof fn lemma_merge_commutes(a: Summary, b: Summary)
    ensures
        merge_spec(a, b) == merge_spec(b, a),
{
    assert(merge_spec(a, b) =~= merge_spec(b, a));
}

/// Merging does not depend on how the tables are grouped.
pub proof fn lemma_merge_associates(a: Summary, b: Summary, c: Summary)
    ensures
        merge_spec(merge_spec(a, b), c) == merge_spec(a, merge_spec(b, c)),
{
    assert(merge_spec(merge_spec(a, b), c) =~= merge_spec(a, merge_spec(b, c)));
}

/// Merging with the empty table changes nothing.
pub proof fn lemma_merge_empty(a: Summary)
    ensures
        merge_spec(a, Summary::empty()) == a,
        merge_spec(Summary::empty(), a) == a,
{
    assert(merge_spec(a, Summary::empty()) =~= a);
    assert(merge_spec(Summary::empty(), a) =~= a);
}

/// The table of well-formed readings is well formed.
pub proof fn lemma_tabulate_well_formed(rs: Seq<Reading>)
    requires
        forall|i: int| 0 <= i < rs.len() ==> (#[trigger] rs[i]).well_formed(),
    ensures
        summary_well_formed(tabulate(rs)),
{
    assert forall|k: Seq<u8>| #[trigger] tabulate(rs).contains_key(k) implies {
        &&& valid_utf8(k)
        &&& tabulate(rs)[k].well_formed()
        &&& -VALUE_LIMIT <= tabulate(rs)[k].min
        &&& tabulate(rs)[k].max <= VALUE_LIMIT
    } by {
        let vs = values_for(rs, k);
        lemma_stats_well_formed(vs);
        lemma_extremes(vs);
        lemma_values_for_members(rs, k);
        let lo = choose|i: int| 0 <= i < vs.len() && vs[i] == min_of(vs);
        let hi = choose|i: int| 0 <= i < vs.len() && vs[i] == max_of(vs);
        assert(has_reading(rs, k, vs[lo]));
        assert(has_reading(rs, k, vs[hi]));
        let jlo = choose|j: int|
            0 <= j < rs.len() && #[trigger] rs[j] == (Reading { key: k, value: vs[lo] });
        let jhi = choose|j: int|
            0 <= j < rs.len() && #[trigger] rs[j] == (Reading { key: k, value: vs[hi] });
        assert(rs[jlo].well_formed());
        assert(rs[jhi].well_formed());
    }
}

/// Merging keeps tables well formed.
pub proof fn lemma_merge_well_formed(a: Summary, b: Summary)
    requires
        summary_well_formed(a),
        summary_well_formed(b),
    ensures
        summary_well_formed(merge_spec(a, b)),
{
    assert forall|k: Seq<u8>| #[trigger] merge_spec(a, b).contains_key(k) implies {
        &&& valid_utf8(k)
        &&& merge_spec(a, b)[k].well_formed()
        &&& -VALUE_LIMIT <= merge_spec(a, b)[k].min
        &&& merge_spec(a, b)[k].max <= VALUE_LIMIT
    } by {
        if a.contains_key(k) && b.contains_key(k) {
            lemma_combine_well_formed(a[k], b[k]);
        }
    }
}

} // verus!
