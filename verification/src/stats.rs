//! Running statistics of the measurements seen for one key.

use vstd::prelude::*;

verus! {

/// Largest magnitude, counted in tenths, that a measurement may have.
pub const VALUE_LIMIT: i64 = 999_999_999_999_999_999;

/// Bound on the magnitude of a sum of at most `u64::MAX` measurements.
pub const SUM_LIMIT: i128 = 18_446_744_073_709_551_615_000_000_000_000_000_000;

/// The least of a non-empty sequence of measurements.
pub open spec fn min_of(vs: Seq<int>) -> int
    decreases vs.len(),
{
    if vs.len() == 0 {
        0
    } else if vs.len() == 1 {
        vs[0]
    } else if vs.last() < min_of(vs.drop_last()) {
        vs.last()
    } else {
        min_of(vs.drop_last())
    }
}

/// The greatest of a non-empty sequence of measurements.
pub open spec fn max_of(vs: Seq<int>) -> int
    decreases vs.len(),
{
    if vs.len() == 0 {
        0
    } else if vs.len() == 1 {
        vs[0]
    } else if vs.last() > max_of(vs.drop_last()) {
        vs.last()
    } else {
        max_of(vs.drop_last())
    }
}

/// The sum of a sequence of measurements.
pub open spec fn sum_of(vs: Seq<int>) -> int
    decreases vs.len(),
{
    if vs.len() == 0 {
        0
    } else {
        sum_of(vs.drop_last()) + vs.last()
    }
}

/// The quotient `sum / count` rounded to the nearest integer, halves away
/// from zero.
pub open spec fn rounded_quotient(sum: int, count: int) -> int
    recommends
        count > 0,
{
    if sum >= 0 {
        (2 * sum + count) / (2 * count)
    } else {
        -((2 * (-sum) + count) / (2 * count))
    }
}

/// Minimum, maximum, sum and number of a non-empty collection of
/// measurements, as mathematical integers.
pub struct Stats {
    pub min: int,
    pub max: int,
    pub sum: int,
    pub count: nat,
}

impl Stats {
    /// The statistics of one measurement.
    pub open spec fn single(v: int) -> Stats {
        Stats { min: v, max: v, sum: v, count: 1 }
    }

    /// The statistics of a sequence of measurements.
    pub open spec fn of(vs: Seq<int>) -> Stats {
        Stats { min: min_of(vs), max: max_of(vs), sum: sum_of(vs), count: vs.len() }
    }

    /// The statistics of two collections taken together.
    pub open spec fn combine(self, other: Stats) -> Stats {
        Stats {
            min: if other.min < self.min {
                other.min
            } else {
                self.min
            },
            max: if other.max > self.max {
                other.max
            } else {
                self.max
            },
            sum: self.sum + other.sum,
            count: self.count + other.count,
        }
    }

    /// The mean, rounded to the nearest tenth, halves away from zero.
    pub open spec fn mean(self) -> int {
        rounded_quotient(self.sum, self.count as int)
    }

    /// At least one measurement was counted, and the sum lies between
    /// `count` times the minimum and `count` times the maximum.
    pub open spec fn well_formed(self) -> bool {
        &&& self.count >= 1
        &&& self.min <= self.max
        &&& self.count * self.min <= self.sum
        &&& self.sum <= self.count * self.max
    }
}

/// The minimum and the maximum occur in the sequence and bound each of its
/// elements.
pub proof fn lemma_extremes(vs: Seq<int>)
    requires
        vs.len() > 0,
    ensures
        forall|i: int| 0 <= i < vs.len() ==> min_of(vs) <= #[trigger] vs[i] <= max_of(vs),
        exists|i: int| 0 <= i < vs.len() && vs[i] == min_of(vs),
        exists|i: int| 0 <= i < vs.len() && vs[i] == max_of(vs),
    decreases vs.len(),
{
    if vs.len() == 1 {
        assert(vs[0] == min_of(vs));
        assert(vs[0] == max_of(vs));
    } else {
        let front = vs.drop_last();
        lemma_extremes(front);
        assert forall|i: int| 0 <= i < vs.len() implies min_of(vs) <= #[trigger] vs[i] <= max_of(
            vs,
        ) by {
            if i < front.len() {
                assert(vs[i] == front[i]);
            }
        }
        let last = vs.len() - 1;
        if vs.last() < min_of(front) {
            assert(vs[last] == min_of(vs));
        } else {
            let i = choose|i: int| 0 <= i < front.len() && front[i] == min_of(front);
            assert(vs[i] == min_of(vs));
        }
        if vs.last() > max_of(front) {
            assert(vs[last] == max_of(vs));
        } else {
            let i = choose|i: int| 0 <= i < front.len() && front[i] == max_of(front);
            assert(vs[i] == max_of(vs));
        }
    }
}

/// One more measurement is combined into the statistics of those before it.
pub proof fn lemma_stats_push(vs: Seq<int>, v: int)
    ensures
        Stats::of(vs.push(v)) == if vs.len() == 0 {
            Stats::single(v)
        } else {
            Stats::of(vs).combine(Stats::single(v))
        },
{
    let after = vs.push(v);
    assert(after.drop_last() =~= vs);
    assert(after.last() == v);
    if vs.len() == 0 {
        assert(after[0] == v);
        assert(sum_of(vs) == 0);
    } else if vs.len() == 1 {
        assert(after.len() == 2);
    }
}

/// The statistics of two non-empty sequences joined are the two statistics
/// combined.
pub proof fn lemma_stats_concat(a: Seq<int>, b: Seq<int>)
    requires
        a.len() > 0,
        b.len() > 0,
    ensures
        Stats::of(a + b) == Stats::of(a).combine(Stats::of(b)),
    decreases b.len(),
{
    let front = b.drop_last();
    assert(a + b =~= (a + front).push(b.last()));
    lemma_stats_push(a + front, b.last());
    assert(b =~= front.push(b.last()));
    lemma_stats_push(front, b.last());
    if front.len() == 0 {
        assert(a + front =~= a);
    } else {
        lemma_stats_concat(a, front);
    }
}

/// The statistics of a non-empty sequence are well formed.
pub proof fn lemma_stats_well_formed(vs: Seq<int>)
    requires
        vs.len() > 0,
    ensures
        Stats::of(vs).well_formed(),
    decreases vs.len(),
{
    if vs.len() > 1 {
        let front = vs.drop_last();
        lemma_stats_well_formed(front);
        assert(vs =~= front.push(vs.last()));
        lemma_stats_push(front, vs.last());
        lemma_combine_well_formed(Stats::of(front), Stats::single(vs.last()));
    } else {
        assert(Stats::of(vs) == Stats::single(vs[0])) by {
            assert(vs.drop_last().len() == 0);
            assert(sum_of(vs.drop_last()) == 0);
            assert(vs.last() == vs[0]);
        }
    }
}

/// Combining keeps statistics well formed.
pub proof fn lemma_combine_well_formed(a: Stats, b: Stats)
    requires
        a.well_formed(),
        b.well_formed(),
    ensures
        a.combine(b).well_formed(),
{
    let c = a.combine(b);
    assert(c.count * c.min <= c.sum) by (nonlinear_arith)
        requires
            a.count * a.min <= a.sum,
            b.count * b.min <= b.sum,
            c.min <= a.min,
            c.min <= b.min,
            c.count == a.count + b.count,
            c.sum == a.sum + b.sum,
    ;
    assert(c.sum <= c.count * c.max) by (nonlinear_arith)
        requires
            a.sum <= a.count * a.max,
            b.sum <= b.count * b.max,
            a.max <= c.max,
            b.max <= c.max,
            c.count == a.count + b.count,
            c.sum == a.sum + b.sum,
    ;
}

/// Combining does not depend on the order of its arguments.
pub proof fn lemma_combine_commutes(a: Stats, b: Stats)
    ensures
        a.combine(b) == b.combine(a),
{
}

/// Combining does not depend on how its arguments are grouped.
pub proof fn lemma_combine_associates(a: Stats, b: Stats, c: Stats)
    ensures
        a.combine(b).combine(c) == a.combine(b.combine(c)),
{
}

/// The rounded mean of well-formed statistics lies between the minimum and
/// the maximum.
pub proof fn lemma_mean_between(s: Stats)
    requires
        s.well_formed(),
    ensures
        s.min <= s.mean() <= s.max,
{
    let c = s.count as int;
    let t = s.sum;
    if t >= 0 {
        let q = (2 * t + c) / (2 * c);
        assert(q <= s.max && (s.min <= q)) by (nonlinear_arith)
            requires
                c >= 1,
                t >= 0,
                c * s.min <= t,
                t <= c * s.max,
                q == (2 * t + c) / (2 * c),
        ;
    } else {
        let q = (2 * (-t) + c) / (2 * c);
        assert(-q <= s.max && (s.min <= -q)) by (nonlinear_arith)
            requires
                c >= 1,
                t < 0,
                c * s.min <= t,
                t <= c * s.max,
                q == (2 * (-t) + c) / (2 * c),
        ;
    }
}

/// The mean of a single measurement is that measurement.
pub proof fn lemma_single_mean(v: int)
    ensures
        Stats::single(v).mean() == v,
{
    if v >= 0 {
        assert((2 * v + 1) / 2 == v);
    } else {
        assert((2 * (-v) + 1) / 2 == -v);
    }
}

/// Running statistics for one key, counted in tenths.
#[derive(Clone, Copy, Debug, PartialEq, Eq)]
pub struct KeyAggregate {
    pub min: i64,
    pub max: i64,
    pub sum: i128,
    pub count: u64,
}

impl View for KeyAggregate {
    type V = Stats;

    open spec fn view(&self) -> Stats {
        Stats {
            min: self.min as int,
            max: self.max as int,
            sum: self.sum as int,
            count: self.count as nat,
        }
    }
}

impl KeyAggregate {
    /// The statistics are well formed and every measurement was within
    /// `VALUE_LIMIT`.
    pub open spec fn wf(&self) -> bool {
        &&& self@.well_formed()
        &&& -VALUE_LIMIT <= self.min
        &&& self.max <= VALUE_LIMIT
    }

    /// The sum of a well-formed aggregate is within `SUM_LIMIT`.
    pub proof fn lemma_sum_within(&self)
        requires
            self.wf(),
        ensures
            -SUM_LIMIT <= self.sum <= SUM_LIMIT,
    {
        let c = self.count as int;
        let lo = self.min as int;
        let hi = self.max as int;
        let t = self.sum as int;
        assert(-18_446_744_073_709_551_615_000_000_000_000_000_000 <= t
            <= 18_446_744_073_709_551_615_000_000_000_000_000_000) by (nonlinear_arith)
            requires
                1 <= c <= 18_446_744_073_709_551_615,
                -999_999_999_999_999_999 <= lo,
                hi <= 999_999_999_999_999_999,
                c * lo <= t,
                t <= c * hi,
        ;
    }

    /// The aggregate of one measurement.
    pub fn first(value: i64) -> (out: KeyAggregate)
        requires
            -VALUE_LIMIT <= value <= VALUE_LIMIT,
        ensures
            out@ == Stats::single(value as int),
            out.wf(),
    {
        KeyAggregate { min: value, max: value, sum: value as i128, count: 1 }
    }

    /// The aggregate of the measurements of `self` and of `other` together.
    pub fn combine(self, other: KeyAggregate) -> (out: KeyAggregate)
        requires
            self.wf(),
            other.wf(),
            self.count + other.count <= u64::MAX,
        ensures
            out@ == self@.combine(other@),
            out.wf(),
    {
        proof {
            self.lemma_sum_within();
            other.lemma_sum_within();
            lemma_combine_well_formed(self@, other@);
        }
        KeyAggregate {
            min: if other.min < self.min {
                other.min
            } else {
                self.min
            },
            max: if other.max > self.max {
                other.max
            } else {
                self.max
            },
            sum: self.sum + other.sum,
            count: self.count + other.count,
        }
    }

    /// The aggregate after one more measurement.
    pub fn observe(self, value: i64) -> (out: KeyAggregate)
        requires
            self.wf(),
            -VALUE_LIMIT <= value <= VALUE_LIMIT,
            self.count < u64::MAX,
        ensures
            out@ == self@.combine(Stats::single(value as int)),
            out.wf(),
    {
        self.combine(KeyAggregate::first(value))
    }

    /// The mean in tenths, rounded to the nearest tenth, halves away from
    /// zero.
    pub fn mean(&self) -> (m: i64)
        requires
            self.wf(),
        ensures
            m == self@.mean(),
            self.min <= m <= self.max,
    {
        proof {
            self.lemma_sum_within();
            lemma_mean_between(self@);
        }
        let count: i128 = self.count as i128;
        if self.sum >= 0 {
            ((2 * self.sum + count) / (2 * count)) as i64
        } else {
            (-((2 * (-self.sum) + count) / (2 * count))) as i64
        }
    }
}

} // verus!
