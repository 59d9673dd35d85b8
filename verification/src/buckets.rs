//! Fixed-width time windows for bucketed reports.
//!
//! Both bucketed queries of the aggregator partition already time-ordered
//! records into consecutive windows of one width, from the start of the day
//! through the window of the last record: every window in between appears,
//! even when nothing falls in it. A record at time `t` falls in window
//! `t / width`, so the series never needs sorting.

use vstd::prelude::*;
use vstd::multiset::Multiset;
use crate::types::{Duration, Time, TripMode};
use crate::histogram::Histogram;
use vstd::arithmetic::div_mod::{
    lemma_fundamental_div_mod, lemma_div_is_ordered, lemma_mod_bound,
};
use vstd::arithmetic::mul::{lemma_mul_inequality, lemma_mul_is_commutative};

verus! {

/// Time-stamped records in non-decreasing time order.
pub open spec fn times_sorted(s: Seq<(Time, TripMode)>) -> bool {
    forall|i: int, j: int| 0 <= i <= j < s.len() ==> (#[trigger] s[i]).0 <= (#[trigger] s[j]).0
}

/// Delay records in non-decreasing time order.
pub open spec fn delay_times_sorted(s: Seq<(Time, Duration)>) -> bool {
    forall|i: int, j: int| 0 <= i <= j < s.len() ==> (#[trigger] s[i]).0 <= (#[trigger] s[j]).0
}

/// How many records fall in the window `[lo, hi)`.
pub open spec fn count_in_window(s: Seq<(Time, TripMode)>, lo: int, hi: int) -> nat
    decreases s.len(),
{
    if s.len() == 0 {
        0
    } else {
        count_in_window(s.drop_last(), lo, hi) + if lo <= s.last().0 < hi {
            1nat
        } else {
            0nat
        }
    }
}

/// How many records of one mode fall in the window `[lo, hi)`.
pub open spec fn count_in_window_mode(
    s: Seq<(Time, TripMode)>,
    lo: int,
    hi: int,
    m: TripMode,
) -> nat
    decreases s.len(),
{
    if s.len() == 0 {
        0
    } else {
        count_in_window_mode(s.drop_last(), lo, hi, m) + if lo <= s.last().0 < hi && s.last().1
            == m {
            1nat
        } else {
            0nat
        }
    }
}

/// The delays measured in the window `[lo, hi)`, as a multiset.
pub open spec fn delays_in_window(s: Seq<(Time, Duration)>, lo: int, hi: int) -> Multiset<u64>
    decreases s.len(),
{
    if s.len() == 0 {
        Multiset::empty()
    } else {
        let rest = delays_in_window(s.drop_last(), lo, hi);
        if lo <= s.last().0 < hi {
            rest.insert(s.last().1)
        } else {
            rest
        }
    }
}

/// Per-mode counts of one bucket.
#[derive(Clone, Copy, PartialEq, Eq, Structural, Debug)]
pub struct ModeCounts {
    pub walk: u64,
    pub bike: u64,
    pub transit: u64,
    pub drive: u64,
}

impl ModeCounts {
    pub open spec fn spec_get(self, m: TripMode) -> u64 {
        match m {
            TripMode::Walk => self.walk,
            TripMode::Bike => self.bike,
            TripMode::Transit => self.transit,
            TripMode::Drive => self.drive,
        }
    }

    /// The bucket's count over all modes.
    pub open spec fn spec_total(self) -> int {
        self.walk + self.bike + self.transit + self.drive
    }

    pub fn new() -> (r: ModeCounts)
        ensures
            forall|m: TripMode| r.spec_get(m) == 0,
    {
        ModeCounts { walk: 0, bike: 0, transit: 0, drive: 0 }
    }

    pub fn get(&self, m: TripMode) -> (r: u64)
        ensures
            r == self.spec_get(m),
    {
        match m {
            TripMode::Walk => self.walk,
            TripMode::Bike => self.bike,
            TripMode::Transit => self.transit,
            TripMode::Drive => self.drive,
        }
    }

    /// This bucket with one more record of the given mode.
    pub fn bump(self, m: TripMode) -> (r: ModeCounts)
        requires
            self.spec_get(m) < u64::MAX,
        ensures
            r.spec_get(m) == self.spec_get(m) + 1,
            forall|m2: TripMode| m2 != m ==> r.spec_get(m2) == self.spec_get(m2),
    {
        match m {
            TripMode::Walk => ModeCounts { walk: self.walk + 1, ..self },
            TripMode::Bike => ModeCounts { bike: self.bike + 1, ..self },
            TripMode::Transit => ModeCounts { transit: self.transit + 1, ..self },
            TripMode::Drive => ModeCounts { drive: self.drive + 1, ..self },
        }
    }
}

/// Partitions time-ordered records into consecutive buckets of one width:
/// bucket `i` covers `[i * width, (i + 1) * width)` and counts the records
/// per mode that fall in it. The series runs from the start of the day
/// through the bucket of the last record with no gaps; with no records it
/// is empty.
pub fn bucket_counts(recs: &Vec<(Time, TripMode)>, width: Duration) -> (r: Vec<(Time, ModeCounts)>)
    requires
        width > 0,
        times_sorted(recs@),
        recs@.len() > 0 ==> recs@.last().0 / width + 1 <= usize::MAX,
    ensures
        r@.len() == spec_bucket_count(recs@, width),
        forall|i: int| 0 <= i < r@.len() ==> (#[trigger] r@[i]).0 == i * width,
        forall|i: int, m: TripMode|
            #![trigger r@[i].1.spec_get(m)]
            0 <= i < r@.len() ==> r@[i].1.spec_get(m) == count_in_window_mode(
                recs@,
                i * width,
                (i + 1) * width,
                m,
            ),
{
    let mut r: Vec<(Time, ModeCounts)> = Vec::new();
    let len = recs.len();
    if len == 0 {
        return r;
    }
    let last_t = recs[len - 1].0;
    let n_buckets: usize = (last_t / width + 1) as usize;
    proof {
        lemma_fundamental_div_mod(last_t as int, width as int);
        lemma_mod_bound(last_t as int, width as int);
        lemma_mul_is_commutative(n_buckets - 1, width as int);
    }
    for i in 0..n_buckets
        invariant
            width > 0,
            n_buckets == last_t as int / width as int + 1,
            (n_buckets - 1) * width <= last_t,
            r@.len() == i,
            forall|j: int| 0 <= j < i ==> (#[trigger] r@[j]).0 == j * width,
            forall|j: int, m: TripMode| #![trigger r@[j].1.spec_get(m)] 0 <= j < i ==> r@[j].1.spec_get(m) == 0,
    {
        proof {
            lemma_mul_inequality(i as int, n_buckets - 1, width as int);
        }
        r.push(((i as u64) * width, ModeCounts::new()));
    }
    proof {
        assert(forall|j: int, m: TripMode|
            0 <= j < r@.len() ==> #[trigger] count_in_window_mode(
                recs@.take(0),
                j * width,
                (j + 1) * width,
                m,
            ) == 0) by {
            assert(recs@.take(0) =~= Seq::<(Time, TripMode)>::empty());
        }
    }
    for k in 0..len
        invariant
            width > 0,
            len == recs@.len(),
            times_sorted(recs@),
            last_t == recs@.last().0,
            r@.len() == n_buckets,
            n_buckets == last_t as int / width as int + 1,
            forall|j: int| 0 <= j < r@.len() ==> (#[trigger] r@[j]).0 == j * width,
            forall|j: int, m: TripMode|
                #![trigger r@[j].1.spec_get(m)]
                0 <= j < r@.len() ==> r@[j].1.spec_get(m) == count_in_window_mode(
                    recs@.take(k as int),
                    j * width,
                    (j + 1) * width,
                    m,
                ),
    {
        let (t, m) = recs[k];
        let idx: usize = (t / width) as usize;
        proof {
            assert(t <= last_t) by {
                assert(recs@[k as int].0 <= recs@[len - 1].0);
            }
            lemma_div_is_ordered(t as int, last_t as int, width as int);
            lemma_fundamental_div_mod(t as int, width as int);
            lemma_mod_bound(t as int, width as int);
            assert(idx as int * width <= t < (idx as int + 1) * width) by (nonlinear_arith)
                requires
                    idx as int == t as int / width as int,
                    width > 0,
                    t as int == width as int * (t as int / width as int) + t as int % width as int,
                    0 <= (t as int % width as int) && (t as int % width as int) < width as int,
            ;
            lemma_window_count_le_len(recs@.take(k as int), idx as int * width, (idx as int + 1) * width, m);
            assert(recs@.take(k as int).len() == k);
        }
        let mc = r[idx].1;
        let bumped = mc.bump(m);
        r[idx].1 = bumped;
        proof {
            assert(recs@.take(k + 1).drop_last() =~= recs@.take(k as int));
            assert(recs@.take(k + 1).last() == recs@[k as int]);
            assert forall|j: int, m2: TripMode|
                #![trigger r@[j].1.spec_get(m2)]
                0 <= j < r@.len() implies r@[j].1.spec_get(m2) == count_in_window_mode(
                recs@.take(k + 1),
                j * width,
                (j + 1) * width,
                m2,
            ) by {
                if j != idx as int {
                    // the record falls in no other window
                    assert(!(j * width <= t < (j + 1) * width)) by (nonlinear_arith)
                        requires
                            j != t as int / width as int,
                            width > 0,
                            t as int == width as int * (t as int / width as int) + t as int
                                % width as int,
                            0 <= (t as int % width as int) && (t as int % width as int) < width as int,
                    ;
                }
            }
        }
    }
    proof {
        assert(recs@.take(len as int) =~= recs@);
    }
    r
}

/// How many buckets a record list needs: none when it is empty, else one
/// per width through the window of the last record.
pub open spec fn spec_bucket_count(s: Seq<(Time, TripMode)>, width: Duration) -> int {
    if s.len() == 0 {
        0
    } else {
        s.last().0 as int / width as int + 1
    }
}

/// How many buckets a delay list needs.
pub open spec fn spec_delay_bucket_count(s: Seq<(Time, Duration)>, width: Duration) -> int {
    if s.len() == 0 {
        0
    } else {
        s.last().0 as int / width as int + 1
    }
}

/// Partitions time-ordered delay measurements into consecutive buckets of
/// one width, accumulating each bucket's delays into a distribution instead
/// of a raw count. Same bucket discipline as `bucket_counts`.
pub fn bucket_delays(recs: &Vec<(Time, Duration)>, width: Duration) -> (r: Vec<(Time, Histogram)>)
    requires
        width > 0,
        delay_times_sorted(recs@),
        recs@.len() > 0 ==> recs@.last().0 / width + 1 <= usize::MAX,
    ensures
        r@.len() == spec_delay_bucket_count(recs@, width),
        forall|i: int| 0 <= i < r@.len() ==> (#[trigger] r@[i]).0 == i * width,
        forall|i: int|
            0 <= i < r@.len() ==> (#[trigger] r@[i]).1.wf() && r@[i].1.ms() == delays_in_window(
                recs@,
                i * width,
                (i + 1) * width,
            ),
{
    let mut r: Vec<(Time, Histogram)> = Vec::new();
    let len = recs.len();
    if len == 0 {
        return r;
    }
    let last_t = recs[len - 1].0;
    let n_buckets: usize = (last_t / width + 1) as usize;
    proof {
        lemma_fundamental_div_mod(last_t as int, width as int);
        lemma_mod_bound(last_t as int, width as int);
        lemma_mul_is_commutative(n_buckets - 1, width as int);
    }
    for i in 0..n_buckets
        invariant
            width > 0,
            n_buckets == last_t as int / width as int + 1,
            (n_buckets - 1) * width <= last_t,
            r@.len() == i,
            forall|j: int| 0 <= j < i ==> (#[trigger] r@[j]).0 == j * width,
            forall|j: int|
                0 <= j < i ==> (#[trigger] r@[j]).1.wf() && r@[j].1@ =~= Seq::<u64>::empty(),
    {
        proof {
            lemma_mul_inequality(i as int, n_buckets - 1, width as int);
        }
        r.push(((i as u64) * width, Histogram::new()));
    }
    proof {
        assert(recs@.take(0) =~= Seq::<(Time, Duration)>::empty());
        assert forall|j: int| 0 <= j < r@.len() implies (#[trigger] r@[j]).1.ms()
            == delays_in_window(recs@.take(0), j * width, (j + 1) * width) by {
            assert(r@[j].1@.to_multiset() =~= Multiset::<u64>::empty()) by {
                r@[j].1@.to_multiset_ensures();
                assert(r@[j].1@.to_multiset().len() == 0);
            }
        }
    }
    for k in 0..len
        invariant
            width > 0,
            len == recs@.len(),
            delay_times_sorted(recs@),
            last_t == recs@.last().0,
            r@.len() == n_buckets,
            n_buckets == last_t as int / width as int + 1,
            forall|j: int| 0 <= j < r@.len() ==> (#[trigger] r@[j]).0 == j * width,
            forall|j: int|
                0 <= j < r@.len() ==> (#[trigger] r@[j]).1.wf() && r@[j].1.ms()
                    == delays_in_window(
                    recs@.take(k as int),
                    j * width,
                    (j + 1) * width,
                ),
    {
        let (t, d) = recs[k];
        let idx: usize = (t / width) as usize;
        proof {
            assert(t <= last_t) by {
                assert(recs@[k as int].0 <= recs@[len - 1].0);
            }
            lemma_div_is_ordered(t as int, last_t as int, width as int);
            lemma_fundamental_div_mod(t as int, width as int);
            lemma_mod_bound(t as int, width as int);
            assert(idx as int * width <= t < (idx as int + 1) * width) by (nonlinear_arith)
                requires
                    idx as int == t as int / width as int,
                    width > 0,
                    t as int == width as int * (t as int / width as int) + t as int % width as int,
                    0 <= (t as int % width as int) && (t as int % width as int) < width as int,
            ;
        }
        let h = &mut r[idx].1;
        h.add(d);
        proof {
            assert(recs@.take(k + 1).drop_last() =~= recs@.take(k as int));
            assert(recs@.take(k + 1).last() == recs@[k as int]);
            assert forall|j: int| 0 <= j < r@.len() implies (#[trigger] r@[j]).1.wf() && r@[j].1.ms()
                == delays_in_window(recs@.take(k + 1), j * width, (j + 1) * width) by {
                if j != idx as int {
                    assert(!(j * width <= t < (j + 1) * width)) by (nonlinear_arith)
                        requires
                            j != t as int / width as int,
                            width > 0,
                            t as int == width as int * (t as int / width as int) + t as int
                                % width as int,
                            0 <= (t as int % width as int) && (t as int % width as int)
                                < width as int,
                    ;
                }
            }
        }
    }
    proof {
        assert(recs@.take(len as int) =~= recs@);
    }
    r
}

/// The sum of the first `n` windows' counts.
pub open spec fn sum_window_counts(s: Seq<(Time, TripMode)>, width: Duration, n: int) -> int
    decreases n,
{
    if n <= 0 {
        0
    } else {
        sum_window_counts(s, width, n - 1) + count_in_window(s, (n - 1) * width, n * width)
    }
}

/// Counts over adjacent windows add: `[a, c)` splits at `b`.
proof fn lemma_window_split(s: Seq<(Time, TripMode)>, a: int, b: int, c: int)
    requires
        a <= b <= c,
    ensures
        count_in_window(s, a, c) == count_in_window(s, a, b) + count_in_window(s, b, c),
    decreases s.len(),
{
    if s.len() > 0 {
        lemma_window_split(s.drop_last(), a, b, c);
    }
}

/// Every record lands in the window `[0, hi)` that covers all its times.
proof fn lemma_window_all(s: Seq<(Time, TripMode)>, hi: int)
    requires
        forall|k: int| 0 <= k < s.len() ==> (#[trigger] s[k]).0 < hi,
    ensures
        count_in_window(s, 0, hi) == s.len(),
    decreases s.len(),
{
    if s.len() > 0 {
        lemma_window_all(s.drop_last(), hi);
    }
}

/// A window's count splits over the travel modes.
pub proof fn lemma_window_modes(s: Seq<(Time, TripMode)>, lo: int, hi: int)
    ensures
        count_in_window(s, lo, hi) == count_in_window_mode(s, lo, hi, TripMode::Walk)
            + count_in_window_mode(s, lo, hi, TripMode::Bike) + count_in_window_mode(
            s,
            lo,
            hi,
            TripMode::Transit,
        ) + count_in_window_mode(s, lo, hi, TripMode::Drive),
    decreases s.len(),
{
    if s.len() > 0 {
        lemma_window_modes(s.drop_last(), lo, hi);
    }
}

/// Round-trip: summing a bucketed series over all its buckets gives back
/// exactly the number of records it was built from — nothing is lost or
/// double-counted by bucketing.
pub proof fn lemma_bucket_round_trip(s: Seq<(Time, TripMode)>, width: Duration)
    requires
        width > 0,
        times_sorted(s),
    ensures
        sum_window_counts(s, width, spec_bucket_count(s, width)) == s.len(),
{
    let n = spec_bucket_count(s, width);
    if s.len() == 0 {
    } else {
        let last = s.last().0 as int;
        lemma_fundamental_div_mod(last, width as int);
        lemma_mod_bound(last, width as int);
        assert(last < n * width) by (nonlinear_arith)
            requires
                width > 0,
                n == last / width as int + 1,
                last == width as int * (last / width as int) + last % width as int,
                0 <= (last % width as int) && (last % width as int) < width as int,
        ;
        assert forall|k: int| 0 <= k < s.len() implies (#[trigger] s[k]).0 < n * width by {
            assert(s[k].0 <= s[s.len() - 1].0);
        }
        lemma_window_all(s, n * width);
        lemma_window_prefix_sum(s, width, n);
    }
}

/// The first `n` windows together cover `[0, n * width)`.
proof fn lemma_window_prefix_sum(s: Seq<(Time, TripMode)>, width: Duration, n: int)
    requires
        n >= 0,
    ensures
        sum_window_counts(s, width, n) == count_in_window(s, 0, n * width),
    decreases n,
{
    if n == 0 {
        lemma_window_empty(s);
    } else {
        lemma_window_prefix_sum(s, width, n - 1);
        assert((n - 1) * width <= n * width) by (nonlinear_arith)
            requires
                width >= 0,
        ;
        lemma_window_split(s, 0, (n - 1) * width, n * width);
    }
}

/// An empty window holds nothing.
proof fn lemma_window_empty(s: Seq<(Time, TripMode)>)
    ensures
        count_in_window(s, 0, 0) == 0,
    decreases s.len(),
{
    if s.len() > 0 {
        lemma_window_empty(s.drop_last());
    }
}

/// A window's count never exceeds the record count.
pub proof fn lemma_window_count_le_len(s: Seq<(Time, TripMode)>, lo: int, hi: int, m: TripMode)
    ensures
        count_in_window_mode(s, lo, hi, m) <= s.len(),
        count_in_window(s, lo, hi) <= s.len(),
    decreases s.len(),
{
    if s.len() > 0 {
        lemma_window_count_le_len(s.drop_last(), lo, hi, m);
    }
}

} // verus!
