//! The finished-trips dashboard table.
//!
//! The table lists finished trips, filtered by travel mode and by whether
//! they start or end off the map, and sorts them by one of six columns,
//! ascending or descending. Percentages are computed by division and
//! truncated toward zero, as the textual reports print them. Widget layout
//! and rendering live outside this crate; what is verified is which rows
//! the table holds and in what order.

use vstd::prelude::*;
use vstd::multiset::Multiset;
use vstd::seq_lib::group_to_multiset_ensures;
use crate::types::{Duration, Time, TripID, TripMode};

verus! {

/// How many rows one page of the table shows.
pub const ROWS: usize = 20;

/// Which column the table is sorted by.
#[derive(Clone, Copy, PartialEq, Eq, Structural, Debug)]
pub enum SortBy {
    Departure,
    Duration,
    RelativeDuration,
    PercentChangeDuration,
    Waiting,
    PercentWaiting,
}

/// Which travel modes the table shows.
#[derive(Clone, Copy, PartialEq, Eq, Structural, Debug)]
pub struct ModeFilter {
    pub walk: bool,
    pub bike: bool,
    pub transit: bool,
    pub drive: bool,
}

impl ModeFilter {
    pub open spec fn spec_contains(self, m: TripMode) -> bool {
        match m {
            TripMode::Walk => self.walk,
            TripMode::Bike => self.bike,
            TripMode::Transit => self.transit,
            TripMode::Drive => self.drive,
        }
    }

    pub fn contains(&self, m: TripMode) -> (r: bool)
        ensures
            r == self.spec_contains(m),
    {
        match m {
            TripMode::Walk => self.walk,
            TripMode::Bike => self.bike,
            TripMode::Transit => self.transit,
            TripMode::Drive => self.drive,
        }
    }

    /// Every mode shown.
    pub fn all() -> (r: ModeFilter)
        ensures
            r == (ModeFilter { walk: true, bike: true, transit: true, drive: true }),
            forall|m: TripMode| r.spec_contains(m),
    {
        ModeFilter { walk: true, bike: true, transit: true, drive: true }
    }
}

/// The table's display options.
#[derive(Clone, Copy, PartialEq, Eq, Structural, Debug)]
pub struct Options {
    pub sort_by: SortBy,
    pub descending: bool,
    pub modes: ModeFilter,
    pub off_map_starts: bool,
    pub off_map_ends: bool,
    pub skip: usize,
}

impl Options {
    /// Clicking a column header: sorting by a new column sorts descending;
    /// clicking the current column flips the direction. Either way the
    /// table jumps back to its first page.
    pub fn change(&mut self, value: SortBy)
        ensures
            final(self).skip == 0,
            final(self).sort_by == value,
            final(self).descending == (if old(self).sort_by == value {
                !old(self).descending
            } else {
                true
            }),
            final(self).modes == old(self).modes,
            final(self).off_map_starts == old(self).off_map_starts,
            final(self).off_map_ends == old(self).off_map_ends,
    {
        self.skip = 0;
        if self.sort_by == value {
            self.descending = !self.descending;
        } else {
            self.sort_by = value;
            self.descending = true;
        }
    }
}

/// What the simulation reports about one finished trip.
#[derive(Clone, Copy, PartialEq, Eq, Structural, Debug)]
pub struct TripSource {
    pub trip: TripID,
    /// The trip's mode; an aborted trip has none.
    pub mode: Option<TripMode>,
    pub departure: Time,
    pub duration_after: Duration,
    /// Time spent waiting during the trip; at most the whole duration.
    pub waiting: Duration,
    /// The trip's duration in the baseline run, if one was recorded there.
    pub prebaked_duration: Option<Duration>,
    pub starts_off_map: bool,
    pub ends_off_map: bool,
}

impl TripSource {
    pub open spec fn valid(self) -> bool {
        self.waiting <= self.duration_after
    }
}

/// One table row.
#[derive(Clone, Copy, PartialEq, Eq, Structural, Debug)]
pub struct Entry {
    pub trip: TripID,
    pub mode: TripMode,
    pub departure: Time,
    pub duration_after: Duration,
    pub duration_before: Duration,
    pub waiting: Duration,
    /// Waiting as a percentage of the trip's duration, truncated toward
    /// zero; a zero-duration trip shows zero (no data, never a division by
    /// zero).
    pub percent_waiting: u64,
}

/// Whether a trip passes the table's filters and becomes a row.
pub open spec fn spec_included(src: TripSource, opts: Options, has_prebaked: bool) -> bool {
    &&& src.mode is Some
    &&& opts.modes.spec_contains(src.mode->0)
    &&& (opts.off_map_starts || !src.starts_off_map)
    &&& (opts.off_map_ends || !src.ends_off_map)
    &&& (has_prebaked ==> src.prebaked_duration is Some)
}

/// Whether a trip counts as aborted: it has no mode, or the baseline run
/// aborted it while this run finished it.
pub open spec fn spec_aborts(src: TripSource, opts: Options, has_prebaked: bool) -> bool {
    ||| src.mode is None
    ||| (src.mode is Some && opts.modes.spec_contains(src.mode->0) && (opts.off_map_starts
        || !src.starts_off_map) && (opts.off_map_ends || !src.ends_off_map) && has_prebaked
        && src.prebaked_duration is None)
}

/// The row a trip becomes.
pub open spec fn spec_entry_of(src: TripSource, has_prebaked: bool) -> Entry {
    Entry {
        trip: src.trip,
        mode: src.mode->0,
        departure: src.departure,
        duration_after: src.duration_after,
        duration_before: if has_prebaked {
            src.prebaked_duration->0
        } else {
            0
        },
        waiting: src.waiting,
        percent_waiting: if src.duration_after == 0 {
            0
        } else {
            (100 * src.waiting as int / src.duration_after as int) as u64
        },
    }
}

/// The rows of the table, in source order, before sorting.
pub open spec fn spec_entries(srcs: Seq<TripSource>, opts: Options, has_prebaked: bool) -> Seq<
    Entry,
>
    decreases srcs.len(),
{
    if srcs.len() == 0 {
        Seq::empty()
    } else {
        let rest = spec_entries(srcs.drop_last(), opts, has_prebaked);
        if spec_included(srcs.last(), opts, has_prebaked) {
            rest.push(spec_entry_of(srcs.last(), has_prebaked))
        } else {
            rest
        }
    }
}

/// How many trips the table reports as aborted.
pub open spec fn spec_aborted_count(srcs: Seq<TripSource>, opts: Options, has_prebaked: bool) -> nat
    decreases srcs.len(),
{
    if srcs.len() == 0 {
        0
    } else {
        spec_aborted_count(srcs.drop_last(), opts, has_prebaked) + if spec_aborts(
            srcs.last(),
            opts,
            has_prebaked,
        ) {
            1nat
        } else {
            0nat
        }
    }
}

/// The value a row is ordered by under one column. A missing baseline
/// duration sorts a percent-change row last among ascending rows.
pub open spec fn spec_sort_key(e: Entry, by: SortBy) -> int {
    match by {
        SortBy::Departure => e.departure as int,
        SortBy::Duration => e.duration_after as int,
        SortBy::RelativeDuration => e.duration_after - e.duration_before,
        SortBy::PercentChangeDuration => if e.duration_before == 0 {
            i128::MAX as int
        } else {
            100 * e.duration_after as int / e.duration_before as int
        },
        SortBy::Waiting => e.waiting as int,
        SortBy::PercentWaiting => e.percent_waiting as int,
    }
}

/// Whether `a` may stand before `b` under the chosen order.
pub open spec fn spec_le(a: Entry, b: Entry, by: SortBy, descending: bool) -> bool {
    if descending {
        spec_sort_key(a, by) >= spec_sort_key(b, by)
    } else {
        spec_sort_key(a, by) <= spec_sort_key(b, by)
    }
}

/// Whether a row list is ordered.
pub open spec fn spec_sorted(es: Seq<Entry>, by: SortBy, descending: bool) -> bool {
    forall|i: int, j: int|
        0 <= i <= j < es.len() ==> spec_le(#[trigger] es[i], #[trigger] es[j], by, descending)
}

/// The finished-trips table: its options and its rows, ordered.
pub struct TripTable {
    pub opts: Options,
    pub entries: Vec<Entry>,
    pub aborted: usize,
}

impl TripTable {
    /// The table over the given trips, with the default options: every
    /// mode, off-map trips included, sorted by percent waiting,
    /// descending, first page.
    pub fn new(trips: &Vec<TripSource>, has_prebaked: bool) -> (r: TripTable)
        requires
            forall|k: int| 0 <= k < trips@.len() ==> (#[trigger] trips@[k]).valid(),
        ensures
            r.opts == (Options {
                sort_by: SortBy::PercentWaiting,
                descending: true,
                modes: ModeFilter { walk: true, bike: true, transit: true, drive: true },
                off_map_starts: true,
                off_map_ends: true,
                skip: 0,
            }),
            r.entries@.to_multiset() == spec_entries(trips@, r.opts, has_prebaked).to_multiset(),
            spec_sorted(r.entries@, r.opts.sort_by, r.opts.descending),
            r.aborted == spec_aborted_count(trips@, r.opts, has_prebaked),
    {
        let opts = Options {
            sort_by: SortBy::PercentWaiting,
            descending: true,
            modes: ModeFilter::all(),
            off_map_starts: true,
            off_map_ends: true,
            skip: 0,
        };
        let (entries, aborted) = make(trips, &opts, has_prebaked);
        TripTable { opts, entries, aborted }
    }

    /// Rebuilds the rows under the table's current options.
    pub fn recalc(&mut self, trips: &Vec<TripSource>, has_prebaked: bool)
        requires
            forall|k: int| 0 <= k < trips@.len() ==> (#[trigger] trips@[k]).valid(),
        ensures
            final(self).opts == old(self).opts,
            final(self).entries@.to_multiset() == spec_entries(
                trips@,
                old(self).opts,
                has_prebaked,
            ).to_multiset(),
            spec_sorted(final(self).entries@, old(self).opts.sort_by, old(self).opts.descending),
            final(self).aborted == spec_aborted_count(trips@, old(self).opts, has_prebaked),
    {
        let (entries, aborted) = make(trips, &self.opts, has_prebaked);
        self.entries = entries;
        self.aborted = aborted;
    }
}

/// Gathers, filters and sorts the rows, and counts the aborted trips.
fn make(trips: &Vec<TripSource>, opts: &Options, has_prebaked: bool) -> (r: (Vec<Entry>, usize))
    requires
        forall|k: int| 0 <= k < trips@.len() ==> (#[trigger] trips@[k]).valid(),
    ensures
        r.0@.to_multiset() == spec_entries(trips@, *opts, has_prebaked).to_multiset(),
        spec_sorted(r.0@, opts.sort_by, opts.descending),
        r.1 == spec_aborted_count(trips@, *opts, has_prebaked),
{
    let mut data: Vec<Entry> = Vec::new();
    let mut aborted: usize = 0;
    let n = trips.len();
    proof {
        assert(trips@.take(0) =~= Seq::<TripSource>::empty());
    }
    for k in 0..n
        invariant
            n == trips@.len(),
            forall|q: int| 0 <= q < trips@.len() ==> (#[trigger] trips@[q]).valid(),
            data@ == spec_entries(trips@.take(k as int), *opts, has_prebaked),
            aborted == spec_aborted_count(trips@.take(k as int), *opts, has_prebaked),
            aborted <= k,
    {
        proof {
            assert(trips@.take(k + 1).drop_last() =~= trips@.take(k as int));
            assert(trips@.take(k + 1).last() == trips@[k as int]);
            lemma_aborted_count_le_len(trips@.take(k as int), *opts, has_prebaked);
        }
        let src = trips[k];
        let included = match src.mode {
            Some(m) => opts.modes.contains(m) && (opts.off_map_starts || !src.starts_off_map) && (
            opts.off_map_ends || !src.ends_off_map) && (!has_prebaked
                || src.prebaked_duration.is_some()),
            None => false,
        };
        if included {
            let duration_before = if has_prebaked {
                match src.prebaked_duration {
                    Some(d) => d,
                    None => 0,
                }
            } else {
                0
            };
            let percent_waiting: u64 = if src.duration_after == 0 {
                0
            } else {
                ((100u128 * src.waiting as u128) / (src.duration_after as u128)) as u64
            };
            proof {
                if src.duration_after != 0 {
                    vstd::arithmetic::mul::lemma_mul_inequality(
                        src.waiting as int,
                        src.duration_after as int,
                        100,
                    );
                    vstd::arithmetic::div_mod::lemma_div_is_ordered(
                        100 * src.waiting as int,
                        100 * src.duration_after as int,
                        src.duration_after as int,
                    );
                    vstd::arithmetic::div_mod::lemma_div_multiples_vanish(
                        100,
                        src.duration_after as int,
                    );
                    vstd::arithmetic::div_mod::lemma_div_pos_is_pos(
                        100 * src.waiting as int,
                        src.duration_after as int,
                    );
                    assert(src.waiting as int * 100 == 100 * src.waiting as int)
                        by (nonlinear_arith);
                    assert(src.duration_after as int * 100 == 100 * src.duration_after as int)
                        by (nonlinear_arith);
                }
            }
            let mode = match src.mode {
                Some(m) => m,
                None => TripMode::Walk,
            };
            data.push(
                Entry {
                    trip: src.trip,
                    mode,
                    departure: src.departure,
                    duration_after: src.duration_after,
                    duration_before,
                    waiting: src.waiting,
                    percent_waiting,
                },
            );
        } else {
            let aborts = match src.mode {
                Some(m) => opts.modes.contains(m) && (opts.off_map_starts || !src.starts_off_map)
                    && (opts.off_map_ends || !src.ends_off_map) && has_prebaked
                    && src.prebaked_duration.is_none(),
                None => true,
            };
            if aborts {
                aborted = aborted + 1;
            }
        }
    }
    proof {
        assert(trips@.take(n as int) =~= trips@);
    }
    let sorted = sort_entries(data, opts.sort_by, opts.descending);
    (sorted, aborted)
}

/// The row's sort value under one column.
fn key_of(e: &Entry, by: SortBy) -> (r: i128)
    ensures
        r == spec_sort_key(*e, by),
{
    match by {
        SortBy::Departure => e.departure as i128,
        SortBy::Duration => e.duration_after as i128,
        SortBy::RelativeDuration => e.duration_after as i128 - e.duration_before as i128,
        SortBy::PercentChangeDuration => {
            if e.duration_before == 0 {
                i128::MAX
            } else {
                proof {
                    vstd::arithmetic::div_mod::lemma_div_pos_is_pos(
                        100 * e.duration_after as int,
                        e.duration_before as int,
                    );
                    vstd::arithmetic::div_mod::lemma_div_is_ordered(
                        0,
                        100 * e.duration_after as int,
                        e.duration_before as int,
                    );
                }
                (100i128 * e.duration_after as i128) / (e.duration_before as i128)
            }
        },
        SortBy::Waiting => e.waiting as i128,
        SortBy::PercentWaiting => e.percent_waiting as i128,
    }
}

/// Orders the rows by the chosen column and direction: a selection sort
/// that moves the best remaining row over, one at a time. The result holds
/// exactly the given rows.
fn sort_entries(v: Vec<Entry>, by: SortBy, descending: bool) -> (r: Vec<Entry>)
    ensures
        r@.to_multiset() == v@.to_multiset(),
        r@.len() == v@.len(),
        spec_sorted(r@, by, descending),
{
    broadcast use group_to_multiset_ensures;

    let mut work = v;
    let mut out: Vec<Entry> = Vec::new();
    proof {
        assert(out@.to_multiset().add(work@.to_multiset()) =~= v@.to_multiset());
    }
    while work.len() > 0
        invariant
            out@.to_multiset().add(work@.to_multiset()) == v@.to_multiset(),
            out@.len() + work@.len() == v@.len(),
            spec_sorted(out@, by, descending),
            forall|p: int, q: int|
                0 <= p < out@.len() && 0 <= q < work@.len() ==> spec_le(
                    #[trigger] out@[p],
                    #[trigger] work@[q],
                    by,
                    descending,
                ),
        decreases work@.len(),
    {
        let mut best: usize = 0;
        let m = work.len();
        for q in 1..m
            invariant
                m == work@.len(),
                best < m,
                forall|j: int| 0 <= j < q ==> spec_le(work@[best as int], #[trigger] work@[j], by, descending),
        {
            let better = if descending {
                key_of(&work[q], by) > key_of(&work[best], by)
            } else {
                key_of(&work[q], by) < key_of(&work[best], by)
            };
            if better {
                best = q;
            }
        }
        let ghost old_work = work@;
        let e = work.remove(best);
        let ghost old_out = out@;
        out.push(e);
        proof {
            old_work.to_multiset_ensures();
            old_out.to_multiset_ensures();
            assert(old_work.contains(old_work[best as int]));
            assert(old_work.to_multiset().count(e) > 0);
            assert(work@ == old_work.remove(best as int));
            assert(old_work.remove(best as int).to_multiset() =~= old_work.to_multiset().remove(
                e,
            ));
            assert(old_out.push(e).to_multiset() =~= old_out.to_multiset().insert(e));
            assert(work@.to_multiset() == old_work.to_multiset().remove(e));
            assert(out@.to_multiset() == old_out.to_multiset().insert(e));
            assert(out@.to_multiset().add(work@.to_multiset()) =~= v@.to_multiset());
            assert forall|p: int, q: int|
                0 <= p < out@.len() && 0 <= q < work@.len() implies spec_le(
                #[trigger] out@[p],
                #[trigger] work@[q],
                by,
                descending,
            ) by {
                let w = if q < best as int {
                    q
                } else {
                    q + 1
                };
                if p < old_out.len() {
                    assert(out@[p] == old_out[p]);
                }
            }
            assert forall|i: int, j: int| 0 <= i <= j < out@.len() implies spec_le(
                #[trigger] out@[i],
                #[trigger] out@[j],
                by,
                descending,
            ) by {
                if j == out@.len() - 1 && i < j {
                    assert(out@[i] == old_out[i]);
                }
            }
        }
    }
    out
}

/// Aborted trips are no more numerous than the sources.
proof fn lemma_aborted_count_le_len(srcs: Seq<TripSource>, opts: Options, has_prebaked: bool)
    ensures
        spec_aborted_count(srcs, opts, has_prebaked) <= srcs.len(),
    decreases srcs.len(),
{
    if srcs.len() > 0 {
        lemma_aborted_count_le_len(srcs.drop_last(), opts, has_prebaked);
    }
}

} // verus!
