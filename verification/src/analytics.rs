//! The metrics aggregator.
//!
//! Owns an append-only log of typed events, ordered by simulation time, and
//! the read-models derived from it: always-available per-road and
//! per-intersection counters (materialized views over the log, rebuildable
//! at any time), and time-bucketed counts, delay distributions, trip
//! timelines and bus headways built lazily at query time. Every bucketed
//! query walks the already time-ordered records and stops at the first one
//! past `now`; that early break is sound only because `event` refuses
//! out-of-order times.

use vstd::prelude::*;
use vstd::multiset::Multiset;
use crate::types::{
    BusRouteID, Duration, IntersectionID, RoadID, Time, TripID, TripMode, spec_mode_of_agent,
};
use crate::events::{
    BusArrival, DelayEntry, Event, FinishedTrip, RoadEntry, Traversable, TripLogEntry,
    TripLogMarker, TripPhaseKind, TurnEntry,
};
use crate::spatial::{Path, SpatialIndex};
use crate::table::{Counter, Table};
use crate::histogram::{Histogram, PercentageHistogram};
use vstd::arithmetic::mul::lemma_mul_inequality;
use crate::buckets::{
    ModeCounts, bucket_counts, bucket_delays, count_in_window_mode, delays_in_window,
    spec_bucket_count, spec_delay_bucket_count,
};
use vstd::arithmetic::div_mod::lemma_div_is_ordered;

verus! {

/// Always-available throughput counters, layered over the raw per-locus
/// records they are derived from. The counters are caches: the raw records
/// stay authoritative.
pub struct ThruputStats {
    pub count_per_road: Counter,
    pub count_per_intersection: Counter,
    pub raw_per_road: Vec<RoadEntry>,
    pub raw_per_intersection: Vec<TurnEntry>,
}

/// The aggregator's whole state.
pub struct Analytics {
    pub thruput_stats: ThruputStats,
    pub bus_arrivals: Vec<BusArrival>,
    pub total_bus_passengers: Counter,
    pub finished_trips: Vec<FinishedTrip>,
    pub trip_log: Vec<TripLogEntry>,
    pub intersection_delays: Table<Vec<DelayEntry>>,
    /// The time of the most recent recorded event: nothing earlier may be
    /// recorded after it.
    pub latest_time: Time,
}

/// How many road records name this road.
pub open spec fn count_road(s: Seq<RoadEntry>, road: usize) -> nat
    decreases s.len(),
{
    if s.len() == 0 {
        0
    } else {
        count_road(s.drop_last(), road) + if s.last().road.0 == road {
            1nat
        } else {
            0nat
        }
    }
}

/// How many turn records name this intersection.
pub open spec fn count_intersection(s: Seq<TurnEntry>, i: usize) -> nat
    decreases s.len(),
{
    if s.len() == 0 {
        0
    } else {
        count_intersection(s.drop_last(), i) + if s.last().intersection.0 == i {
            1nat
        } else {
            0nat
        }
    }
}

/// What `event` appends to the per-road records.
pub open spec fn road_delta(ev: Event, time: Time, map: &SpatialIndex) -> Seq<RoadEntry> {
    match ev {
        Event::AgentEntersTraversable(a, Traversable::Lane(l)) => seq![
            RoadEntry { time, mode: spec_mode_of_agent(a), road: map.lanes@[l.0 as int].parent },
        ],
        _ => Seq::empty(),
    }
}

/// What `event` appends to the per-intersection records.
pub open spec fn turn_delta(ev: Event, time: Time) -> Seq<TurnEntry> {
    match ev {
        Event::AgentEntersTraversable(a, Traversable::Turn(t)) => seq![
            TurnEntry { time, mode: spec_mode_of_agent(a), intersection: t.parent },
        ],
        _ => Seq::empty(),
    }
}

/// What `event` appends to the bus arrivals.
pub open spec fn arrival_delta(ev: Event, time: Time) -> Seq<BusArrival> {
    match ev {
        Event::BusArrivedAtStop(bus, route, stop) => seq![
            BusArrival { time, car: bus, route, stop },
        ],
        _ => Seq::empty(),
    }
}

/// What `event` appends to the finished trips: a finish with its mode and
/// duration, or an abort with no mode and duration zero.
pub open spec fn finished_delta(ev: Event, time: Time) -> Seq<FinishedTrip> {
    match ev {
        Event::TripFinished(id, m, dt) => seq![
            FinishedTrip { time, trip: id, mode: Some(m), duration: dt },
        ],
        Event::TripAborted(id) => seq![
            FinishedTrip { time, trip: id, mode: None, duration: 0 },
        ],
        _ => Seq::empty(),
    }
}

/// What `event` appends to the trip timeline log.
pub open spec fn log_delta(ev: Event, time: Time) -> Seq<TripLogEntry> {
    match ev {
        Event::TripPhaseStarting(id, req, kind) => seq![
            TripLogEntry { time, trip: id, request: req, marker: TripLogMarker::PhaseStart(kind) },
        ],
        Event::TripAborted(id) => seq![
            TripLogEntry { time, trip: id, request: None, marker: TripLogMarker::Aborted },
        ],
        Event::TripFinished(id, _, _) => seq![
            TripLogEntry { time, trip: id, request: None, marker: TripLogMarker::Finished },
        ],
        _ => Seq::empty(),
    }
}

/// What `event` appends to one intersection's delay records.
pub open spec fn delay_delta(ev: Event, time: Time, i: usize) -> Seq<DelayEntry> {
    match ev {
        Event::IntersectionDelayMeasured(id, delay) => if id.0 == i {
            seq![DelayEntry { time, delay }]
        } else {
            Seq::empty()
        },
        _ => Seq::empty(),
    }
}

/// How `event` changes one route's boarding count.
pub open spec fn passenger_delta(ev: Event, rt: usize) -> int {
    match ev {
        Event::PedEntersBus(_, _, route) => if route.0 == rt {
            1
        } else {
            0
        },
        _ => 0,
    }
}

impl Analytics {
    /// One intersection's delay records, in recording order.
    pub open spec fn spec_delays(&self, i: usize) -> Seq<DelayEntry> {
        match self.intersection_delays.spec_get(i) {
            Some(v) => v@,
            None => Seq::empty(),
        }
    }

    /// The aggregator's invariant: every record list is ordered by time and
    /// bounded by the latest recorded time (insertion order is time order),
    /// and each throughput counter equals the count derivable from its raw
    /// records — the materialized views never drift from the log.
    pub open spec fn wf(&self) -> bool {
        &&& self.thruput_stats.count_per_road.wf()
        &&& self.thruput_stats.count_per_intersection.wf()
        &&& self.total_bus_passengers.wf()
        &&& self.intersection_delays.wf()
        &&& forall|r: usize|
            #[trigger] self.thruput_stats.count_per_road.spec_count(r) == count_road(
                self.thruput_stats.raw_per_road@,
                r,
            )
        &&& forall|i: usize|
            #[trigger] self.thruput_stats.count_per_intersection.spec_count(i)
                == count_intersection(self.thruput_stats.raw_per_intersection@, i)
        &&& forall|i: int, j: int|
            0 <= i <= j < self.thruput_stats.raw_per_road@.len()
                ==> (#[trigger] self.thruput_stats.raw_per_road@[i]).time <= (
            #[trigger] self.thruput_stats.raw_per_road@[j]).time
        &&& forall|i: int|
            0 <= i < self.thruput_stats.raw_per_road@.len()
                ==> (#[trigger] self.thruput_stats.raw_per_road@[i]).time <= self.latest_time
        &&& forall|i: int, j: int|
            0 <= i <= j < self.thruput_stats.raw_per_intersection@.len()
                ==> (#[trigger] self.thruput_stats.raw_per_intersection@[i]).time <= (
            #[trigger] self.thruput_stats.raw_per_intersection@[j]).time
        &&& forall|i: int|
            0 <= i < self.thruput_stats.raw_per_intersection@.len()
                ==> (#[trigger] self.thruput_stats.raw_per_intersection@[i]).time
                <= self.latest_time
        &&& forall|i: int, j: int|
            0 <= i <= j < self.bus_arrivals@.len() ==> (#[trigger] self.bus_arrivals@[i]).time <= (
            #[trigger] self.bus_arrivals@[j]).time
        &&& forall|i: int|
            0 <= i < self.bus_arrivals@.len() ==> (#[trigger] self.bus_arrivals@[i]).time
                <= self.latest_time
        &&& forall|i: int, j: int|
            0 <= i <= j < self.finished_trips@.len() ==> (#[trigger] self.finished_trips@[i]).time
                <= (#[trigger] self.finished_trips@[j]).time
        &&& forall|i: int|
            0 <= i < self.finished_trips@.len() ==> (#[trigger] self.finished_trips@[i]).time
                <= self.latest_time
        &&& forall|i: int, j: int|
            0 <= i <= j < self.trip_log@.len() ==> (#[trigger] self.trip_log@[i]).time <= (
            #[trigger] self.trip_log@[j]).time
        &&& forall|i: int|
            0 <= i < self.trip_log@.len() ==> (#[trigger] self.trip_log@[i]).time
                <= self.latest_time
        &&& forall|k: int, i: int, j: int|
            #![trigger self.intersection_delays.vals@[k]@[i], self.intersection_delays.vals@[k]@[j]]
            0 <= k < self.intersection_delays.vals@.len() && 0 <= i <= j
                < self.intersection_delays.vals@[k]@.len()
                ==> self.intersection_delays.vals@[k]@[i].time
                <= self.intersection_delays.vals@[k]@[j].time
        &&& forall|k: int, i: int|
            #![trigger self.intersection_delays.vals@[k]@[i]]
            0 <= k < self.intersection_delays.vals@.len() && 0 <= i
                < self.intersection_delays.vals@[k]@.len()
                ==> self.intersection_delays.vals@[k]@[i].time <= self.latest_time
    }

    /// A fresh aggregator: nothing recorded, every counter at zero.
    pub fn new() -> (r: Analytics)
        ensures
            r.wf(),
            r.latest_time == 0,
            r.thruput_stats.raw_per_road@ =~= Seq::<RoadEntry>::empty(),
            r.thruput_stats.raw_per_intersection@ =~= Seq::<TurnEntry>::empty(),
            r.bus_arrivals@ =~= Seq::<BusArrival>::empty(),
            r.finished_trips@ =~= Seq::<FinishedTrip>::empty(),
            r.trip_log@ =~= Seq::<TripLogEntry>::empty(),
            forall|i: usize| r.spec_delays(i) =~= Seq::<DelayEntry>::empty(),
            forall|rt: usize| r.total_bus_passengers.spec_count(rt) == 0,
    {
        Analytics {
            thruput_stats: ThruputStats {
                count_per_road: Counter::new(),
                count_per_intersection: Counter::new(),
                raw_per_road: Vec::new(),
                raw_per_intersection: Vec::new(),
            },
            bus_arrivals: Vec::new(),
            total_bus_passengers: Counter::new(),
            finished_trips: Vec::new(),
            trip_log: Vec::new(),
            intersection_delays: Table::new(),
            latest_time: 0,
        }
    }

    /// Appends one event to the log at the given simulated time and updates
    /// the always-available counters. Times must never go backwards:
    /// recording is append-ordered, which is what lets every query walk the
    /// records without sorting.
    pub fn event(&mut self, ev: Event, time: Time, map: &SpatialIndex)
        requires
            old(self).wf(),
            time >= old(self).latest_time,
            ev.valid_for(map),
            ev matches Event::PedEntersBus(_, _, route) ==> old(
                self,
            ).total_bus_passengers.spec_count(route.0) < u64::MAX,
        ensures
            final(self).wf(),
            final(self).latest_time == time,
            final(self).thruput_stats.raw_per_road@ == old(self).thruput_stats.raw_per_road@
                + road_delta(ev, time, map),
            final(self).thruput_stats.raw_per_intersection@ == old(
                self,
            ).thruput_stats.raw_per_intersection@ + turn_delta(ev, time),
            final(self).bus_arrivals@ == old(self).bus_arrivals@ + arrival_delta(ev, time),
            final(self).finished_trips@ == old(self).finished_trips@ + finished_delta(ev, time),
            final(self).trip_log@ == old(self).trip_log@ + log_delta(ev, time),
            forall|i: usize|
                #[trigger] final(self).spec_delays(i) == old(self).spec_delays(i) + delay_delta(
                    ev,
                    time,
                    i,
                ),
            forall|rt: usize|
                #[trigger] final(self).total_bus_passengers.spec_count(rt) == old(
                    self,
                ).total_bus_passengers.spec_count(rt) + passenger_delta(ev, rt),
    {
        match ev {
            Event::AgentEntersTraversable(a, to) => {
                let mode = TripMode::of_agent(a);
                match to {
                    Traversable::Lane(l) => {
                        let r = map.get_l(l).parent;
                        proof {
                            lemma_count_road_le_len(self.thruput_stats.raw_per_road@, r.0);
                        }
                        self.thruput_stats.raw_per_road.push(
                            RoadEntry { time, mode, road: r },
                        );
                        proof {
                            assert(self.thruput_stats.raw_per_road.len() <= usize::MAX);
                        }
                        self.thruput_stats.count_per_road.inc(r.0);
                        proof {
                            let s = self.thruput_stats.raw_per_road@;
                            assert(s.drop_last() =~= old(self).thruput_stats.raw_per_road@);
                            assert forall|r2: usize| #[trigger] count_road(s, r2) == count_road(
                                old(self).thruput_stats.raw_per_road@,
                                r2,
                            ) + if r2 == r.0 {
                                1int
                            } else {
                                0int
                            } by {}
                        }
                    },
                    Traversable::Turn(t) => {
                        proof {
                            lemma_count_intersection_le_len(
                                self.thruput_stats.raw_per_intersection@,
                                t.parent.0,
                            );
                        }
                        self.thruput_stats.raw_per_intersection.push(
                            TurnEntry { time, mode, intersection: t.parent },
                        );
                        proof {
                            assert(self.thruput_stats.raw_per_intersection.len() <= usize::MAX);
                        }
                        self.thruput_stats.count_per_intersection.inc(t.parent.0);
                        proof {
                            let s = self.thruput_stats.raw_per_intersection@;
                            assert(s.drop_last() =~= old(
                                self,
                            ).thruput_stats.raw_per_intersection@);
                            assert forall|i2: usize| #[trigger] count_intersection(s, i2)
                                == count_intersection(
                                old(self).thruput_stats.raw_per_intersection@,
                                i2,
                            ) + if i2 == t.parent.0 {
                                1int
                            } else {
                                0int
                            } by {}
                        }
                    },
                }
            },
            Event::BusArrivedAtStop(bus, route, stop) => {
                self.bus_arrivals.push(BusArrival { time, car: bus, route, stop });
            },
            Event::PedEntersBus(_, _, route) => {
                self.total_bus_passengers.inc(route.0);
            },
            Event::TripFinished(id, m, dt) => {
                self.finished_trips.push(
                    FinishedTrip { time, trip: id, mode: Some(m), duration: dt },
                );
                self.trip_log.push(
                    TripLogEntry { time, trip: id, request: None, marker: TripLogMarker::Finished },
                );
            },
            Event::TripAborted(id) => {
                self.finished_trips.push(
                    FinishedTrip { time, trip: id, mode: None, duration: 0 },
                );
                self.trip_log.push(
                    TripLogEntry { time, trip: id, request: None, marker: TripLogMarker::Aborted },
                );
            },
            Event::IntersectionDelayMeasured(id, delay) => {
                let idx = self.intersection_delays.index_or_insert(id.0, Vec::new());
                let ghost mid = self.intersection_delays;
                self.intersection_delays.vals[idx].push(DelayEntry { time, delay });
                proof {
                    crate::table::lemma_table_get_update(
                        mid.keys@,
                        mid.vals@,
                        id.0,
                        idx as int,
                        self.intersection_delays.vals@[idx as int],
                    );
                }
            },
            Event::TripPhaseStarting(id, req, kind) => {
                self.trip_log.push(
                    TripLogEntry {
                        time,
                        trip: id,
                        request: req,
                        marker: TripLogMarker::PhaseStart(kind),
                    },
                );
            },
        }
        self.latest_time = time;
        proof {
            assert(final(self).thruput_stats.raw_per_road@ == old(
                self,
            ).thruput_stats.raw_per_road@ + road_delta(ev, time, map)) by {
                if road_delta(ev, time, map).len() == 0 {
                    assert(self.thruput_stats.raw_per_road@ =~= old(
                        self,
                    ).thruput_stats.raw_per_road@ + road_delta(ev, time, map));
                } else {
                    assert(self.thruput_stats.raw_per_road@ =~= old(
                        self,
                    ).thruput_stats.raw_per_road@ + road_delta(ev, time, map));
                }
            }
            assert(self.thruput_stats.raw_per_intersection@ =~= old(
                self,
            ).thruput_stats.raw_per_intersection@ + turn_delta(ev, time));
            assert(self.bus_arrivals@ =~= old(self).bus_arrivals@ + arrival_delta(ev, time));
            assert(self.finished_trips@ =~= old(self).finished_trips@ + finished_delta(ev, time));
            assert(self.trip_log@ =~= old(self).trip_log@ + log_delta(ev, time));
            assert forall|i: usize| #[trigger] self.spec_delays(i) == old(self).spec_delays(i)
                + delay_delta(ev, time, i) by {
                assert(self.spec_delays(i) =~= old(self).spec_delays(i) + delay_delta(
                    ev,
                    time,
                    i,
                ));
            }
        }
    }

    /// Records backpressure along a path. Kept as an explicit no-op: the
    /// measurement was retired, but callers still report it.
    pub fn record_backpressure(&mut self, path: &Path)
        ensures
            *final(self) == *old(self),
    {
    }
}

/// The durations of trips of one mode finished no later than `now`.
pub open spec fn finished_ms(s: Seq<FinishedTrip>, now: Time, mode: TripMode) -> Multiset<u64>
    decreases s.len(),
{
    if s.len() == 0 {
        Multiset::empty()
    } else {
        let rest = finished_ms(s.drop_last(), now, mode);
        if s.last().time <= now && s.last().mode == Some(mode) {
            rest.insert(s.last().duration)
        } else {
            rest
        }
    }
}

/// The durations of all non-aborted trips finished no later than `now`.
pub open spec fn all_modes_ms(s: Seq<FinishedTrip>, now: Time) -> Multiset<u64>
    decreases s.len(),
{
    if s.len() == 0 {
        Multiset::empty()
    } else {
        let rest = all_modes_ms(s.drop_last(), now);
        if s.last().time <= now && s.last().mode is Some {
            rest.insert(s.last().duration)
        } else {
            rest
        }
    }
}

/// How many trips were aborted no later than `now`.
pub open spec fn count_aborted(s: Seq<FinishedTrip>, now: Time) -> nat
    decreases s.len(),
{
    if s.len() == 0 {
        0
    } else {
        count_aborted(s.drop_last(), now) + if s.last().time <= now && s.last().mode is None {
            1nat
        } else {
            0nat
        }
    }
}

/// The road records of one road up to `now`, as (time, mode) pairs in
/// record order.
pub open spec fn filter_road(s: Seq<RoadEntry>, road: RoadID, now: Time) -> Seq<(Time, TripMode)>
    decreases s.len(),
{
    if s.len() == 0 {
        Seq::empty()
    } else {
        let rest = filter_road(s.drop_last(), road, now);
        if s.last().road == road && s.last().time <= now {
            rest.push((s.last().time, s.last().mode))
        } else {
            rest
        }
    }
}

/// The turn records of one intersection up to `now`, as (time, mode) pairs
/// in record order.
pub open spec fn filter_turn(
    s: Seq<TurnEntry>,
    i: IntersectionID,
    now: Time,
) -> Seq<(Time, TripMode)>
    decreases s.len(),
{
    if s.len() == 0 {
        Seq::empty()
    } else {
        let rest = filter_turn(s.drop_last(), i, now);
        if s.last().intersection == i && s.last().time <= now {
            rest.push((s.last().time, s.last().mode))
        } else {
            rest
        }
    }
}

/// One intersection's delays measured between `t1` and `t2`, inclusive.
pub open spec fn delays_between(s: Seq<DelayEntry>, t1: Time, t2: Time) -> Multiset<u64>
    decreases s.len(),
{
    if s.len() == 0 {
        Multiset::empty()
    } else {
        let rest = delays_between(s.drop_last(), t1, t2);
        if t1 <= s.last().time <= t2 {
            rest.insert(s.last().delay)
        } else {
            rest
        }
    }
}

/// One intersection's delays up to `now`, as (time, delay) pairs in record
/// order.
pub open spec fn filter_delays(s: Seq<DelayEntry>, now: Time) -> Seq<(Time, Duration)>
    decreases s.len(),
{
    if s.len() == 0 {
        Seq::empty()
    } else {
        let rest = filter_delays(s.drop_last(), now);
        if s.last().time <= now {
            rest.push((s.last().time, s.last().delay))
        } else {
            rest
        }
    }
}

impl Analytics {
    /// The duration distribution of trips of one mode that finished no
    /// later than `now`. Walks the time-ordered records and stops at the
    /// first one past `now`.
    pub fn finished_trips(&self, now: Time, mode: TripMode) -> (r: Histogram)
        requires
            self.wf(),
        ensures
            r.wf(),
            r.ms() == finished_ms(self.finished_trips@, now, mode),
    {
        let mut distrib = Histogram::new();
        proof {
            lemma_empty_hist_ms(&distrib);
            assert(self.finished_trips@.take(0) =~= Seq::<FinishedTrip>::empty());
        }
        let n = self.finished_trips.len();
        let mut k: usize = 0;
        while k < n
            invariant
                self.wf(),
                k <= n,
                n == self.finished_trips@.len(),
                distrib.wf(),
                distrib.ms() == finished_ms(self.finished_trips@.take(k as int), now, mode),
            decreases n - k,
        {
            let e = self.finished_trips[k];
            if e.time > now {
                proof {
                    lemma_finished_cutoff(self.finished_trips@, now, mode, k as int);
                }
                return distrib;
            }
            proof {
                assert(self.finished_trips@.take(k + 1).drop_last() =~= self.finished_trips@.take(
                    k as int,
                ));
            }
            if e.mode == Some(mode) {
                distrib.add(e.duration);
            }
            k = k + 1;
        }
        proof {
            assert(self.finished_trips@.take(n as int) =~= self.finished_trips@);
        }
        distrib
    }

    /// All finished trips up to `now` at once: the duration distribution
    /// over every non-aborted trip, the number of aborted trips, and one
    /// distribution per travel mode, in the fixed mode order.
    pub fn all_finished_trips(&self, now: Time) -> (r: (Histogram, usize, Vec<(TripMode, Histogram)>))
        requires
            self.wf(),
        ensures
            r.0.wf(),
            r.0.ms() == all_modes_ms(self.finished_trips@, now),
            r.1 == count_aborted(self.finished_trips@, now),
            r.2@.len() == 4,
            r.2@[0].0 == TripMode::Walk && r.2@[0].1.wf() && r.2@[0].1.ms() == finished_ms(
                self.finished_trips@,
                now,
                TripMode::Walk,
            ),
            r.2@[1].0 == TripMode::Bike && r.2@[1].1.wf() && r.2@[1].1.ms() == finished_ms(
                self.finished_trips@,
                now,
                TripMode::Bike,
            ),
            r.2@[2].0 == TripMode::Transit && r.2@[2].1.wf() && r.2@[2].1.ms() == finished_ms(
                self.finished_trips@,
                now,
                TripMode::Transit,
            ),
            r.2@[3].0 == TripMode::Drive && r.2@[3].1.wf() && r.2@[3].1.ms() == finished_ms(
                self.finished_trips@,
                now,
                TripMode::Drive,
            ),
    {
        let mut all = Histogram::new();
        let mut walk = Histogram::new();
        let mut bike = Histogram::new();
        let mut transit = Histogram::new();
        let mut drive = Histogram::new();
        let mut num_aborted: usize = 0;
        proof {
            lemma_empty_hist_ms(&all);
            lemma_empty_hist_ms(&walk);
            lemma_empty_hist_ms(&bike);
            lemma_empty_hist_ms(&transit);
            lemma_empty_hist_ms(&drive);
            assert(self.finished_trips@.take(0) =~= Seq::<FinishedTrip>::empty());
        }
        let n = self.finished_trips.len();
        let mut k: usize = 0;
        while k < n
            invariant
                self.wf(),
                k <= n,
                n == self.finished_trips@.len(),
                all.wf() && walk.wf() && bike.wf() && transit.wf() && drive.wf(),
                all.ms() == all_modes_ms(self.finished_trips@.take(k as int), now),
                walk.ms() == finished_ms(self.finished_trips@.take(k as int), now, TripMode::Walk),
                bike.ms() == finished_ms(self.finished_trips@.take(k as int), now, TripMode::Bike),
                transit.ms() == finished_ms(
                    self.finished_trips@.take(k as int),
                    now,
                    TripMode::Transit,
                ),
                drive.ms() == finished_ms(
                    self.finished_trips@.take(k as int),
                    now,
                    TripMode::Drive,
                ),
                num_aborted == count_aborted(self.finished_trips@.take(k as int), now),
                num_aborted <= k,
            decreases n - k,
        {
            let e = self.finished_trips[k];
            proof {
                assert(self.finished_trips@.take(k + 1).drop_last() =~= self.finished_trips@.take(
                    k as int,
                ));
                lemma_aborted_le_len(self.finished_trips@.take(k as int), now);
            }
            if e.time > now {
                proof {
                    lemma_finished_all_cutoff(self.finished_trips@, now, k as int);
                    lemma_finished_cutoff(self.finished_trips@, now, TripMode::Walk, k as int);
                    lemma_finished_cutoff(self.finished_trips@, now, TripMode::Bike, k as int);
                    lemma_finished_cutoff(self.finished_trips@, now, TripMode::Transit, k as int);
                    lemma_finished_cutoff(self.finished_trips@, now, TripMode::Drive, k as int);
                }
                return self.assemble_per_mode(all, num_aborted, walk, bike, transit, drive);
            }
            match e.mode {
                Some(m) => {
                    all.add(e.duration);
                    match m {
                        TripMode::Walk => walk.add(e.duration),
                        TripMode::Bike => bike.add(e.duration),
                        TripMode::Transit => transit.add(e.duration),
                        TripMode::Drive => drive.add(e.duration),
                    }
                },
                None => {
                    num_aborted = num_aborted + 1;
                },
            }
            k = k + 1;
        }
        proof {
            assert(self.finished_trips@.take(n as int) =~= self.finished_trips@);
        }
        self.assemble_per_mode(all, num_aborted, walk, bike, transit, drive)
    }

    /// Packs the per-mode distributions in the fixed mode order.
    fn assemble_per_mode(
        &self,
        all: Histogram,
        num_aborted: usize,
        walk: Histogram,
        bike: Histogram,
        transit: Histogram,
        drive: Histogram,
    ) -> (r: (Histogram, usize, Vec<(TripMode, Histogram)>))
        ensures
            r.0 == all,
            r.1 == num_aborted,
            r.2@.len() == 4,
            r.2@[0] == (TripMode::Walk, walk),
            r.2@[1] == (TripMode::Bike, bike),
            r.2@[2] == (TripMode::Transit, transit),
            r.2@[3] == (TripMode::Drive, drive),
    {
        let mut per_mode: Vec<(TripMode, Histogram)> = Vec::new();
        per_mode.push((TripMode::Walk, walk));
        per_mode.push((TripMode::Bike, bike));
        per_mode.push((TripMode::Transit, transit));
        per_mode.push((TripMode::Drive, drive));
        (all, num_aborted, per_mode)
    }

    /// The road records of one road up to `now`, walking forward and
    /// stopping at the first record past `now`.
    fn road_records_upto(&self, road: RoadID, now: Time) -> (r: Vec<(Time, TripMode)>)
        requires
            self.wf(),
        ensures
            r@ == filter_road(self.thruput_stats.raw_per_road@, road, now),
    {
        let mut out: Vec<(Time, TripMode)> = Vec::new();
        proof {
            assert(self.thruput_stats.raw_per_road@.take(0) =~= Seq::<RoadEntry>::empty());
        }
        let n = self.thruput_stats.raw_per_road.len();
        let mut k: usize = 0;
        while k < n
            invariant
                self.wf(),
                k <= n,
                n == self.thruput_stats.raw_per_road@.len(),
                out@ == filter_road(self.thruput_stats.raw_per_road@.take(k as int), road, now),
            decreases n - k,
        {
            let e = self.thruput_stats.raw_per_road[k];
            if e.time > now {
                proof {
                    lemma_filter_road_cutoff(
                        self.thruput_stats.raw_per_road@,
                        road,
                        now,
                        k as int,
                    );
                }
                return out;
            }
            proof {
                assert(self.thruput_stats.raw_per_road@.take(k + 1).drop_last()
                    =~= self.thruput_stats.raw_per_road@.take(k as int));
            }
            if e.road.0 == road.0 {
                proof {
                    assert(e.road == road);
                }
                out.push((e.time, e.mode));
            }
            k = k + 1;
        }
        proof {
            assert(self.thruput_stats.raw_per_road@.take(n as int)
                =~= self.thruput_stats.raw_per_road@);
        }
        out
    }

    /// The turn records of one intersection up to `now`.
    fn turn_records_upto(&self, i: IntersectionID, now: Time) -> (r: Vec<(Time, TripMode)>)
        requires
            self.wf(),
        ensures
            r@ == filter_turn(self.thruput_stats.raw_per_intersection@, i, now),
    {
        let mut out: Vec<(Time, TripMode)> = Vec::new();
        proof {
            assert(self.thruput_stats.raw_per_intersection@.take(0) =~= Seq::<TurnEntry>::empty());
        }
        let n = self.thruput_stats.raw_per_intersection.len();
        let mut k: usize = 0;
        while k < n
            invariant
                self.wf(),
                k <= n,
                n == self.thruput_stats.raw_per_intersection@.len(),
                out@ == filter_turn(
                    self.thruput_stats.raw_per_intersection@.take(k as int),
                    i,
                    now,
                ),
            decreases n - k,
        {
            let e = self.thruput_stats.raw_per_intersection[k];
            if e.time > now {
                proof {
                    lemma_filter_turn_cutoff(
                        self.thruput_stats.raw_per_intersection@,
                        i,
                        now,
                        k as int,
                    );
                }
                return out;
            }
            proof {
                assert(self.thruput_stats.raw_per_intersection@.take(k + 1).drop_last()
                    =~= self.thruput_stats.raw_per_intersection@.take(k as int));
            }
            if e.intersection.0 == i.0 {
                proof {
                    assert(e.intersection == i);
                }
                out.push((e.time, e.mode));
            }
            k = k + 1;
        }
        proof {
            assert(self.thruput_stats.raw_per_intersection@.take(n as int)
                =~= self.thruput_stats.raw_per_intersection@);
        }
        out
    }

    /// How many agents crossed one road, per travel mode, partitioned into
    /// consecutive buckets of one width from the start of the day through
    /// the bucket of the most recent matching record at or before `now`:
    /// no gaps, zero-count buckets included.
    pub fn throughput_road(&self, now: Time, road: RoadID, bucket: Duration) -> (r: Vec<
        (Time, ModeCounts),
    >)
        requires
            self.wf(),
            bucket > 0,
            now / bucket + 1 <= usize::MAX,
        ensures
            ({
                let f = filter_road(self.thruput_stats.raw_per_road@, road, now);
                &&& r@.len() == spec_bucket_count(f, bucket)
                &&& forall|i: int| 0 <= i < r@.len() ==> (#[trigger] r@[i]).0 == i * bucket
                &&& forall|i: int, m: TripMode|
                    #![trigger r@[i].1.spec_get(m)]
                    0 <= i < r@.len() ==> r@[i].1.spec_get(m) == count_in_window_mode(
                        f,
                        i * bucket,
                        (i + 1) * bucket,
                        m,
                    )
            }),
    {
        let recs = self.road_records_upto(road, now);
        proof {
            lemma_filter_road_props(self.thruput_stats.raw_per_road@, road, now);
            if recs@.len() > 0 {
                lemma_div_is_ordered(recs@.last().0 as int, now as int, bucket as int);
            }
        }
        bucket_counts(&recs, bucket)
    }

    /// How many agents crossed one intersection, per travel mode, with the
    /// same bucket discipline as `throughput_road`.
    pub fn throughput_intersection(&self, now: Time, intersection: IntersectionID, bucket: Duration)
        -> (r: Vec<(Time, ModeCounts)>)
        requires
            self.wf(),
            bucket > 0,
            now / bucket + 1 <= usize::MAX,
        ensures
            ({
                let f = filter_turn(self.thruput_stats.raw_per_intersection@, intersection, now);
                &&& r@.len() == spec_bucket_count(f, bucket)
                &&& forall|i: int| 0 <= i < r@.len() ==> (#[trigger] r@[i]).0 == i * bucket
                &&& forall|i: int, m: TripMode|
                    #![trigger r@[i].1.spec_get(m)]
                    0 <= i < r@.len() ==> r@[i].1.spec_get(m) == count_in_window_mode(
                        f,
                        i * bucket,
                        (i + 1) * bucket,
                        m,
                    )
            }),
    {
        let recs = self.turn_records_upto(intersection, now);
        proof {
            lemma_filter_turn_props(
                self.thruput_stats.raw_per_intersection@,
                intersection,
                now,
            );
            if recs@.len() > 0 {
                lemma_div_is_ordered(recs@.last().0 as int, now as int, bucket as int);
            }
        }
        bucket_counts(&recs, bucket)
    }

    /// The distribution of delays measured at one intersection between `t1`
    /// and `t2`, inclusive. An intersection with no measurements yields an
    /// empty distribution.
    pub fn intersection_delays(&self, i: IntersectionID, t1: Time, t2: Time) -> (r: Histogram)
        requires
            self.wf(),
        ensures
            r.wf(),
            r.ms() == delays_between(self.spec_delays(i.0), t1, t2),
    {
        let mut delays = Histogram::new();
        proof {
            lemma_empty_hist_ms(&delays);
        }
        let list = match self.intersection_delays.get(i.0) {
            Some(list) => list,
            None => {
                proof {
                    assert(self.spec_delays(i.0) =~= Seq::<DelayEntry>::empty());
                }
                return delays;
            },
        };
        proof {
            assert(list@.take(0) =~= Seq::<DelayEntry>::empty());
            assert(list@ == self.spec_delays(i.0));
        }
        let n = list.len();
        let mut k: usize = 0;
        while k < n
            invariant
                self.wf(),
                k <= n,
                n == list@.len(),
                list@ == self.spec_delays(i.0),
                self.intersection_delays.spec_get(i.0) == Some(*list),
                delays.wf(),
                delays.ms() == delays_between(list@.take(k as int), t1, t2),
            decreases n - k,
        {
            let e = list[k];
            if e.time > t2 {
                proof {
                    lemma_delays_between_cutoff(list@, t1, t2, k as int, self, i.0);
                }
                return delays;
            }
            proof {
                assert(list@.take(k + 1).drop_last() =~= list@.take(k as int));
            }
            if e.time >= t1 {
                delays.add(e.delay);
            }
            k = k + 1;
        }
        proof {
            assert(list@.take(n as int) =~= list@);
        }
        delays
    }

    /// One intersection's delay distributions partitioned into consecutive
    /// buckets of one width, with the same bucket discipline as the
    /// throughput queries.
    pub fn intersection_delays_bucketized(&self, now: Time, i: IntersectionID, bucket: Duration)
        -> (r: Vec<(Time, Histogram)>)
        requires
            self.wf(),
            bucket > 0,
            now / bucket + 1 <= usize::MAX,
        ensures
            ({
                let f = filter_delays(self.spec_delays(i.0), now);
                &&& r@.len() == spec_delay_bucket_count(f, bucket)
                &&& forall|j: int| 0 <= j < r@.len() ==> (#[trigger] r@[j]).0 == j * bucket
                &&& forall|j: int|
                    0 <= j < r@.len() ==> (#[trigger] r@[j]).1.wf() && r@[j].1.ms()
                        == delays_in_window(f, j * bucket, (j + 1) * bucket)
            }),
    {
        let recs = self.delay_records_upto(i, now);
        proof {
            lemma_delay_list_sorted(self, i.0);
            lemma_filter_delays_props(self.spec_delays(i.0), now);
            if recs@.len() > 0 {
                lemma_div_is_ordered(recs@.last().0 as int, now as int, bucket as int);
            }
        }
        bucket_delays(&recs, bucket)
    }

    /// One intersection's delay records up to `now`, as (time, delay)
    /// pairs.
    fn delay_records_upto(&self, i: IntersectionID, now: Time) -> (r: Vec<(Time, Duration)>)
        requires
            self.wf(),
        ensures
            r@ == filter_delays(self.spec_delays(i.0), now),
    {
        let mut out: Vec<(Time, Duration)> = Vec::new();
        let list = match self.intersection_delays.get(i.0) {
            Some(list) => list,
            None => {
                proof {
                    assert(self.spec_delays(i.0) =~= Seq::<DelayEntry>::empty());
                }
                return out;
            },
        };
        proof {
            assert(list@.take(0) =~= Seq::<DelayEntry>::empty());
            assert(list@ == self.spec_delays(i.0));
        }
        let n = list.len();
        let mut k: usize = 0;
        while k < n
            invariant
                self.wf(),
                k <= n,
                n == list@.len(),
                list@ == self.spec_delays(i.0),
                self.intersection_delays.spec_get(i.0) == Some(*list),
                out@ == filter_delays(list@.take(k as int), now),
            decreases n - k,
        {
            let e = list[k];
            if e.time > now {
                proof {
                    lemma_filter_delays_cutoff(list@, now, k as int, self, i.0);
                }
                return out;
            }
            proof {
                assert(list@.take(k + 1).drop_last() =~= list@.take(k as int));
            }
            out.push((e.time, e.delay));
            k = k + 1;
        }
        proof {
            assert(list@.take(n as int) =~= list@);
        }
        out
    }
}

/// The arrivals of one route up to `now`, in record order.
pub open spec fn filter_arrivals(s: Seq<BusArrival>, route: BusRouteID, now: Time) -> Seq<
    BusArrival,
>
    decreases s.len(),
{
    if s.len() == 0 {
        Seq::empty()
    } else {
        let rest = filter_arrivals(s.drop_last(), route, now);
        if s.last().route == route && s.last().time <= now {
            rest.push(s.last())
        } else {
            rest
        }
    }
}

/// Whether this physical bus has arrived anywhere in the records.
pub open spec fn has_prev(s: Seq<BusArrival>, car: crate::types::CarID) -> bool
    decreases s.len(),
{
    if s.len() == 0 {
        false
    } else {
        s.last().car == car || has_prev(s.drop_last(), car)
    }
}

/// When this physical bus last arrived anywhere in the records.
pub open spec fn prev_time(s: Seq<BusArrival>, car: crate::types::CarID) -> Time
    decreases s.len(),
{
    if s.len() == 0 {
        0
    } else if s.last().car == car {
        s.last().time
    } else {
        prev_time(s.drop_last(), car)
    }
}

/// The headway samples one stop collects, in arrival order: whenever a bus
/// arrives at the stop and has arrived somewhere before, the time since its
/// previous arrival is one sample, timestamped at the later arrival. A bus
/// that never returns to a stop contributes no sample for it.
pub open spec fn headway_list(s: Seq<BusArrival>, stop: usize) -> Seq<(Time, Duration)>
    decreases s.len(),
{
    if s.len() == 0 {
        Seq::empty()
    } else {
        let rest = headway_list(s.drop_last(), stop);
        let a = s.last();
        if a.stop.0 == stop && has_prev(s.drop_last(), a.car) {
            rest.push((a.time, (a.time - prev_time(s.drop_last(), a.car)) as u64))
        } else {
            rest
        }
    }
}

/// The forward pass's per-bus tracking state: one entry per bus seen in the
/// prefix, holding its last arrival time there.
pub open spec fn spec_tracks(
    prefix: Seq<BusArrival>,
    times: Seq<(crate::types::CarID, Time)>,
) -> bool {
    &&& forall|p: int, q: int|
        0 <= p < q < times.len() ==> (#[trigger] times[p]).0 != (#[trigger] times[q]).0
    &&& forall|p: int|
        0 <= p < times.len() ==> has_prev(prefix, (#[trigger] times[p]).0) && times[p].1
            == prev_time(prefix, times[p].0)
    &&& forall|c: crate::types::CarID|
        #![trigger has_prev(prefix, c)]
        has_prev(prefix, c) ==> exists|p: int|
            0 <= p < times.len() && (#[trigger] times[p]).0 == c
}

/// A bus's last arrival in a time-ordered prefix is no later than the
/// prefix's last record.
proof fn lemma_prev_time_le_last(s: Seq<BusArrival>, car: crate::types::CarID)
    requires
        s.len() > 0,
        has_prev(s, car),
        forall|i: int, j: int| 0 <= i <= j < s.len() ==> (#[trigger] s[i]).time <= (#[trigger] s[j]).time,
    ensures
        prev_time(s, car) <= s.last().time,
    decreases s.len(),
{
    if s.last().car != car {
        assert(has_prev(s.drop_last(), car));
        assert(s.drop_last().len() > 0) by {
            if s.drop_last().len() == 0 {
                assert(!has_prev(s.drop_last(), car));
            }
        }
        assert(forall|i: int, j: int|
            0 <= i <= j < s.drop_last().len() ==> (#[trigger] s.drop_last()[i]).time <= (
            #[trigger] s.drop_last()[j]).time);
        lemma_prev_time_le_last(s.drop_last(), car);
        assert(s[s.len() - 2].time <= s[s.len() - 1].time);
    }
}

/// Updating the tracked bus's entry carries the tracking state one record
/// forward.
proof fn lemma_car_tracking_step(
    arrs: Seq<BusArrival>,
    k: int,
    pre: Seq<(crate::types::CarID, Time)>,
    post: Seq<(crate::types::CarID, Time)>,
    p: int,
)
    requires
        0 <= k < arrs.len(),
        spec_tracks(arrs.take(k), pre),
        0 <= p < pre.len(),
        pre[p].0 == arrs[k].car,
        post == pre.update(p, (arrs[k].car, arrs[k].time)),
    ensures
        spec_tracks(arrs.take(k + 1), post),
{
    let next = arrs.take(k + 1);
    assert(next.drop_last() =~= arrs.take(k));
    assert(next.last() == arrs[k]);
    assert forall|q: int| 0 <= q < post.len() implies has_prev(next, (#[trigger] post[q]).0)
        && post[q].1 == prev_time(next, post[q].0) by {
        if q == p {
        } else {
            assert(post[q] == pre[q]);
            assert(pre[q].0 != arrs[k].car);
        }
    }
    assert forall|c: crate::types::CarID| #![trigger has_prev(next, c)] has_prev(next, c)
        implies exists|q: int| 0 <= q < post.len() && (#[trigger] post[q]).0 == c by {
        if c == arrs[k].car {
            assert(post[p].0 == c);
        } else {
            assert(has_prev(arrs.take(k), c));
            let q = choose|q: int| 0 <= q < pre.len() && (#[trigger] pre[q]).0 == c;
            assert(post[q].0 == c);
        }
    }
}

/// Tracking a newly seen bus carries the tracking state one record
/// forward.
proof fn lemma_car_tracking_push(
    arrs: Seq<BusArrival>,
    k: int,
    pre: Seq<(crate::types::CarID, Time)>,
    post: Seq<(crate::types::CarID, Time)>,
)
    requires
        0 <= k < arrs.len(),
        spec_tracks(arrs.take(k), pre),
        forall|q: int| 0 <= q < pre.len() ==> (#[trigger] pre[q]).0 != arrs[k].car,
        post == pre.push((arrs[k].car, arrs[k].time)),
    ensures
        spec_tracks(arrs.take(k + 1), post),
{
    let next = arrs.take(k + 1);
    assert(next.drop_last() =~= arrs.take(k));
    assert(next.last() == arrs[k]);
    assert forall|q1: int, q2: int| 0 <= q1 < q2 < post.len() implies (#[trigger] post[q1]).0 != (
    #[trigger] post[q2]).0 by {
        if q2 == post.len() - 1 {
            assert(post[q1] == pre[q1]);
        }
    }
    assert forall|q: int| 0 <= q < post.len() implies has_prev(next, (#[trigger] post[q]).0)
        && post[q].1 == prev_time(next, post[q].0) by {
        if q == post.len() - 1 {
        } else {
            assert(post[q] == pre[q]);
            assert(pre[q].0 != arrs[k].car);
        }
    }
    assert forall|c: crate::types::CarID| #![trigger has_prev(next, c)] has_prev(next, c)
        implies exists|q: int| 0 <= q < post.len() && (#[trigger] post[q]).0 == c by {
        if c == arrs[k].car {
            assert(post[post.len() - 1].0 == c);
        } else {
            assert(has_prev(arrs.take(k), c));
            let q = choose|q: int| 0 <= q < pre.len() && (#[trigger] pre[q]).0 == c;
            assert(post[q].0 == c);
        }
    }
}

/// The samples of a headway list as a multiset.
pub open spec fn sample_list_ms(l: Seq<(Time, Duration)>) -> Multiset<u64>
    decreases l.len(),
{
    if l.len() == 0 {
        Multiset::empty()
    } else {
        sample_list_ms(l.drop_last()).insert(l.last().1)
    }
}

impl Analytics {
    /// For each stop of one route: the timestamped headway samples up to
    /// `now`, in time order. Stops that collected no sample are absent.
    pub fn bus_arrivals_over_time(&self, now: Time, r: BusRouteID) -> (res: Table<
        Vec<(Time, Duration)>,
    >)
        requires
            self.wf(),
        ensures
            res.wf(),
            forall|stop: usize|
                match #[trigger] res.spec_get(stop) {
                    Some(l) => l@ == headway_list(
                        filter_arrivals(self.bus_arrivals@, r, now),
                        stop,
                    ) && l@.len() > 0,
                    None => headway_list(filter_arrivals(self.bus_arrivals@, r, now), stop).len()
                        == 0,
                },
    {
        let arrivals = self.arrivals_upto(r, now);
        let mut last_times: Vec<(crate::types::CarID, Time)> = Vec::new();
        let mut res: Table<Vec<(Time, Duration)>> = Table::new();
        let n = arrivals.len();
        proof {
            assert(arrivals@.take(0) =~= Seq::<BusArrival>::empty());
        }
        for k in 0..n
            invariant
                n == arrivals@.len(),
                forall|i: int, j: int|
                    0 <= i <= j < arrivals@.len() ==> (#[trigger] arrivals@[i]).time <= (
                    #[trigger] arrivals@[j]).time,
                res.wf(),
                spec_tracks(arrivals@.take(k as int), last_times@),
                forall|stop: usize|
                    match #[trigger] res.spec_get(stop) {
                        Some(l) => l@ == headway_list(arrivals@.take(k as int), stop) && l@.len()
                            > 0,
                        None => headway_list(arrivals@.take(k as int), stop).len() == 0,
                    },
        {
            let a = arrivals[k];
            proof {
                assert(arrivals@.take(k + 1).drop_last() =~= arrivals@.take(k as int));
                assert(arrivals@.take(k + 1).last() == arrivals@[k as int]);
            }
            let found = find_car_entry(&last_times, a.car);
            match found {
                Some(p) => {
                    let prev = last_times[p].1;
                    proof {
                        assert(prev == prev_time(arrivals@.take(k as int), a.car));
                        assert(has_prev(arrivals@.take(k as int), a.car));
                        lemma_prev_time_le_last(arrivals@.take(k as int), a.car);
                        assert(arrivals@.take(k as int).last() == arrivals@[k as int - 1]);
                        assert(arrivals@[k as int - 1].time <= arrivals@[k as int].time);
                    }
                    let delta = a.time - prev;
                    let ghost pre_res = res;
                    let idx = res.index_or_insert(a.stop.0, Vec::new());
                    let ghost mid = res;
                    res.vals[idx].push((a.time, delta));
                    proof {
                        crate::table::lemma_table_get_update(
                            mid.keys@,
                            mid.vals@,
                            a.stop.0,
                            idx as int,
                            res.vals@[idx as int],
                        );
                        assert forall|stop: usize| match #[trigger] res.spec_get(stop) {
                            Some(l) => l@ == headway_list(arrivals@.take(k + 1), stop) && l@.len()
                                > 0,
                            None => headway_list(arrivals@.take(k + 1), stop).len() == 0,
                        } by {
                            if stop == a.stop.0 {
                                assert(res.spec_get(stop) == Some(res.vals@[idx as int]));
                                match pre_res.spec_get(stop) {
                                    Some(l0) => {
                                        assert(mid == pre_res);
                                        assert(res.vals@[idx as int]@ =~= l0@.push(
                                            (a.time, delta),
                                        ));
                                    },
                                    None => {
                                        assert(mid.vals@[idx as int]@ =~= Seq::<
                                            (Time, Duration),
                                        >::empty());
                                        assert(res.vals@[idx as int]@ =~= Seq::<
                                            (Time, Duration),
                                        >::empty().push((a.time, delta)));
                                    },
                                }
                            } else {
                                assert(res.spec_get(stop) == pre_res.spec_get(stop));
                            }
                        }
                    }
                    let ghost pre_times = last_times@;
                    set_car_entry(&mut last_times, p, a.car, a.time);
                    proof {
                        lemma_car_tracking_step(
                            arrivals@,
                            k as int,
                            pre_times,
                            last_times@,
                            p as int,
                        );
                    }
                },
                None => {
                    proof {
                        assert(!has_prev(arrivals@.take(k as int), a.car)) by {
                            if has_prev(arrivals@.take(k as int), a.car) {
                                let p = choose|p: int|
                                    0 <= p < last_times@.len() && (#[trigger] last_times@[p]).0
                                        == a.car;
                                assert(last_times@[p].0 != a.car);
                            }
                        }
                        assert forall|stop: usize| match #[trigger] res.spec_get(stop) {
                            Some(l) => l@ == headway_list(arrivals@.take(k + 1), stop) && l@.len()
                                > 0,
                            None => headway_list(arrivals@.take(k + 1), stop).len() == 0,
                        } by {}
                    }
                    let ghost pre_times = last_times@;
                    last_times.push((a.car, a.time));
                    proof {
                        lemma_car_tracking_push(arrivals@, k as int, pre_times, last_times@);
                    }
                },
            }
        }
        proof {
            assert(arrivals@.take(n as int) =~= arrivals@);
        }
        res
    }

    /// For each stop of one route: the distribution of its headway samples
    /// up to `now`. Stops that collected no sample are absent.
    pub fn bus_arrivals(&self, now: Time, r: BusRouteID) -> (res: Table<Histogram>)
        requires
            self.wf(),
        ensures
            res.wf(),
            forall|stop: usize|
                match #[trigger] res.spec_get(stop) {
                    Some(h) => h.wf() && h.ms() == sample_list_ms(
                        headway_list(filter_arrivals(self.bus_arrivals@, r, now), stop),
                    ) && headway_list(filter_arrivals(self.bus_arrivals@, r, now), stop).len() > 0,
                    None => headway_list(filter_arrivals(self.bus_arrivals@, r, now), stop).len()
                        == 0,
                },
    {
        let lists = self.bus_arrivals_over_time(now, r);
        let mut res: Table<Histogram> = Table::new();
        let n = lists.keys.len();
        for p in 0..n
            invariant
                lists.wf(),
                n == lists.keys@.len(),
                res.wf(),
                res.keys@ == lists.keys@.take(p as int),
                forall|stop: usize|
                    match #[trigger] res.spec_get(stop) {
                        Some(h) => h.wf() && lists.spec_get(stop) is Some && h.ms()
                            == sample_list_ms(lists.spec_get(stop)->0@),
                        None => true,
                    },
                forall|q: int|
                    0 <= q < p ==> #[trigger] res.spec_get(lists.keys@[q]) is Some,
                forall|stop: usize|
                    res.spec_get(stop) is None ==> spec_table_key_absent(
                        lists.keys@.take(p as int),
                        stop,
                    ),
        {
            let key = lists.keys[p];
            let list = &lists.vals[p];
            proof {
                assert forall|j: int| 0 <= j < p implies lists.keys@[j] != key by {}
                crate::table::lemma_table_get_at(lists.keys@, lists.vals@, key, p as int);
            }
            let mut h = Histogram::new();
            proof {
                lemma_empty_hist_ms(&h);
                assert(list@.take(0) =~= Seq::<(Time, Duration)>::empty());
            }
            let m = list.len();
            for j in 0..m
                invariant
                    m == list@.len(),
                    h.wf(),
                    h.ms() == sample_list_ms(list@.take(j as int)),
                decreases m - j,
            {
                proof {
                    assert(list@.take(j + 1).drop_last() =~= list@.take(j as int));
                }
                h.add(list[j].1);
            }
            proof {
                assert(list@.take(m as int) =~= list@);
            }
            let ghost pre = res;
            res.index_or_insert(key, h);
            proof {
                assert(pre.spec_get(key) is None) by {
                    if pre.spec_get(key) is Some {
                        lemma_table_key_present(pre.keys@, pre.vals@, key);
                        let q = choose|q: int| 0 <= q < pre.keys@.len() && pre.keys@[q] == key;
                        assert(lists.keys@[q] == key);
                    }
                }
                assert(res.keys@ =~= lists.keys@.take(p + 1));
                assert forall|stop: usize|
                    res.spec_get(stop) is None implies spec_table_key_absent(
                    lists.keys@.take(p + 1),
                    stop,
                ) by {
                    assert(res.spec_get(stop) == pre.spec_get(stop) || stop == key);
                    if stop != key {
                        lemma_table_key_absent_push(lists.keys@.take(p as int), key, stop);
                    }
                }
            }
        }
        proof {
            assert(lists.keys@.take(n as int) =~= lists.keys@);
            assert forall|stop: usize| match #[trigger] res.spec_get(stop) {
                Some(h) => h.wf() && h.ms() == sample_list_ms(
                    headway_list(filter_arrivals(self.bus_arrivals@, r, now), stop),
                ) && headway_list(filter_arrivals(self.bus_arrivals@, r, now), stop).len() > 0,
                None => headway_list(filter_arrivals(self.bus_arrivals@, r, now), stop).len() == 0,
            } by {
                match res.spec_get(stop) {
                    Some(h) => {},
                    None => {
                        assert(lists.spec_get(stop) is None) by {
                            if lists.spec_get(stop) is Some {
                                lemma_table_key_present(lists.keys@, lists.vals@, stop);
                            }
                        }
                    },
                }
            }
        }
        res
    }

    /// The arrivals of one route up to `now`, walking forward and stopping
    /// at the first record past `now`.
    fn arrivals_upto(&self, route: BusRouteID, now: Time) -> (r: Vec<BusArrival>)
        requires
            self.wf(),
        ensures
            r@ == filter_arrivals(self.bus_arrivals@, route, now),
            forall|i: int, j: int|
                0 <= i <= j < r@.len() ==> (#[trigger] r@[i]).time <= (#[trigger] r@[j]).time,
    {
        let mut out: Vec<BusArrival> = Vec::new();
        proof {
            assert(self.bus_arrivals@.take(0) =~= Seq::<BusArrival>::empty());
        }
        let n = self.bus_arrivals.len();
        let mut k: usize = 0;
        while k < n
            invariant
                self.wf(),
                k <= n,
                n == self.bus_arrivals@.len(),
                out@ == filter_arrivals(self.bus_arrivals@.take(k as int), route, now),
                forall|i: int, j: int|
                    0 <= i <= j < out@.len() ==> (#[trigger] out@[i]).time <= (
                    #[trigger] out@[j]).time,
                forall|i: int|
                    0 <= i < out@.len() && k > 0 ==> (#[trigger] out@[i]).time <= self.bus_arrivals@[
                    k as int - 1].time,
            decreases n - k,
        {
            let a = self.bus_arrivals[k];
            if a.time > now {
                proof {
                    lemma_filter_arrivals_cutoff(self.bus_arrivals@, route, now, k as int);
                }
                return out;
            }
            proof {
                assert(self.bus_arrivals@.take(k + 1).drop_last() =~= self.bus_arrivals@.take(
                    k as int,
                ));
                if k > 0 {
                    assert(self.bus_arrivals@[k as int - 1].time <= self.bus_arrivals@[
                    k as int].time);
                }
            }
            if a.route.0 == route.0 {
                proof {
                    assert(a.route == route);
                }
                out.push(a);
            }
            k = k + 1;
        }
        proof {
            assert(self.bus_arrivals@.take(n as int) =~= self.bus_arrivals@);
        }
        out
    }
}

/// One phase of a trip's timeline: bounded by two consecutive logged
/// milestones, still open if the trip has not progressed further. A phase
/// that started from a routing request may carry the resolved route and the
/// distance it started at.
pub struct TripPhase {
    pub start_time: Time,
    pub end_time: Option<Time>,
    pub path: Option<(crate::types::Distance, Path)>,
    pub kind: TripPhaseKind,
}

/// Whether a log entry ends its trip.
pub open spec fn is_terminal(m: TripLogMarker) -> bool {
    m is Finished || m is Aborted
}

/// The log entries of one trip, in log order.
pub open spec fn trip_entries(log: Seq<TripLogEntry>, trip: TripID) -> Seq<TripLogEntry>
    decreases log.len(),
{
    if log.len() == 0 {
        Seq::empty()
    } else {
        let rest = trip_entries(log.drop_last(), trip);
        if log.last().trip == trip {
            rest.push(log.last())
        } else {
            rest
        }
    }
}

/// A trip's entries up to and including its first terminal marker; entries
/// after the terminal are ignored.
pub open spec fn cut_at_terminal(es: Seq<TripLogEntry>) -> Seq<TripLogEntry>
    decreases es.len(),
{
    if es.len() == 0 {
        Seq::empty()
    } else if is_terminal(es.first().marker) {
        seq![es.first()]
    } else {
        seq![es.first()] + cut_at_terminal(es.drop_first())
    }
}

/// No entry of this list ends its trip.
pub open spec fn no_terminal(es: Seq<TripLogEntry>) -> bool {
    forall|j: int| 0 <= j < es.len() ==> !is_terminal((#[trigger] es[j]).marker)
}

/// What a phase-start marker says the trip is doing. Only phase-start
/// markers open phases, so the fallback arm is never selected for a phase.
pub open spec fn marker_kind(m: TripLogMarker) -> TripPhaseKind {
    match m {
        TripLogMarker::PhaseStart(k) => k,
        _ => TripPhaseKind::ParkingOnCurrentLane,
    }
}

/// How many phases a trip's (cut) entry list yields: one per entry, except
/// that a trailing terminal marker only closes the phase before it.
pub open spec fn spec_phase_count(es: Seq<TripLogEntry>) -> int {
    if es.len() == 0 {
        0
    } else if is_terminal(es.last().marker) {
        es.len() - 1
    } else {
        es.len() as int
    }
}

/// The route a phase-start entry resolves to, against the external router.
pub open spec fn spec_phase_path(e: TripLogEntry, map: &SpatialIndex) -> Option<
    (crate::types::Distance, Path),
> {
    match e.request {
        Some(req) => match map.spec_pathfind(req) {
            Some(p) => Some((req.start.dist_along, p)),
            None => None,
        },
        None => None,
    }
}

/// The phases a trip's (cut) entry list yields, with routes resolved: each
/// phase starts at its entry's time and ends at the next entry's time, or
/// stays open at the end of the list.
pub open spec fn spec_phases(es: Seq<TripLogEntry>, map: &SpatialIndex) -> Seq<TripPhase> {
    Seq::new(
        spec_phase_count(es) as nat,
        |j: int|
            TripPhase {
                start_time: es[j].time,
                end_time: if j + 1 < es.len() {
                    Some(es[j + 1].time)
                } else {
                    None
                },
                path: spec_phase_path(es[j], map),
                kind: marker_kind(es[j].marker),
            },
    )
}

/// The same phases without route resolution.
pub open spec fn spec_phases_nopath(es: Seq<TripLogEntry>) -> Seq<TripPhase> {
    Seq::new(
        spec_phase_count(es) as nat,
        |j: int|
            TripPhase {
                start_time: es[j].time,
                end_time: if j + 1 < es.len() {
                    Some(es[j + 1].time)
                } else {
                    None
                },
                path: None,
                kind: marker_kind(es[j].marker),
            },
    )
}

/// Two phases agree on everything observable: times, kind, and the
/// resolved route (its start distance and the lanes it crosses).
pub open spec fn phase_eq(a: TripPhase, b: TripPhase) -> bool {
    &&& a.start_time == b.start_time
    &&& a.end_time == b.end_time
    &&& a.kind == b.kind
    &&& match (a.path, b.path) {
        (Some(pa), Some(pb)) => pa.0 == pb.0 && pa.1.steps@ == pb.1.steps@,
        (None, None) => true,
        _ => false,
    }
}

/// Two phase lists agree phase by phase.
pub open spec fn phases_eq(a: Seq<TripPhase>, b: Seq<TripPhase>) -> bool {
    a.len() == b.len() && forall|j: int| 0 <= j < a.len() ==> phase_eq(#[trigger] a[j], b[j])
}

/// Whether one trip's log ends in a finish (not an abort, not ongoing).
pub open spec fn spec_trip_finished(log: Seq<TripLogEntry>, trip: TripID) -> bool {
    let es = cut_at_terminal(trip_entries(log, trip));
    es.len() > 0 && es.last().marker is Finished
}

impl Analytics {
    /// Replays the log filtered to one trip, pairing consecutive entries
    /// into phases: each phase runs from its milestone to the next (or
    /// stays open), and pairing stops at the first terminal marker. A phase
    /// carrying a routing request resolves it against the external router
    /// here, at query time, never at record time. An unlogged trip yields
    /// no phases.
    pub fn get_trip_phases(&self, trip: TripID, map: &SpatialIndex) -> (r: Vec<TripPhase>)
        requires
            self.wf(),
        ensures
            phases_eq(r@, spec_phases(cut_at_terminal(trip_entries(self.trip_log@, trip)), map)),
    {
        let mut phases: Vec<TripPhase> = Vec::new();
        let n = self.trip_log.len();
        proof {
            assert(self.trip_log@.take(0) =~= Seq::<TripLogEntry>::empty());
        }
        let mut k: usize = 0;
        while k < n
            invariant
                self.wf(),
                k <= n,
                n == self.trip_log@.len(),
                no_terminal(trip_entries(self.trip_log@.take(k as int), trip)),
                phases_eq(
                    phases@,
                    spec_phases(trip_entries(self.trip_log@.take(k as int), trip), map),
                ),
            decreases n - k,
        {
            let e = self.trip_log[k];
            proof {
                assert(self.trip_log@.take(k + 1).drop_last() =~= self.trip_log@.take(k as int));
                assert(self.trip_log@.take(k + 1).last() == self.trip_log@[k as int]);
            }
            if e.trip.0 == trip.0 {
                proof {
                    assert(e.trip == trip);
                }
                let ghost es = trip_entries(self.trip_log@.take(k as int), trip);
                let ghost es2 = trip_entries(self.trip_log@.take(k + 1), trip);
                let ghost old_phases = phases@;
                proof {
                    assert(es2 == es.push(self.trip_log@[k as int]));
                }
                if phases.len() > 0 {
                    let last = phases.len() - 1;
                    phases[last].end_time = Some(e.time);
                }
                let terminal = match e.marker {
                    TripLogMarker::PhaseStart(_) => false,
                    TripLogMarker::Finished => true,
                    TripLogMarker::Aborted => true,
                };
                if terminal {
                    proof {
                        assert forall|j: int| 0 <= j < phases@.len() implies phase_eq(
                            #[trigger] phases@[j],
                            spec_phases(es2, map)[j],
                        ) by {
                            assert(phase_eq(old_phases[j], spec_phases(es, map)[j]));
                            if j + 1 == es.len() {
                                assert(es2[j + 1] == self.trip_log@[k as int]);
                            } else {
                                assert(phases@[j] == old_phases[j]);
                            }
                        }
                        lemma_cut_stable(self.trip_log@, trip, k as int);
                        lemma_cut_terminal_end(es, self.trip_log@[k as int]);
                    }
                    return phases;
                }
                let path = match (&e.request) {
                    Some(req) => match map.pathfind(req) {
                        Some(p) => Some((req.start.dist_along, p.clone())),
                        None => None,
                    },
                    None => None,
                };
                phases.push(
                    TripPhase {
                        start_time: e.time,
                        end_time: None,
                        path,
                        kind: match e.marker {
                            TripLogMarker::PhaseStart(kind) => kind,
                            _ => TripPhaseKind::ParkingOnCurrentLane,
                        },
                    },
                );
                proof {
                    assert forall|j: int| 0 <= j < phases@.len() implies phase_eq(
                        #[trigger] phases@[j],
                        spec_phases(es2, map)[j],
                    ) by {
                        if j == phases@.len() - 1 {
                            assert(es2[j] == self.trip_log@[k as int]);
                        } else {
                            assert(phase_eq(old_phases[j], spec_phases(es, map)[j]));
                            if j + 1 == es.len() {
                                assert(es2[j + 1] == self.trip_log@[k as int]);
                            } else {
                                assert(phases@[j] == old_phases[j]);
                            }
                        }
                    }
                }
            }
            k = k + 1;
        }
        proof {
            assert(self.trip_log@.take(n as int) =~= self.trip_log@);
            lemma_cut_no_terminal(trip_entries(self.trip_log@, trip));
        }
        phases
    }
}

/// How long a phase lasted; an open phase contributes nothing yet.
pub open spec fn phase_dur(p: TripPhase) -> int {
    match p.end_time {
        Some(e) => e - p.start_time,
        None => 0,
    }
}

/// The time a trip spent driving: the sum of its vehicle-tagged phases.
pub open spec fn driving_time(ph: Seq<TripPhase>) -> int
    decreases ph.len(),
{
    if ph.len() == 0 {
        0
    } else {
        driving_time(ph.drop_last()) + if ph.last().kind matches TripPhaseKind::Driving(_) {
            phase_dur(ph.last())
        } else {
            0
        }
    }
}

/// The time a trip spent as parking overhead: walking to or from the
/// vehicle, or looking for parking. Waiting for a bus counts as neither.
pub open spec fn overhead_time(ph: Seq<TripPhase>) -> int
    decreases ph.len(),
{
    if ph.len() == 0 {
        0
    } else {
        overhead_time(ph.drop_last()) + match ph.last().kind {
            TripPhaseKind::Walking(_) => phase_dur(ph.last()),
            TripPhaseKind::ParkingSomewhereElse => phase_dur(ph.last()),
            TripPhaseKind::ParkingOnCurrentLane => phase_dur(ph.last()),
            _ => 0,
        }
    }
}

/// What one trip contributes to the parking-overhead report: for a
/// completed trip with both driving time and overhead, the percentage of
/// the combined time spent as overhead, truncated toward zero; nothing
/// otherwise.
pub open spec fn spec_trip_overhead(log: Seq<TripLogEntry>, trip: TripID) -> Multiset<u64> {
    if spec_trip_finished(log, trip) {
        let ph = spec_phases_nopath(cut_at_terminal(trip_entries(log, trip)));
        let d = driving_time(ph);
        let o = overhead_time(ph);
        if d > 0 && o > 0 {
            Multiset::empty().insert((100 * o / (d + o)) as u64)
        } else {
            Multiset::empty()
        }
    } else {
        Multiset::empty()
    }
}

/// Whether index `i` is the first log entry of its trip.
pub open spec fn first_occurrence(log: Seq<TripLogEntry>, i: int) -> bool {
    forall|j: int| 0 <= j < i ==> (#[trigger] log[j]).trip != log[i].trip
}

/// The parking-overhead samples of every trip first seen before index `i`.
pub open spec fn overhead_upto(log: Seq<TripLogEntry>, i: int) -> Multiset<u64>
    decreases i,
{
    if i <= 0 {
        Multiset::empty()
    } else {
        overhead_upto(log, i - 1).add(
            if first_occurrence(log, i - 1) {
                spec_trip_overhead(log, log[i - 1].trip)
            } else {
                Multiset::empty()
            },
        )
    }
}

impl Analytics {
    /// Over all completed trips with both a walking and a driving portion:
    /// the distribution of the percentage of total trip time spent outside
    /// the driving phase (walking to or from the vehicle, looking for
    /// parking). Percentages are computed by division and truncated toward
    /// zero. Read-only: no side effects.
    pub fn analyze_parking_phases(&self) -> (r: PercentageHistogram)
        requires
            self.wf(),
        ensures
            r.wf(),
            r.ms() == overhead_upto(self.trip_log@, self.trip_log@.len() as int),
    {
        let mut distrib = Histogram::new();
        proof {
            lemma_empty_hist_ms(&distrib);
        }
        let n = self.trip_log.len();
        for i in 0..n
            invariant
                self.wf(),
                n == self.trip_log@.len(),
                distrib.wf(),
                distrib.ms() == overhead_upto(self.trip_log@, i as int),
        {
            let first = self.is_first_occurrence(i);
            if first {
                let trip = self.trip_log[i].trip;
                let sample = self.trip_overhead_percent(trip);
                match sample {
                    Some(percent) => {
                        distrib.add(percent);
                        proof {
                            assert(spec_trip_overhead(self.trip_log@, trip)
                                =~= Multiset::empty().insert(percent));
                            assert(distrib.ms() =~= overhead_upto(self.trip_log@, i + 1));
                        }
                    },
                    None => {
                        proof {
                            assert(distrib.ms() =~= overhead_upto(self.trip_log@, i + 1));
                        }
                    },
                }
            } else {
                proof {
                    assert(distrib.ms() =~= overhead_upto(self.trip_log@, i + 1));
                }
            }
        }
        distrib
    }

    /// Whether index `i` is the first log entry of its trip.
    fn is_first_occurrence(&self, i: usize) -> (r: bool)
        requires
            (i as int) < self.trip_log@.len(),
        ensures
            r == first_occurrence(self.trip_log@, i as int),
    {
        let trip = self.trip_log[i].trip;
        for j in 0..i
            invariant
                (i as int) < self.trip_log@.len(),
                trip == self.trip_log@[i as int].trip,
                forall|q: int| 0 <= q < j ==> (#[trigger] self.trip_log@[q]).trip != trip,
        {
            if self.trip_log[j].trip.0 == trip.0 {
                proof {
                    assert(self.trip_log@[j as int].trip == trip);
                }
                return false;
            }
        }
        true
    }

    /// One trip's overhead percentage, if the trip completed with both
    /// driving time and overhead.
    fn trip_overhead_percent(&self, trip: TripID) -> (r: Option<u64>)
        requires
            self.wf(),
        ensures
            match r {
                Some(p) => spec_trip_overhead(self.trip_log@, trip) == Multiset::empty().insert(p),
                None => spec_trip_overhead(self.trip_log@, trip) =~= Multiset::<u64>::empty(),
            },
    {
        let (phases, finished) = self.trip_phases_nopath(trip);
        if !finished {
            return None;
        }
        let ghost es = cut_at_terminal(trip_entries(self.trip_log@, trip));
        proof {
            lemma_trip_entries_sorted(self.trip_log@, trip);
            lemma_cut_is_prefix(trip_entries(self.trip_log@, trip));
            assert(phases@.take(0) =~= Seq::<TripPhase>::empty());
        }
        let m = phases.len();
        let mut d: u64 = 0;
        let mut o: u64 = 0;
        for j in 0..m
            invariant
                self.wf(),
                es == cut_at_terminal(trip_entries(self.trip_log@, trip)),
                phases@ == spec_phases_nopath(es),
                m == phases@.len(),
                m == es.len() - 1,
                forall|p: int, q: int|
                    0 <= p <= q < es.len() ==> (#[trigger] es[p]).time <= (#[trigger] es[q]).time,
                d == driving_time(phases@.take(j as int)),
                o == overhead_time(phases@.take(j as int)),
                d + o <= (if j == 0 {
                    0int
                } else {
                    es[j as int].time - es[0].time
                }),
            decreases m - j,
        {
            proof {
                assert(phases@.take(j + 1).drop_last() =~= phases@.take(j as int));
                assert(phases@.take(j + 1).last() == phases@[j as int]);
                assert(phases@[j as int] == spec_phases_nopath(es)[j as int]);
                assert(es[0].time <= es[j as int].time);
                assert(es[j as int].time <= es[j + 1].time);
            }
            let p = &phases[j];
            let end = match p.end_time {
                Some(t) => t,
                None => 0,
            };
            proof {
                assert(p.end_time == Some(es[j + 1].time));
                assert(p.start_time == es[j as int].time);
            }
            let dur = end - p.start_time;
            match p.kind {
                TripPhaseKind::Driving(_) => {
                    d = d + dur;
                },
                TripPhaseKind::Walking(_) => {
                    o = o + dur;
                },
                TripPhaseKind::ParkingSomewhereElse => {
                    o = o + dur;
                },
                TripPhaseKind::ParkingOnCurrentLane => {
                    o = o + dur;
                },
                TripPhaseKind::WaitingForBus(_) => {},
            }
        }
        proof {
            assert(phases@.take(m as int) =~= phases@);
        }
        if d > 0 && o > 0 {
            let total = d + o;
            proof {
                lemma_mul_inequality(o as int, total as int, 100);
                lemma_div_is_ordered(100 * o as int, 100 * total as int, total as int);
                vstd::arithmetic::div_mod::lemma_div_multiples_vanish(100, total as int);
                vstd::arithmetic::div_mod::lemma_div_pos_is_pos(100 * o as int, total as int);
                assert(100 * o as int == (100u128 * o as u128) as int);
                assert(o as int * 100 == 100 * o as int) by (nonlinear_arith);
                assert(total as int * 100 == 100 * total as int) by (nonlinear_arith);
            }
            let percent = ((100u128 * (o as u128)) / (total as u128)) as u64;
            Some(percent)
        } else {
            None
        }
    }

    /// The phases of one trip without route resolution, and whether the
    /// trip completed (ended in a finish, not an abort, not still open).
    fn trip_phases_nopath(&self, trip: TripID) -> (r: (Vec<TripPhase>, bool))
        requires
            self.wf(),
        ensures
            r.0@ == spec_phases_nopath(cut_at_terminal(trip_entries(self.trip_log@, trip))),
            r.1 == spec_trip_finished(self.trip_log@, trip),
    {
        let mut phases: Vec<TripPhase> = Vec::new();
        let n = self.trip_log.len();
        proof {
            assert(self.trip_log@.take(0) =~= Seq::<TripLogEntry>::empty());
        }
        let mut k: usize = 0;
        while k < n
            invariant
                self.wf(),
                k <= n,
                n == self.trip_log@.len(),
                no_terminal(trip_entries(self.trip_log@.take(k as int), trip)),
                phases@ == spec_phases_nopath(trip_entries(self.trip_log@.take(k as int), trip)),
            decreases n - k,
        {
            let e = self.trip_log[k];
            proof {
                assert(self.trip_log@.take(k + 1).drop_last() =~= self.trip_log@.take(k as int));
                assert(self.trip_log@.take(k + 1).last() == self.trip_log@[k as int]);
            }
            if e.trip.0 == trip.0 {
                proof {
                    assert(e.trip == trip);
                }
                let ghost es = trip_entries(self.trip_log@.take(k as int), trip);
                let ghost es2 = trip_entries(self.trip_log@.take(k + 1), trip);
                proof {
                    assert(es2 == es.push(self.trip_log@[k as int]));
                }
                if phases.len() > 0 {
                    let last = phases.len() - 1;
                    phases[last].end_time = Some(e.time);
                }
                let terminal = match e.marker {
                    TripLogMarker::PhaseStart(_) => false,
                    TripLogMarker::Finished => true,
                    TripLogMarker::Aborted => true,
                };
                if terminal {
                    proof {
                        assert(phases@ =~= spec_phases_nopath(es2));
                        lemma_cut_stable(self.trip_log@, trip, k as int);
                        lemma_cut_terminal_end(es, self.trip_log@[k as int]);
                    }
                    let finished = match e.marker {
                        TripLogMarker::Finished => true,
                        _ => false,
                    };
                    return (phases, finished);
                }
                phases.push(
                    TripPhase {
                        start_time: e.time,
                        end_time: None,
                        path: None,
                        kind: match e.marker {
                            TripLogMarker::PhaseStart(kind) => kind,
                            _ => TripPhaseKind::ParkingOnCurrentLane,
                        },
                    },
                );
                proof {
                    assert(phases@ =~= spec_phases_nopath(es2));
                }
            }
            k = k + 1;
        }
        proof {
            assert(self.trip_log@.take(n as int) =~= self.trip_log@);
            lemma_cut_no_terminal(trip_entries(self.trip_log@, trip));
            let es = trip_entries(self.trip_log@, trip);
            if es.len() > 0 {
                assert(!is_terminal(es[es.len() - 1].marker));
            }
        }
        (phases, false)
    }
}

/// A trip's filtered entries keep the log's time order.
proof fn lemma_trip_entries_sorted(log: Seq<TripLogEntry>, trip: TripID)
    requires
        forall|i: int, j: int|
            0 <= i <= j < log.len() ==> (#[trigger] log[i]).time <= (#[trigger] log[j]).time,
    ensures
        forall|p: int, q: int|
            0 <= p <= q < trip_entries(log, trip).len() ==> (#[trigger] trip_entries(
                log,
                trip,
            )[p]).time <= (#[trigger] trip_entries(log, trip)[q]).time,
        log.len() > 0 ==> forall|p: int|
            0 <= p < trip_entries(log, trip).len() ==> (#[trigger] trip_entries(log, trip)[p]).time
                <= log.last().time,
    decreases log.len(),
{
    if log.len() > 0 {
        assert(forall|i: int, j: int|
            0 <= i <= j < log.drop_last().len() ==> (#[trigger] log.drop_last()[i]).time <= (
            #[trigger] log.drop_last()[j]).time);
        lemma_trip_entries_sorted(log.drop_last(), trip);
        if log.len() > 1 {
            assert(log[log.len() - 2].time <= log[log.len() - 1].time);
        }
    }
}

/// A cut entry list is a prefix of the list it was cut from.
proof fn lemma_cut_is_prefix(es: Seq<TripLogEntry>)
    ensures
        cut_at_terminal(es).len() <= es.len(),
        forall|j: int|
            0 <= j < cut_at_terminal(es).len() ==> #[trigger] cut_at_terminal(es)[j] == es[j],
    decreases es.len(),
{
    if es.len() > 0 && !is_terminal(es.first().marker) {
        lemma_cut_is_prefix(es.drop_first());
        assert forall|j: int| 0 <= j < cut_at_terminal(es).len() implies #[trigger] cut_at_terminal(
            es,
        )[j] == es[j] by {
            if j > 0 {
                assert(cut_at_terminal(es)[j] == cut_at_terminal(es.drop_first())[j - 1]);
                assert(es.drop_first()[j - 1] == es[j]);
            }
        }
    }
}

/// A list with no terminal markers is its own cut.
proof fn lemma_cut_no_terminal(es: Seq<TripLogEntry>)
    requires
        no_terminal(es),
    ensures
        cut_at_terminal(es) == es,
    decreases es.len(),
{
    if es.len() > 0 {
        assert(!is_terminal(es[0].marker));
        assert(no_terminal(es.drop_first()));
        lemma_cut_no_terminal(es.drop_first());
        assert(cut_at_terminal(es) =~= es);
    }
}

/// Appending a terminal to a terminal-free list cuts to the whole list.
proof fn lemma_cut_terminal_end(es: Seq<TripLogEntry>, t: TripLogEntry)
    requires
        no_terminal(es),
        is_terminal(t.marker),
    ensures
        cut_at_terminal(es.push(t)) == es.push(t),
    decreases es.len(),
{
    if es.len() == 0 {
        assert(es.push(t).first() == t);
        assert(cut_at_terminal(es.push(t)) =~= es.push(t));
    } else {
        assert(!is_terminal(es.push(t).first().marker));
        assert(es.push(t).drop_first() =~= es.drop_first().push(t));
        assert(no_terminal(es.drop_first()));
        lemma_cut_terminal_end(es.drop_first(), t);
        assert(cut_at_terminal(es.push(t)) =~= es.push(t));
    }
}

/// Once a list holds a terminal, appending more entries cannot change its
/// cut.
proof fn lemma_cut_push_after_terminal(es: Seq<TripLogEntry>, x: TripLogEntry)
    requires
        exists|j: int| 0 <= j < es.len() && is_terminal((#[trigger] es[j]).marker),
    ensures
        cut_at_terminal(es.push(x)) == cut_at_terminal(es),
    decreases es.len(),
{
    if is_terminal(es.first().marker) {
        assert(es.push(x).first() == es.first());
    } else {
        assert(es.push(x).drop_first() =~= es.drop_first().push(x));
        let j = choose|j: int| 0 <= j < es.len() && is_terminal((#[trigger] es[j]).marker);
        assert(j != 0);
        assert(is_terminal(es.drop_first()[j - 1].marker));
        lemma_cut_push_after_terminal(es.drop_first(), x);
    }
}

/// After a trip hits its terminal at position `k` of the log, later log
/// entries cannot change the trip's cut entry list.
proof fn lemma_cut_stable(log: Seq<TripLogEntry>, trip: TripID, k: int)
    requires
        0 <= k < log.len(),
        log[k].trip == trip,
        is_terminal(log[k].marker),
    ensures
        cut_at_terminal(trip_entries(log, trip)) == cut_at_terminal(
            trip_entries(log.take(k + 1), trip),
        ),
{
    assert(log.take(log.len() as int) =~= log);
    lemma_cut_stable_step(log, trip, k, log.len() as int);
}

proof fn lemma_cut_stable_step(log: Seq<TripLogEntry>, trip: TripID, k: int, m: int)
    requires
        0 <= k < log.len(),
        k + 1 <= m <= log.len(),
        log[k].trip == trip,
        is_terminal(log[k].marker),
    ensures
        cut_at_terminal(trip_entries(log.take(m), trip)) == cut_at_terminal(
            trip_entries(log.take(k + 1), trip),
        ),
        exists|j: int|
            0 <= j < trip_entries(log.take(m), trip).len() && is_terminal(
                (#[trigger] trip_entries(log.take(m), trip)[j]).marker,
            ),
    decreases m,
{
    if m == k + 1 {
        let es = trip_entries(log.take(k + 1), trip);
        assert(log.take(k + 1).drop_last() =~= log.take(k));
        assert(log.take(k + 1).last() == log[k]);
        assert(es.last() == log[k]);
        assert(is_terminal(es[es.len() - 1].marker));
    } else {
        lemma_cut_stable_step(log, trip, k, m - 1);
        assert(log.take(m).drop_last() =~= log.take(m - 1));
        assert(log.take(m).last() == log[m - 1]);
        let prev = trip_entries(log.take(m - 1), trip);
        if log[m - 1].trip == trip {
            assert(trip_entries(log.take(m), trip) == prev.push(log[m - 1]));
            lemma_cut_push_after_terminal(prev, log[m - 1]);
            let j = choose|j: int|
                0 <= j < prev.len() && is_terminal((#[trigger] prev[j]).marker);
            assert(prev.push(log[m - 1])[j] == prev[j]);
        } else {
            assert(trip_entries(log.take(m), trip) == prev);
        }
    }
}

/// No key of this list equals the given key.
pub open spec fn spec_table_key_absent(keys: Seq<usize>, k: usize) -> bool {
    forall|q: int| 0 <= q < keys.len() ==> keys[q] != k
}

/// A key the table answers for occurs among its keys.
proof fn lemma_table_key_present<V>(keys: Seq<usize>, vals: Seq<V>, k: usize)
    requires
        keys.len() == vals.len(),
        crate::table::spec_table_get(keys, vals, k) is Some,
    ensures
        exists|q: int| 0 <= q < keys.len() && keys[q] == k,
    decreases keys.len(),
{
    if keys.len() > 0 && keys.first() != k {
        lemma_table_key_present(keys.drop_first(), vals.drop_first(), k);
        let q = choose|q: int| 0 <= q < keys.drop_first().len() && keys.drop_first()[q] == k;
        assert(keys[q + 1] == k);
    }
}

proof fn lemma_table_key_absent_push(keys: Seq<usize>, added: usize, k: usize)
    requires
        spec_table_key_absent(keys, k),
        k != added,
    ensures
        spec_table_key_absent(keys.push(added), k),
{
    assert forall|q: int| 0 <= q < keys.push(added).len() implies keys.push(added)[q] != k by {
        if q < keys.len() {
            assert(keys[q] != k);
        }
    }
}

/// Where a car's tracked last arrival sits.
fn find_car_entry(v: &Vec<(crate::types::CarID, Time)>, car: crate::types::CarID) -> (r: Option<
    usize,
>)
    ensures
        match r {
            Some(p) => p < v@.len() && v@[p as int].0 == car,
            None => forall|p: int| 0 <= p < v@.len() ==> (#[trigger] v@[p]).0 != car,
        },
{
    let n = v.len();
    for p in 0..n
        invariant
            n == v@.len(),
            forall|q: int| 0 <= q < p ==> (#[trigger] v@[q]).0 != car,
    {
        if v[p].0 == car {
            return Some(p);
        }
    }
    None
}

/// Overwrites a car's tracked last arrival.
fn set_car_entry(v: &mut Vec<(crate::types::CarID, Time)>, p: usize, car: crate::types::CarID, t: Time)
    requires
        (p as int) < old(v)@.len(),
        old(v)@[p as int].0 == car,
    ensures
        final(v)@ == old(v)@.update(p as int, (car, t)),
{
    v[p] = (car, t);
}

proof fn lemma_filter_arrivals_cutoff(s: Seq<BusArrival>, route: BusRouteID, now: Time, k: int)
    requires
        0 <= k <= s.len(),
        forall|i: int, j: int| 0 <= i <= j < s.len() ==> (#[trigger] s[i]).time <= (#[trigger] s[j]).time,
        k < s.len() ==> s[k].time > now,
    ensures
        filter_arrivals(s, route, now) == filter_arrivals(s.take(k), route, now),
    decreases s.len() - k,
{
    if k < s.len() {
        assert(s.take(s.len() as int) =~= s);
        lemma_filter_arrivals_cutoff_step(s, route, now, k, s.len() as int);
    } else {
        assert(s.take(k) =~= s);
    }
}

proof fn lemma_filter_arrivals_cutoff_step(
    s: Seq<BusArrival>,
    route: BusRouteID,
    now: Time,
    k: int,
    m: int,
)
    requires
        0 <= k <= m <= s.len(),
        forall|i: int, j: int| 0 <= i <= j < s.len() ==> (#[trigger] s[i]).time <= (#[trigger] s[j]).time,
        k < s.len() ==> s[k].time > now,
    ensures
        filter_arrivals(s.take(m), route, now) == filter_arrivals(s.take(k), route, now),
    decreases m,
{
    if m > k {
        assert(s.take(m).drop_last() =~= s.take(m - 1));
        assert(s.take(m).last() == s[m - 1]);
        assert(s[m - 1].time >= s[k].time);
        lemma_filter_arrivals_cutoff_step(s, route, now, k, m - 1);
    }
}

/// A fresh distribution holds nothing.
proof fn lemma_empty_hist_ms(h: &Histogram)
    requires
        h@ =~= Seq::<u64>::empty(),
    ensures
        h.ms() =~= Multiset::<u64>::empty(),
{
    h@.to_multiset_ensures();
    assert(h.ms().len() == 0);
}

/// Once the records turn later than `now`, the rest contribute nothing.
proof fn lemma_finished_cutoff(s: Seq<FinishedTrip>, now: Time, mode: TripMode, k: int)
    requires
        0 <= k <= s.len(),
        forall|i: int, j: int| 0 <= i <= j < s.len() ==> (#[trigger] s[i]).time <= (#[trigger] s[j]).time,
        k < s.len() ==> s[k].time > now,
    ensures
        finished_ms(s, now, mode) == finished_ms(s.take(k), now, mode),
    decreases s.len() - k,
{
    if k < s.len() {
        assert(s.take(s.len() as int) =~= s);
        lemma_finished_cutoff_step(s, now, mode, k, s.len() as int);
    } else {
        assert(s.take(k) =~= s);
    }
}

/// Every suffix of late records can be peeled off from the back.
proof fn lemma_finished_cutoff_step(s: Seq<FinishedTrip>, now: Time, mode: TripMode, k: int, m: int)
    requires
        0 <= k <= m <= s.len(),
        forall|i: int, j: int| 0 <= i <= j < s.len() ==> (#[trigger] s[i]).time <= (#[trigger] s[j]).time,
        k < s.len() ==> s[k].time > now,
    ensures
        finished_ms(s.take(m), now, mode) == finished_ms(s.take(k), now, mode),
    decreases m,
{
    if m > k {
        assert(s.take(m).drop_last() =~= s.take(m - 1));
        assert(s.take(m).last() == s[m - 1]);
        assert(s[m - 1].time >= s[k].time);
        lemma_finished_cutoff_step(s, now, mode, k, m - 1);
    }
}

proof fn lemma_finished_all_cutoff(s: Seq<FinishedTrip>, now: Time, k: int)
    requires
        0 <= k <= s.len(),
        forall|i: int, j: int| 0 <= i <= j < s.len() ==> (#[trigger] s[i]).time <= (#[trigger] s[j]).time,
        k < s.len() ==> s[k].time > now,
    ensures
        all_modes_ms(s, now) == all_modes_ms(s.take(k), now),
        count_aborted(s, now) == count_aborted(s.take(k), now),
    decreases s.len() - k,
{
    if k < s.len() {
        assert(s.take(s.len() as int) =~= s);
        lemma_finished_all_cutoff_step(s, now, k, s.len() as int);
    } else {
        assert(s.take(k) =~= s);
    }
}

proof fn lemma_finished_all_cutoff_step(s: Seq<FinishedTrip>, now: Time, k: int, m: int)
    requires
        0 <= k <= m <= s.len(),
        forall|i: int, j: int| 0 <= i <= j < s.len() ==> (#[trigger] s[i]).time <= (#[trigger] s[j]).time,
        k < s.len() ==> s[k].time > now,
    ensures
        all_modes_ms(s.take(m), now) == all_modes_ms(s.take(k), now),
        count_aborted(s.take(m), now) == count_aborted(s.take(k), now),
    decreases m,
{
    if m > k {
        assert(s.take(m).drop_last() =~= s.take(m - 1));
        assert(s.take(m).last() == s[m - 1]);
        assert(s[m - 1].time >= s[k].time);
        lemma_finished_all_cutoff_step(s, now, k, m - 1);
    }
}

/// Aborted trips are no more numerous than the records.
proof fn lemma_aborted_le_len(s: Seq<FinishedTrip>, now: Time)
    ensures
        count_aborted(s, now) <= s.len(),
    decreases s.len(),
{
    if s.len() > 0 {
        lemma_aborted_le_len(s.drop_last(), now);
    }
}

proof fn lemma_filter_road_cutoff(s: Seq<RoadEntry>, road: RoadID, now: Time, k: int)
    requires
        0 <= k <= s.len(),
        forall|i: int, j: int| 0 <= i <= j < s.len() ==> (#[trigger] s[i]).time <= (#[trigger] s[j]).time,
        k < s.len() ==> s[k].time > now,
    ensures
        filter_road(s, road, now) == filter_road(s.take(k), road, now),
    decreases s.len() - k,
{
    if k < s.len() {
        assert(s.take(s.len() as int) =~= s);
        lemma_filter_road_cutoff_step(s, road, now, k, s.len() as int);
    } else {
        assert(s.take(k) =~= s);
    }
}

proof fn lemma_filter_road_cutoff_step(s: Seq<RoadEntry>, road: RoadID, now: Time, k: int, m: int)
    requires
        0 <= k <= m <= s.len(),
        forall|i: int, j: int| 0 <= i <= j < s.len() ==> (#[trigger] s[i]).time <= (#[trigger] s[j]).time,
        k < s.len() ==> s[k].time > now,
    ensures
        filter_road(s.take(m), road, now) == filter_road(s.take(k), road, now),
    decreases m,
{
    if m > k {
        assert(s.take(m).drop_last() =~= s.take(m - 1));
        assert(s.take(m).last() == s[m - 1]);
        assert(s[m - 1].time >= s[k].time);
        lemma_filter_road_cutoff_step(s, road, now, k, m - 1);
    }
}

proof fn lemma_filter_turn_cutoff(s: Seq<TurnEntry>, i0: IntersectionID, now: Time, k: int)
    requires
        0 <= k <= s.len(),
        forall|i: int, j: int| 0 <= i <= j < s.len() ==> (#[trigger] s[i]).time <= (#[trigger] s[j]).time,
        k < s.len() ==> s[k].time > now,
    ensures
        filter_turn(s, i0, now) == filter_turn(s.take(k), i0, now),
    decreases s.len() - k,
{
    if k < s.len() {
        assert(s.take(s.len() as int) =~= s);
        lemma_filter_turn_cutoff_step(s, i0, now, k, s.len() as int);
    } else {
        assert(s.take(k) =~= s);
    }
}

proof fn lemma_filter_turn_cutoff_step(
    s: Seq<TurnEntry>,
    i0: IntersectionID,
    now: Time,
    k: int,
    m: int,
)
    requires
        0 <= k <= m <= s.len(),
        forall|i: int, j: int| 0 <= i <= j < s.len() ==> (#[trigger] s[i]).time <= (#[trigger] s[j]).time,
        k < s.len() ==> s[k].time > now,
    ensures
        filter_turn(s.take(m), i0, now) == filter_turn(s.take(k), i0, now),
    decreases m,
{
    if m > k {
        assert(s.take(m).drop_last() =~= s.take(m - 1));
        assert(s.take(m).last() == s[m - 1]);
        assert(s[m - 1].time >= s[k].time);
        lemma_filter_turn_cutoff_step(s, i0, now, k, m - 1);
    }
}

proof fn lemma_delays_between_cutoff(
    s: Seq<DelayEntry>,
    t1: Time,
    t2: Time,
    k: int,
    a: &Analytics,
    key: usize,
)
    requires
        a.wf(),
        a.spec_delays(key) == s,
        0 <= k <= s.len(),
        k < s.len() ==> s[k].time > t2,
    ensures
        delays_between(s, t1, t2) == delays_between(s.take(k), t1, t2),
    decreases s.len() - k,
{
    lemma_delay_list_sorted(a, key);
    if k < s.len() {
        assert(s.take(s.len() as int) =~= s);
        lemma_delays_between_cutoff_step(s, t1, t2, k, s.len() as int);
    } else {
        assert(s.take(k) =~= s);
    }
}

proof fn lemma_delays_between_cutoff_step(s: Seq<DelayEntry>, t1: Time, t2: Time, k: int, m: int)
    requires
        0 <= k <= m <= s.len(),
        forall|i: int, j: int| 0 <= i <= j < s.len() ==> (#[trigger] s[i]).time <= (#[trigger] s[j]).time,
        k < s.len() ==> s[k].time > t2,
    ensures
        delays_between(s.take(m), t1, t2) == delays_between(s.take(k), t1, t2),
    decreases m,
{
    if m > k {
        assert(s.take(m).drop_last() =~= s.take(m - 1));
        assert(s.take(m).last() == s[m - 1]);
        assert(s[m - 1].time >= s[k].time);
        lemma_delays_between_cutoff_step(s, t1, t2, k, m - 1);
    }
}

proof fn lemma_filter_delays_cutoff(s: Seq<DelayEntry>, now: Time, k: int, a: &Analytics, key: usize)
    requires
        a.wf(),
        a.spec_delays(key) == s,
        0 <= k <= s.len(),
        k < s.len() ==> s[k].time > now,
    ensures
        filter_delays(s, now) == filter_delays(s.take(k), now),
    decreases s.len() - k,
{
    lemma_delay_list_sorted(a, key);
    if k < s.len() {
        assert(s.take(s.len() as int) =~= s);
        lemma_filter_delays_cutoff_step(s, now, k, s.len() as int);
    } else {
        assert(s.take(k) =~= s);
    }
}

proof fn lemma_filter_delays_cutoff_step(s: Seq<DelayEntry>, now: Time, k: int, m: int)
    requires
        0 <= k <= m <= s.len(),
        forall|i: int, j: int| 0 <= i <= j < s.len() ==> (#[trigger] s[i]).time <= (#[trigger] s[j]).time,
        k < s.len() ==> s[k].time > now,
    ensures
        filter_delays(s.take(m), now) == filter_delays(s.take(k), now),
    decreases m,
{
    if m > k {
        assert(s.take(m).drop_last() =~= s.take(m - 1));
        assert(s.take(m).last() == s[m - 1]);
        assert(s[m - 1].time >= s[k].time);
        lemma_filter_delays_cutoff_step(s, now, k, m - 1);
    }
}

/// One intersection's stored delay list is sorted by time: it was filled in
/// recording order.
proof fn lemma_delay_list_sorted(a: &Analytics, key: usize)
    requires
        a.wf(),
    ensures
        forall|i: int, j: int|
            0 <= i <= j < a.spec_delays(key).len() ==> (#[trigger] a.spec_delays(key)[i]).time <= (
            #[trigger] a.spec_delays(key)[j]).time,
{
    match a.intersection_delays.spec_get(key) {
        Some(v) => {
            lemma_table_val_indexed(a.intersection_delays.keys@, a.intersection_delays.vals@, key);
        },
        None => {},
    }
}

/// A value the table reports for a key sits at some index of its value
/// list.
proof fn lemma_table_val_indexed<V>(keys: Seq<usize>, vals: Seq<V>, k: usize)
    requires
        keys.len() == vals.len(),
        crate::table::spec_table_get(keys, vals, k) is Some,
    ensures
        exists|i: int|
            0 <= i < vals.len() && crate::table::spec_table_get(keys, vals, k) == Some(
                #[trigger] vals[i],
            ),
    decreases keys.len(),
{
    if keys.len() > 0 {
        if keys.first() == k {
            assert(crate::table::spec_table_get(keys, vals, k) == Some(vals[0]));
        } else {
            lemma_table_val_indexed(keys.drop_first(), vals.drop_first(), k);
            let i = choose|i: int|
                0 <= i < vals.drop_first().len() && crate::table::spec_table_get(
                    keys.drop_first(),
                    vals.drop_first(),
                    k,
                ) == Some(#[trigger] vals.drop_first()[i]);
            assert(vals[i + 1] == vals.drop_first()[i]);
        }
    }
}

/// The filtered road records keep the raw records' time order and stay
/// within `now`.
proof fn lemma_filter_road_props(s: Seq<RoadEntry>, road: RoadID, now: Time)
    requires
        forall|i: int, j: int| 0 <= i <= j < s.len() ==> (#[trigger] s[i]).time <= (#[trigger] s[j]).time,
    ensures
        crate::buckets::times_sorted(filter_road(s, road, now)),
        forall|p: int|
            0 <= p < filter_road(s, road, now).len() ==> (#[trigger] filter_road(
                s,
                road,
                now,
            )[p]).0 <= now,
        s.len() > 0 ==> forall|p: int|
            0 <= p < filter_road(s, road, now).len() ==> (#[trigger] filter_road(
                s,
                road,
                now,
            )[p]).0 <= s.last().time,
    decreases s.len(),
{
    if s.len() > 0 {
        lemma_filter_road_props(s.drop_last(), road, now);
        let f = filter_road(s, road, now);
        let rest = filter_road(s.drop_last(), road, now);
        if s.len() > 1 {
            assert(s.drop_last().last().time <= s.last().time) by {
                assert(s[s.len() - 2].time <= s[s.len() - 1].time);
            }
        }
    }
}

/// The filtered turn records keep the raw records' time order and stay
/// within `now`.
proof fn lemma_filter_turn_props(s: Seq<TurnEntry>, i0: IntersectionID, now: Time)
    requires
        forall|i: int, j: int| 0 <= i <= j < s.len() ==> (#[trigger] s[i]).time <= (#[trigger] s[j]).time,
    ensures
        crate::buckets::times_sorted(filter_turn(s, i0, now)),
        forall|p: int|
            0 <= p < filter_turn(s, i0, now).len() ==> (#[trigger] filter_turn(s, i0, now)[p]).0
                <= now,
        s.len() > 0 ==> forall|p: int|
            0 <= p < filter_turn(s, i0, now).len() ==> (#[trigger] filter_turn(s, i0, now)[p]).0
                <= s.last().time,
    decreases s.len(),
{
    if s.len() > 0 {
        lemma_filter_turn_props(s.drop_last(), i0, now);
        if s.len() > 1 {
            assert(s.drop_last().last().time <= s.last().time) by {
                assert(s[s.len() - 2].time <= s[s.len() - 1].time);
            }
        }
    }
}

/// The filtered delay records keep time order and stay within `now`.
proof fn lemma_filter_delays_props(s: Seq<DelayEntry>, now: Time)
    ensures
        forall|p: int|
            0 <= p < filter_delays(s, now).len() ==> (#[trigger] filter_delays(s, now)[p]).0 <= now,
        (forall|i: int, j: int|
            0 <= i <= j < s.len() ==> (#[trigger] s[i]).time <= (#[trigger] s[j]).time)
            ==> crate::buckets::delay_times_sorted(filter_delays(s, now)),
    decreases s.len(),
{
    if s.len() > 0 {
        lemma_filter_delays_props(s.drop_last(), now);
        if forall|i: int, j: int|
            0 <= i <= j < s.len() ==> (#[trigger] s[i]).time <= (#[trigger] s[j]).time {
            assert(forall|i: int, j: int|
                0 <= i <= j < s.drop_last().len() ==> (#[trigger] s.drop_last()[i]).time <= (
                #[trigger] s.drop_last()[j]).time);
            let f = filter_delays(s, now);
            let rest = filter_delays(s.drop_last(), now);
            assert forall|p: int| 0 <= p < rest.len() implies (#[trigger] rest[p]).0
                <= s.last().time by {
                lemma_filter_delays_bound(s.drop_last(), now, p);
                if s.len() > 1 {
                    assert(s[s.len() - 2].time <= s[s.len() - 1].time);
                }
            }
        }
    }
}

/// Every filtered delay's time is the time of some record.
proof fn lemma_filter_delays_bound(s: Seq<DelayEntry>, now: Time, p: int)
    requires
        0 <= p < filter_delays(s, now).len(),
    ensures
        exists|q: int|
            0 <= q < s.len() && (#[trigger] s[q]).time == filter_delays(s, now)[p].0,
    decreases s.len(),
{
    if s.len() > 0 {
        let f = filter_delays(s, now);
        let rest = filter_delays(s.drop_last(), now);
        if p < rest.len() {
            lemma_filter_delays_bound(s.drop_last(), now, p);
            let q = choose|q: int|
                0 <= q < s.drop_last().len() && (#[trigger] s.drop_last()[q]).time == rest[p].0;
            assert(s[q].time == f[p].0);
        } else {
            assert(s[s.len() - 1].time == f[p].0);
        }
    }
}

/// A road's count never exceeds the record count.
proof fn lemma_count_road_le_len(s: Seq<RoadEntry>, road: usize)
    ensures
        count_road(s, road) <= s.len(),
    decreases s.len(),
{
    if s.len() > 0 {
        lemma_count_road_le_len(s.drop_last(), road);
    }
}

/// An intersection's count never exceeds the record count.
proof fn lemma_count_intersection_le_len(s: Seq<TurnEntry>, i: usize)
    ensures
        count_intersection(s, i) <= s.len(),
    decreases s.len(),
{
    if s.len() > 0 {
        lemma_count_intersection_le_len(s.drop_last(), i);
    }
}

} // verus!
