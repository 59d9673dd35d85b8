//! Tests for the metrics aggregator: recording, counters, bucketed
//! queries, distributions, bus headways, trip timelines and the parking
//! overhead report.

use sim_core::analytics::Analytics;
use sim_core::events::{Event, TripLogMarker, TripPhaseKind, Traversable, TurnID};
use sim_core::spatial::{Lane, LaneType, Path, PathRequest, Position, SpatialIndex};
use sim_core::types::{
    AgentID, BusRouteID, BusStopID, CarID, IntersectionID, LaneID, PedestrianID, RoadID, TripID,
    TripMode, VehicleType,
};

fn test_map() -> SpatialIndex {
    let lanes = vec![
        Lane { lane_type: LaneType::Driving, length: 4000, parent: RoadID(0) },
        Lane { lane_type: LaneType::Driving, length: 4000, parent: RoadID(1) },
    ];
    let req = PathRequest {
        start: Position { lane: LaneID(0), dist_along: 100 },
        end: Position { lane: LaneID(1), dist_along: 500 },
    };
    let path = Path { steps: vec![LaneID(0), LaneID(1)] };
    SpatialIndex::new(lanes, vec![(req, path)])
}

fn drive(n: usize) -> AgentID {
    AgentID::Car(CarID { id: n, vehicle_type: VehicleType::Car })
}

fn bus(n: usize) -> CarID {
    CarID { id: n, vehicle_type: VehicleType::Bus }
}

fn enter_road(a: &mut Analytics, t: u64, lane: usize, map: &SpatialIndex) {
    a.event(
        Event::AgentEntersTraversable(drive(7), Traversable::Lane(LaneID(lane))),
        t,
        map,
    );
}

#[test]
fn road_counter_tracks_entries() {
    let map = test_map();
    let mut a = Analytics::new();
    enter_road(&mut a, 0, 0, &map);
    enter_road(&mut a, 10, 0, &map);
    enter_road(&mut a, 20, 1, &map);
    assert_eq!(a.thruput_stats.count_per_road.get(0), 2);
    assert_eq!(a.thruput_stats.count_per_road.get(1), 1);
    assert_eq!(a.thruput_stats.count_per_road.get(2), 0);
}

#[test]
fn intersection_counter_tracks_turns() {
    let map = test_map();
    let mut a = Analytics::new();
    let turn = TurnID { parent: IntersectionID(4), src: LaneID(0), dst: LaneID(1) };
    a.event(
        Event::AgentEntersTraversable(drive(7), Traversable::Turn(turn)),
        5,
        &map,
    );
    assert_eq!(a.thruput_stats.count_per_intersection.get(4), 1);
    assert_eq!(a.thruput_stats.count_per_intersection.get(5), 0);
}

#[test]
fn five_entries_bucket_into_three_windows() {
    // Scenario: five road entries at 0, 50, 130, 250 and 1205 time units,
    // bucket width 600, queried at 1205. Three buckets cover the span
    // through the last record; the window [0, 600) holds the four early
    // entries and [1200, 1800) holds the last.
    let map = test_map();
    let mut a = Analytics::new();
    for t in [0u64, 50, 130, 250, 1205] {
        enter_road(&mut a, t, 0, &map);
    }
    let buckets = a.throughput_road(1205, RoadID(0), 600);
    assert_eq!(buckets.len(), 3);
    assert_eq!(buckets[0].0, 0);
    assert_eq!(buckets[1].0, 600);
    assert_eq!(buckets[2].0, 1200);
    assert_eq!(buckets[0].1.get(TripMode::Drive), 4);
    assert_eq!(buckets[1].1.get(TripMode::Drive), 0);
    assert_eq!(buckets[2].1.get(TripMode::Drive), 1);
    for b in &buckets {
        assert_eq!(b.1.get(TripMode::Walk), 0);
        assert_eq!(b.1.get(TripMode::Bike), 0);
        assert_eq!(b.1.get(TripMode::Transit), 0);
    }
}

#[test]
fn bucket_counts_sum_to_raw_count() {
    // Round-trip: summing the bucketed series over all buckets and modes
    // gives the raw count of matching records at or before `now`.
    let map = test_map();
    let mut a = Analytics::new();
    let times = [0u64, 50, 130, 250, 700, 1205, 1900];
    for t in times {
        enter_road(&mut a, t, 0, &map);
    }
    let now = 1205;
    let buckets = a.throughput_road(now, RoadID(0), 600);
    let total: u64 = buckets
        .iter()
        .map(|b| {
            b.1.get(TripMode::Walk)
                + b.1.get(TripMode::Bike)
                + b.1.get(TripMode::Transit)
                + b.1.get(TripMode::Drive)
        })
        .sum();
    let raw = times.iter().filter(|t| **t <= now).count() as u64;
    assert_eq!(total, raw);
}

#[test]
fn bucket_series_has_no_gaps() {
    // Bucket completeness: the series has exactly the buckets needed to
    // cover from the start of the day through min(now, last event time).
    let map = test_map();
    let mut a = Analytics::new();
    enter_road(&mut a, 10, 0, &map);
    enter_road(&mut a, 2500, 0, &map);
    let buckets = a.throughput_road(10_000, RoadID(0), 600);
    // Last matching event at 2500: windows start at 0, 600, 1200, 1800, 2400.
    assert_eq!(buckets.len(), 5);
    for (i, b) in buckets.iter().enumerate() {
        assert_eq!(b.0, 600 * i as u64);
    }
    // With no matching records the series is empty.
    let empty = a.throughput_road(10_000, RoadID(3), 600);
    assert!(empty.is_empty());
}

#[test]
fn throughput_intersection_buckets_like_roads() {
    let map = test_map();
    let mut a = Analytics::new();
    let turn = TurnID { parent: IntersectionID(2), src: LaneID(0), dst: LaneID(1) };
    for t in [0u64, 700] {
        a.event(
            Event::AgentEntersTraversable(drive(1), Traversable::Turn(turn)),
            t,
            &map,
        );
    }
    let buckets = a.throughput_intersection(700, IntersectionID(2), 600);
    assert_eq!(buckets.len(), 2);
    assert_eq!(buckets[0].1.get(TripMode::Drive), 1);
    assert_eq!(buckets[1].1.get(TripMode::Drive), 1);
}

#[test]
fn finished_trip_distributions() {
    let map = test_map();
    let mut a = Analytics::new();
    a.event(Event::TripFinished(TripID(1), TripMode::Drive, 300), 100, &map);
    a.event(Event::TripFinished(TripID(2), TripMode::Walk, 500), 200, &map);
    a.event(Event::TripAborted(TripID(3)), 250, &map);
    a.event(Event::TripFinished(TripID(4), TripMode::Drive, 100), 400, &map);

    let drives = a.finished_trips(400, TripMode::Drive);
    assert_eq!(drives.count(), 2);
    assert_eq!(drives.max(), Some(300));
    assert_eq!(drives.mean(), Some(200));

    // Queried earlier, the later trip is not seen yet.
    let early = a.finished_trips(250, TripMode::Drive);
    assert_eq!(early.count(), 1);

    let (all, aborted, per_mode) = a.all_finished_trips(400);
    assert_eq!(all.count(), 3);
    assert_eq!(aborted, 1);
    assert_eq!(per_mode.len(), 4);
    assert_eq!(per_mode[0].0, TripMode::Walk);
    assert_eq!(per_mode[0].1.count(), 1);
    assert_eq!(per_mode[3].0, TripMode::Drive);
    assert_eq!(per_mode[3].1.count(), 2);
}

#[test]
fn intersection_delay_windows() {
    let map = test_map();
    let mut a = Analytics::new();
    let i = IntersectionID(6);
    for (t, d) in [(100u64, 5u64), (200, 15), (900, 25)] {
        a.event(Event::IntersectionDelayMeasured(i, d), t, &map);
    }
    let between = a.intersection_delays(i, 150, 950);
    assert_eq!(between.count(), 2);
    assert_eq!(between.max(), Some(25));

    let buckets = a.intersection_delays_bucketized(900, i, 600);
    assert_eq!(buckets.len(), 2);
    assert_eq!(buckets[0].0, 0);
    assert_eq!(buckets[0].1.count(), 2);
    assert_eq!(buckets[0].1.max(), Some(15));
    assert_eq!(buckets[1].1.count(), 1);
    assert_eq!(buckets[1].1.max(), Some(25));

    // An intersection with no measurements yields empty results.
    let none = a.intersection_delays(IntersectionID(9), 0, 1000);
    assert_eq!(none.count(), 0);
}

#[test]
fn bus_headways_per_stop() {
    // One bus visits stops 1, 2, then returns to 1: the delta between
    // consecutive arrivals lands at the later stop. The first stop a bus
    // ever visits collects no sample unless the bus returns.
    let map = test_map();
    let mut a = Analytics::new();
    let route = BusRouteID(3);
    a.event(Event::BusArrivedAtStop(bus(9), route, BusStopID(1)), 100, &map);
    a.event(Event::BusArrivedAtStop(bus(9), route, BusStopID(2)), 200, &map);
    a.event(Event::BusArrivedAtStop(bus(9), route, BusStopID(1)), 350, &map);

    let headways = a.bus_arrivals(350, route);
    let stop1 = headways.get(1).unwrap();
    assert_eq!(stop1.count(), 1);
    assert_eq!(stop1.max(), Some(150));
    let stop2 = headways.get(2).unwrap();
    assert_eq!(stop2.count(), 1);
    assert_eq!(stop2.max(), Some(100));

    let series = a.bus_arrivals_over_time(350, route);
    assert_eq!(series.get(1).unwrap(), &vec![(350u64, 150u64)]);
    assert_eq!(series.get(2).unwrap(), &vec![(200u64, 100u64)]);

    // Another route has no arrivals: no stops at all.
    let empty = a.bus_arrivals(350, BusRouteID(8));
    assert!(empty.get(1).is_none());
}

#[test]
fn two_buses_do_not_share_headways() {
    let map = test_map();
    let mut a = Analytics::new();
    let route = BusRouteID(3);
    a.event(Event::BusArrivedAtStop(bus(1), route, BusStopID(5)), 100, &map);
    a.event(Event::BusArrivedAtStop(bus(2), route, BusStopID(5)), 140, &map);
    a.event(Event::BusArrivedAtStop(bus(1), route, BusStopID(5)), 300, &map);
    let headways = a.bus_arrivals(300, route);
    let stop = headways.get(5).unwrap();
    // Only bus 1 returned: one sample of 200, none of 160.
    assert_eq!(stop.count(), 1);
    assert_eq!(stop.max(), Some(200));
}

#[test]
fn trip_phases_pair_consecutive_milestones() {
    let map = test_map();
    let mut a = Analytics::new();
    let trip = TripID(5);
    let req = PathRequest {
        start: Position { lane: LaneID(0), dist_along: 100 },
        end: Position { lane: LaneID(1), dist_along: 500 },
    };
    a.event(
        Event::TripPhaseStarting(trip, Some(req), TripPhaseKind::Walking(PedestrianID(1))),
        10,
        &map,
    );
    a.event(
        Event::TripPhaseStarting(
            trip,
            None,
            TripPhaseKind::Driving(CarID { id: 3, vehicle_type: VehicleType::Car }),
        ),
        40,
        &map,
    );
    a.event(Event::TripFinished(trip, TripMode::Drive, 90), 100, &map);
    // A later event of the same trip is ignored: pairing stopped at the
    // terminal marker.
    a.event(
        Event::TripPhaseStarting(trip, None, TripPhaseKind::ParkingOnCurrentLane),
        150,
        &map,
    );

    let phases = a.get_trip_phases(trip, &map);
    assert_eq!(phases.len(), 2);
    assert_eq!(phases[0].start_time, 10);
    assert_eq!(phases[0].end_time, Some(40));
    assert_eq!(phases[0].kind, TripPhaseKind::Walking(PedestrianID(1)));
    // The routing request resolved against the router at query time.
    let (dist, path) = phases[0].path.as_ref().unwrap();
    assert_eq!(*dist, 100);
    assert_eq!(path.steps, vec![LaneID(0), LaneID(1)]);
    assert_eq!(phases[1].start_time, 40);
    assert_eq!(phases[1].end_time, Some(100));
    assert!(phases[1].path.is_none());

    // An unlogged trip yields no phases, not an error.
    assert!(a.get_trip_phases(TripID(77), &map).is_empty());
}

#[test]
fn ongoing_trip_keeps_last_phase_open() {
    let map = test_map();
    let mut a = Analytics::new();
    let trip = TripID(6);
    a.event(
        Event::TripPhaseStarting(trip, None, TripPhaseKind::Walking(PedestrianID(2))),
        30,
        &map,
    );
    let phases = a.get_trip_phases(trip, &map);
    assert_eq!(phases.len(), 1);
    assert_eq!(phases[0].end_time, None);
}

#[test]
fn parking_overhead_distribution() {
    // A trip that walks 10, drives 60 and parks 20 spends 30 of 90 time
    // units as overhead: 33 percent, truncated.
    let map = test_map();
    let mut a = Analytics::new();
    let trip = TripID(5);
    let c = CarID { id: 3, vehicle_type: VehicleType::Car };
    a.event(
        Event::TripPhaseStarting(trip, None, TripPhaseKind::Walking(PedestrianID(1))),
        0,
        &map,
    );
    a.event(
        Event::TripPhaseStarting(trip, None, TripPhaseKind::Driving(c)),
        10,
        &map,
    );
    a.event(
        Event::TripPhaseStarting(trip, None, TripPhaseKind::ParkingSomewhereElse),
        70,
        &map,
    );
    a.event(Event::TripFinished(trip, TripMode::Drive, 90), 90, &map);

    // A walking-only trip contributes nothing.
    let walk_trip = TripID(8);
    a.event(
        Event::TripPhaseStarting(walk_trip, None, TripPhaseKind::Walking(PedestrianID(4))),
        100,
        &map,
    );
    a.event(Event::TripFinished(walk_trip, TripMode::Walk, 20), 120, &map);

    // An aborted trip contributes nothing either.
    let aborted = TripID(9);
    a.event(
        Event::TripPhaseStarting(aborted, None, TripPhaseKind::Driving(c)),
        130,
        &map,
    );
    a.event(Event::TripAborted(aborted), 140, &map);

    let distrib = a.analyze_parking_phases();
    assert_eq!(distrib.count(), 1);
    assert_eq!(distrib.max(), Some(33));
}

#[test]
fn bus_passenger_counter() {
    let map = test_map();
    let mut a = Analytics::new();
    a.event(
        Event::PedEntersBus(PedestrianID(1), bus(9), BusRouteID(2)),
        50,
        &map,
    );
    a.event(
        Event::PedEntersBus(PedestrianID(2), bus(9), BusRouteID(2)),
        60,
        &map,
    );
    assert_eq!(a.total_bus_passengers.get(2), 2);
    assert_eq!(a.total_bus_passengers.get(3), 0);
}

#[test]
fn record_backpressure_is_a_no_op() {
    let map = test_map();
    let mut a = Analytics::new();
    enter_road(&mut a, 5, 0, &map);
    let path = Path { steps: vec![LaneID(0)] };
    a.record_backpressure(&path);
    assert_eq!(a.thruput_stats.count_per_road.get(0), 1);
    assert_eq!(a.latest_time, 5);
}
