//! The typed, immutable facts the metrics aggregator records.
//!
//! Each event is a timestamped fact emitted by the simulation as agents
//! cross road segments or intersection turns, buses reach stops, passengers
//! board, and trips finish, abort, or enter a new phase. The log of events
//! is append-only and ordered by simulation time.

use vstd::prelude::*;
use crate::types::{AgentID, BusRouteID, BusStopID, CarID, Duration, IntersectionID, LaneID,
    PedestrianID, Time, TripID, TripMode};
use crate::spatial::{PathRequest, SpatialIndex};

verus! {

/// One turn through an intersection: which lanes it connects and which
/// intersection owns it.
#[derive(Clone, Copy, PartialEq, Eq, Structural, Debug)]
pub struct TurnID {
    pub parent: IntersectionID,
    pub src: LaneID,
    pub dst: LaneID,
}

/// Where an agent can travel: along a lane, or through a turn.
#[derive(Clone, Copy, PartialEq, Eq, Structural, Debug)]
pub enum Traversable {
    Lane(LaneID),
    Turn(TurnID),
}

/// What a trip is doing during one phase of its timeline.
#[derive(Clone, Copy, PartialEq, Eq, Structural, Debug)]
pub enum TripPhaseKind {
    /// Driving the named vehicle.
    Driving(CarID),
    /// Walking.
    Walking(PedestrianID),
    /// Driving on, looking for parking somewhere else.
    ParkingSomewhereElse,
    /// Parking on the current lane.
    ParkingOnCurrentLane,
    /// Waiting for a bus on the named route.
    WaitingForBus(BusRouteID),
}

/// One simulated event.
#[derive(Clone, Copy, PartialEq, Eq, Structural, Debug)]
pub enum Event {
    /// An agent entered a road segment or an intersection turn.
    AgentEntersTraversable(AgentID, Traversable),
    /// A bus arrived at a stop of its route.
    BusArrivedAtStop(CarID, BusRouteID, BusStopID),
    /// A passenger boarded a bus of the named route.
    PedEntersBus(PedestrianID, CarID, BusRouteID),
    /// A trip finished, with its mode and how long it took.
    TripFinished(TripID, TripMode, Duration),
    /// A trip was aborted.
    TripAborted(TripID),
    /// A measured delay at an intersection.
    IntersectionDelayMeasured(IntersectionID, Duration),
    /// A trip entered a new phase, possibly carrying the routing request
    /// that started it.
    TripPhaseStarting(TripID, Option<PathRequest>, TripPhaseKind),
}

impl Event {
    /// Whether every lane the event names is known to the spatial index:
    /// recording an event about an unknown lane would be a caller bug.
    pub open spec fn valid_for(self, map: &SpatialIndex) -> bool {
        match self {
            Event::AgentEntersTraversable(_, Traversable::Lane(l)) => l.0 < map.lanes@.len(),
            _ => true,
        }
    }
}

/// One road-entry record: who entered which road, and when.
#[derive(Clone, Copy, PartialEq, Eq, Structural, Debug)]
pub struct RoadEntry {
    pub time: Time,
    pub mode: TripMode,
    pub road: crate::types::RoadID,
}

/// One turn-entry record: who crossed which intersection, and when.
#[derive(Clone, Copy, PartialEq, Eq, Structural, Debug)]
pub struct TurnEntry {
    pub time: Time,
    pub mode: TripMode,
    pub intersection: IntersectionID,
}

/// One bus arrival: which physical bus reached which stop of which route.
#[derive(Clone, Copy, PartialEq, Eq, Structural, Debug)]
pub struct BusArrival {
    pub time: Time,
    pub car: CarID,
    pub route: BusRouteID,
    pub stop: BusStopID,
}

/// One finished or aborted trip; an aborted trip has no mode and duration
/// zero.
#[derive(Clone, Copy, PartialEq, Eq, Structural, Debug)]
pub struct FinishedTrip {
    pub time: Time,
    pub trip: TripID,
    pub mode: Option<TripMode>,
    pub duration: Duration,
}

/// What one trip-log entry marks: a new phase, or a terminal outcome.
#[derive(Clone, Copy, PartialEq, Eq, Structural, Debug)]
pub enum TripLogMarker {
    PhaseStart(TripPhaseKind),
    Finished,
    Aborted,
}

/// One entry of the per-trip timeline log.
#[derive(Clone, Copy, PartialEq, Eq, Structural, Debug)]
pub struct TripLogEntry {
    pub time: Time,
    pub trip: TripID,
    pub request: Option<PathRequest>,
    pub marker: TripLogMarker,
}

/// One measured intersection delay.
#[derive(Clone, Copy, PartialEq, Eq, Structural, Debug)]
pub struct DelayEntry {
    pub time: Time,
    pub delay: Duration,
}

} // verus!
