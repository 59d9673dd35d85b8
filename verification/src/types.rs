//! Identifiers and scalar quantities shared by the parking allocator and the
//! metrics aggregator.
//!
//! Vehicles, trips, roads, intersections, bus routes and stops are owned by
//! the wider simulation; this crate refers to them only through these opaque
//! value-type identifiers, compared by equality. Simulated time, durations
//! and distances along a lane are plain integers in fixed units.

use vstd::prelude::*;

verus! {

/// A point in simulated time, in time units since the start of the day.
pub type Time = u64;

/// A span of simulated time, in time units.
pub type Duration = u64;

/// A distance along a lane, in length units.
pub type Distance = u64;

/// One road lane, addressed by its position in the spatial index.
#[derive(Clone, Copy, PartialEq, Eq, Structural, Debug)]
pub struct LaneID(pub usize);

/// One road (a bundle of lanes).
#[derive(Clone, Copy, PartialEq, Eq, Structural, Debug)]
pub struct RoadID(pub usize);

/// One intersection.
#[derive(Clone, Copy, PartialEq, Eq, Structural, Debug)]
pub struct IntersectionID(pub usize);

/// One bus route.
#[derive(Clone, Copy, PartialEq, Eq, Structural, Debug)]
pub struct BusRouteID(pub usize);

/// One bus stop.
#[derive(Clone, Copy, PartialEq, Eq, Structural, Debug)]
pub struct BusStopID(pub usize);

/// One trip taken by a simulated person.
#[derive(Clone, Copy, PartialEq, Eq, Structural, Debug)]
pub struct TripID(pub usize);

/// One simulated pedestrian.
#[derive(Clone, Copy, PartialEq, Eq, Structural, Debug)]
pub struct PedestrianID(pub usize);

/// What kind of vehicle a car identifier names; cars, bikes and buses number
/// their identifiers independently.
#[derive(Clone, Copy, PartialEq, Eq, Structural, Debug)]
pub enum VehicleType {
    Car,
    Bike,
    Bus,
}

/// One simulated vehicle: a numeric identifier qualified by its kind.
#[derive(Clone, Copy, PartialEq, Eq, Structural, Debug)]
pub struct CarID {
    pub id: usize,
    pub vehicle_type: VehicleType,
}

/// A moving agent: either a pedestrian or a vehicle.
#[derive(Clone, Copy, PartialEq, Eq, Structural, Debug)]
pub enum AgentID {
    Pedestrian(PedestrianID),
    Car(CarID),
}

/// The travel mode a trip or a throughput sample is attributed to.
#[derive(Clone, Copy, PartialEq, Eq, Structural, Debug)]
pub enum TripMode {
    Walk,
    Bike,
    Transit,
    Drive,
}

impl TripMode {
    /// Every travel mode, in the fixed order used by per-mode reports.
    pub fn all() -> (r: Vec<TripMode>)
        ensures
            r@ =~= seq![TripMode::Walk, TripMode::Bike, TripMode::Transit, TripMode::Drive],
    {
        let mut v: Vec<TripMode> = Vec::new();
        v.push(TripMode::Walk);
        v.push(TripMode::Bike);
        v.push(TripMode::Transit);
        v.push(TripMode::Drive);
        v
    }

    /// The mode an agent's movement counts toward: walking for pedestrians,
    /// and the mode matching the vehicle's kind otherwise.
    pub fn of_agent(a: AgentID) -> (r: TripMode)
        ensures
            r == spec_mode_of_agent(a),
    {
        match a {
            AgentID::Pedestrian(_) => TripMode::Walk,
            AgentID::Car(c) => match c.vehicle_type {
                VehicleType::Car => TripMode::Drive,
                VehicleType::Bike => TripMode::Bike,
                VehicleType::Bus => TripMode::Transit,
            },
        }
    }
}

/// The travel mode an agent's movement counts toward.
pub open spec fn spec_mode_of_agent(a: AgentID) -> TripMode {
    match a {
        AgentID::Pedestrian(_) => TripMode::Walk,
        AgentID::Car(c) => match c.vehicle_type {
            VehicleType::Car => TripMode::Drive,
            VehicleType::Bike => TripMode::Bike,
            VehicleType::Bus => TripMode::Transit,
        },
    }
}

} // verus!
