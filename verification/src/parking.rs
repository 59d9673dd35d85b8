//! The parking allocator.
//!
//! Tracks which stall on every lane is occupied, and arbitrates claims on
//! opening stalls through a reserve/commit/release protocol: an agent first
//! reserves a stall, later commits a parked car into it, and eventually
//! releases it on departure. Each (lane, index) slot moves `Free ->
//! Reserved -> Occupied -> Free`; a reservation may also be abandoned
//! (`Reserved -> Free` by never committing), but a slot never moves from
//! `Occupied` to `Reserved` directly.
//!
//! Choreography violations (double reservation, commit without a matching
//! reservation, occupancy mismatch) are caller bugs: every mutator reports
//! them as a `ParkingError` and leaves the state untouched, so the
//! simulation step can halt rather than run on corrupted state.

use vstd::prelude::*;
use crate::types::{CarID, Distance, LaneID};
use crate::spatial::{LaneType, Lane, Position, SpatialIndex};
use vstd::arithmetic::div_mod::lemma_fundamental_div_mod;
use vstd::arithmetic::mul::lemma_mul_inequality;

verus! {

/// Length of one parking stall along a lane, in length units.
pub const PARKING_SPOT_LENGTH: u64 = 800;

/// A vehicle's identity and footprint, as the allocator needs them.
#[derive(Clone, Copy, PartialEq, Eq, Structural, Debug)]
pub struct Vehicle {
    pub id: CarID,
    pub length: Distance,
}

impl Vehicle {
    /// A vehicle the allocator can place: it has extent and fits in a stall.
    pub open spec fn valid(self) -> bool {
        0 < self.length <= PARKING_SPOT_LENGTH
    }
}

/// A fixed parking stall, addressed by (lane, index).
#[derive(Clone, Copy, PartialEq, Eq, Structural, Debug)]
pub struct ParkingSpot {
    pub lane: LaneID,
    pub idx: usize,
}

impl ParkingSpot {
    pub fn new(lane: LaneID, idx: usize) -> (r: ParkingSpot)
        ensures
            r == (ParkingSpot { lane, idx }),
    {
        ParkingSpot { lane, idx }
    }
}

/// A vehicle committed into a stall: created on park, destroyed on
/// departure.
#[derive(Clone, Copy, PartialEq, Eq, Structural, Debug)]
pub struct ParkedCar {
    pub vehicle: Vehicle,
    pub spot: ParkingSpot,
}

/// A renderable snapshot of one parked car: its identity and where its
/// footprint lies along the lane. Irrelevant to simulation correctness.
#[derive(Clone, Copy, PartialEq, Eq, Structural, Debug)]
pub struct DrawCarInput {
    pub id: CarID,
    pub lane: LaneID,
    pub front: Distance,
    pub back: Distance,
}

/// The immutable position of one stall: the distance of its front (its
/// farthest point along the lane), generated once from lane length.
#[derive(Clone, Copy, PartialEq, Eq, Structural, Debug)]
pub struct ParkingSpotGeometry {
    pub dist_along: Distance,
}

impl ParkingSpotGeometry {
    /// Where a pedestrian stands for this stall: centered in the stall.
    pub fn dist_along_for_ped(&self) -> (r: Distance)
        requires
            self.dist_along >= PARKING_SPOT_LENGTH,
        ensures
            r == self.dist_along - PARKING_SPOT_LENGTH / 2,
    {
        self.dist_along - PARKING_SPOT_LENGTH / 2
    }

    /// The front of this particular vehicle when centered in the stall.
    pub fn dist_along_for_car(&self, vehicle: &Vehicle) -> (r: Distance)
        requires
            vehicle.valid(),
            self.dist_along >= PARKING_SPOT_LENGTH,
        ensures
            r == spec_dist_along_for_car(self.dist_along, *vehicle),
    {
        self.dist_along - (PARKING_SPOT_LENGTH - vehicle.length) / 2
    }
}

/// The front of a vehicle centered in a stall whose front is `front`.
pub open spec fn spec_dist_along_for_car(front: Distance, vehicle: Vehicle) -> int {
    front - (PARKING_SPOT_LENGTH - vehicle.length) / 2
}

/// One lane's stalls and their occupants. The two lists are index-aligned:
/// slot `i` of `occupants` tells who sits in stall `i` of `spots`.
pub struct ParkingLane {
    pub id: LaneID,
    pub spots: Vec<ParkingSpotGeometry>,
    pub occupants: Vec<Option<CarID>>,
}

/// A choreography violation: the caller broke the reserve/commit/release
/// protocol. The simulation step must treat any of these as fatal.
#[derive(Clone, Copy, PartialEq, Eq, Structural, Debug)]
pub enum ParkingError {
    /// The named stall does not exist.
    SpotOutOfBounds,
    /// A second reservation targeted a stall with a live reservation.
    AlreadyReserved,
    /// The stall is already occupied.
    SpotOccupied,
    /// A commit targeted a stall with no matching reservation.
    SpotNotReserved,
    /// A commit named a vehicle that is already parked somewhere.
    CarAlreadyParked,
    /// A release named a vehicle that is not parked in the named lane.
    CarNotParked,
}

/// The parking allocator's whole state: per-lane stalls and occupants, the
/// parked cars by value, and the set of live reservations.
pub struct ParkingSimState {
    pub cars: Vec<ParkedCar>,
    pub lanes: Vec<ParkingLane>,
    pub reserved_spots: Vec<ParkingSpot>,
}

/// The parked car whose vehicle has this identity: first match in the list.
pub open spec fn spec_lookup_car(cars: Seq<ParkedCar>, id: CarID) -> Option<ParkedCar>
    decreases cars.len(),
{
    if cars.len() == 0 {
        None
    } else if cars.first().vehicle.id == id {
        Some(cars.first())
    } else {
        spec_lookup_car(cars.drop_first(), id)
    }
}

/// The free stalls of a lane, in index order: every index whose slot holds
/// no occupant. Reservations do not affect this list.
pub open spec fn free_spots_in(occupants: Seq<Option<CarID>>, lane: LaneID) -> Seq<ParkingSpot>
    decreases occupants.len(),
{
    if occupants.len() == 0 {
        Seq::empty()
    } else {
        let rest = free_spots_in(occupants.drop_last(), lane);
        if occupants.last() is None {
            rest.push(ParkingSpot { lane, idx: (occupants.len() - 1) as usize })
        } else {
            rest
        }
    }
}

/// How many slots hold an occupant.
pub open spec fn count_occupied(occupants: Seq<Option<CarID>>) -> nat
    decreases occupants.len(),
{
    if occupants.len() == 0 {
        0
    } else {
        count_occupied(occupants.drop_last()) + if occupants.last() is Some {
            1nat
        } else {
            0nat
        }
    }
}

/// How many slots hold no occupant.
pub open spec fn count_free(occupants: Seq<Option<CarID>>) -> nat
    decreases occupants.len(),
{
    if occupants.len() == 0 {
        0
    } else {
        count_free(occupants.drop_last()) + if occupants.last() is None {
            1nat
        } else {
            0nat
        }
    }
}

/// How many stalls a lane of this description offers: none unless it is a
/// parking lane; otherwise one stall per stall length that fits, minus the
/// two stall lengths kept clear at the lane's start.
pub open spec fn spec_spot_count(lane: Lane) -> int {
    if lane.lane_type == LaneType::Parking {
        let q = lane.length as int / PARKING_SPOT_LENGTH as int;
        if q >= 3 {
            q - 2
        } else {
            0
        }
    } else {
        0
    }
}

impl ParkingLane {
    /// The stalls of one lane, generated from its length.
    fn new(l: &Lane, id: LaneID) -> (r: ParkingLane)
        requires
            spec_spot_count(*l) <= usize::MAX,
        ensures
            r.id == id,
            r.occupants@.len() == r.spots@.len(),
            r.spots@.len() == spec_spot_count(*l),
            forall|i: int|
                0 <= i < r.spots@.len() ==> (#[trigger] r.spots@[i]).dist_along
                    == PARKING_SPOT_LENGTH * (2 + i),
            forall|i: int| 0 <= i < r.occupants@.len() ==> r.occupants@[i] is None,
    {
        if l.lane_type != LaneType::Parking {
            return ParkingLane { id, spots: Vec::new(), occupants: Vec::new() };
        }
        let q = l.length / PARKING_SPOT_LENGTH;
        let count: u64 = if q >= 3 {
            q - 2
        } else {
            0
        };
        let count = count as usize;
        let mut spots: Vec<ParkingSpotGeometry> = Vec::new();
        let mut occupants: Vec<Option<CarID>> = Vec::new();
        for i in 0..count
            invariant
                count == spec_spot_count(*l),
                l.length / PARKING_SPOT_LENGTH >= 3 ==> count == l.length / PARKING_SPOT_LENGTH
                    - 2,
                spots@.len() == i,
                occupants@.len() == i,
                forall|j: int|
                    0 <= j < i ==> (#[trigger] spots@[j]).dist_along == PARKING_SPOT_LENGTH * (2
                        + j),
                forall|j: int| 0 <= j < i ==> occupants@[j] is None,
        {
            proof {
                lemma_fundamental_div_mod(l.length as int, PARKING_SPOT_LENGTH as int);
                lemma_mul_inequality(
                    2 + i as int,
                    l.length as int / PARKING_SPOT_LENGTH as int,
                    PARKING_SPOT_LENGTH as int,
                );
            }
            let spot_start = PARKING_SPOT_LENGTH * (2 + i as u64);
            spots.push(ParkingSpotGeometry { dist_along: spot_start });
            occupants.push(None);
        }
        ParkingLane { id, spots, occupants }
    }
}

impl ParkingSimState {
    /// The stall exists: its lane is known and its index is within the
    /// lane's stall list.
    pub open spec fn spot_valid(&self, spot: ParkingSpot) -> bool {
        spot.lane.0 < self.lanes@.len() && (spot.idx as int)
            < self.lanes@[spot.lane.0 as int].spots@.len()
    }

    /// Who occupies a stall (the stall must be valid).
    pub open spec fn spec_occupant(&self, spot: ParkingSpot) -> Option<CarID> {
        self.lanes@[spot.lane.0 as int].occupants@[spot.idx as int]
    }

    /// Whether a stall carries a live reservation.
    pub open spec fn spec_reserved(&self, spot: ParkingSpot) -> bool {
        self.reserved_spots@.contains(spot)
    }

    /// The parked car with this vehicle identity, if any.
    pub open spec fn spec_parked_car(&self, id: CarID) -> Option<ParkedCar> {
        spec_lookup_car(self.cars@, id)
    }

    /// One lane's internal consistency: it knows its own index, its stall
    /// and occupant lists are aligned, and stall `i`'s front sits exactly
    /// `2 + i` stall lengths along the lane.
    pub open spec fn lane_wf(&self, l: int) -> bool {
        let lane = self.lanes@[l];
        &&& lane.id.0 == l
        &&& lane.occupants@.len() == lane.spots@.len()
        &&& forall|i: int|
            0 <= i < lane.spots@.len() ==> (#[trigger] lane.spots@[i]).dist_along
                == PARKING_SPOT_LENGTH * (2 + i)
    }

    /// The allocator's invariant, established by `new` and preserved by
    /// every operation.
    pub open spec fn wf(&self) -> bool {
        &&& forall|l: int| 0 <= l < self.lanes@.len() ==> self.lane_wf(l)
        // reservations name real stalls and are pairwise distinct: a stall
        // carries at most one live reservation
        &&& forall|i: int|
            0 <= i < self.reserved_spots@.len() ==> self.spot_valid(
                #[trigger] self.reserved_spots@[i],
            )
        &&& forall|i: int, j: int|
            0 <= i < j < self.reserved_spots@.len() ==> self.reserved_spots@[i]
                != self.reserved_spots@[j]
        // each parked car sits in a real stall, fits it, and is the
        // occupant recorded there
        &&& forall|k: int|
            0 <= k < self.cars@.len() ==> {
                let p = #[trigger] self.cars@[k];
                &&& self.spot_valid(p.spot)
                &&& p.vehicle.valid()
                &&& self.spec_occupant(p.spot) == Some(p.vehicle.id)
            }
        // no vehicle is parked twice
        &&& forall|k1: int, k2: int|
            0 <= k1 < k2 < self.cars@.len() ==> (#[trigger] self.cars@[k1]).vehicle.id != (
            #[trigger] self.cars@[k2]).vehicle.id
    }

    /// A fresh allocator over the given map: every lane of the map gets its
    /// stalls (none unless it is a parking lane), all stalls empty, no
    /// reservations, no parked cars.
    pub fn new(map: &SpatialIndex) -> (r: ParkingSimState)
        requires
            forall|l: int|
                0 <= l < map.lanes@.len() ==> spec_spot_count(#[trigger] map.lanes@[l])
                    <= usize::MAX,
        ensures
            r.wf(),
            r.cars@ =~= Seq::<ParkedCar>::empty(),
            r.reserved_spots@ =~= Seq::<ParkingSpot>::empty(),
            r.lanes@.len() == map.lanes@.len(),
            forall|l: int|
                0 <= l < map.lanes@.len() ==> (#[trigger] r.lanes@[l]).spots@.len()
                    == spec_spot_count(map.lanes@[l]),
            forall|l: int, i: int|
                0 <= l < r.lanes@.len() && 0 <= i < r.lanes@[l].occupants@.len()
                    ==> r.lanes@[l].occupants@[i] is None,
    {
        let mut lanes: Vec<ParkingLane> = Vec::new();
        let n = map.num_lanes();
        for l in 0..n
            invariant
                n == map.lanes@.len(),
                lanes@.len() == l,
                forall|m: int|
                    0 <= m < map.lanes@.len() ==> spec_spot_count(#[trigger] map.lanes@[m])
                        <= usize::MAX,
                forall|m: int|
                    0 <= m < l ==> {
                        let lane = #[trigger] lanes@[m];
                        &&& lane.id.0 == m
                        &&& lane.occupants@.len() == lane.spots@.len()
                        &&& lane.spots@.len() == spec_spot_count(map.lanes@[m])
                        &&& forall|i: int|
                            0 <= i < lane.spots@.len() ==> (#[trigger] lane.spots@[i]).dist_along
                                == PARKING_SPOT_LENGTH * (2 + i)
                        &&& forall|i: int|
                            0 <= i < lane.occupants@.len() ==> lane.occupants@[i] is None
                    },
        {
            lanes.push(ParkingLane::new(map.get_l(LaneID(l)), LaneID(l)));
        }
        ParkingSimState { cars: Vec::new(), lanes, reserved_spots: Vec::new() }
    }


    /// All unoccupied stalls of a lane, in index order. No side effect: the
    /// result is a function of the allocator's state alone, so two calls
    /// with no intervening mutation return identical results.
    pub fn get_free_spots(&self, lane: LaneID) -> (r: Vec<ParkingSpot>)
        requires
            self.wf(),
            lane.0 < self.lanes@.len(),
        ensures
            r@ == free_spots_in(self.lanes@[lane.0 as int].occupants@, lane),
    {
        proof {
            assert(self.lane_wf(lane.0 as int));
        }
        let l = &self.lanes[lane.0];
        let mut spots: Vec<ParkingSpot> = Vec::new();
        let n = l.occupants.len();
        for idx in 0..n
            invariant
                n == l.occupants@.len(),
                l.id == lane,
                spots@ == free_spots_in(l.occupants@.take(idx as int), lane),
        {
            proof {
                assert(l.occupants@.take(idx + 1).drop_last() =~= l.occupants@.take(idx as int));
            }
            if l.occupants[idx].is_none() {
                spots.push(ParkingSpot::new(l.id, idx));
            }
        }
        proof {
            assert(l.occupants@.take(n as int) =~= l.occupants@);
        }
        spots
    }

    /// Whether a stall is open to a new claim: unoccupied and unreserved.
    pub fn is_free(&self, spot: ParkingSpot) -> (r: bool)
        requires
            self.wf(),
            self.spot_valid(spot),
        ensures
            r == (self.spec_occupant(spot) is None && !self.spec_reserved(spot)),
    {
        proof {
            assert(self.lane_wf(spot.lane.0 as int));
        }
        self.lanes[spot.lane.0].occupants[spot.idx].is_none() && !self.is_reserved(spot)
    }

    /// Who occupies a stall, if anyone.
    pub fn get_car_at_spot(&self, spot: ParkingSpot) -> (r: Option<CarID>)
        requires
            self.wf(),
            self.spot_valid(spot),
        ensures
            r == self.spec_occupant(spot),
    {
        proof {
            assert(self.lane_wf(spot.lane.0 as int));
        }
        self.lanes[spot.lane.0].occupants[spot.idx]
    }

    /// How many stalls a lane holds.
    pub fn total_spots(&self, lane: LaneID) -> (r: usize)
        requires
            self.wf(),
            lane.0 < self.lanes@.len(),
        ensures
            r == self.lanes@[lane.0 as int].spots@.len(),
    {
        self.lanes[lane.0].spots.len()
    }

    /// How many stalls of a lane are occupied.
    pub fn occupied_count(&self, lane: LaneID) -> (r: usize)
        requires
            self.wf(),
            lane.0 < self.lanes@.len(),
        ensures
            r == count_occupied(self.lanes@[lane.0 as int].occupants@),
    {
        let l = &self.lanes[lane.0];
        let n = l.occupants.len();
        let mut count: usize = 0;
        for idx in 0..n
            invariant
                n == l.occupants@.len(),
                count == count_occupied(l.occupants@.take(idx as int)),
                count <= idx,
        {
            proof {
                assert(l.occupants@.take(idx + 1).drop_last() =~= l.occupants@.take(idx as int));
                lemma_count_occupied_le_len(l.occupants@.take(idx as int));
            }
            if l.occupants[idx].is_some() {
                count = count + 1;
            }
        }
        proof {
            assert(l.occupants@.take(n as int) =~= l.occupants@);
        }
        count
    }

    /// How many stalls of a lane are unoccupied.
    pub fn free_count(&self, lane: LaneID) -> (r: usize)
        requires
            self.wf(),
            lane.0 < self.lanes@.len(),
        ensures
            r == count_free(self.lanes@[lane.0 as int].occupants@),
    {
        let l = &self.lanes[lane.0];
        let n = l.occupants.len();
        let mut count: usize = 0;
        for idx in 0..n
            invariant
                n == l.occupants@.len(),
                count == count_free(l.occupants@.take(idx as int)),
                count <= idx,
        {
            proof {
                assert(l.occupants@.take(idx + 1).drop_last() =~= l.occupants@.take(idx as int));
                lemma_count_free_le_len(l.occupants@.take(idx as int));
            }
            if l.occupants[idx].is_none() {
                count = count + 1;
            }
        }
        proof {
            assert(l.occupants@.take(n as int) =~= l.occupants@);
        }
        count
    }

    /// Why a reservation of this stall would be refused, or nothing if it
    /// is allowed: the stall must exist, carry no live reservation, and be
    /// unoccupied (a slot never moves from occupied to reserved directly).
    pub open spec fn spec_reserve_outcome(&self, spot: ParkingSpot) -> Option<ParkingError> {
        if !self.spot_valid(spot) {
            Some(ParkingError::SpotOutOfBounds)
        } else if self.spec_reserved(spot) {
            Some(ParkingError::AlreadyReserved)
        } else if self.spec_occupant(spot) is Some {
            Some(ParkingError::SpotOccupied)
        } else {
            None
        }
    }

    /// Why a commit of this parked car would be refused, or nothing if it
    /// is allowed: the stall must exist, carry a reservation to consume,
    /// and be unoccupied, and the vehicle must not be parked already.
    pub open spec fn spec_commit_outcome(&self, p: ParkedCar) -> Option<ParkingError> {
        if !self.spot_valid(p.spot) {
            Some(ParkingError::SpotOutOfBounds)
        } else if !self.spec_reserved(p.spot) {
            Some(ParkingError::SpotNotReserved)
        } else if self.spec_occupant(p.spot) is Some {
            Some(ParkingError::SpotOccupied)
        } else if self.spec_parked_car(p.vehicle.id) is Some {
            Some(ParkingError::CarAlreadyParked)
        } else {
            None
        }
    }

    /// Why a release of this parked car would be refused, or nothing if it
    /// is allowed: the vehicle must be parked in the named lane.
    pub open spec fn spec_release_outcome(&self, p: ParkedCar) -> Option<ParkingError> {
        match self.spec_parked_car(p.vehicle.id) {
            None => Some(ParkingError::CarNotParked),
            Some(q) => if q.spot.lane == p.spot.lane {
                None
            } else {
                Some(ParkingError::CarNotParked)
            },
        }
    }

    /// Records a pending, exclusive claim on a stall. A stall that is out
    /// of bounds, already reserved or already occupied is a caller
    /// choreography bug: the claim is refused, never silently overwritten,
    /// and the state is left untouched.
    pub fn reserve_spot(&mut self, spot: ParkingSpot) -> (r: Result<(), ParkingError>)
        requires
            old(self).wf(),
        ensures
            final(self).wf(),
            final(self).cars == old(self).cars,
            final(self).lanes == old(self).lanes,
            match r {
                Ok(()) => {
                    &&& old(self).spec_reserve_outcome(spot) is None
                    &&& final(self).reserved_spots@ == old(self).reserved_spots@.push(spot)
                    &&& forall|q: ParkingSpot|
                        final(self).spec_reserved(q) == (old(self).spec_reserved(q) || q == spot)
                },
                Err(e) => Some(e) == old(self).spec_reserve_outcome(spot) && final(self)
                    .reserved_spots == old(self).reserved_spots,
            },
    {
        if spot.lane.0 >= self.lanes.len() {
            return Err(ParkingError::SpotOutOfBounds);
        }
        proof {
            assert(self.lane_wf(spot.lane.0 as int));
        }
        if spot.idx >= self.lanes[spot.lane.0].spots.len() {
            return Err(ParkingError::SpotOutOfBounds);
        }
        if self.is_reserved(spot) {
            return Err(ParkingError::AlreadyReserved);
        }
        if self.lanes[spot.lane.0].occupants[spot.idx].is_some() {
            return Err(ParkingError::SpotOccupied);
        }
        self.reserved_spots.push(spot);
        proof {
            assert forall|l: int| 0 <= l < self.lanes@.len() implies self.lane_wf(l) by {
                assert(old(self).lane_wf(l));
                assert(self.lanes@[l] == old(self).lanes@[l]);
            }
            let old_rs = old(self).reserved_spots@;
            assert forall|i: int, j: int|
                0 <= i < j < self.reserved_spots@.len() implies self.reserved_spots@[i]
                != self.reserved_spots@[j] by {
                if j == old_rs.len() {
                    assert(self.reserved_spots@[i] == old_rs[i]);
                    assert(!old(self).spec_reserved(spot));
                }
            }
            assert forall|i: int| 0 <= i < self.reserved_spots@.len() implies self.spot_valid(
                #[trigger] self.reserved_spots@[i],
            ) by {
                if i < old_rs.len() {
                    assert(old(self).spot_valid(old_rs[i]));
                }
            }
            assert forall|q: ParkingSpot| #[trigger]
                self.spec_reserved(q) == (old(self).spec_reserved(q) || q == spot) by {
                if self.spec_reserved(q) {
                    let i = choose|i: int|
                        0 <= i < self.reserved_spots@.len() && self.reserved_spots@[i] == q;
                    if i < old_rs.len() {
                        assert(old_rs[i] == q);
                    }
                }
                if old(self).spec_reserved(q) {
                    let i = choose|i: int| 0 <= i < old_rs.len() && old_rs[i] == q;
                    assert(self.reserved_spots@[i] == q);
                }
                if q == spot {
                    assert(self.reserved_spots@.last() == spot);
                }
            }
        }
        Ok(())
    }

    /// Consumes the matching reservation and marks the stall occupied by
    /// the parked car. A missing reservation, an occupied stall or an
    /// already-parked vehicle is a caller choreography bug: the commit is
    /// refused and the state is left untouched.
    pub fn add_parked_car(&mut self, p: ParkedCar) -> (r: Result<(), ParkingError>)
        requires
            old(self).wf(),
            p.vehicle.valid(),
        ensures
            final(self).wf(),
            match r {
                Ok(()) => {
                    &&& old(self).spec_commit_outcome(p) is None
                    &&& final(self).cars@ == old(self).cars@.push(p)
                    &&& same_lane_geometry(old(self).lanes@, final(self).lanes@)
                    &&& final(self).spec_occupant(p.spot) == Some(p.vehicle.id)
                    &&& forall|q: ParkingSpot|
                        old(self).spot_valid(q) && q != p.spot ==> final(self).spec_occupant(q)
                            == old(self).spec_occupant(q)
                    &&& forall|q: ParkingSpot|
                        final(self).spec_reserved(q) == (old(self).spec_reserved(q) && q != p.spot)
                    &&& final(self).reserved_spots@.len() == old(self).reserved_spots@.len() - 1
                },
                Err(e) => {
                    &&& Some(e) == old(self).spec_commit_outcome(p)
                    &&& final(self).cars == old(self).cars
                    &&& final(self).lanes == old(self).lanes
                    &&& final(self).reserved_spots == old(self).reserved_spots
                },
            },
    {
        let spot = p.spot;
        if spot.lane.0 >= self.lanes.len() {
            return Err(ParkingError::SpotOutOfBounds);
        }
        proof {
            assert(self.lane_wf(spot.lane.0 as int));
        }
        if spot.idx >= self.lanes[spot.lane.0].spots.len() {
            return Err(ParkingError::SpotOutOfBounds);
        }
        let resv = self.find_reservation(spot);
        let resv_idx = match resv {
            Some(i) => i,
            None => {
                return Err(ParkingError::SpotNotReserved);
            },
        };
        if self.lanes[spot.lane.0].occupants[spot.idx].is_some() {
            return Err(ParkingError::SpotOccupied);
        }
        if self.find_car(p.vehicle.id).is_some() {
            proof {
                lemma_lookup_car_found(self.cars@, p.vehicle.id);
            }
            return Err(ParkingError::CarAlreadyParked);
        }
        proof {
            lemma_lookup_car_not_found(self.cars@, p.vehicle.id);
            lemma_remove_distinct(self.reserved_spots@, resv_idx as int);
        }
        self.reserved_spots.remove(resv_idx);
        self.lanes[spot.lane.0].occupants[spot.idx] = Some(p.vehicle.id);
        self.cars.push(p);
        proof {
            let pre = *old(self);
            let post = *self;
            assert(post.lanes@[spot.lane.0 as int].occupants@ == pre.lanes@[spot.lane.0 as int]
                .occupants@.update(spot.idx as int, Some(p.vehicle.id)));
            assert(same_lane_geometry(pre.lanes@, post.lanes@));
            assert forall|l: int| 0 <= l < post.lanes@.len() implies post.lane_wf(l) by {
                assert(pre.lane_wf(l));
                assert(post.lanes@[l].id == pre.lanes@[l].id);
                assert(post.lanes@[l].spots@ == pre.lanes@[l].spots@);
                assert(post.lanes@[l].occupants@.len() == pre.lanes@[l].occupants@.len());
            }
            assert(forall|q: ParkingSpot| post.spot_valid(q) == pre.spot_valid(q));
            assert(forall|q: ParkingSpot|
                pre.spot_valid(q) && q != p.spot ==> post.spec_occupant(q) == pre.spec_occupant(
                    q,
                ));
            // the consumed reservation leaves; the rest stay distinct
            assert(forall|q: ParkingSpot|
                post.spec_reserved(q) == (pre.spec_reserved(q) && q != p.spot)) by {
                assert(forall|q: ParkingSpot|
                    post.reserved_spots@.contains(q) <==> (pre.reserved_spots@.contains(q) && q
                        != pre.reserved_spots@[resv_idx as int]));
            }
            // no old car sat in this stall (its slot held no occupant), so
            // every old parked-car record still matches its stall
            assert forall|k: int| 0 <= k < pre.cars@.len() implies {
                let c = #[trigger] pre.cars@[k];
                &&& post.spot_valid(c.spot)
                &&& c.vehicle.valid()
                &&& post.spec_occupant(c.spot) == Some(c.vehicle.id)
            } by {
                assert(pre.cars@[k].spot != p.spot);
                assert(pre.spot_valid(pre.cars@[k].spot));
            }
            assert(post.cars@ == pre.cars@.push(p));
            assert forall|k1: int, k2: int| 0 <= k1 < k2 < post.cars@.len() implies (
            #[trigger] post.cars@[k1]).vehicle.id != (#[trigger] post.cars@[k2]).vehicle.id by {
                if k2 == post.cars@.len() - 1 {
                    assert(post.cars@[k1] == pre.cars@[k1]);
                    assert(pre.cars@[k1].vehicle.id != p.vehicle.id);
                }
            }
        }
        Ok(())
    }

    /// Clears occupancy on departure: the vehicle leaves its stall and its
    /// parked-car record is destroyed. Reservations are not touched. A
    /// vehicle that is not parked in the named lane is a caller
    /// choreography bug: the release is refused and the state untouched.
    pub fn remove_parked_car(&mut self, p: ParkedCar) -> (r: Result<(), ParkingError>)
        requires
            old(self).wf(),
        ensures
            final(self).wf(),
            final(self).reserved_spots == old(self).reserved_spots,
            match r {
                Ok(()) => {
                    let q = old(self).spec_parked_car(p.vehicle.id)->0;
                    &&& old(self).spec_release_outcome(p) is None
                    &&& same_lane_geometry(old(self).lanes@, final(self).lanes@)
                    &&& final(self).spec_occupant(q.spot) is None
                    &&& forall|s2: ParkingSpot|
                        old(self).spot_valid(s2) && s2 != q.spot ==> final(self).spec_occupant(s2)
                            == old(self).spec_occupant(s2)
                    &&& final(self).spec_parked_car(p.vehicle.id) is None
                    &&& forall|id2: CarID|
                        id2 != p.vehicle.id ==> final(self).spec_parked_car(id2) == old(
                            self,
                        ).spec_parked_car(id2)
                    &&& final(self).cars@.len() == old(self).cars@.len() - 1
                },
                Err(e) => {
                    &&& Some(e) == old(self).spec_release_outcome(p)
                    &&& final(self).cars == old(self).cars
                    &&& final(self).lanes == old(self).lanes
                },
            },
    {
        let found = self.find_car(p.vehicle.id);
        let k = match found {
            Some(k) => k,
            None => {
                proof {
                    lemma_lookup_car_not_found(self.cars@, p.vehicle.id);
                }
                return Err(ParkingError::CarNotParked);
            },
        };
        proof {
            lemma_lookup_car_found(self.cars@, p.vehicle.id);
            lemma_lookup_car_unique(self.cars@, p.vehicle.id, k as int);
        }
        let q = self.cars[k];
        if q.spot.lane.0 != p.spot.lane.0 {
            return Err(ParkingError::CarNotParked);
        }
        proof {
            assert(self.lane_wf(q.spot.lane.0 as int));
            lemma_lookup_car_remove(self.cars@, k as int);
        }
        self.cars.remove(k);
        self.lanes[q.spot.lane.0].occupants[q.spot.idx] = None;
        proof {
            let pre = *old(self);
            let post = *self;
            assert(post.lanes@[q.spot.lane.0 as int].occupants@ == pre.lanes@[q.spot.lane.0
                as int].occupants@.update(q.spot.idx as int, None::<CarID>));
            assert(same_lane_geometry(pre.lanes@, post.lanes@));
            assert forall|l: int| 0 <= l < post.lanes@.len() implies post.lane_wf(l) by {
                assert(pre.lane_wf(l));
                assert(post.lanes@[l].id == pre.lanes@[l].id);
                assert(post.lanes@[l].spots@ == pre.lanes@[l].spots@);
                assert(post.lanes@[l].occupants@.len() == pre.lanes@[l].occupants@.len());
            }
            assert(forall|s2: ParkingSpot| post.spot_valid(s2) == pre.spot_valid(s2));
            assert(forall|s2: ParkingSpot|
                pre.spot_valid(s2) && s2 != q.spot ==> post.spec_occupant(s2) == pre.spec_occupant(
                    s2,
                ));
            assert(post.cars@ == pre.cars@.remove(k as int));
            // remaining cars keep their stalls; none of them sat in the
            // freed stall, because the freed car's identity was unique
            assert forall|k2: int| 0 <= k2 < post.cars@.len() implies {
                let c = #[trigger] post.cars@[k2];
                &&& post.spot_valid(c.spot)
                &&& c.vehicle.valid()
                &&& post.spec_occupant(c.spot) == Some(c.vehicle.id)
            } by {
                let orig = if k2 < k as int {
                    k2
                } else {
                    k2 + 1
                };
                assert(post.cars@[k2] == pre.cars@[orig]);
                assert(pre.cars@[orig].spot != q.spot) by {
                    if pre.cars@[orig].spot == q.spot {
                        assert(pre.spec_occupant(q.spot) == Some(pre.cars@[orig].vehicle.id));
                        assert(pre.spec_occupant(q.spot) == Some(q.vehicle.id));
                        assert(orig == k);
                    }
                }
            }
            assert forall|k1: int, k2: int| 0 <= k1 < k2 < post.cars@.len() implies (
            #[trigger] post.cars@[k1]).vehicle.id != (#[trigger] post.cars@[k2]).vehicle.id by {
                let o1 = if k1 < k as int {
                    k1
                } else {
                    k1 + 1
                };
                let o2 = if k2 < k as int {
                    k2
                } else {
                    k2 + 1
                };
                assert(post.cars@[k1] == pre.cars@[o1]);
                assert(post.cars@[k2] == pre.cars@[o2]);
            }
        }
        Ok(())
    }

    /// Scans the lane addressed by `parking_pos` in index order and returns
    /// the first stall that is simultaneously unoccupied, unreserved, and
    /// whose vehicle-specific front distance is at or beyond the query
    /// position's distance along the lane — agents park only by moving
    /// forward, never by reversing past their position. Returns nothing if
    /// no such stall exists.
    pub fn get_first_free_spot(&self, parking_pos: Position, vehicle: &Vehicle) -> (r: Option<
        ParkingSpot,
    >)
        requires
            self.wf(),
            vehicle.valid(),
            parking_pos.lane.0 < self.lanes@.len(),
        ensures
            match r {
                Some(spot) => {
                    &&& spot.lane == parking_pos.lane
                    &&& self.spot_valid(spot)
                    &&& self.spec_spot_candidate(parking_pos, *vehicle, spot.idx as int)
                    &&& forall|j: int|
                        0 <= j < spot.idx ==> !self.spec_spot_candidate(parking_pos, *vehicle, j)
                },
                None => forall|j: int|
                    0 <= j < self.lanes@[parking_pos.lane.0 as int].spots@.len()
                        ==> !self.spec_spot_candidate(parking_pos, *vehicle, j),
            },
    {
        proof {
            assert(self.lane_wf(parking_pos.lane.0 as int));
        }
        let lane = parking_pos.lane;
        let l = &self.lanes[lane.0];
        let n = l.occupants.len();
        for idx in 0..n
            invariant
                self.wf(),
                vehicle.valid(),
                lane == parking_pos.lane,
                lane.0 < self.lanes@.len(),
                l == &self.lanes@[lane.0 as int],
                n == l.occupants@.len(),
                n == l.spots@.len(),
                forall|j: int| 0 <= j < idx ==> !self.spec_spot_candidate(parking_pos, *vehicle, j),
        {
            proof {
                assert(self.lane_wf(lane.0 as int));
            }
            let spot = ParkingSpot::new(lane, idx);
            if l.occupants[idx].is_none() && !self.is_reserved(spot) && parking_pos.dist_along
                <= l.spots[idx].dist_along_for_car(vehicle) {
                return Some(spot);
            }
        }
        None
    }

    /// Whether stall `idx` of the queried lane can take this vehicle:
    /// unoccupied, unreserved, and far enough along the lane that the
    /// vehicle reaches it by moving forward.
    pub open spec fn spec_spot_candidate(&self, pos: Position, vehicle: Vehicle, idx: int) -> bool {
        let spot = ParkingSpot { lane: pos.lane, idx: idx as usize };
        &&& self.spec_occupant(spot) is None
        &&& !self.spec_reserved(spot)
        &&& pos.dist_along <= spec_dist_along_for_car(
            self.lanes@[pos.lane.0 as int].spots@[idx].dist_along,
            vehicle,
        )
    }

    /// The renderable snapshot of one parked car: its stall's
    /// vehicle-specific front distance and the footprint reaching back from
    /// it.
    pub open spec fn spec_draw_of(&self, p: ParkedCar) -> DrawCarInput {
        let front = spec_dist_along_for_car(
            self.lanes@[p.spot.lane.0 as int].spots@[p.spot.idx as int].dist_along,
            p.vehicle,
        );
        DrawCarInput {
            id: p.vehicle.id,
            lane: p.spot.lane,
            front: front as u64,
            back: (front - p.vehicle.length) as u64,
        }
    }

    /// A renderable snapshot of the car with this identity, if it is
    /// parked.
    pub fn get_draw_car(&self, id: CarID) -> (r: Option<DrawCarInput>)
        requires
            self.wf(),
        ensures
            match self.spec_parked_car(id) {
                None => r is None,
                Some(p) => r == Some(self.spec_draw_of(p)),
            },
    {
        let found = self.find_car(id);
        let k = match found {
            Some(k) => k,
            None => {
                proof {
                    lemma_lookup_car_not_found(self.cars@, id);
                }
                return None;
            },
        };
        proof {
            lemma_lookup_car_unique(self.cars@, id, k as int);
        }
        let p = self.cars[k];
        Some(self.draw_record(&p))
    }

    /// The snapshot of one parked-car record.
    fn draw_record(&self, p: &ParkedCar) -> (r: DrawCarInput)
        requires
            self.wf(),
            self.spot_valid(p.spot),
            p.vehicle.valid(),
        ensures
            r == self.spec_draw_of(*p),
    {
        proof {
            assert(self.lane_wf(p.spot.lane.0 as int));
            lemma_mul_inequality(2, 2 + p.spot.idx as int, PARKING_SPOT_LENGTH as int);
        }
        let geometry = &self.lanes[p.spot.lane.0].spots[p.spot.idx];
        let front = geometry.dist_along_for_car(&p.vehicle);
        DrawCarInput { id: p.vehicle.id, lane: p.spot.lane, front, back: front - p.vehicle.length }
    }

    /// Renderable snapshots of every car parked in one lane, in the order
    /// their parked-car records were created.
    pub fn get_draw_cars(&self, id: LaneID) -> (r: Vec<DrawCarInput>)
        requires
            self.wf(),
            id.0 < self.lanes@.len(),
        ensures
            r@ == spec_draw_list(self, self.cars@, id),
    {
        let mut result: Vec<DrawCarInput> = Vec::new();
        let n = self.cars.len();
        for k in 0..n
            invariant
                self.wf(),
                n == self.cars@.len(),
                result@ == spec_draw_list(self, self.cars@.take(k as int), id),
        {
            proof {
                assert(self.cars@.take(k + 1).drop_last() =~= self.cars@.take(k as int));
            }
            let p = self.cars[k];
            if p.spot.lane.0 == id.0 {
                proof {
                    assert(p.spot.lane == id);
                }
                let rec = self.draw_record(&p);
                result.push(rec);
            }
        }
        proof {
            assert(self.cars@.take(n as int) =~= self.cars@);
        }
        result
    }

    /// Renderable snapshots of every parked car, one per parked-car record,
    /// in record order.
    pub fn get_all_draw_cars(&self) -> (r: Vec<DrawCarInput>)
        requires
            self.wf(),
        ensures
            r@.len() == self.cars@.len(),
            forall|k: int| 0 <= k < r@.len() ==> r@[k] == self.spec_draw_of(#[trigger] self.cars@[k]),
    {
        let mut result: Vec<DrawCarInput> = Vec::new();
        let n = self.cars.len();
        for k in 0..n
            invariant
                self.wf(),
                n == self.cars@.len(),
                result@.len() == k,
                forall|j: int|
                    0 <= j < k ==> result@[j] == self.spec_draw_of(#[trigger] self.cars@[j]),
        {
            let p = self.cars[k];
            let rec = self.draw_record(&p);
            result.push(rec);
        }
        result
    }

    /// Projects a stall's vehicle-specific front onto a driving lane, via
    /// the spatial index's equivalence mapping. Deterministic: the same
    /// inputs always yield the same output.
    pub fn spot_to_driving_pos(
        &self,
        spot: ParkingSpot,
        vehicle: &Vehicle,
        driving_lane: LaneID,
        map: &SpatialIndex,
    ) -> (r: Position)
        requires
            self.wf(),
            self.spot_valid(spot),
            vehicle.valid(),
            map.lane_in_bounds(driving_lane),
        ensures
            r == (Position {
                lane: spot.lane,
                dist_along: spec_dist_along_for_car(
                    self.lanes@[spot.lane.0 as int].spots@[spot.idx as int].dist_along,
                    *vehicle,
                ) as u64,
            }).spec_equiv_pos(driving_lane, map),
    {
        proof {
            assert(self.lane_wf(spot.lane.0 as int));
            lemma_mul_inequality(2, 2 + spot.idx as int, PARKING_SPOT_LENGTH as int);
        }
        let dist = self.get_spot(spot).dist_along_for_car(vehicle);
        Position::new(spot.lane, dist).equiv_pos(driving_lane, map)
    }

    /// Projects a stall's center onto a sidewalk, via the spatial index's
    /// equivalence mapping. Deterministic as well.
    pub fn spot_to_sidewalk_pos(&self, spot: ParkingSpot, sidewalk: LaneID, map: &SpatialIndex) -> (r:
        Position)
        requires
            self.wf(),
            self.spot_valid(spot),
            map.lane_in_bounds(sidewalk),
        ensures
            r == (Position {
                lane: spot.lane,
                dist_along: (self.lanes@[spot.lane.0 as int].spots@[spot.idx as int].dist_along
                    - PARKING_SPOT_LENGTH / 2) as u64,
            }).spec_equiv_pos(sidewalk, map),
    {
        proof {
            assert(self.lane_wf(spot.lane.0 as int));
            lemma_mul_inequality(2, 2 + spot.idx as int, PARKING_SPOT_LENGTH as int);
        }
        let dist = self.get_spot(spot).dist_along_for_ped();
        Position::new(spot.lane, dist).equiv_pos(sidewalk, map)
    }

    /// One stall's geometry.
    fn get_spot(&self, spot: ParkingSpot) -> (r: &ParkingSpotGeometry)
        requires
            self.wf(),
            self.spot_valid(spot),
        ensures
            r == self.lanes@[spot.lane.0 as int].spots@[spot.idx as int],
    {
        proof {
            assert(self.lane_wf(spot.lane.0 as int));
        }
        &self.lanes[spot.lane.0].spots[spot.idx]
    }

    /// The index of a stall's live reservation, if it has one.
    fn find_reservation(&self, spot: ParkingSpot) -> (r: Option<usize>)
        ensures
            match r {
                Some(i) => i < self.reserved_spots@.len() && self.reserved_spots@[i as int] == spot,
                None => !self.spec_reserved(spot),
            },
    {
        let n = self.reserved_spots.len();
        for i in 0..n
            invariant
                n == self.reserved_spots@.len(),
                forall|j: int| 0 <= j < i ==> self.reserved_spots@[j] != spot,
        {
            if self.reserved_spots[i] == spot {
                return Some(i);
            }
        }
        None
    }

    /// The index of the first parked-car record with this vehicle
    /// identity, if any.
    fn find_car(&self, id: CarID) -> (r: Option<usize>)
        ensures
            match r {
                Some(k) => k < self.cars@.len() && self.cars@[k as int].vehicle.id == id && forall|
                    j: int,
                | 0 <= j < k ==> self.cars@[j].vehicle.id != id,
                None => forall|j: int| 0 <= j < self.cars@.len() ==> self.cars@[j].vehicle.id != id,
            },
    {
        let n = self.cars.len();
        for k in 0..n
            invariant
                n == self.cars@.len(),
                forall|j: int| 0 <= j < k ==> self.cars@[j].vehicle.id != id,
        {
            if self.cars[k].vehicle.id == id {
                return Some(k);
            }
        }
        None
    }

    /// Whether a stall carries a live reservation.
    fn is_reserved(&self, spot: ParkingSpot) -> (r: bool)
        ensures
            r == self.spec_reserved(spot),
    {
        let n = self.reserved_spots.len();
        for i in 0..n
            invariant
                n == self.reserved_spots@.len(),
                forall|j: int| 0 <= j < i ==> self.reserved_spots@[j] != spot,
        {
            if self.reserved_spots[i] == spot {
                return true;
            }
        }
        false
    }
}

/// The renderable snapshots of the given parked-car records that sit in one
/// lane, in record order.
pub open spec fn spec_draw_list(
    s: &ParkingSimState,
    cars: Seq<ParkedCar>,
    lane: LaneID,
) -> Seq<DrawCarInput>
    decreases cars.len(),
{
    if cars.len() == 0 {
        Seq::empty()
    } else {
        let rest = spec_draw_list(s, cars.drop_last(), lane);
        if cars.last().spot.lane == lane {
            rest.push(s.spec_draw_of(cars.last()))
        } else {
            rest
        }
    }
}

/// A stall holding a committed car is not among its lane's free stalls, and
/// a new reservation of it is refused, as long as the car stays: only a
/// release makes the stall free again.
pub proof fn lemma_committed_spot_unavailable(s: &ParkingSimState, spot: ParkingSpot)
    requires
        s.wf(),
        s.spot_valid(spot),
        s.spec_occupant(spot) is Some,
    ensures
        !free_spots_in(s.lanes@[spot.lane.0 as int].occupants@, spot.lane).contains(spot),
        s.spec_reserve_outcome(spot) is Some,
{
    assert(s.lane_wf(spot.lane.0 as int));
    assert(s.lanes@[spot.lane.0 as int].occupants.len() <= usize::MAX);
    lemma_free_spots_membership(s.lanes@[spot.lane.0 as int].occupants@, spot.lane);
}

/// Two lane lists agree on everything but who occupies the slots: same
/// lanes, same stall geometry, same slot counts.
pub open spec fn same_lane_geometry(a: Seq<ParkingLane>, b: Seq<ParkingLane>) -> bool {
    &&& a.len() == b.len()
    &&& forall|l: int|
        0 <= l < a.len() ==> (#[trigger] a[l]).id == (#[trigger] b[l]).id && a[l].spots@
            == b[l].spots@ && a[l].occupants@.len() == b[l].occupants@.len()
}

/// If some record carries this identity, the lookup finds one.
proof fn lemma_lookup_car_found(cars: Seq<ParkedCar>, id: CarID)
    requires
        exists|k: int| 0 <= k < cars.len() && (#[trigger] cars[k]).vehicle.id == id,
    ensures
        spec_lookup_car(cars, id) is Some,
        spec_lookup_car(cars, id)->0.vehicle.id == id,
        cars.contains(spec_lookup_car(cars, id)->0),
    decreases cars.len(),
{
    if cars.first().vehicle.id == id {
        assert(cars.contains(cars.first()));
    } else {
        let k = choose|k: int| 0 <= k < cars.len() && (#[trigger] cars[k]).vehicle.id == id;
        assert(cars.drop_first()[k - 1].vehicle.id == id);
        lemma_lookup_car_found(cars.drop_first(), id);
        let q = spec_lookup_car(cars.drop_first(), id);
        let j = choose|j: int| 0 <= j < cars.drop_first().len() && cars.drop_first()[j] == q->0;
        assert(cars[j + 1] == q->0);
    }
}

/// If no record carries this identity, the lookup finds nothing.
proof fn lemma_lookup_car_not_found(cars: Seq<ParkedCar>, id: CarID)
    requires
        forall|k: int| 0 <= k < cars.len() ==> (#[trigger] cars[k]).vehicle.id != id,
    ensures
        spec_lookup_car(cars, id) is None,
    decreases cars.len(),
{
    if cars.len() > 0 {
        lemma_lookup_car_not_found(cars.drop_first(), id);
    }
}

/// When identities are unique up to index `k`, the first match at `k` is
/// what the lookup returns.
proof fn lemma_lookup_car_unique(cars: Seq<ParkedCar>, id: CarID, k: int)
    requires
        0 <= k < cars.len(),
        cars[k].vehicle.id == id,
        forall|j: int| 0 <= j < k ==> (#[trigger] cars[j]).vehicle.id != id,
    ensures
        spec_lookup_car(cars, id) == Some(cars[k]),
    decreases k,
{
    if k > 0 {
        lemma_lookup_car_unique(cars.drop_first(), id, k - 1);
    }
}

/// Removing the only record with an identity makes its lookup empty and
/// leaves every other identity's lookup unchanged.
proof fn lemma_lookup_car_remove(cars: Seq<ParkedCar>, k: int)
    requires
        0 <= k < cars.len(),
        forall|k1: int, k2: int|
            0 <= k1 < k2 < cars.len() ==> (#[trigger] cars[k1]).vehicle.id != (
            #[trigger] cars[k2]).vehicle.id,
    ensures
        spec_lookup_car(cars.remove(k), cars[k].vehicle.id) is None,
        forall|id2: CarID|
            id2 != cars[k].vehicle.id ==> #[trigger] spec_lookup_car(cars.remove(k), id2)
                == spec_lookup_car(cars, id2),
    decreases cars.len(),
{
    let id = cars[k].vehicle.id;
    assert(spec_lookup_car(cars.remove(k), id) is None) by {
        assert(forall|j: int|
            0 <= j < cars.remove(k).len() ==> (#[trigger] cars.remove(k)[j]).vehicle.id != id);
        lemma_lookup_car_not_found(cars.remove(k), id);
    }
    assert forall|id2: CarID| id2 != id implies #[trigger] spec_lookup_car(cars.remove(k), id2)
        == spec_lookup_car(cars, id2) by {
        lemma_lookup_car_skip_other(cars, k, id2);
    }
}

/// Removing a record with one identity does not change what a lookup of
/// another identity finds.
proof fn lemma_lookup_car_skip_other(cars: Seq<ParkedCar>, k: int, id2: CarID)
    requires
        0 <= k < cars.len(),
        cars[k].vehicle.id != id2,
    ensures
        spec_lookup_car(cars.remove(k), id2) == spec_lookup_car(cars, id2),
    decreases cars.len(),
{
    if k == 0 {
        assert(cars.remove(0) =~= cars.drop_first());
    } else {
        lemma_lookup_car_skip_other(cars.drop_first(), k - 1, id2);
        assert(cars.remove(k).drop_first() =~= cars.drop_first().remove(k - 1));
    }
}

/// Removing one element of a duplicate-free sequence: the rest keep their
/// relative order, stay duplicate-free, and membership loses exactly the
/// removed element.
proof fn lemma_remove_distinct<T>(s: Seq<T>, r: int)
    requires
        0 <= r < s.len(),
        forall|i: int, j: int| 0 <= i < j < s.len() ==> s[i] != s[j],
    ensures
        forall|i: int, j: int| 0 <= i < j < s.remove(r).len() ==> s.remove(r)[i] != s.remove(r)[j],
        forall|q: T| s.remove(r).contains(q) <==> (s.contains(q) && q != s[r]),
{
    let t = s.remove(r);
    assert forall|q: T| t.contains(q) implies (s.contains(q) && q != s[r]) by {
        let i = choose|i: int| 0 <= i < t.len() && t[i] == q;
        if i < r {
            assert(s[i] == q);
        } else {
            assert(s[i + 1] == q);
        }
    }
    assert forall|q: T| s.contains(q) && q != s[r] implies t.contains(q) by {
        let i = choose|i: int| 0 <= i < s.len() && s[i] == q;
        if i < r {
            assert(t[i] == q);
        } else {
            assert(i != r);
            assert(t[i - 1] == q);
        }
    }
}

/// Occupied and free slots are each at most the slot count.
proof fn lemma_count_occupied_le_len(occupants: Seq<Option<CarID>>)
    ensures
        count_occupied(occupants) <= occupants.len(),
    decreases occupants.len(),
{
    if occupants.len() > 0 {
        lemma_count_occupied_le_len(occupants.drop_last());
    }
}

proof fn lemma_count_free_le_len(occupants: Seq<Option<CarID>>)
    ensures
        count_free(occupants) <= occupants.len(),
    decreases occupants.len(),
{
    if occupants.len() > 0 {
        lemma_count_free_le_len(occupants.drop_last());
    }
}

/// Every stall of a lane is either occupied or free: the two counts always
/// partition the lane's stalls.
pub proof fn lemma_occupancy_partition(occupants: Seq<Option<CarID>>)
    ensures
        count_occupied(occupants) + count_free(occupants) == occupants.len(),
    decreases occupants.len(),
{
    if occupants.len() > 0 {
        lemma_occupancy_partition(occupants.drop_last());
    }
}

/// For every lane of a well-formed allocator, occupied stalls plus free
/// stalls equal the lane's total stalls.
pub proof fn lemma_spot_conservation(s: &ParkingSimState, lane: LaneID)
    requires
        s.wf(),
        lane.0 < s.lanes@.len(),
    ensures
        count_occupied(s.lanes@[lane.0 as int].occupants@) + count_free(
            s.lanes@[lane.0 as int].occupants@,
        ) == s.lanes@[lane.0 as int].spots@.len(),
{
    assert(s.lane_wf(lane.0 as int));
    lemma_occupancy_partition(s.lanes@[lane.0 as int].occupants@);
}

/// A stall is in a lane's free list exactly when its slot holds no
/// occupant.
pub proof fn lemma_free_spots_membership(occupants: Seq<Option<CarID>>, lane: LaneID)
    requires
        occupants.len() <= usize::MAX,
    ensures
        forall|s: ParkingSpot|
            #[trigger] free_spots_in(occupants, lane).contains(s) <==> (s.lane == lane && (
            s.idx as int) < occupants.len() && occupants[s.idx as int] is None),
    decreases occupants.len(),
{
    if occupants.len() > 0 {
        lemma_free_spots_membership(occupants.drop_last(), lane);
        let whole = free_spots_in(occupants, lane);
        let rest = free_spots_in(occupants.drop_last(), lane);
        let last_spot = ParkingSpot { lane, idx: (occupants.len() - 1) as usize };
        assert forall|s: ParkingSpot| #[trigger] whole.contains(s) implies (s.lane == lane && (
        s.idx as int) < occupants.len() && occupants[s.idx as int] is None) by {
            if occupants.last() is None {
                assert(whole == rest.push(last_spot));
                let w = choose|w: int| 0 <= w < whole.len() && whole[w] == s;
                if w < rest.len() {
                    assert(rest[w] == s);
                    assert(rest.contains(s));
                    assert(occupants.drop_last()[s.idx as int] is None);
                } else {
                    assert(s == last_spot);
                }
            } else {
                assert(whole == rest);
                assert(occupants.drop_last()[s.idx as int] is None);
            }
        }
        assert forall|s: ParkingSpot|
            (s.lane == lane && (s.idx as int) < occupants.len() && occupants[s.idx as int]
                is None) implies #[trigger] whole.contains(s) by {
            if s.idx as int == occupants.len() - 1 {
                assert(occupants.last() is None);
                assert(whole.last() == last_spot);
                assert(s == last_spot);
            } else {
                assert(occupants.drop_last()[s.idx as int] is None);
                assert(rest.contains(s));
                let w = choose|w: int| 0 <= w < rest.len() && rest[w] == s;
                if occupants.last() is None {
                    assert(whole[w] == s);
                } else {
                    assert(whole == rest);
                }
                assert(whole.contains(s));
            }
        }
    }
}

} // verus!
