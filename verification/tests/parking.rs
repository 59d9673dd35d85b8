//! Tests for the parking allocator: the reserve/commit/release protocol,
//! occupancy bookkeeping, first-fit search, and snapshots.

use sim_core::parking::{
    ParkedCar, ParkingError, ParkingSimState, ParkingSpot, Vehicle, PARKING_SPOT_LENGTH,
};
use sim_core::spatial::{Lane, LaneType, Position, SpatialIndex};
use sim_core::types::{CarID, LaneID, RoadID, VehicleType};

fn three_stall_map() -> SpatialIndex {
    // A parking lane of five stall lengths offers three stalls: the two
    // stall lengths at the start of the lane stay clear.
    let lanes = vec![
        Lane { lane_type: LaneType::Parking, length: 5 * PARKING_SPOT_LENGTH, parent: RoadID(0) },
        Lane { lane_type: LaneType::Driving, length: 5 * PARKING_SPOT_LENGTH, parent: RoadID(0) },
        Lane { lane_type: LaneType::Sidewalk, length: 5 * PARKING_SPOT_LENGTH, parent: RoadID(0) },
    ];
    SpatialIndex::new(lanes, Vec::new())
}

fn car(n: usize) -> Vehicle {
    Vehicle { id: CarID { id: n, vehicle_type: VehicleType::Car }, length: 400 }
}

#[test]
fn new_state_has_three_free_stalls() {
    let map = three_stall_map();
    let sim = ParkingSimState::new(&map);
    assert_eq!(sim.total_spots(LaneID(0)), 3);
    assert_eq!(sim.total_spots(LaneID(1)), 0);
    assert_eq!(sim.total_spots(LaneID(2)), 0);
    let free = sim.get_free_spots(LaneID(0));
    assert_eq!(free.len(), 3);
    for (idx, spot) in free.iter().enumerate() {
        assert_eq!(spot.lane, LaneID(0));
        assert_eq!(spot.idx, idx);
    }
}

#[test]
fn occupied_plus_free_is_total_at_every_step() {
    // Occupancy bookkeeping: occupied + free == total after each mutation.
    let map = three_stall_map();
    let mut sim = ParkingSimState::new(&map);
    let lane = LaneID(0);
    let check = |sim: &ParkingSimState| {
        assert_eq!(
            sim.occupied_count(lane) + sim.free_count(lane),
            sim.total_spots(lane)
        );
    };
    check(&sim);
    let spot = ParkingSpot::new(lane, 1);
    sim.reserve_spot(spot).unwrap();
    check(&sim);
    let parked = ParkedCar { vehicle: car(1), spot };
    sim.add_parked_car(parked).unwrap();
    check(&sim);
    sim.remove_parked_car(parked).unwrap();
    check(&sim);
}

#[test]
fn committed_spot_unavailable_until_release() {
    // A committed stall never reappears among the free stalls and refuses
    // a new reservation, until a release clears it.
    let map = three_stall_map();
    let mut sim = ParkingSimState::new(&map);
    let spot = ParkingSpot::new(LaneID(0), 1);
    sim.reserve_spot(spot).unwrap();
    let parked = ParkedCar { vehicle: car(1), spot };
    sim.add_parked_car(parked).unwrap();

    let free = sim.get_free_spots(LaneID(0));
    assert!(!free.iter().any(|s| s.idx == 1));
    assert_eq!(sim.reserve_spot(spot), Err(ParkingError::SpotOccupied));
    assert!(!sim.is_free(spot));
    assert_eq!(
        sim.get_car_at_spot(spot),
        Some(CarID { id: 1, vehicle_type: VehicleType::Car })
    );

    sim.remove_parked_car(parked).unwrap();
    let free = sim.get_free_spots(LaneID(0));
    assert!(free.iter().any(|s| s.idx == 1));
    assert!(sim.is_free(spot));
    assert!(sim.reserve_spot(spot).is_ok());
}

#[test]
fn first_free_spot_is_never_behind_the_query() {
    // The returned stall's vehicle-specific front distance is at or beyond
    // the query position's distance along the lane.
    let map = three_stall_map();
    let sim = ParkingSimState::new(&map);
    let vehicle = car(1);
    // Stall fronts for this vehicle: 1400, 2200, 3000.
    for query in [0u64, 1400, 1401, 2200, 2201, 3000, 3001] {
        let pos = Position::new(LaneID(0), query);
        match sim.get_first_free_spot(pos, &vehicle) {
            Some(spot) => {
                let front = PARKING_SPOT_LENGTH * (2 + spot.idx as u64)
                    - (PARKING_SPOT_LENGTH - vehicle.length) / 2;
                assert!(front >= query);
            }
            None => {
                assert!(query > 3000);
            }
        }
    }
}

#[test]
fn free_spots_is_idempotent() {
    // Two consecutive queries with no intervening mutation agree.
    let map = three_stall_map();
    let mut sim = ParkingSimState::new(&map);
    let spot = ParkingSpot::new(LaneID(0), 0);
    sim.reserve_spot(spot).unwrap();
    sim.add_parked_car(ParkedCar { vehicle: car(1), spot }).unwrap();
    let first = sim.get_free_spots(LaneID(0));
    let second = sim.get_free_spots(LaneID(0));
    assert_eq!(first, second);
}

#[test]
fn vehicle_b_takes_stall_zero_after_a_commits_stall_one() {
    // Scenario: a three-stall lane; vehicle A reserves stall 1 and
    // commits; vehicle B queries from before stall 0 and gets stall 0.
    let map = three_stall_map();
    let mut sim = ParkingSimState::new(&map);
    let stall_one = ParkingSpot::new(LaneID(0), 1);
    sim.reserve_spot(stall_one).unwrap();
    sim.add_parked_car(ParkedCar { vehicle: car(1), spot: stall_one }).unwrap();

    let b = car(2);
    let found = sim.get_first_free_spot(Position::new(LaneID(0), 0), &b);
    assert_eq!(found, Some(ParkingSpot::new(LaneID(0), 0)));

    // With stall 0 also taken, B gets the first free stall past the
    // occupied one.
    let stall_zero = ParkingSpot::new(LaneID(0), 0);
    sim.reserve_spot(stall_zero).unwrap();
    sim.add_parked_car(ParkedCar { vehicle: car(3), spot: stall_zero }).unwrap();
    let found = sim.get_first_free_spot(Position::new(LaneID(0), 0), &b);
    assert_eq!(found, Some(ParkingSpot::new(LaneID(0), 2)));
}

#[test]
fn double_reservation_is_a_hard_failure() {
    // Reserving the same stall twice without an intervening
    // release/commit is refused, never silently overwritten.
    let map = three_stall_map();
    let mut sim = ParkingSimState::new(&map);
    let spot = ParkingSpot::new(LaneID(0), 2);
    assert!(sim.reserve_spot(spot).is_ok());
    assert_eq!(sim.reserve_spot(spot), Err(ParkingError::AlreadyReserved));
}

#[test]
fn commit_without_reservation_is_refused() {
    let map = three_stall_map();
    let mut sim = ParkingSimState::new(&map);
    let spot = ParkingSpot::new(LaneID(0), 0);
    let parked = ParkedCar { vehicle: car(1), spot };
    assert_eq!(sim.add_parked_car(parked), Err(ParkingError::SpotNotReserved));
}

#[test]
fn commit_of_already_parked_vehicle_is_refused() {
    let map = three_stall_map();
    let mut sim = ParkingSimState::new(&map);
    let spot0 = ParkingSpot::new(LaneID(0), 0);
    let spot1 = ParkingSpot::new(LaneID(0), 1);
    sim.reserve_spot(spot0).unwrap();
    sim.reserve_spot(spot1).unwrap();
    sim.add_parked_car(ParkedCar { vehicle: car(1), spot: spot0 }).unwrap();
    assert_eq!(
        sim.add_parked_car(ParkedCar { vehicle: car(1), spot: spot1 }),
        Err(ParkingError::CarAlreadyParked)
    );
}

#[test]
fn release_of_unparked_vehicle_is_refused() {
    let map = three_stall_map();
    let mut sim = ParkingSimState::new(&map);
    let spot = ParkingSpot::new(LaneID(0), 0);
    assert_eq!(
        sim.remove_parked_car(ParkedCar { vehicle: car(1), spot }),
        Err(ParkingError::CarNotParked)
    );
}

#[test]
fn reservation_out_of_bounds_is_refused() {
    let map = three_stall_map();
    let mut sim = ParkingSimState::new(&map);
    assert_eq!(
        sim.reserve_spot(ParkingSpot::new(LaneID(0), 3)),
        Err(ParkingError::SpotOutOfBounds)
    );
    assert_eq!(
        sim.reserve_spot(ParkingSpot::new(LaneID(9), 0)),
        Err(ParkingError::SpotOutOfBounds)
    );
}

#[test]
fn abandoned_reservation_frees_the_stall() {
    // Reserved -> Free by never committing: only the reservation set is
    // involved, and a later reservation succeeds after a commit+release
    // cycle elsewhere.
    let map = three_stall_map();
    let mut sim = ParkingSimState::new(&map);
    let spot = ParkingSpot::new(LaneID(0), 0);
    sim.reserve_spot(spot).unwrap();
    // The stall is not free while reserved.
    assert!(!sim.is_free(spot));
    // It still shows in the unoccupied list: reservations do not occupy.
    assert_eq!(sim.get_free_spots(LaneID(0)).len(), 3);
}

#[test]
fn draw_records_carry_identity_and_footprint() {
    let map = three_stall_map();
    let mut sim = ParkingSimState::new(&map);
    let spot = ParkingSpot::new(LaneID(0), 0);
    sim.reserve_spot(spot).unwrap();
    let vehicle = car(1);
    sim.add_parked_car(ParkedCar { vehicle, spot }).unwrap();

    let records = sim.get_draw_cars(LaneID(0));
    assert_eq!(records.len(), 1);
    let rec = &records[0];
    assert_eq!(rec.id, vehicle.id);
    assert_eq!(rec.lane, LaneID(0));
    // Stall front at 1600; a 400-long car centered in an 800 stall parks
    // with its front at 1400 and its back at 1000.
    assert_eq!(rec.front, 1400);
    assert_eq!(rec.back, 1000);

    let one = sim.get_draw_car(vehicle.id).unwrap();
    assert_eq!(one, *rec);
    assert!(sim
        .get_draw_car(CarID { id: 99, vehicle_type: VehicleType::Car })
        .is_none());
    assert_eq!(sim.get_all_draw_cars().len(), 1);
}

#[test]
fn spot_projections_are_deterministic() {
    let map = three_stall_map();
    let mut sim = ParkingSimState::new(&map);
    let spot = ParkingSpot::new(LaneID(0), 0);
    sim.reserve_spot(spot).unwrap();
    let vehicle = car(1);
    sim.add_parked_car(ParkedCar { vehicle, spot }).unwrap();

    let a = sim.spot_to_driving_pos(spot, &vehicle, LaneID(1), &map);
    let b = sim.spot_to_driving_pos(spot, &vehicle, LaneID(1), &map);
    assert_eq!(a, b);
    assert_eq!(a.lane(), LaneID(1));
    assert_eq!(a.dist_along(), 1400);

    let s = sim.spot_to_sidewalk_pos(spot, LaneID(2), &map);
    assert_eq!(s.lane(), LaneID(2));
    // The pedestrian position is the stall's center: 1600 - 400.
    assert_eq!(s.dist_along(), 1200);
}

#[test]
fn projection_clamps_to_short_target_lane() {
    let lanes = vec![
        Lane { lane_type: LaneType::Parking, length: 5 * PARKING_SPOT_LENGTH, parent: RoadID(0) },
        Lane { lane_type: LaneType::Driving, length: 1000, parent: RoadID(0) },
    ];
    let map = SpatialIndex::new(lanes, Vec::new());
    let sim = ParkingSimState::new(&map);
    let vehicle = car(1);
    let pos = sim.spot_to_driving_pos(ParkingSpot::new(LaneID(0), 2), &vehicle, LaneID(1), &map);
    // The stall front (3000) lies past the 1000-long driving lane, so the
    // equivalence mapping clamps it.
    assert_eq!(pos.dist_along(), 1000);
}
