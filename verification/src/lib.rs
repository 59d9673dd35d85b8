//! Bookkeeping core of a microscopic traffic simulator.
//!
//! Two subsystems make up the core: a parking allocator, which tracks which
//! physical stall on every street lane is occupied and arbitrates claims on
//! opening stalls through a reserve/commit/release protocol, and a metrics
//! aggregator, which owns an append-only log of simulated events and derives
//! time-bucketed counts, duration distributions, trip timelines and bus
//! headways from it on demand.
//!
//! All simulated quantities are plain integers: times and durations count
//! simulation time units, distances count length units along a lane.
//! Geometry, rendering and input handling live outside this crate; the few
//! pieces of interface state that the simulation reads (widget ranges, input
//! flags, table sort options) are modeled here as plain values so that their
//! decision logic can be verified.

pub mod analytics;
pub mod buckets;
pub mod ctx;
pub mod picker;
pub mod trip_table;
pub mod tutorial;
pub mod widgets;
pub mod events;
pub mod histogram;
pub mod parking;
pub mod table;
pub mod spatial;
pub mod types;
