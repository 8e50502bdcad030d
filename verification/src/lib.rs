//! A route/load-chaining optimizer for long-haul trucking dispatch.
//!
//! The library models freight "loads" (origin-to-destination hauls with a
//! payout) as a directed graph over geographic coordinates, and searches,
//! for a given start location, start time and deadline, for the chain of
//! loads that earns the most money while respecting the deadline.
//!
//! Coordinates are held as integer microdegrees so that every computation,
//! including the great-circle distance, is exact integer arithmetic that
//! the verifier can reason about. Times are seconds, distances are
//! thousandths of a mile, and money is whole currency units (with
//! thousandths of a unit for profit scores).

pub mod coord;
pub mod distance;
pub mod fixmath;
pub mod graph;
pub mod search;
